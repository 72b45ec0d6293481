use ghcitty::dbg_input::{dbg_key, shortcut_for, DbgInput, DbgKey, DbgLine, DbgOutput};

#[test]
fn shortcut_table() {
    assert_eq!(shortcut_for('s'), Some(":step"));
    assert_eq!(shortcut_for('n'), Some(":steplocal"));
    assert_eq!(shortcut_for('c'), Some(":continue"));
    assert_eq!(shortcut_for('q'), Some(":abandon"));
    assert_eq!(shortcut_for('p'), None);
    assert_eq!(shortcut_for('x'), None);
    assert_eq!(shortcut_for(':'), None);
}

#[test]
fn dbg_enter_alone_steps() {
    let mut line = DbgLine::new();
    assert_eq!(
        dbg_key(&mut line, DbgKey::Enter),
        DbgOutput::Done(None, DbgInput::Command(":step".to_string()))
    );
}

#[test]
fn dbg_shortcut_fires_with_echo() {
    let mut line = DbgLine::new();
    assert_eq!(
        dbg_key(&mut line, DbgKey::Char('b')),
        DbgOutput::Done(Some('b'), DbgInput::Command(":back".to_string()))
    );
}

#[test]
fn dbg_typed_command_with_backspace() {
    let mut line = DbgLine::new();
    assert_eq!(dbg_key(&mut line, DbgKey::Char(':')), DbgOutput::Echo(':'));
    for c in "prinx".chars() {
        assert_eq!(dbg_key(&mut line, DbgKey::Char(c)), DbgOutput::Echo(c));
    }
    assert_eq!(dbg_key(&mut line, DbgKey::Backspace), DbgOutput::Erase);
    for c in "t xs".chars() {
        assert_eq!(dbg_key(&mut line, DbgKey::Char(c)), DbgOutput::Echo(c));
    }
    // Inside a typed command the shortcut letters are plain characters.
    assert_eq!(
        dbg_key(&mut line, DbgKey::Enter),
        DbgOutput::Done(None, DbgInput::Command(":print xs".to_string()))
    );
}

#[test]
fn dbg_control_keys() {
    let mut line = DbgLine::new();
    assert_eq!(dbg_key(&mut line, DbgKey::Ctrl('x')), DbgOutput::Wait);
    assert_eq!(dbg_key(&mut line, DbgKey::Other), DbgOutput::Wait);
    assert_eq!(dbg_key(&mut line, DbgKey::Backspace), DbgOutput::Wait);
    assert_eq!(dbg_key(&mut line, DbgKey::Char('z')), DbgOutput::Echo('z'));
    assert_eq!(
        dbg_key(&mut line, DbgKey::Ctrl('c')),
        DbgOutput::Done(None, DbgInput::Cancel)
    );
    let mut fresh = DbgLine::new();
    assert_eq!(
        dbg_key(&mut fresh, DbgKey::Ctrl('d')),
        DbgOutput::Done(None, DbgInput::Quit)
    );
}
