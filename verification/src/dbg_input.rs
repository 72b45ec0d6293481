//! The `(dbg)` prompt at a breakpoint: shortcut keys (`s`/`n`/`c`/`b`/`q`/
//! `l`/`h`) fire on press, Enter alone steps, and any other key starts a small
//! line editor. The terminal is read by the program around the library, which
//! hands each key to [`dbg_key`] and does what it answers.
use vstd::prelude::*;

use crate::text::{push_char, string_of};

verus! {

/// Outcome of one read at the `(dbg)` prompt.
#[derive(Debug, Clone, PartialEq, Eq)]
pub enum DbgInput {
    Command(String),
    Cancel,
    Quit,
}

/// The GHCi command of each shortcut key.
pub open spec fn shortcut(c: char) -> Option<Seq<char>> {
    if c == 's' {
        Some(":step"@)
    } else if c == 'n' {
        Some(":steplocal"@)
    } else if c == 'c' {
        Some(":continue"@)
    } else if c == 'b' {
        Some(":back"@)
    } else if c == 'q' {
        Some(":abandon"@)
    } else if c == 'l' {
        Some(":list"@)
    } else if c == 'h' {
        Some(":history"@)
    } else {
        None
    }
}

pub open spec fn opt_str_view(o: Option<&str>) -> Option<Seq<char>> {
    match o {
        Some(s) => Some(s@),
        None => None,
    }
}

/// Maps a keypress to its GHCi command, or `None` if it is not a shortcut.
pub fn shortcut_for(c: char) -> (r: Option<&'static str>)
    ensures
        opt_str_view(r) == shortcut(c),
{
    match c {
        's' => Some(":step"),
        'n' => Some(":steplocal"),
        'c' => Some(":continue"),
        'b' => Some(":back"),
        'q' => Some(":abandon"),
        'l' => Some(":list"),
        'h' => Some(":history"),
        _ => None,
    }
}

/// A key as the prompt tells keys apart. A key pressed with Control is
/// `Ctrl` with its character; key releases and the keys that the prompt does
/// not use are `Other`.
#[derive(Debug, Clone, Copy, PartialEq, Eq)]
pub enum DbgKey {
    Enter,
    Backspace,
    Char(char),
    Ctrl(char),
    Other,
}

/// What the prompt has read so far: nothing yet, or the start of a typed
/// command.
#[derive(Debug, Clone)]
pub struct DbgLine {
    pub typing: bool,
    pub buffer: Vec<char>,
}

/// What to do after a key.
#[derive(Debug, Clone, PartialEq, Eq)]
pub enum DbgOutput {
    /// Show nothing; read the next key.
    Wait,
    /// Show this character; read the next key.
    Echo(char),
    /// Erase the last character shown; read the next key.
    Erase,
    /// Show the character, if there is one, end the line: the read is over.
    Done(Option<char>, DbgInput),
}

impl View for DbgLine {
    type V = (bool, Seq<char>);

    open spec fn view(&self) -> (bool, Seq<char>) {
        (self.typing, self.buffer@)
    }
}

impl DbgLine {
    /// The prompt before the first key.
    pub fn new() -> (r: DbgLine)
        ensures
            !r.typing,
            r.buffer@ == Seq::<char>::empty(),
    {
        DbgLine { typing: false, buffer: Vec::new() }
    }
}

/// What the prompt holds after a key.
pub open spec fn dbg_after(st: (bool, Seq<char>), key: DbgKey) -> (bool, Seq<char>) {
    match key {
        DbgKey::Char(c) => if st.0 {
            (true, st.1.push(c))
        } else if shortcut(c) is Some {
            st
        } else {
            (true, seq![c])
        },
        DbgKey::Backspace => if st.0 && st.1.len() > 0 {
            (true, st.1.drop_last())
        } else {
            st
        },
        _ => st,
    }
}

/// What the prompt holds after the characters of `cs` were typed.
pub open spec fn after_typing(st: (bool, Seq<char>), cs: Seq<char>) -> (bool, Seq<char>)
    decreases cs.len(),
{
    if cs.len() == 0 {
        st
    } else {
        dbg_after(after_typing(st, cs.drop_last()), DbgKey::Char(cs.last()))
    }
}

proof fn lemma_typing_more(cs: Seq<char>)
    requires
        cs.len() > 0,
        shortcut(cs[0]) is None,
    ensures
        after_typing((false, seq![]), cs) == (true, cs),
    decreases cs.len(),
{
    let init = cs.drop_last();
    if cs.len() == 1 {
        assert(init =~= Seq::<char>::empty());
        assert(after_typing((false, seq![]), init) == (false, Seq::<char>::empty()));
        assert(cs.last() == cs[0]);
        assert(dbg_after((false, seq![]), DbgKey::Char(cs[0])) == (true, seq![cs[0]]));
        assert(seq![cs[0]] =~= cs);
    } else {
        lemma_typing_more(init);
        assert(init.push(cs.last()) =~= cs);
    }
}

/// Typed text is kept as typed: from a fresh prompt, typing characters
/// (the first not a shortcut) leaves exactly them in the line, which Enter
/// then sends.
pub proof fn law_typed_line_kept(cs: Seq<char>)
    requires
        cs.len() > 0,
        shortcut(cs[0]) is None,
    ensures
        after_typing((false, seq![]), cs) == (true, cs),
{
    lemma_typing_more(cs);
}

/// Backspace takes back the character just typed.
pub proof fn law_backspace_undoes(st: (bool, Seq<char>), c: char)
    requires
        st.0,
    ensures
        dbg_after(dbg_after(st, DbgKey::Char(c)), DbgKey::Backspace) == st,
{
    assert(st.1.push(c).drop_last() =~= st.1);
}

/// Takes one key at the `(dbg)` prompt. Control-C cancels and Control-D quits
/// whatever was typed. Before anything is typed, Enter steps and a shortcut
/// key fires its command, echoed; any other character starts a typed command.
/// While typing, Enter sends what was typed and Backspace erases one
/// character.
pub fn dbg_key(line: &mut DbgLine, key: DbgKey) -> (out: DbgOutput)
    ensures
        final(line)@ == dbg_after(old(line)@, key),
        match key {
            DbgKey::Ctrl(c) => final(line)@ == old(line)@ && (if c == 'c' {
                out == DbgOutput::Done(None, DbgInput::Cancel)
            } else if c == 'd' {
                out == DbgOutput::Done(None, DbgInput::Quit)
            } else {
                out == DbgOutput::Wait
            }),
            DbgKey::Other => final(line)@ == old(line)@ && out == DbgOutput::Wait,
            DbgKey::Enter => final(line)@ == old(line)@ && (out matches DbgOutput::Done(
                None,
                DbgInput::Command(s),
            ) && s@ == (if old(line).typing {
                old(line).buffer@
            } else {
                ":step"@
            })),
            DbgKey::Backspace => if old(line).typing && old(line).buffer@.len() > 0 {
                final(line).typing && final(line).buffer@ == old(line).buffer@.drop_last() && out
                    == DbgOutput::Erase
            } else {
                final(line)@ == old(line)@ && out == DbgOutput::Wait
            },
            DbgKey::Char(c) => if old(line).typing {
                final(line).typing && final(line).buffer@ == old(line).buffer@.push(c) && out
                    == DbgOutput::Echo(c)
            } else {
                match shortcut(c) {
                    Some(cmd) => final(line)@ == old(line)@ && (out matches DbgOutput::Done(
                        Some(e),
                        DbgInput::Command(s),
                    ) && e == c && s@ == cmd),
                    None => final(line).typing && final(line).buffer@ == seq![c] && out
                        == DbgOutput::Echo(c),
                }
            },
        },
{
    match key {
        DbgKey::Ctrl(c) => {
            if c == 'c' {
                DbgOutput::Done(None, DbgInput::Cancel)
            } else if c == 'd' {
                DbgOutput::Done(None, DbgInput::Quit)
            } else {
                DbgOutput::Wait
            }
        },
        DbgKey::Other => DbgOutput::Wait,
        DbgKey::Enter => {
            if line.typing {
                DbgOutput::Done(None, DbgInput::Command(string_of(&line.buffer)))
            } else {
                DbgOutput::Done(None, DbgInput::Command(":step".to_string()))
            }
        },
        DbgKey::Backspace => {
            if line.typing && line.buffer.len() > 0 {
                line.buffer.pop();
                DbgOutput::Erase
            } else {
                DbgOutput::Wait
            }
        },
        DbgKey::Char(c) => {
            if line.typing {
                line.buffer.push(c);
                DbgOutput::Echo(c)
            } else {
                match shortcut_for(c) {
                    Some(cmd) => DbgOutput::Done(Some(c), DbgInput::Command(cmd.to_string())),
                    None => {
                        line.typing = true;
                        line.buffer = Vec::new();
                        line.buffer.push(c);
                        assert(line.buffer@ =~= seq![c]);
                        DbgOutput::Echo(c)
                    },
                }
            }
        },
    }
}

} // verus!
