use ghcitty::error::Error;

#[test]
fn error_messages_name_their_kind() {
    assert_eq!(Error::Ghc("ghci not found".into()).message(), "ghci: ghci not found");
    assert_eq!(
        Error::Session("no latest session".into()).message(),
        "session: no latest session"
    );
    let io = Error::from(std::io::Error::new(std::io::ErrorKind::Other, "disk full"));
    assert_eq!(io.message(), "io: disk full");
}
