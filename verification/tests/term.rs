use mknight::term::paint;

#[test]
fn paints_only_when_on() {
    assert_eq!(paint(false, "31", "error"), "error");
    assert_eq!(paint(true, "31", "error"), "\x1b[31merror\x1b[0m");
    assert_eq!(paint(true, "1;32", ""), "\x1b[1;32m\x1b[0m");
}
