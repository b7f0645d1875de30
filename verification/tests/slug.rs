use optirust::types::to_slug;

#[test]
fn test_slug() {
    assert_eq!(to_slug("FOO BAR"), "FOOBAR");
    assert_eq!(to_slug("FOO-BAR"), "FOOBAR");
    assert_eq!(to_slug("FOO : BAR"), "FOOBAR");
}
