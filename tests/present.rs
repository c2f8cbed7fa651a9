use timetrack::present::prefix_lines;

#[test]
fn format_long() {
    assert_eq!("\t", prefix_lines("", "\t"));
    assert_eq!("\t\n\t\n\t\n\t", prefix_lines("\n\n\n", "\t"));
    assert_eq!("\tfoo", prefix_lines("foo", "\t"));
    assert_eq!("\tfoo\n\tbar", prefix_lines("foo\nbar", "\t"));
    assert_eq!("\tfoo\n\tbar\n\t", prefix_lines("foo\nbar\n", "\t"));
}

#[test]
fn prefix_lines_with_longer_prefix() {
    assert_eq!("\r\ta\n\r\t\n\r\tb", prefix_lines("a\n\nb", "\r\t"));
}
