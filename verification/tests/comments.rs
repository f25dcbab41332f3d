use pdf_extractor::comments::strip_pdf_comments;

#[test]
fn test_strip_pdf_comments() {
    // Basic comment stripping
    let input = b"BT\n% comment\nTj\nET\n";
    let output = strip_pdf_comments(input);
    assert_eq!(output, b"BT\n \nTj\nET\n");

    // No comments = unchanged
    let input = b"BT\nTj\nET\n";
    let output = strip_pdf_comments(input);
    assert_eq!(output, input.to_vec());

    // Don't strip inside string literals
    let input = b"(text with % not a comment)\n% real comment\n";
    let output = strip_pdf_comments(input);
    assert_eq!(output, b"(text with % not a comment)\n \n");

    // Don't strip inside hex strings
    let input = b"<0033% not a comment>\n% real comment\n";
    let output = strip_pdf_comments(input);
    assert_eq!(output, b"<0033% not a comment>\n \n");

    // PD4ML style: comment between Tj and ET
    let input = b"<0033> Tj\n\t% Mission Statement\n\tET\n";
    let output = strip_pdf_comments(input);
    let output_str = String::from_utf8_lossy(&output);
    assert!(
        output_str.contains("ET"),
        "ET should be preserved after comment stripping"
    );
}

#[test]
fn comments_end_at_either_line_end_or_at_the_end() {
    assert_eq!(strip_pdf_comments(b"q %one\rQ %two\nn %three"), b"q  \rQ  \nn  ");
    assert_eq!(strip_pdf_comments(b"%"), b" ");
    assert_eq!(strip_pdf_comments(b""), b"");
}

#[test]
fn brackets_nest_and_stray_ones_are_kept() {
    assert_eq!(strip_pdf_comments(b"(a(%b)%c)%d"), b"(a(%b)%c) ");
    assert_eq!(strip_pdf_comments(b")%x\n>%y"), b") \n> ");
    // Parentheses do not count in hex strings, nor angle brackets in literals.
    assert_eq!(strip_pdf_comments(b"<(>%z"), b"<(> ");
    assert_eq!(strip_pdf_comments(b"(<)%z"), b"(<) ");
}

#[test]
fn stripping_twice_changes_nothing_and_never_lengthens() {
    let inputs: [&[u8]; 4] = [b"a%b\n%c\r(d%e)%", b"<%>(%(%))%%%", b"%\n%\n%", b"no comment"];
    for input in inputs {
        let once = strip_pdf_comments(input);
        assert!(once.len() <= input.len());
        assert_eq!(strip_pdf_comments(&once), once);
    }
}

#[test]
fn escaped_parentheses_close_nothing() {
    let unchanged: [&[u8]; 4] =
        [b"(a\\)%b) Tj\n", b"(\\(%)", b"(a\\\\\\)%b)", b"((\\))%)"];
    for input in unchanged {
        assert_eq!(strip_pdf_comments(input), input.to_vec());
    }
    // A backslash that is escaped itself escapes nothing, nor does one outside strings.
    assert_eq!(strip_pdf_comments(b"(a\\\\)%b"), b"(a\\\\) ");
    assert_eq!(strip_pdf_comments(b"\\%b\n"), b"\\ \n");
    assert_eq!(strip_pdf_comments(b"\\(%b"), b"\\(%b");
    assert_eq!(strip_pdf_comments(b"<\\>%b"), b"<\\> ");
}
