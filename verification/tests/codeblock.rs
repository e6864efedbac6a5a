use thermal_printer::codeblock::{code_block_fits, code_block_text, CHARS_PER_LINE};

fn frame_line() -> String {
    " ".repeat(48)
}

#[test]
fn chars_per_line_is_48() {
    assert_eq!(CHARS_PER_LINE, 48);
}

#[test]
fn short_line_is_framed() {
    let expected = format!("\n{}\n  abc  {}\n{}\n", frame_line(), " ".repeat(41), frame_line());
    assert!(code_block_fits("abc"));
    assert_eq!(code_block_text("abc"), expected);
}

#[test]
fn short_line_printed_as_is_for_44_chars() {
    let line = "x".repeat(44);
    let expected = format!("\n{}\n  {}  \n{}\n", frame_line(), line, frame_line());
    assert!(code_block_fits(&line));
    assert_eq!(code_block_text(&line), expected);
}

#[test]
fn two_lines_share_the_running_column() {
    let expected = format!("\n{}\n  ab  \n  cd  {}\n{}\n", frame_line(), " ".repeat(40), frame_line());
    assert_eq!(code_block_text("ab\ncd"), expected);
}

#[test]
fn long_line_is_broken_at_44() {
    let line = "a".repeat(46);
    let expected = format!(
        "\n{}\n  {}  \n  aa  {}\n{}\n",
        frame_line(),
        "a".repeat(44),
        " ".repeat(42),
        frame_line()
    );
    assert_eq!(code_block_text(&line), expected);
}

#[test]
fn non_ascii_line_breaks_by_byte_length() {
    // 45 two-byte characters: the line is broken after the 44th character
    // because fewer characters than bytes have been printed.
    let line = "é".repeat(45);
    let expected = format!(
        "\n{}\n  {}  \n  é  {}\n{}\n",
        frame_line(),
        "é".repeat(44),
        " ".repeat(43),
        frame_line()
    );
    assert_eq!(code_block_text(&line), expected);
}

#[test]
fn empty_code_block() {
    let expected = format!("\n{}\n    {}\n{}\n", frame_line(), " ".repeat(44), frame_line());
    assert_eq!(code_block_text(""), expected);
}

#[test]
fn column_past_the_width_does_not_fit() {
    // A full line leaves the column at 44; one more character on the next
    // line takes it to 45, and the closing padding would be negative.
    let code = format!("{}\nb", "a".repeat(44));
    assert!(!code_block_fits(&code));
}

#[test]
fn column_past_a_byte_does_not_fit() {
    // Single-character lines never break, so the column keeps growing.
    let code = vec!["x"; 300].join("\n");
    assert!(!code_block_fits(&code));
}
