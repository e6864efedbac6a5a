use thermal_printer::markdown::{parse_markdown, MarkdownNode};

fn parsed(text: &str) -> String {
    format!("{:?}", parse_markdown(text).expect("text should parse"))
}

#[test]
fn bold_and_text() {
    assert_eq!(parsed("**bold** text"), r#"[Bold([Text("bold")]), Text(" text")]"#);
}

#[test]
fn mentions() {
    assert_eq!(
        parsed("<@1> hi <@&2><#3>"),
        r#"[User("1"), Text(" hi "), Role("2"), Channel("3")]"#
    );
}

#[test]
fn custom_emoji_file_names() {
    assert_eq!(
        parsed("<a:foo:42><:bar:7>"),
        r#"[CustomEmoji("foo", "42.gif"), CustomEmoji("bar", "7.png")]"#
    );
}

#[test]
fn code_blocks_and_newlines() {
    assert_eq!(
        parsed("```a\nb```\n`c`"),
        r#"[MultilineCode("a\nb"), Newline, InlineCode("c")]"#
    );
}

#[test]
fn nested_styles() {
    assert_eq!(
        parsed("> _x_ ||y|| ~~z~~ __w__"),
        r#"[Blockquote([Italics([Text("x")]), Text(" "), Spoiler([Text("y")]), Text(" "), Strikethrough([Text("z")]), Text(" "), Underline([Text("w")])])]"#
    );
}

#[test]
fn link() {
    assert_eq!(
        parsed("see https://example.com/a.png"),
        r#"[Text("see "), Hyperlink("https://example.com/a.png", "https://example.com/a.png")]"#
    );
}

#[test]
fn escape_before_non_ascii_parses() {
    assert_eq!(parsed("\\*hé"), r#"[Text("*"), Text("hé")]"#);
}

#[test]
fn escape_followed_by_plain_text_after_non_ascii_parses() {
    // The parser takes the escaped character by a byte offset, so here it
    // takes the `b`.
    assert_eq!(parsed("é\\ab"), r#"[Text("é"), Text("b")]"#);
}

#[test]
fn escape_after_non_ascii_is_declined() {
    assert!(parse_markdown("héllo \\*").is_none());
}

#[test]
fn trailing_backslash_after_non_ascii_parses() {
    assert!(parse_markdown("héllo \\").is_some());
}

#[test]
fn plain_node_is_text() {
    let nodes = parse_markdown("plain").unwrap();
    assert!(matches!(&nodes[..], [MarkdownNode::Text(t)] if t == "plain"));
}

#[test]
fn shrug_is_kept_as_text() {
    assert_eq!(parsed("¯\\_(ツ)_/¯"), r#"[Text("¯\\_(ツ)_/¯")]"#);
}

#[test]
fn escape_on_a_new_line_after_non_ascii_parses() {
    assert_eq!(parsed("é\n\\*"), r#"[Text("é"), Newline, Text("*")]"#);
}
