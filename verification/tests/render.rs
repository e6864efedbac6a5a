use thermal_printer::instruction::{PrinterInstruction, UnderlineMode};
use thermal_printer::markdown::{parse_markdown, MarkdownNode};
use thermal_printer::render::{
    content_type_is_image, link_is_image, markdown_printable, member_display_name,
    mention_requests, render_markdown, render_message, should_print, Attachment, ChannelOrigin,
    MentionKind, MentionLookup,
};

fn text(s: &str) -> PrinterInstruction {
    PrinterInstruction::Text(s.to_string())
}

fn highlighted(s: &str) -> Vec<PrinterInstruction> {
    vec![PrinterInstruction::Reverse(true), text(s), PrinterInstruction::Reverse(false)]
}

fn render(nodes: Vec<MarkdownNode>, lookups: Vec<MentionLookup>) -> Vec<PrinterInstruction> {
    render_markdown(&nodes, &lookups)
}

#[test]
fn mentions_use_their_lookups_in_order() {
    let nodes = parse_markdown("<@1> hi <@&2><#3>").unwrap();
    let lookups = vec![
        MentionLookup::Found("alice".to_string()),
        MentionLookup::NotFound,
        MentionLookup::Found("general".to_string()),
    ];
    let mut expected = highlighted("@alice");
    expected.push(text(" hi "));
    expected.extend(highlighted("@Unknown Role"));
    expected.extend(highlighted("#general"));
    assert_eq!(render_markdown(&nodes, &lookups), expected);
}

#[test]
fn unknown_user_and_channel() {
    let out = render(
        vec![MarkdownNode::User("1".to_string()), MarkdownNode::Channel("2".to_string())],
        vec![MentionLookup::NotFound, MentionLookup::NotFound],
    );
    let mut expected = highlighted("@Unknown User");
    expected.extend(highlighted("#Unknown Channel"));
    assert_eq!(out, expected);
}

#[test]
fn mention_requests_skip_spoilers() {
    let nodes = vec![
        MarkdownNode::Bold(vec![MarkdownNode::User("1".to_string())]),
        MarkdownNode::Spoiler(vec![MarkdownNode::User("2".to_string())]),
        MarkdownNode::Channel("3".to_string()),
    ];
    let requests = mention_requests(&nodes);
    assert_eq!(requests.len(), 2);
    assert_eq!(requests[0].kind, MentionKind::User);
    assert_eq!(requests[0].id, "1");
    assert_eq!(requests[1].kind, MentionKind::Channel);
    assert_eq!(requests[1].id, "3");
}

#[test]
fn image_links_are_images() {
    let out = render(
        vec![MarkdownNode::Hyperlink("https://x.org/cat.jpeg".to_string(), "https://x.org/cat.jpeg".to_string())],
        vec![],
    );
    assert_eq!(out, vec![PrinterInstruction::Image("https://x.org/cat.jpeg".to_string())]);
}

#[test]
fn other_links_are_underlined() {
    let out = render(
        vec![MarkdownNode::Hyperlink("https://x.org/".to_string(), "https://x.org/".to_string())],
        vec![],
    );
    assert_eq!(
        out,
        vec![
            PrinterInstruction::Underline(UnderlineMode::Single),
            text("https://x.org/"),
            PrinterInstruction::Underline(UnderlineMode::Off),
        ]
    );
}

#[test]
fn link_and_content_type_checks() {
    assert!(link_is_image("a.gif"));
    assert!(link_is_image("https://x/y.webp?z=1"));
    assert!(!link_is_image("https://x/png"));
    assert!(!link_is_image("a.PNG"));
    assert!(content_type_is_image("image/png"));
    assert!(!content_type_is_image("text/plain"));
}

#[test]
fn custom_emoji_is_downloaded() {
    let out = render(
        vec![MarkdownNode::CustomEmoji("foo".to_string(), "42.gif".to_string())],
        vec![],
    );
    assert_eq!(
        out,
        vec![PrinterInstruction::Image("https://cdn.discordapp.com/emojis/42.gif?size=64".to_string())]
    );
}

#[test]
fn styles_wrap_their_content() {
    let out = render(
        vec![
            MarkdownNode::Bold(vec![MarkdownNode::Text("b".to_string())]),
            MarkdownNode::Italics(vec![MarkdownNode::Text("i".to_string())]),
            MarkdownNode::Strikethrough(vec![MarkdownNode::Text("s".to_string())]),
            MarkdownNode::Underline(vec![MarkdownNode::Text("u".to_string())]),
            MarkdownNode::Blockquote(vec![MarkdownNode::Text("q".to_string())]),
            MarkdownNode::Newline,
        ],
        vec![],
    );
    assert_eq!(
        out,
        vec![
            PrinterInstruction::Bold(true),
            text("b"),
            PrinterInstruction::Bold(false),
            PrinterInstruction::Italic(true),
            text("i"),
            PrinterInstruction::Italic(false),
            PrinterInstruction::Strike(true),
            text("s"),
            PrinterInstruction::Strike(false),
            PrinterInstruction::Underline(UnderlineMode::Single),
            text("u"),
            PrinterInstruction::Underline(UnderlineMode::Off),
            text("\""),
            text("q"),
            text("\"\n"),
            text("\n"),
        ]
    );
}

#[test]
fn spoiler_hides_its_content() {
    let out = render(
        vec![MarkdownNode::Spoiler(vec![MarkdownNode::Text("secret".to_string())])],
        vec![],
    );
    assert_eq!(out, highlighted(" SPOILER "));
}

#[test]
fn code_is_highlighted() {
    let out = render(vec![MarkdownNode::InlineCode("x = 1".to_string())], vec![]);
    assert_eq!(out, highlighted("x = 1"));
    let out = render(vec![MarkdownNode::MultilineCode("ab".to_string())], vec![]);
    let frame = " ".repeat(48);
    let block = format!("\n{}\n  ab  {}\n{}\n", frame, " ".repeat(42), frame);
    assert_eq!(out, highlighted(&block));
}

#[test]
fn unfittable_code_is_not_printable() {
    let code = format!("{}\nb", "a".repeat(44));
    let nodes = vec![MarkdownNode::Bold(vec![MarkdownNode::MultilineCode(code.clone())])];
    assert!(!markdown_printable(&nodes));
    let hidden = vec![MarkdownNode::Spoiler(vec![MarkdownNode::MultilineCode(code)])];
    assert!(markdown_printable(&hidden));
}

#[test]
fn rendering_closes_styles() {
    let nodes = parse_markdown("**a _b ~~c <@1>~~_** __d__ ||e||").unwrap();
    let lookups = vec![MentionLookup::Found("x".to_string())];
    let out = render_markdown(&nodes, &lookups);
    let count = |i: &PrinterInstruction| out.iter().filter(|o| *o == i).count();
    assert_eq!(count(&PrinterInstruction::Bold(true)), count(&PrinterInstruction::Bold(false)));
    assert_eq!(count(&PrinterInstruction::Italic(true)), count(&PrinterInstruction::Italic(false)));
    assert_eq!(count(&PrinterInstruction::Strike(true)), count(&PrinterInstruction::Strike(false)));
    assert_eq!(count(&PrinterInstruction::Reverse(true)), count(&PrinterInstruction::Reverse(false)));
    assert_eq!(
        count(&PrinterInstruction::Underline(UnderlineMode::Single)),
        count(&PrinterInstruction::Underline(UnderlineMode::Off))
    );
    assert_eq!(count(&PrinterInstruction::Bold(true)), 1);
}

#[test]
fn whole_message() {
    let nodes = vec![MarkdownNode::Text("hi".to_string())];
    let attachments = vec![
        Attachment {
            filename: "a.txt".to_string(),
            content_type: Some("text/plain".to_string()),
            proxy_url: "p1".to_string(),
        },
        Attachment {
            filename: "b.png".to_string(),
            content_type: Some("image/png".to_string()),
            proxy_url: "p2".to_string(),
        },
        Attachment { filename: "c".to_string(), content_type: None, proxy_url: "p3".to_string() },
    ];
    let stickers = vec![Some("s.png".to_string()), None];
    let out = render_message(
        "bob",
        &ChannelOrigin::Named("general".to_string()),
        &nodes,
        &vec![],
        &stickers,
        &attachments,
    );
    let mut expected = highlighted("@bob");
    expected.push(text(" in "));
    expected.extend(highlighted("#general"));
    expected.push(text("\n\n"));
    expected.push(text("hi"));
    expected.push(PrinterInstruction::Image("s.png".to_string()));
    expected.extend(vec![
        PrinterInstruction::Underline(UnderlineMode::Single),
        text("\n\nFile: a.txt"),
        PrinterInstruction::Underline(UnderlineMode::Off),
        PrinterInstruction::Underline(UnderlineMode::Single),
        text("\n\nFile: b.png"),
        PrinterInstruction::Underline(UnderlineMode::Off),
        PrinterInstruction::Image("p2".to_string()),
        PrinterInstruction::PrintCut,
    ]);
    assert_eq!(out, expected);
}

#[test]
fn channel_labels() {
    let out = render_message("a", &ChannelOrigin::Unnamed, &vec![], &vec![], &vec![], &vec![]);
    assert_eq!(out[5], text("#Unknown Channel"));
    let out = render_message("a", &ChannelOrigin::DirectMessages, &vec![], &vec![], &vec![], &vec![]);
    assert_eq!(out[5], text("Direct Messages"));
    assert_eq!(out.last(), Some(&PrinterInstruction::PrintCut));
}

#[test]
fn display_names() {
    assert_eq!(member_display_name(&"name".to_string(), &Some("nick".to_string())), "nick");
    assert_eq!(member_display_name(&"name".to_string(), &None), "name");
}

#[test]
fn printing_policy() {
    assert!(should_print(None));
    assert!(should_print(Some(true)));
    assert!(!should_print(Some(false)));
}

#[test]
fn rendering_ends_in_plain_printing() {
    let nodes = parse_markdown("**a _b ~~c <@1>~~_** __d__ ||e|| `f` https://x.org").unwrap();
    let lookups = vec![MentionLookup::NotFound];
    let out = render_message(
        "bob",
        &ChannelOrigin::DirectMessages,
        &nodes,
        &lookups,
        &vec![],
        &vec![Attachment {
            filename: "x.png".to_string(),
            content_type: Some("image/png".to_string()),
            proxy_url: "p".to_string(),
        }],
    );
    let (mut reverse, mut underline, mut strike, mut bold, mut italic) =
        (false, UnderlineMode::Off, false, false, false);
    for i in &out {
        match i {
            PrinterInstruction::Reverse(b) => reverse = *b,
            PrinterInstruction::Underline(m) => underline = *m,
            PrinterInstruction::Strike(b) => strike = *b,
            PrinterInstruction::Bold(b) => bold = *b,
            PrinterInstruction::Italic(b) => italic = *b,
            _ => {}
        }
    }
    assert!(!reverse && underline == UnderlineMode::Off && !strike && !bold && !italic);
}
