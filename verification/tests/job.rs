use thermal_printer::instruction::{JustifyMode, PrinterInstruction, UnderlineMode};
use thermal_printer::job::{
    downloaded_image_commands, glyph_commands_for, plan_job, text_commands, PrinterCommand, ESC,
};

fn reset() -> Vec<PrinterCommand> {
    vec![
        PrinterCommand::Reverse(false),
        PrinterCommand::Underline(UnderlineMode::Off),
        PrinterCommand::Justify(JustifyMode::Left),
        PrinterCommand::DoubleStrike(false),
        PrinterCommand::Bold(false),
        PrinterCommand::Custom(vec![0x1B, 0x35]),
    ]
}

fn finish() -> Vec<PrinterCommand> {
    vec![
        PrinterCommand::Feed,
        PrinterCommand::PartialCut,
        PrinterCommand::Print,
        PrinterCommand::Debug,
    ]
}

#[test]
fn esc_is_0x1b() {
    assert_eq!(ESC, 0x1B);
}

#[test]
fn empty_job_resets_and_cuts() {
    let mut expected = reset();
    expected.extend(finish());
    assert_eq!(plan_job(&vec![]), expected);
}

#[test]
fn job_ending_with_cut_is_cut_once() {
    let msg = vec![
        PrinterInstruction::Text("a".to_string()),
        PrinterInstruction::PrintCut,
    ];
    let mut expected = reset();
    expected.push(PrinterCommand::Write("a".to_string()));
    expected.extend(finish());
    assert_eq!(plan_job(&msg), expected);
}

#[test]
fn explicit_cut_changes_nothing() {
    let msg = vec![PrinterInstruction::Bold(true), PrinterInstruction::Text("x".to_string())];
    let mut with_cut = msg.clone();
    with_cut.push(PrinterInstruction::PrintCut);
    assert_eq!(plan_job(&msg), plan_job(&with_cut));
}

#[test]
fn job_ends_with_finish() {
    let msg = vec![PrinterInstruction::PrintCut, PrinterInstruction::Reverse(true)];
    let job = plan_job(&msg);
    assert_eq!(&job[job.len() - 4..], &finish()[..]);
}

#[test]
fn each_instruction_maps_to_its_command() {
    let msg = vec![
        PrinterInstruction::Italic(true),
        PrinterInstruction::Italic(false),
        PrinterInstruction::Strike(true),
        PrinterInstruction::Underline(UnderlineMode::Double),
        PrinterInstruction::Justify(JustifyMode::Center),
        PrinterInstruction::Reverse(true),
        PrinterInstruction::Bold(true),
        PrinterInstruction::Image("https://example.com/a.png".to_string()),
    ];
    let mut expected = reset();
    expected.extend(vec![
        PrinterCommand::Custom(vec![0x1B, 0x34]),
        PrinterCommand::Custom(vec![0x1B, 0x35]),
        PrinterCommand::DoubleStrike(true),
        PrinterCommand::Underline(UnderlineMode::Double),
        PrinterCommand::Justify(JustifyMode::Center),
        PrinterCommand::Reverse(true),
        PrinterCommand::Bold(true),
        PrinterCommand::DownloadImage("https://example.com/a.png".to_string()),
    ]);
    expected.extend(finish());
    assert_eq!(plan_job(&msg), expected);
}

#[test]
fn ascii_text_is_written_char_by_char() {
    assert_eq!(
        text_commands("hi!"),
        vec![
            PrinterCommand::Write("h".to_string()),
            PrinterCommand::Write("i".to_string()),
            PrinterCommand::Write("!".to_string()),
        ]
    );
}

#[test]
fn emoji_is_printed_as_image() {
    let cmds = text_commands("a🦆");
    assert_eq!(cmds.len(), 3);
    assert_eq!(cmds[0], PrinterCommand::Write("a".to_string()));
    assert_eq!(cmds[1], PrinterCommand::Feed);
    match &cmds[2] {
        PrinterCommand::BitImage(png) => assert_eq!(&png[..4], &[0x89, b'P', b'N', b'G']),
        other => panic!("expected an image, got {:?}", other),
    }
}

#[test]
fn non_emoji_unicode_is_written() {
    assert_eq!(
        text_commands("é"),
        vec![PrinterCommand::Write("é".to_string())]
    );
}

#[test]
fn text_printing_is_compositional() {
    let mut both = text_commands("ab©");
    let mut parts = text_commands("ab");
    parts.extend(text_commands("©"));
    assert_eq!(both.len(), 4);
    assert_eq!(both.split_off(0), parts);
}

#[test]
fn empty_text_prints_nothing() {
    assert_eq!(text_commands(""), vec![]);
}

#[test]
fn downloaded_image_is_fed_and_printed() {
    assert_eq!(
        downloaded_image_commands(Some(vec![1, 2, 3])),
        vec![PrinterCommand::Feed, PrinterCommand::BitImage(vec![1, 2, 3])]
    );
}

#[test]
fn failed_download_prints_nothing() {
    assert_eq!(downloaded_image_commands(None), vec![]);
}

#[test]
fn glyph_without_image_is_written() {
    assert_eq!(
        glyph_commands_for("x".to_string(), None),
        vec![PrinterCommand::Write("x".to_string())]
    );
    assert_eq!(
        glyph_commands_for("x".to_string(), Some(vec![9])),
        vec![PrinterCommand::Feed, PrinterCommand::BitImage(vec![9])]
    );
}
