//! Planning a print job: from instructions to the commands a printer runs.

use vstd::prelude::*;
use vstd::utf8::*;
use twemoji_assets::png::PngTwemojiAsset;
use crate::instruction::{
    InstructionModel, JustifyMode, PrinterInstruction, UnderlineMode,
};
use crate::text::lemma_encode_utf8_push;

verus! {

broadcast use vstd::utf8::group_utf8_lib;

/// The ESC/POS escape byte.
pub const ESC: u8 = 0x1B;

/// One call on the printer.
#[derive(Debug, PartialEq, Eq)]
pub enum PrinterCommand {
    Reverse(bool),
    Underline(UnderlineMode),
    Justify(JustifyMode),
    DoubleStrike(bool),
    Bold(bool),
    /// Raw bytes sent as they are.
    Custom(Vec<u8>),
    /// Text to print.
    Write(String),
    Feed,
    /// A PNG image to print.
    BitImage(Vec<u8>),
    PartialCut,
    Print,
    Debug,
    /// Download the image at this URL and print it (see
    /// [`downloaded_image_commands`]).
    DownloadImage(String),
}

/// The mathematical value of a [`PrinterCommand`].
pub enum CommandModel {
    Reverse(bool),
    Underline(UnderlineMode),
    Justify(JustifyMode),
    DoubleStrike(bool),
    Bold(bool),
    Custom(Seq<u8>),
    Write(Seq<char>),
    Feed,
    BitImage(Seq<u8>),
    PartialCut,
    Print,
    Debug,
    DownloadImage(Seq<char>),
}

impl DeepView for PrinterCommand {
    type V = CommandModel;

    open spec fn deep_view(&self) -> CommandModel {
        match self {
            PrinterCommand::Reverse(b) => CommandModel::Reverse(*b),
            PrinterCommand::Underline(m) => CommandModel::Underline(*m),
            PrinterCommand::Justify(m) => CommandModel::Justify(*m),
            PrinterCommand::DoubleStrike(b) => CommandModel::DoubleStrike(*b),
            PrinterCommand::Bold(b) => CommandModel::Bold(*b),
            PrinterCommand::Custom(v) => CommandModel::Custom(v@),
            PrinterCommand::Write(s) => CommandModel::Write(s@),
            PrinterCommand::Feed => CommandModel::Feed,
            PrinterCommand::BitImage(v) => CommandModel::BitImage(v@),
            PrinterCommand::PartialCut => CommandModel::PartialCut,
            PrinterCommand::Print => CommandModel::Print,
            PrinterCommand::Debug => CommandModel::Debug,
            PrinterCommand::DownloadImage(u) => CommandModel::DownloadImage(u@),
        }
    }
}

/// The PNG image that `twemoji_assets` holds for the given emoji text.
pub uninterp spec fn twemoji_png(emoji: Seq<char>) -> Option<Seq<u8>>;

/// Calls `PngTwemojiAsset::from_emoji` and copies the PNG bytes out of the
/// asset.  The lookup is a table of several thousand emoji, so its result is
/// named, not stated; what its table shows is that no single ASCII character
/// has an image.
#[verifier::external_body]
fn twemoji_png_of(emoji: &str) -> (png: Option<Vec<u8>>)
    ensures
        png.deep_view() == twemoji_png(emoji@),
        emoji@.len() == 1 && (emoji@[0] as u32) < 0x80 ==> png is None,
{
    PngTwemojiAsset::from_emoji(emoji).map(|asset| asset.data.0.to_vec())
}

/// `String::from_utf8`: std documents that it fails exactly on bytes that are
/// not UTF-8, and otherwise holds the decoded characters.
#[verifier::external_body]
fn string_from_utf8(bytes: Vec<u8>) -> (s: Option<String>)
    ensures
        s is Some <==> valid_utf8(bytes@),
        s matches Some(t) ==> t@ == decode_utf8(bytes@),
{
    String::from_utf8(bytes).ok()
}

/// How a glyph is printed: as its image when it has one, else as text.
pub open spec fn glyph_print(glyph: Seq<char>, image: Option<Seq<u8>>) -> Seq<CommandModel> {
    match image {
        Some(png) => seq![CommandModel::Feed, CommandModel::BitImage(png)],
        None => seq![CommandModel::Write(glyph)],
    }
}

/// How one character is printed: as its Twemoji image when there is one,
/// else as text.
pub open spec fn glyph_commands(c: char) -> Seq<CommandModel> {
    glyph_print(seq![c], twemoji_png(seq![c]))
}

/// The commands that print `glyph`, given the image found for it (see
/// [`glyph_print`]).
pub fn glyph_commands_for(glyph: String, image: Option<Vec<u8>>) -> (cmds: Vec<PrinterCommand>)
    ensures
        cmds.deep_view() == glyph_print(glyph@, image.deep_view()),
{
    let mut cmds: Vec<PrinterCommand> = Vec::new();
    match image {
        Some(png) => {
            assert(png.deep_view() =~= png@);
            cmds.push(PrinterCommand::Feed);
            cmds.push(PrinterCommand::BitImage(png));
        },
        None => {
            cmds.push(PrinterCommand::Write(glyph));
        },
    }
    assert(cmds.deep_view() =~= glyph_print(glyph@, image.deep_view()));
    cmds
}

/// How a text is printed: character by character.
pub open spec fn text_print(chars: Seq<char>) -> Seq<CommandModel>
    decreases chars.len(),
{
    if chars.len() == 0 {
        Seq::empty()
    } else {
        text_print(chars.drop_last()) + glyph_commands(chars.last())
    }
}

/// Number of bytes of the character that starts with `lead`, as the leading
/// byte of a UTF-8 encoding tells it.
pub open spec fn lead_width(lead: u8) -> int {
    if lead < 0xC0 {
        1
    } else if lead < 0xE0 {
        2
    } else if lead < 0xF0 {
        3
    } else {
        4
    }
}

proof fn lemma_lead_width(s: Seq<char>)
    requires
        s.len() > 0,
    ensures
        encode_utf8(s).len() >= encode_scalar(s[0] as u32).len(),
        encode_utf8(s).subrange(0, encode_scalar(s[0] as u32).len() as int) == encode_scalar(s[0] as u32),
        lead_width(encode_utf8(s)[0]) == encode_scalar(s[0] as u32).len(),
{
    encode_utf8_first_scalar(s);
    let e = encode_utf8(s);
    assert(e == encode_scalar(s[0] as u32) + encode_utf8(s.drop_first()));
    assert(e.subrange(0, encode_scalar(s[0] as u32).len() as int) =~= encode_scalar(s[0] as u32));
}

/// Each character written as text, one by one.
pub open spec fn written_chars(s: Seq<char>) -> Seq<CommandModel> {
    Seq::new(s.len(), |i: int| CommandModel::Write(seq![s[i]]))
}

/// The commands that print `text`: the text is walked byte by byte, each
/// character's bytes are taken by its leading byte, and each character is
/// printed as its emoji image or as text.
pub fn text_commands(text: &str) -> (cmds: Vec<PrinterCommand>)
    ensures
        cmds.deep_view() == text_print(text@),
        // ASCII text has no emoji images: it is written character by character.
        is_ascii_chars(text@) ==> cmds.deep_view() == written_chars(text@),
{
    let bytes = text.as_bytes();
    let n = bytes.len();
    let mut cmds: Vec<PrinterCommand> = Vec::new();
    let mut i: usize = 0;
    let ghost mut k: int = 0;
    assert(text@.take(0) =~= Seq::<char>::empty());
    assert(text@.skip(0) =~= text@);
    assert(bytes@.subrange(0, n as int) =~= bytes@);
    while i < n
        invariant
            n == bytes@.len(),
            bytes@ == encode_utf8(text@),
            0 <= k <= text@.len(),
            i <= n,
            bytes@.subrange(i as int, n as int) == encode_utf8(text@.skip(k)),
            cmds.deep_view() == text_print(text@.take(k)),
            is_ascii_chars(text@) ==> cmds.deep_view() == written_chars(text@.take(k)),
        decreases n - i,
    {
        proof {
            if k == text@.len() {
                assert(text@.skip(k) =~= Seq::<char>::empty());
            }
        }
        let ghost rest = text@.skip(k);
        let ghost c = rest[0];
        proof {
            lemma_lead_width(rest);
            assert(bytes@[i as int] == encode_utf8(rest)[0]);
        }
        let lead = bytes[i];
        let chunk: Vec<u8> = if lead < 0xC0 {
            vec![bytes[i]]
        } else if lead < 0xE0 {
            vec![bytes[i], bytes[i + 1]]
        } else if lead < 0xF0 {
            vec![bytes[i], bytes[i + 1], bytes[i + 2]]
        } else {
            vec![bytes[i], bytes[i + 1], bytes[i + 2], bytes[i + 3]]
        };
        let w = chunk.len();
        proof {
            assert(chunk@ =~= encode_scalar(c as u32));
            assert(seq![c].drop_first() =~= Seq::<char>::empty());
            assert(encode_utf8(Seq::<char>::empty()) =~= Seq::<u8>::empty());
            assert(encode_utf8(seq![c]) =~= encode_scalar(c as u32));
        }
        let glyph = string_from_utf8(chunk);
        let ghost before = cmds.deep_view();
        match glyph {
            Some(s) => {
                assert(s@ =~= seq![c]);
                let image = twemoji_png_of(s.as_str());
                let ghost is_image = image is Some;
                let mut more = glyph_commands_for(s, image);
                assert(more.deep_view() == glyph_commands(c));
                cmds.append(&mut more);
                assert(cmds.deep_view() =~= before + glyph_commands(c));
                proof {
                    if is_ascii_chars(text@) {
                        assert(text@[k] == c);
                        assert(!is_image);
                        assert(written_chars(text@.take(k + 1)) =~= written_chars(text@.take(k))
                            + seq![CommandModel::Write(seq![c])]);
                        assert(cmds.deep_view() =~= written_chars(text@.take(k + 1)));
                    }
                }
            },
            None => {
                assert(false);
            },
        }
        let ghost old_i = i as int;
        i = i + w;
        proof {
            let e = encode_utf8(rest);
            assert(e =~= encode_scalar(c as u32) + encode_utf8(rest.drop_first()));
            assert(bytes@.subrange(i as int, n as int) =~= bytes@.subrange(old_i, n as int).subrange(w as int, e.len() as int));
            assert(e.subrange(w as int, e.len() as int) =~= encode_utf8(rest.drop_first()));
            assert(text@.take(k + 1).drop_last() =~= text@.take(k));
            assert(text@.take(k + 1).last() == c);
            assert(rest.drop_first() =~= text@.skip(k + 1));
            assert(bytes@.subrange(i as int, n as int) =~= encode_utf8(text@.skip(k + 1)));
            k = k + 1;
        }
    }
    proof {
        if k < text@.len() {
            lemma_lead_width(text@.skip(k));
        }
        assert(text@.take(k) =~= text@);
    }
    cmds
}

/// Commands that put the printer back to plain text before a job.
pub open spec fn reset_commands() -> Seq<CommandModel> {
    seq![
        CommandModel::Reverse(false),
        CommandModel::Underline(UnderlineMode::Off),
        CommandModel::Justify(JustifyMode::Left),
        CommandModel::DoubleStrike(false),
        CommandModel::Bold(false),
        CommandModel::Custom(italic_bytes(false)),
    ]
}

/// Commands that finish a receipt: feed, cut, and flush.
pub open spec fn finish_commands() -> Seq<CommandModel> {
    seq![CommandModel::Feed, CommandModel::PartialCut, CommandModel::Print, CommandModel::Debug]
}

/// The ESC/POS sequence that turns italic printing on or off.
pub open spec fn italic_bytes(on: bool) -> Seq<u8> {
    seq![ESC, if on { 0x34u8 } else { 0x35u8 }]
}

/// The commands for one instruction.
pub open spec fn instruction_commands(i: InstructionModel) -> Seq<CommandModel> {
    match i {
        InstructionModel::Text(t) => text_print(t),
        InstructionModel::Image(url) => seq![CommandModel::DownloadImage(url)],
        InstructionModel::Reverse(b) => seq![CommandModel::Reverse(b)],
        InstructionModel::Underline(m) => seq![CommandModel::Underline(m)],
        InstructionModel::Justify(m) => seq![CommandModel::Justify(m)],
        InstructionModel::Strike(b) => seq![CommandModel::DoubleStrike(b)],
        InstructionModel::Bold(b) => seq![CommandModel::Bold(b)],
        InstructionModel::Italic(b) => seq![CommandModel::Custom(italic_bytes(b))],
        InstructionModel::PrintCut => finish_commands(),
    }
}

/// The commands for a list of instructions, one after the other.
pub open spec fn instructions_commands(msg: Seq<InstructionModel>) -> Seq<CommandModel>
    decreases msg.len(),
{
    if msg.len() == 0 {
        Seq::empty()
    } else {
        instructions_commands(msg.drop_last()) + instruction_commands(msg.last())
    }
}

/// True when the last instruction already cut the paper.
pub open spec fn ends_with_cut(msg: Seq<InstructionModel>) -> bool {
    msg.len() > 0 && msg.last() is PrintCut
}

/// A whole job: reset, the instructions, and a final cut unless the last
/// instruction was one.
pub open spec fn job_commands(msg: Seq<InstructionModel>) -> Seq<CommandModel> {
    reset_commands() + instructions_commands(msg) + if ends_with_cut(msg) {
        Seq::empty()
    } else {
        finish_commands()
    }
}

/// What is printed for a downloaded image: nothing when the download failed.
pub open spec fn downloaded_image(image: Option<Seq<u8>>) -> Seq<CommandModel> {
    match image {
        Some(png) => seq![CommandModel::Feed, CommandModel::BitImage(png)],
        None => Seq::empty(),
    }
}

fn push_finish(cmds: &mut Vec<PrinterCommand>)
    ensures
        final(cmds).deep_view() == old(cmds).deep_view() + finish_commands(),
{
    let ghost before = cmds.deep_view();
    cmds.push(PrinterCommand::Feed);
    cmds.push(PrinterCommand::PartialCut);
    cmds.push(PrinterCommand::Print);
    cmds.push(PrinterCommand::Debug);
    assert(cmds.deep_view() =~= before + finish_commands());
}

fn italic_command(on: bool) -> (cmd: PrinterCommand)
    ensures
        cmd.deep_view() == CommandModel::Custom(italic_bytes(on)),
{
    let bytes = if on {
        vec![ESC, 0x34]
    } else {
        vec![ESC, 0x35]
    };
    assert(bytes@ =~= italic_bytes(on));
    PrinterCommand::Custom(bytes)
}

/// The commands for one instruction (see [`instruction_commands`]).
pub fn commands_for(instruction: &PrinterInstruction) -> (cmds: Vec<PrinterCommand>)
    ensures
        cmds.deep_view() == instruction_commands(instruction.deep_view()),
{
    let mut cmds: Vec<PrinterCommand> = Vec::new();
    match instruction {
        PrinterInstruction::Text(text) => {
            return text_commands(text.as_str());
        },
        PrinterInstruction::Image(url) => {
            cmds.push(PrinterCommand::DownloadImage(url.clone()));
        },
        PrinterInstruction::Reverse(b) => {
            cmds.push(PrinterCommand::Reverse(*b));
        },
        PrinterInstruction::Underline(m) => {
            cmds.push(PrinterCommand::Underline(*m));
        },
        PrinterInstruction::Justify(m) => {
            cmds.push(PrinterCommand::Justify(*m));
        },
        PrinterInstruction::Strike(b) => {
            cmds.push(PrinterCommand::DoubleStrike(*b));
        },
        PrinterInstruction::Bold(b) => {
            cmds.push(PrinterCommand::Bold(*b));
        },
        PrinterInstruction::Italic(b) => {
            cmds.push(italic_command(*b));
        },
        PrinterInstruction::PrintCut => {
            push_finish(&mut cmds);
        },
    }
    assert(cmds.deep_view() =~= instruction_commands(instruction.deep_view()));
    cmds
}

/// Plans a whole job (see [`job_commands`]).
pub fn plan_job(message: &Vec<PrinterInstruction>) -> (cmds: Vec<PrinterCommand>)
    ensures
        cmds.deep_view() == job_commands(message.deep_view()),
{
    let mut cmds: Vec<PrinterCommand> = Vec::new();
    cmds.push(PrinterCommand::Reverse(false));
    cmds.push(PrinterCommand::Underline(UnderlineMode::Off));
    cmds.push(PrinterCommand::Justify(JustifyMode::Left));
    cmds.push(PrinterCommand::DoubleStrike(false));
    cmds.push(PrinterCommand::Bold(false));
    cmds.push(italic_command(false));
    let ghost msg = message.deep_view();
    assert(cmds.deep_view() =~= reset_commands());
    assert(msg.take(0) =~= Seq::<InstructionModel>::empty());
    let mut last_was_cut = false;
    let mut i: usize = 0;
    while i < message.len()
        invariant
            i <= message@.len(),
            msg == message.deep_view(),
            cmds.deep_view() == reset_commands() + instructions_commands(msg.take(i as int)),
            last_was_cut == ends_with_cut(msg.take(i as int)),
        decreases message@.len() - i,
    {
        let ghost before = cmds.deep_view();
        let instruction = &message[i];
        let mut more = commands_for(instruction);
        let ghost more_view = more.deep_view();
        cmds.append(&mut more);
        last_was_cut = match instruction {
            PrinterInstruction::PrintCut => true,
            _ => false,
        };
        i = i + 1;
        proof {
            assert(msg.take(i as int).drop_last() =~= msg.take(i - 1));
            assert(msg.take(i as int).last() == instruction.deep_view());
            assert(cmds.deep_view() =~= before + more_view);
        }
    }
    if !last_was_cut {
        push_finish(&mut cmds);
    }
    assert(msg.take(message@.len() as int) =~= msg);
    cmds
}

/// What to print once the image of a [`PrinterCommand::DownloadImage`] has
/// been fetched (`None` when the download failed).
pub fn downloaded_image_commands(image: Option<Vec<u8>>) -> (cmds: Vec<PrinterCommand>)
    ensures
        cmds.deep_view() == downloaded_image(image.deep_view()),
{
    let mut cmds: Vec<PrinterCommand> = Vec::new();
    match image {
        Some(png) => {
            assert(png.deep_view() =~= png@);
            cmds.push(PrinterCommand::Feed);
            cmds.push(PrinterCommand::BitImage(png));
        },
        None => {},
    }
    assert(cmds.deep_view() =~= downloaded_image(image.deep_view()));
    cmds
}

/// Every planned job ends by feeding, cutting and flushing the paper.
pub proof fn job_ends_with_finish(msg: Seq<InstructionModel>)
    ensures
        job_commands(msg).len() >= finish_commands().len(),
        job_commands(msg).subrange(
            job_commands(msg).len() - finish_commands().len(),
            job_commands(msg).len() as int,
        ) == finish_commands(),
{
    let j = job_commands(msg);
    let n = j.len() as int;
    if ends_with_cut(msg) {
        let pre = reset_commands() + instructions_commands(msg.drop_last());
        assert(instructions_commands(msg) == instructions_commands(msg.drop_last())
            + finish_commands());
        assert(j =~= pre + finish_commands());
        assert(j.subrange(n - 4, n) =~= finish_commands());
    } else {
        assert(j.subrange(n - 4, n) =~= finish_commands());
    }
}

/// Ending a job with an explicit cut prints the same as leaving the cut to
/// the planner: a job that does not end with a cut gets exactly one.
pub proof fn explicit_cut_changes_nothing(msg: Seq<InstructionModel>)
    requires
        !ends_with_cut(msg),
    ensures
        job_commands(msg.push(InstructionModel::PrintCut)) == job_commands(msg),
{
    let m2 = msg.push(InstructionModel::PrintCut);
    assert(m2.drop_last() =~= msg);
    assert(ends_with_cut(m2));
    assert(job_commands(m2) =~= job_commands(msg));
}

/// Printing two texts one after the other prints the same as printing their
/// concatenation.
pub proof fn text_print_concat(a: Seq<char>, b: Seq<char>)
    ensures
        text_print(a + b) == text_print(a) + text_print(b),
    decreases b.len(),
{
    if b.len() == 0 {
        assert(a + b =~= a);
        assert(text_print(b) =~= Seq::<CommandModel>::empty());
        assert(text_print(a) + text_print(b) =~= text_print(a));
    } else {
        text_print_concat(a, b.drop_last());
        assert((a + b).drop_last() =~= a + b.drop_last());
        assert((a + b).last() == b.last());
        assert(text_print(a + b) =~= text_print(a) + text_print(b));
    }
}

/// A single character prints as its Twemoji image when it has one, whatever
/// the length of its UTF-8 encoding, and as text otherwise.
pub proof fn character_prints_as_its_image(c: char)
    ensures
        twemoji_png(seq![c]) matches Some(png) ==> text_print(seq![c]) == seq![
            CommandModel::Feed,
            CommandModel::BitImage(png),
        ],
        twemoji_png(seq![c]) is None ==> text_print(seq![c]) == seq![CommandModel::Write(seq![c])],
{
    assert(seq![c].drop_last() =~= Seq::<char>::empty());
    assert(seq![c].last() == c);
    assert(text_print(Seq::<char>::empty()) =~= Seq::<CommandModel>::empty());
    assert(text_print(seq![c]) =~= glyph_commands(c));
}

/// Every character of a text is printed by itself: the commands for a text
/// are those for its first `k` characters followed by those for its next
/// character, for every `k`.
pub proof fn text_prints_character_by_character(s: Seq<char>, k: int)
    requires
        0 <= k < s.len(),
    ensures
        text_print(s.take(k + 1)) == text_print(s.take(k)) + text_print(seq![s[k]]),
{
    assert(s.take(k + 1) =~= s.take(k) + seq![s[k]]);
    text_print_concat(s.take(k), seq![s[k]]);
}

/// The printing style a printer is in: what the style commands set.
pub struct PrintStyle {
    pub reverse: bool,
    pub underline: UnderlineMode,
    pub justify: JustifyMode,
    pub double_strike: bool,
    pub bold: bool,
    pub italic: bool,
}

/// The style of a printer that has just been reset: plain, left-aligned text.
pub open spec fn plain_style() -> PrintStyle {
    PrintStyle {
        reverse: false,
        underline: UnderlineMode::Off,
        justify: JustifyMode::Left,
        double_strike: false,
        bold: false,
        italic: false,
    }
}

/// The style a printer is in after it runs one command. The raw sequences
/// `ESC 4` and `ESC 5` switch italic printing on and off; every command that
/// is not a style command leaves the style as it was.
pub open spec fn after_command(st: PrintStyle, c: CommandModel) -> PrintStyle {
    match c {
        CommandModel::Reverse(b) => PrintStyle { reverse: b, ..st },
        CommandModel::Underline(m) => PrintStyle { underline: m, ..st },
        CommandModel::Justify(m) => PrintStyle { justify: m, ..st },
        CommandModel::DoubleStrike(b) => PrintStyle { double_strike: b, ..st },
        CommandModel::Bold(b) => PrintStyle { bold: b, ..st },
        CommandModel::Custom(bytes) => if bytes == seq![0x1Bu8, 0x34u8] {
            PrintStyle { italic: true, ..st }
        } else if bytes == seq![0x1Bu8, 0x35u8] {
            PrintStyle { italic: false, ..st }
        } else {
            st
        },
        _ => st,
    }
}

/// The style a printer is in after it runs the commands in order.
pub open spec fn after_commands(st: PrintStyle, cmds: Seq<CommandModel>) -> PrintStyle
    decreases cmds.len(),
{
    if cmds.len() == 0 {
        st
    } else {
        after_command(after_commands(st, cmds.drop_last()), cmds.last())
    }
}

/// The style that an instruction asks for: each style instruction sets its
/// own part of the style; text, images and cuts leave it as it was.
pub open spec fn after_instruction(st: PrintStyle, i: InstructionModel) -> PrintStyle {
    match i {
        InstructionModel::Reverse(b) => PrintStyle { reverse: b, ..st },
        InstructionModel::Underline(m) => PrintStyle { underline: m, ..st },
        InstructionModel::Justify(m) => PrintStyle { justify: m, ..st },
        InstructionModel::Strike(b) => PrintStyle { double_strike: b, ..st },
        InstructionModel::Bold(b) => PrintStyle { bold: b, ..st },
        InstructionModel::Italic(b) => PrintStyle { italic: b, ..st },
        _ => st,
    }
}

/// The style that a list of instructions asks for, one after the other.
pub open spec fn after_instructions(st: PrintStyle, msg: Seq<InstructionModel>) -> PrintStyle
    decreases msg.len(),
{
    if msg.len() == 0 {
        st
    } else {
        after_instruction(after_instructions(st, msg.drop_last()), msg.last())
    }
}

/// Running one more command after a list of them.
proof fn lemma_after_push(st: PrintStyle, cmds: Seq<CommandModel>, c: CommandModel)
    ensures
        after_commands(st, cmds.push(c)) == after_command(after_commands(st, cmds), c),
{
    assert(cmds.push(c).drop_last() =~= cmds);
    assert(cmds.push(c).last() == c);
}

/// Running two lists of commands one after the other.
proof fn lemma_after_commands_concat(st: PrintStyle, a: Seq<CommandModel>, b: Seq<CommandModel>)
    ensures
        after_commands(st, a + b) == after_commands(after_commands(st, a), b),
    decreases b.len(),
{
    if b.len() == 0 {
        assert(a + b =~= a);
    } else {
        lemma_after_commands_concat(st, a, b.drop_last());
        assert((a + b).drop_last() =~= a + b.drop_last());
        assert((a + b).last() == b.last());
    }
}

/// True of the commands that change no style: text, images, feeds and cuts.
pub open spec fn is_plain_command(c: CommandModel) -> bool {
    match c {
        CommandModel::Write(_) | CommandModel::Feed | CommandModel::BitImage(_)
        | CommandModel::PartialCut | CommandModel::Print | CommandModel::Debug
        | CommandModel::DownloadImage(_) => true,
        _ => false,
    }
}

/// Commands that change no style leave the style as it was.
proof fn lemma_plain_commands_keep_style(st: PrintStyle, cmds: Seq<CommandModel>)
    requires
        forall|k: int| 0 <= k < cmds.len() ==> is_plain_command(#[trigger] cmds[k]),
    ensures
        after_commands(st, cmds) == st,
    decreases cmds.len(),
{
    if cmds.len() > 0 {
        let d = cmds.drop_last();
        assert forall|k: int| 0 <= k < d.len() implies is_plain_command(#[trigger] d[k]) by {
            assert(d[k] == cmds[k]);
        }
        lemma_plain_commands_keep_style(st, d);
        assert(is_plain_command(cmds[cmds.len() - 1]));
    }
}

/// Printing text changes no style.
proof fn lemma_text_keeps_style(st: PrintStyle, chars: Seq<char>)
    ensures
        after_commands(st, text_print(chars)) == st,
    decreases chars.len(),
{
    if chars.len() > 0 {
        let g = glyph_commands(chars.last());
        assert(text_print(chars) == text_print(chars.drop_last()) + g);
        lemma_text_keeps_style(st, chars.drop_last());
        lemma_after_commands_concat(st, text_print(chars.drop_last()), g);
        assert forall|k: int| 0 <= k < g.len() implies is_plain_command(#[trigger] g[k]) by {}
        lemma_plain_commands_keep_style(st, g);
    }
}

/// The commands for one instruction put the printer in the style that the
/// instruction asks for.
proof fn lemma_instruction_style(st: PrintStyle, i: InstructionModel)
    ensures
        after_commands(st, instruction_commands(i)) == after_instruction(st, i),
{
    let c = instruction_commands(i);
    match i {
        InstructionModel::Text(t) => {
            assert(c == text_print(t));
            lemma_text_keeps_style(st, t);
        },
        InstructionModel::PrintCut => {
            assert forall|k: int| 0 <= k < c.len() implies is_plain_command(#[trigger] c[k]) by {}
            lemma_plain_commands_keep_style(st, c);
        },
        _ => {
            assert(c =~= Seq::<CommandModel>::empty().push(c[0]));
            lemma_after_push(st, Seq::<CommandModel>::empty(), c[0]);
            assert(after_commands(st, Seq::<CommandModel>::empty()) == st);
        },
    }
}

/// Every style instruction reaches the printer with its own argument: from
/// any starting style, running the commands for a list of instructions leaves
/// the printer in the style that the instructions ask for, one after the
/// other (turning reverse printing off turns it off, and so on).
pub proof fn commands_follow_instruction_styles(st: PrintStyle, msg: Seq<InstructionModel>)
    ensures
        after_commands(st, instructions_commands(msg)) == after_instructions(st, msg),
    decreases msg.len(),
{
    if msg.len() > 0 {
        commands_follow_instruction_styles(st, msg.drop_last());
        lemma_after_commands_concat(
            st,
            instructions_commands(msg.drop_last()),
            instruction_commands(msg.last()),
        );
        lemma_instruction_style(after_instructions(st, msg.drop_last()), msg.last());
    }
}

/// A planned job starts from plain text whatever style the printer was left
/// in, and each of its style instructions then takes effect in order: after
/// the job, the printer is in the style that the instructions ask for from a
/// plain start.
pub proof fn job_styles_from_plain_start(st: PrintStyle, msg: Seq<InstructionModel>)
    ensures
        after_commands(st, job_commands(msg)) == after_instructions(plain_style(), msg),
{
    let r = reset_commands();
    let tail = if ends_with_cut(msg) {
        Seq::<CommandModel>::empty()
    } else {
        finish_commands()
    };
    assert(job_commands(msg) == r + instructions_commands(msg) + tail);
    lemma_after_commands_concat(st, r + instructions_commands(msg), tail);
    lemma_after_commands_concat(st, r, instructions_commands(msg));
    let r0 = Seq::<CommandModel>::empty();
    let r1 = r0.push(CommandModel::Reverse(false));
    let r2 = r1.push(CommandModel::Underline(UnderlineMode::Off));
    let r3 = r2.push(CommandModel::Justify(JustifyMode::Left));
    let r4 = r3.push(CommandModel::DoubleStrike(false));
    let r5 = r4.push(CommandModel::Bold(false));
    let r6 = r5.push(CommandModel::Custom(italic_bytes(false)));
    assert(r6 =~= r);
    lemma_after_push(st, r0, r1.last());
    assert(r0.push(r1.last()) =~= r1);
    lemma_after_push(st, r1, r2.last());
    assert(r1.push(r2.last()) =~= r2);
    lemma_after_push(st, r2, r3.last());
    assert(r2.push(r3.last()) =~= r3);
    lemma_after_push(st, r3, r4.last());
    assert(r3.push(r4.last()) =~= r4);
    lemma_after_push(st, r4, r5.last());
    assert(r4.push(r5.last()) =~= r5);
    lemma_after_push(st, r5, r6.last());
    assert(r5.push(r6.last()) =~= r6);
    assert(italic_bytes(false) =~= seq![0x1Bu8, 0x35u8]);
    assert(italic_bytes(false) != seq![0x1Bu8, 0x34u8]) by {
        assert(italic_bytes(false)[1] != seq![0x1Bu8, 0x34u8][1]);
    }
    assert(after_commands(st, r0) == st);
    let s1 = after_commands(st, r1);
    assert(s1 == after_command(st, CommandModel::Reverse(false)));
    let s2 = after_commands(st, r2);
    assert(s2 == after_command(s1, CommandModel::Underline(UnderlineMode::Off)));
    let s3 = after_commands(st, r3);
    assert(s3 == after_command(s2, CommandModel::Justify(JustifyMode::Left)));
    let s4 = after_commands(st, r4);
    assert(s4 == after_command(s3, CommandModel::DoubleStrike(false)));
    let s5 = after_commands(st, r5);
    assert(s5 == after_command(s4, CommandModel::Bold(false)));
    let s6 = after_commands(st, r6);
    assert(s6 == after_command(s5, CommandModel::Custom(italic_bytes(false))));
    assert(s6 == plain_style());
    commands_follow_instruction_styles(plain_style(), msg);
    assert forall|k: int| 0 <= k < tail.len() implies is_plain_command(#[trigger] tail[k]) by {}
    lemma_plain_commands_keep_style(after_commands(st, r + instructions_commands(msg)), tail);
}

} // verus!
