//! The instructions that make up a print job.

use vstd::prelude::*;

verus! {

/// How printed text is underlined.
#[derive(Debug, Clone, Copy, PartialEq, Eq, Structural)]
pub enum UnderlineMode {
    /// No underline.
    Off,
    Single,
    Double,
}

/// How printed lines are aligned.
#[derive(Debug, Clone, Copy, PartialEq, Eq, Structural)]
pub enum JustifyMode {
    Left,
    Center,
    Right,
}

/// One step of a print job as produced by the renderer.
#[derive(Clone, Debug, PartialEq, Eq)]
pub enum PrinterInstruction {
    /// Print the text; emoji that have an image are printed as images.
    Text(String),
    /// Download the image at the URL and print it.
    Image(String),
    Reverse(bool),
    Underline(UnderlineMode),
    Justify(JustifyMode),
    Strike(bool),
    Bold(bool),
    Italic(bool),
    /// Feed, cut the paper and flush the job.
    PrintCut,
}

/// A whole print job.
pub type PrinterMessage = Vec<PrinterInstruction>;

/// The mathematical value of a [`PrinterInstruction`]: strings as character
/// sequences.
pub enum InstructionModel {
    Text(Seq<char>),
    Image(Seq<char>),
    Reverse(bool),
    Underline(UnderlineMode),
    Justify(JustifyMode),
    Strike(bool),
    Bold(bool),
    Italic(bool),
    PrintCut,
}

impl DeepView for PrinterInstruction {
    type V = InstructionModel;

    open spec fn deep_view(&self) -> InstructionModel {
        match self {
            PrinterInstruction::Text(s) => InstructionModel::Text(s@),
            PrinterInstruction::Image(s) => InstructionModel::Image(s@),
            PrinterInstruction::Reverse(b) => InstructionModel::Reverse(*b),
            PrinterInstruction::Underline(m) => InstructionModel::Underline(*m),
            PrinterInstruction::Justify(m) => InstructionModel::Justify(*m),
            PrinterInstruction::Strike(b) => InstructionModel::Strike(*b),
            PrinterInstruction::Bold(b) => InstructionModel::Bold(*b),
            PrinterInstruction::Italic(b) => InstructionModel::Italic(*b),
            PrinterInstruction::PrintCut => InstructionModel::PrintCut,
        }
    }
}

} // verus!
