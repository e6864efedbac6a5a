//! Turning Discord messages into jobs for an ESC/POS receipt printer.
//!
//! A message's markdown is parsed into [`markdown::MarkdownNode`]s, rendered
//! into [`instruction::PrinterInstruction`]s, and a list of instructions is
//! planned into the concrete [`job::PrinterCommand`]s a printer executes.

pub mod instruction;
pub mod text;
pub mod markdown;
pub mod codeblock;
pub mod job;
pub mod render;
