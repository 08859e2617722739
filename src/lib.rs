//! Command directives embedded in document text: find them, interpret the
//! command each one holds, and splice the command's output back in.

pub mod cmdrun;
pub mod command;
pub mod laws;
pub mod output;
pub mod scanner;
pub mod text;

pub use cmdrun::{CmdRun, ContentRun, Step};
pub use command::{ArgumentError, DirectiveError, Invocation};
pub use output::{ExecOutput, Newlines};
