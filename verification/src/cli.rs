//! The parsed command line.
//!
//! Argument parsing itself is glue around the library; what the engine needs
//! is the chosen command with its plain values, held here.

use vstd::prelude::*;

verus! {

/// One invocation's command, already parsed.
#[derive(Debug)]
pub enum CliCommand {
    /// Set up a new project.
    Init { name: String, dir: Option<String> },
    /// Compute and print a plan for a stack.
    PlanStack { stack: String, dir: Option<String>, format: String },
    /// Compute a plan and execute it.
    ApplyStack { stack: String, auto_approve: bool },
    /// Delete everything recorded for a stack.
    DestroyStack { stack: String, auto_approve: bool },
    /// Print the recorded state of a stack.
    ShowStack { stack: String, format: String },
}

/// A parsed invocation: global options and the chosen command.
#[derive(Debug)]
pub struct Cli {
    /// Optional configuration file path.
    pub config: Option<String>,
    /// Debug verbosity, as a count.
    pub debug: u8,
    pub command: CliCommand,
}

impl Cli {
    /// The stack the command acts on, if it names one.
    pub fn stack(&self) -> (r: Option<&String>)
        ensures
            match self.command {
                CliCommand::Init { .. } => r is None,
                CliCommand::PlanStack { .. } => r is Some,
                CliCommand::ApplyStack { .. } => r is Some,
                CliCommand::DestroyStack { .. } => r is Some,
                CliCommand::ShowStack { .. } => r is Some,
            },
    {
        match &self.command {
            CliCommand::Init { .. } => None,
            CliCommand::PlanStack { stack, .. } => Some(stack),
            CliCommand::ApplyStack { stack, .. } => Some(stack),
            CliCommand::DestroyStack { stack, .. } => Some(stack),
            CliCommand::ShowStack { stack, .. } => Some(stack),
        }
    }
}

} // verus!
