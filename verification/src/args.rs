//! The command line: the subcommands and the Graphviz layout engines.
use vstd::prelude::*;

use std::path::PathBuf;

verus! {

/// A path on the file system, carried through unchanged.
#[verifier::external_type_specification]
#[verifier::external_body]
pub struct ExPathBuf(PathBuf);

/// The Graphviz layout engines.
#[derive(Clone, Copy, Debug, PartialEq, Eq, Structural)]
pub enum Engine {
    Dot,
    Neato,
    Fdp,
    Sfdp,
    Circo,
    Twopi,
}

/// The name of an engine's program.
pub open spec fn engine_name(e: Engine) -> Seq<char> {
    match e {
        Engine::Dot => "dot"@,
        Engine::Neato => "neato"@,
        Engine::Fdp => "fdp"@,
        Engine::Sfdp => "sfdp"@,
        Engine::Circo => "circo"@,
        Engine::Twopi => "twopi"@,
    }
}

impl Engine {
    /// The name of the engine's program.
    pub fn to_string(&self) -> (r: String)
        ensures
            r@ == engine_name(*self),
    {
        match self {
            Engine::Dot => "dot".to_owned(),
            Engine::Neato => "neato".to_owned(),
            Engine::Fdp => "fdp".to_owned(),
            Engine::Sfdp => "sfdp".to_owned(),
            Engine::Circo => "circo".to_owned(),
            Engine::Twopi => "twopi".to_owned(),
        }
    }
}

/// The arguments of the program.
pub struct Args {
    pub command: Command,
}

/// The subcommands.
pub enum Command {
    /// Render the net of `input` into the image `output` with a layout engine.
    Export { input: PathBuf, output: PathBuf, engine: Engine },
    /// Simulate the net of `input` interactively.
    Interactive { input: PathBuf },
}

impl Command {
    /// The file holding the net description.
    pub fn input(&self) -> (r: &PathBuf)
        ensures
            match self {
                Command::Export { input, .. } => r == input,
                Command::Interactive { input } => r == input,
            },
    {
        match self {
            Command::Export { input, .. } => input,
            Command::Interactive { input } => input,
        }
    }
}

} // verus!
