//! The mathematical model of a parsed script.
//!
//! Each type here mirrors one of [`crate::command`], with strings replaced by
//! their characters and vectors by sequences.

use vstd::prelude::*;

verus! {

/// The model of [`crate::command::Address`].
pub enum AddressModel {
    Line(usize),
    Last,
    Regex(Seq<char>),
    Step { first: usize, step: usize },
}

/// The model of [`crate::command::AddressRange`].
pub enum RangeModel {
    Every,
    Single { addr: AddressModel, negated: bool },
    Range { start: AddressModel, end: AddressModel, negated: bool },
}

/// The model of [`crate::command::SubstituteCmd`].
pub struct SubstituteModel {
    pub pattern: Seq<char>,
    pub replacement: Seq<char>,
    pub global: bool,
    pub print: bool,
    pub nth: Option<usize>,
    pub case_insensitive: bool,
    pub write_file: Option<Seq<char>>,
}

/// The model of [`crate::command::Command`].
pub enum CommandModel {
    Substitute(SubstituteModel),
    Transliterate { from: Seq<char>, to: Seq<char> },
    Print,
    PrintFirstLine,
    PrintLineNumber,
    List,
    Delete,
    DeleteFirstLine,
    Next,
    NextAppend,
    HoldReplace,
    HoldAppend,
    GetReplace,
    GetAppend,
    Exchange,
    Append(Seq<char>),
    Insert(Seq<char>),
    Change(Seq<char>),
    Label(Seq<char>),
    Branch(Option<Seq<char>>),
    BranchIfSub(Option<Seq<char>>),
    BranchIfNotSub(Option<Seq<char>>),
    ReadFile(Seq<char>),
    ReadLine(Seq<char>),
    WriteFile(Seq<char>),
    WriteFirstLine(Seq<char>),
    PrintFileName,
    Execute(Option<Seq<char>>),
    Quit(Option<i32>),
    QuitNoprint(Option<i32>),
    ClearPattern,
    Noop,
    Block(Seq<SedCommandModel>),
}

/// The model of [`crate::command::SedCommand`].
pub struct SedCommandModel {
    pub address: RangeModel,
    pub command: CommandModel,
}

/// Whether every transliteration of a script, those in its blocks among them,
/// maps each of its characters to one.
pub open spec fn transliterations_paired(script: Seq<SedCommandModel>) -> bool
    decreases script,
{
    script.len() > 0 ==> {
        &&& transliterations_paired(script.drop_last())
        &&& command_paired(script.last().command)
    }
}

/// [`transliterations_paired`] for one command.
pub open spec fn command_paired(command: CommandModel) -> bool
    decreases command,
{
    match command {
        CommandModel::Transliterate { from, to } => from.len() <= to.len(),
        CommandModel::Block(block) => transliterations_paired(block),
        _ => true,
    }
}

} // verus!
