//! Compilation: parsed commands become instructions with compiled patterns.

use regex::Error as RegexError;
use vstd::prelude::*;

use crate::command::{
    command_model, lemma_script_model_index, script_model, Address, AddressRange, Command,
    SedCommand,
};
use crate::error::{Error, Result};
use crate::machine::{
    address_patterns, command_patterns, flatten, lower, range_patterns, script_patterns,
    InstructionModel, OpModel,
};
use crate::pattern::{Pattern, PatternModel};
use crate::script::{
    command_paired, transliterations_paired, AddressModel, CommandModel, RangeModel,
    SedCommandModel, SubstituteModel,
};
use crate::text::{copy_text, text_of};

verus! {

// ---------------------------------------------------------------------------
// Compiled command representation
// ---------------------------------------------------------------------------

/// An address with its pattern compiled.
pub enum CompiledAddress {
    Line(usize),
    Last,
    Regex(Pattern),
    Step { first: usize, step: usize },
}

/// The lines that an instruction applies to.
pub enum CompiledAddressRange {
    Every,
    Single { addr: CompiledAddress, negated: bool },
    Range { start: CompiledAddress, end: CompiledAddress, negated: bool },
}

/// The parts of an `s` command with its pattern compiled.
pub struct CompiledSubstitute {
    pub pattern: Pattern,
    pub replacement: String,
    pub global: bool,
    pub print: bool,
    pub nth: Option<usize>,
    pub write_file: Option<String>,
}

/// What an instruction does.
pub enum CompiledCommand {
    ScopeStart,
    ScopeEnd,
    Substitute(CompiledSubstitute),
    Transliterate { from: Vec<char>, to: Vec<char> },
    Print,
    PrintFirstLine,
    PrintLineNumber,
    List,
    Delete,
    DeleteFirstLine,
    Next,
    NextAppend,
    HoldReplace,
    HoldAppend,
    GetReplace,
    GetAppend,
    Exchange,
    Append(String),
    Insert(String),
    Change(String),
    Label(String),
    Branch(Option<String>),
    BranchIfSub(Option<String>),
    BranchIfNotSub(Option<String>),
    ReadFile(String),
    ReadLine(String),
    WriteFile(String),
    PrintFileName,
    Execute(Option<String>),
    Quit(Option<i32>),
    QuitNoprint(Option<i32>),
    ClearPattern,
    Noop,
}

/// An instruction.
pub struct CompiledSedCommand {
    pub address: CompiledAddressRange,
    pub command: CompiledCommand,
}

impl View for CompiledAddress {
    type V = AddressModel;

    open spec fn view(&self) -> AddressModel {
        match *self {
            CompiledAddress::Line(n) => AddressModel::Line(n),
            CompiledAddress::Last => AddressModel::Last,
            CompiledAddress::Regex(pattern) => AddressModel::Regex(pattern@.source),
            CompiledAddress::Step { first, step } => AddressModel::Step { first, step },
        }
    }
}

impl View for CompiledAddressRange {
    type V = RangeModel;

    open spec fn view(&self) -> RangeModel {
        match *self {
            CompiledAddressRange::Every => RangeModel::Every,
            CompiledAddressRange::Single { addr, negated } => RangeModel::Single {
                addr: addr@,
                negated,
            },
            CompiledAddressRange::Range { start, end, negated } => RangeModel::Range {
                start: start@,
                end: end@,
                negated,
            },
        }
    }
}

impl View for CompiledSubstitute {
    type V = SubstituteModel;

    open spec fn view(&self) -> SubstituteModel {
        SubstituteModel {
            pattern: self.pattern@.source,
            replacement: self.replacement@,
            global: self.global,
            print: self.print,
            nth: self.nth,
            case_insensitive: self.pattern@.case_insensitive,
            write_file: text_of(self.write_file),
        }
    }
}

impl View for CompiledCommand {
    type V = OpModel;

    open spec fn view(&self) -> OpModel {
        match *self {
            CompiledCommand::ScopeStart => OpModel::ScopeStart,
            CompiledCommand::ScopeEnd => OpModel::ScopeEnd,
            CompiledCommand::Substitute(sub) => OpModel::Do(CommandModel::Substitute(sub@)),
            CompiledCommand::Transliterate { from, to } => OpModel::Do(
                CommandModel::Transliterate { from: from@, to: to@ },
            ),
            CompiledCommand::Print => OpModel::Do(CommandModel::Print),
            CompiledCommand::PrintFirstLine => OpModel::Do(CommandModel::PrintFirstLine),
            CompiledCommand::PrintLineNumber => OpModel::Do(CommandModel::PrintLineNumber),
            CompiledCommand::List => OpModel::Do(CommandModel::List),
            CompiledCommand::Delete => OpModel::Do(CommandModel::Delete),
            CompiledCommand::DeleteFirstLine => OpModel::Do(CommandModel::DeleteFirstLine),
            CompiledCommand::Next => OpModel::Do(CommandModel::Next),
            CompiledCommand::NextAppend => OpModel::Do(CommandModel::NextAppend),
            CompiledCommand::HoldReplace => OpModel::Do(CommandModel::HoldReplace),
            CompiledCommand::HoldAppend => OpModel::Do(CommandModel::HoldAppend),
            CompiledCommand::GetReplace => OpModel::Do(CommandModel::GetReplace),
            CompiledCommand::GetAppend => OpModel::Do(CommandModel::GetAppend),
            CompiledCommand::Exchange => OpModel::Do(CommandModel::Exchange),
            CompiledCommand::Append(text) => OpModel::Do(CommandModel::Append(text@)),
            CompiledCommand::Insert(text) => OpModel::Do(CommandModel::Insert(text@)),
            CompiledCommand::Change(text) => OpModel::Do(CommandModel::Change(text@)),
            CompiledCommand::Label(name) => OpModel::Do(CommandModel::Label(name@)),
            CompiledCommand::Branch(label) => OpModel::Do(CommandModel::Branch(text_of(label))),
            CompiledCommand::BranchIfSub(label) => OpModel::Do(
                CommandModel::BranchIfSub(text_of(label)),
            ),
            CompiledCommand::BranchIfNotSub(label) => OpModel::Do(
                CommandModel::BranchIfNotSub(text_of(label)),
            ),
            CompiledCommand::ReadFile(path) => OpModel::Do(CommandModel::ReadFile(path@)),
            CompiledCommand::ReadLine(path) => OpModel::Do(CommandModel::ReadLine(path@)),
            CompiledCommand::WriteFile(path) => OpModel::Do(CommandModel::WriteFile(path@)),
            CompiledCommand::PrintFileName => OpModel::Do(CommandModel::PrintFileName),
            CompiledCommand::Execute(command) => OpModel::Do(
                CommandModel::Execute(text_of(command)),
            ),
            CompiledCommand::Quit(code) => OpModel::Do(CommandModel::Quit(code)),
            CompiledCommand::QuitNoprint(code) => OpModel::Do(CommandModel::QuitNoprint(code)),
            CompiledCommand::ClearPattern => OpModel::Do(CommandModel::ClearPattern),
            CompiledCommand::Noop => OpModel::Do(CommandModel::Noop),
        }
    }
}

impl View for CompiledSedCommand {
    type V = InstructionModel;

    open spec fn view(&self) -> InstructionModel {
        InstructionModel { address: self.address@, op: self.command@ }
    }
}

/// The model of a program.
pub open spec fn program_model(program: Seq<CompiledSedCommand>) -> Seq<InstructionModel> {
    program.map_values(|instruction: CompiledSedCommand| instruction@)
}

impl CompiledAddress {
    /// Case counts in the pattern.
    pub open spec fn wf(self) -> bool {
        self matches CompiledAddress::Regex(pattern) ==> !pattern@.case_insensitive
    }
}

impl CompiledAddressRange {
    pub open spec fn wf(self) -> bool {
        match self {
            CompiledAddressRange::Every => true,
            CompiledAddressRange::Single { addr, .. } => addr.wf(),
            CompiledAddressRange::Range { start, end, .. } => start.wf() && end.wf(),
        }
    }
}

impl CompiledCommand {
    /// A transliteration has a character for each character.
    pub open spec fn wf(self) -> bool {
        self matches CompiledCommand::Transliterate { from, to } ==> from@.len() <= to@.len()
    }
}

impl CompiledSedCommand {
    pub open spec fn wf(self) -> bool {
        self.address.wf() && self.command.wf()
    }
}

/// Every instruction of a program is well-formed.
pub open spec fn program_wf(program: Seq<CompiledSedCommand>) -> bool {
    forall|i: int| 0 <= i < program.len() ==> (#[trigger] program[i]).wf()
}

// ---------------------------------------------------------------------------
// Patterns that are refused
// ---------------------------------------------------------------------------

/// Why the first of the patterns that cannot be compiled cannot be.
pub open spec fn first_rejection(patterns: Seq<PatternModel>) -> Option<RegexError>
    decreases patterns.len(),
{
    if patterns.len() == 0 {
        None
    } else {
        match first_rejection(patterns.drop_last()) {
            Some(e) => Some(e),
            None => match patterns.last().build() {
                Ok(_) => None,
                Err(e) => Some(e),
            },
        }
    }
}

pub proof fn lemma_first_rejection_add(a: Seq<PatternModel>, b: Seq<PatternModel>)
    ensures
        first_rejection(a + b) == (match first_rejection(a) {
            Some(e) => Some(e),
            None => first_rejection(b),
        }),
    decreases b.len(),
{
    if b.len() == 0 {
        assert(a + b =~= a);
    } else {
        lemma_first_rejection_add(a, b.drop_last());
        assert((a + b).drop_last() =~= a + b.drop_last());
        assert((a + b).last() == b.last());
    }
}

proof fn lemma_paired_index(script: Seq<SedCommandModel>, i: int)
    requires
        transliterations_paired(script),
        0 <= i < script.len(),
    ensures
        command_paired(script[i].command),
    decreases script.len(),
{
    if i < script.len() - 1 {
        lemma_paired_index(script.drop_last(), i);
        assert(script.drop_last()[i] == script[i]);
    }
}

proof fn lemma_program_push(program: Seq<CompiledSedCommand>, instruction: CompiledSedCommand)
    ensures
        program_model(program.push(instruction)) == program_model(program).push(instruction@),
        program_wf(program) && instruction.wf() ==> program_wf(program.push(instruction)),
{
    assert(program_model(program.push(instruction)) =~= program_model(program).push(
        instruction@,
    ));
}

// ---------------------------------------------------------------------------
// Compilation
// ---------------------------------------------------------------------------

/// What compiling a script gives: its instructions, or why a pattern was
/// refused.
pub open spec fn compiled(
    script: Seq<SedCommandModel>,
    r: Result<Seq<InstructionModel>>,
) -> bool {
    match first_rejection(script_patterns(script)) {
        Some(e) => r == Err::<Seq<InstructionModel>, _>(Error::Regex(e)),
        None => r == Ok::<_, Error>(flatten(script)),
    }
}

/// Compile the commands of a script.
pub fn compile_commands(parsed: &Vec<SedCommand>) -> (r: Result<Vec<CompiledSedCommand>>)
    requires
        transliterations_paired(script_model(parsed@)),
    ensures
        match r {
            Ok(program) => {
                &&& compiled(script_model(parsed@), Ok(program_model(program@)))
                &&& program_wf(program@)
            },
            Err(e) => compiled(script_model(parsed@), Err(e)),
        },
{
    let mut program: Vec<CompiledSedCommand> = Vec::new();
    match flatten_and_compile(parsed, &mut program) {
        Ok(()) => {
            assert(program_model(program@) =~= flatten(script_model(parsed@)));
            Ok(program)
        },
        Err(e) => Err(Error::Regex(e)),
    }
}

/// Append the instructions of some commands to a program.
fn flatten_and_compile(
    commands: &Vec<SedCommand>,
    program: &mut Vec<CompiledSedCommand>,
) -> (r: core::result::Result<(), RegexError>)
    requires
        transliterations_paired(script_model(commands@)),
        program_wf(old(program)@),
    ensures
        program_wf(final(program)@),
        match r {
            Ok(()) => {
                &&& first_rejection(script_patterns(script_model(commands@))) is None
                &&& program_model(final(program)@) == program_model(old(program)@) + flatten(
                    script_model(commands@),
                )
            },
            Err(e) => first_rejection(script_patterns(script_model(commands@))) == Some(e),
        },
    decreases commands,
{
    let ghost script = script_model(commands@);
    let ghost before = program_model(program@);
    let mut i: usize = 0;
    proof {
        lemma_script_model_index(commands@);
        assert(script.take(0) =~= Seq::empty());
        assert(before + flatten(script.take(0)) =~= before);
    }
    while i < commands.len()
        invariant
            i <= commands.len(),
            script == script_model(commands@),
            script.len() == commands.len(),
            forall|k: int| 0 <= k < commands.len() ==> script[k] == (#[trigger] commands@[k])@,
            transliterations_paired(script),
            program_wf(program@),
            first_rejection(script_patterns(script.take(i as int))) is None,
            program_model(program@) == before + flatten(script.take(i as int)),
        decreases commands.len() - i,
    {
        let ghost sofar = program@;
        let ghost patterns = script_patterns(script.take(i as int));
        let command = &commands[i];
        let ghost lowered = lower(script[i as int].address, script[i as int].command);
        let ghost more = command_patterns(script[i as int].address, script[i as int].command);
        proof {
            assert(script[i as int] == commands@[i as int]@);
            assert(script.take(i + 1).drop_last() =~= script.take(i as int));
            assert(script.take(i + 1).last() == script[i as int]);
            lemma_paired_index(script, i as int);
            lemma_first_rejection_add(patterns, more);
            lemma_rejection_of_prefix(script, i + 1);
        }
        match &command.command {
            Command::Block(block) => {
                proof {
                    lemma_first_rejection_add(
                        range_patterns(command.address@),
                        script_patterns(script_model(block@)),
                    );
                }
                let address = match compile_address_range(&command.address) {
                    Ok(address) => address,
                    Err(e) => return Err(e),
                };
                let start = CompiledSedCommand { address, command: CompiledCommand::ScopeStart };
                proof {
                    lemma_program_push(program@, start);
                }
                program.push(start);
                match flatten_and_compile(block, program) {
                    Ok(()) => {},
                    Err(e) => return Err(e),
                }
                let end = CompiledSedCommand {
                    address: CompiledAddressRange::Every,
                    command: CompiledCommand::ScopeEnd,
                };
                proof {
                    lemma_program_push(program@, end);
                }
                program.push(end);
            },
            Command::Label(name) => {
                let label = CompiledSedCommand {
                    address: CompiledAddressRange::Every,
                    command: CompiledCommand::Label(name.clone()),
                };
                proof {
                    lemma_program_push(program@, label);
                }
                program.push(label);
            },
            other => {
                proof {
                    lemma_first_rejection_add(
                        range_patterns(command.address@),
                        single_patterns(command_model(command.command)),
                    );
                    assert(more =~= range_patterns(command.address@) + single_patterns(
                        command_model(command.command),
                    ));
                }
                let address = match compile_address_range(&command.address) {
                    Ok(address) => address,
                    Err(e) => return Err(e),
                };
                let single = match compile_single_command(other) {
                    Ok(single) => single,
                    Err(e) => return Err(e),
                };
                let instruction = CompiledSedCommand { address, command: single };
                proof {
                    lemma_program_push(program@, instruction);
                }
                program.push(instruction);
            },
        }
        assert(program_model(program@) =~= program_model(sofar) + lowered);
        assert(program_model(program@) =~= before + flatten(script.take(i + 1)));
        i = i + 1;
    }
    assert(script.take(i as int) =~= script);
    Ok(())
}

/// A pattern that is refused in the first commands is refused in all of them.
proof fn lemma_rejection_of_prefix(script: Seq<SedCommandModel>, n: int)
    requires
        0 <= n <= script.len(),
    ensures
        first_rejection(script_patterns(script.take(n))) is Some ==> first_rejection(
            script_patterns(script),
        ) == first_rejection(script_patterns(script.take(n))),
    decreases script.len(),
{
    if n == script.len() {
        assert(script.take(n) =~= script);
    } else {
        lemma_rejection_of_prefix(script.drop_last(), n);
        assert(script.drop_last().take(n) =~= script.take(n));
        lemma_first_rejection_add(
            script_patterns(script.drop_last()),
            command_patterns(script.last().address, script.last().command),
        );
    }
}

/// The pattern of a command without its address, if it has one.
spec fn single_patterns(command: CommandModel) -> Seq<PatternModel> {
    match command {
        CommandModel::Substitute(sub) => seq![crate::machine::substitute_pattern(sub)],
        _ => Seq::empty(),
    }
}

/// Compile the patterns of an address or a range of two.
fn compile_address_range(range: &AddressRange) -> (r: core::result::Result<
    CompiledAddressRange,
    RegexError,
>)
    ensures
        match r {
            Ok(address) => {
                &&& first_rejection(range_patterns(range@)) is None
                &&& address@ == range@
                &&& address.wf()
            },
            Err(e) => first_rejection(range_patterns(range@)) == Some(e),
        },
{
    match range {
        AddressRange::Every => Ok(CompiledAddressRange::Every),
        AddressRange::Single { addr, negated } => match compile_address(addr) {
            Ok(addr) => Ok(CompiledAddressRange::Single { addr, negated: *negated }),
            Err(e) => Err(e),
        },
        AddressRange::Range { start, end, negated } => {
            proof {
                lemma_first_rejection_add(address_patterns(start@), address_patterns(end@));
            }
            let start = match compile_address(start) {
                Ok(start) => start,
                Err(e) => return Err(e),
            };
            let end = match compile_address(end) {
                Ok(end) => end,
                Err(e) => return Err(e),
            };
            Ok(CompiledAddressRange::Range { start, end, negated: *negated })
        },
    }
}

/// Compile the pattern of an address.
fn compile_address(addr: &Address) -> (r: core::result::Result<CompiledAddress, RegexError>)
    ensures
        match r {
            Ok(address) => {
                &&& first_rejection(address_patterns(addr@)) is None
                &&& address@ == addr@
                &&& address.wf()
            },
            Err(e) => first_rejection(address_patterns(addr@)) == Some(e),
        },
{
    reveal_with_fuel(first_rejection, 2);
    match addr {
        Address::Line(n) => Ok(CompiledAddress::Line(*n)),
        Address::Last => Ok(CompiledAddress::Last),
        Address::Regex(source) => match Pattern::new(source.as_str(), false) {
            Ok(pattern) => Ok(CompiledAddress::Regex(pattern)),
            Err(e) => Err(e),
        },
        Address::Step { first, step } => Ok(CompiledAddress::Step { first: *first, step: *step }),
    }
}

/// Compile a command that holds no other commands.
fn compile_single_command(command: &Command) -> (r: core::result::Result<
    CompiledCommand,
    RegexError,
>)
    requires
        !(command is Block),
        !(command is Label),
        command_paired(command_model(*command)),
    ensures
        match r {
            Ok(single) => {
                &&& first_rejection(single_patterns(command_model(*command))) is None
                &&& forall|address: RangeModel|
                    #[trigger] lower(address, command_model(*command)) == seq![
                        InstructionModel { address, op: single@ },
                    ]
                &&& single.wf()
            },
            Err(e) => first_rejection(single_patterns(command_model(*command))) == Some(e),
        },
{
    reveal_with_fuel(first_rejection, 2);
    Ok(
        match command {
            Command::Substitute(sub) => match Pattern::new(
                sub.pattern.as_str(),
                sub.case_insensitive,
            ) {
                Ok(pattern) => CompiledCommand::Substitute(
                    CompiledSubstitute {
                        pattern,
                        replacement: sub.replacement.clone(),
                        global: sub.global,
                        print: sub.print,
                        nth: sub.nth,
                        write_file: copy_text(&sub.write_file),
                    },
                ),
                Err(e) => return Err(e),
            },
            Command::Transliterate { from, to } => CompiledCommand::Transliterate {
                from: from.clone(),
                to: to.clone(),
            },
            Command::Print => CompiledCommand::Print,
            Command::PrintFirstLine => CompiledCommand::PrintFirstLine,
            Command::PrintLineNumber => CompiledCommand::PrintLineNumber,
            Command::List => CompiledCommand::List,
            Command::Delete => CompiledCommand::Delete,
            Command::DeleteFirstLine => CompiledCommand::DeleteFirstLine,
            Command::Next => CompiledCommand::Next,
            Command::NextAppend => CompiledCommand::NextAppend,
            Command::HoldReplace => CompiledCommand::HoldReplace,
            Command::HoldAppend => CompiledCommand::HoldAppend,
            Command::GetReplace => CompiledCommand::GetReplace,
            Command::GetAppend => CompiledCommand::GetAppend,
            Command::Exchange => CompiledCommand::Exchange,
            Command::Append(text) => CompiledCommand::Append(text.clone()),
            Command::Insert(text) => CompiledCommand::Insert(text.clone()),
            Command::Change(text) => CompiledCommand::Change(text.clone()),
            Command::Label(name) => CompiledCommand::Label(name.clone()),
            Command::Branch(label) => CompiledCommand::Branch(copy_text(label)),
            Command::BranchIfSub(label) => CompiledCommand::BranchIfSub(copy_text(label)),
            Command::BranchIfNotSub(label) => CompiledCommand::BranchIfNotSub(copy_text(label)),
            Command::ReadFile(path) => CompiledCommand::ReadFile(path.clone()),
            Command::ReadLine(path) => CompiledCommand::ReadLine(path.clone()),
            Command::WriteFile(path) => CompiledCommand::WriteFile(path.clone()),
            Command::WriteFirstLine(path) => CompiledCommand::WriteFile(path.clone()),
            Command::PrintFileName => CompiledCommand::PrintFileName,
            Command::Execute(shell) => CompiledCommand::Execute(copy_text(shell)),
            Command::Quit(code) => CompiledCommand::Quit(*code),
            Command::QuitNoprint(code) => CompiledCommand::QuitNoprint(*code),
            Command::ClearPattern => CompiledCommand::ClearPattern,
            Command::Noop => CompiledCommand::Noop,
            // Blocks are flattened before this point.
            Command::Block(_) => CompiledCommand::Noop,
        },
    )
}

} // verus!
