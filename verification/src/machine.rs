//! What running a script means.
//!
//! A script runs as a sequence of instructions over a state. The state stops
//! where it needs something from outside: the next line, a file, the shell.

use vstd::prelude::*;

use crate::listing::listed;
use crate::pattern::PatternModel;
use crate::script::{AddressModel, CommandModel, RangeModel, SedCommandModel, SubstituteModel};
use crate::substitute::substitution;
use crate::text::{decimal, newline_index, without_trailing_space};

verus! {

// ---------------------------------------------------------------------------
// Programs
// ---------------------------------------------------------------------------

/// What an instruction does.
pub enum OpModel {
    /// Enter a block.
    ScopeStart,
    /// Leave a block.
    ScopeEnd,
    /// Carry out a command.
    Do(CommandModel),
}

/// An instruction and the lines it applies to.
pub struct InstructionModel {
    pub address: RangeModel,
    pub op: OpModel,
}

/// The instructions of a script: its commands in order, each block between the
/// instructions that enter and leave it.
pub open spec fn flatten(script: Seq<SedCommandModel>) -> Seq<InstructionModel>
    decreases script,
{
    if script.len() == 0 {
        Seq::empty()
    } else {
        flatten(script.drop_last()) + lower(script.last().address, script.last().command)
    }
}

/// The instructions of one command.
///
/// A label stands on every line, whatever address is written in front of it. `W`
/// writes as `w` does.
pub open spec fn lower(address: RangeModel, command: CommandModel) -> Seq<InstructionModel>
    decreases command,
{
    match command {
        CommandModel::Block(block) => seq![
            InstructionModel { address, op: OpModel::ScopeStart },
        ] + flatten(block) + seq![
            InstructionModel { address: RangeModel::Every, op: OpModel::ScopeEnd },
        ],
        CommandModel::Label(_) => seq![
            InstructionModel { address: RangeModel::Every, op: OpModel::Do(command) },
        ],
        CommandModel::WriteFirstLine(path) => seq![
            InstructionModel { address, op: OpModel::Do(CommandModel::WriteFile(path)) },
        ],
        _ => seq![InstructionModel { address, op: OpModel::Do(command) }],
    }
}

/// The patterns of a script, in the order in which they stand. Those in the
/// address of a label are left out.
pub open spec fn script_patterns(script: Seq<SedCommandModel>) -> Seq<PatternModel>
    decreases script,
{
    if script.len() == 0 {
        Seq::empty()
    } else {
        script_patterns(script.drop_last()) + command_patterns(
            script.last().address,
            script.last().command,
        )
    }
}

/// The patterns of one command.
pub open spec fn command_patterns(address: RangeModel, command: CommandModel) -> Seq<PatternModel>
    decreases command,
{
    match command {
        CommandModel::Block(block) => range_patterns(address) + script_patterns(block),
        CommandModel::Label(_) => Seq::empty(),
        CommandModel::Substitute(sub) => range_patterns(address).push(substitute_pattern(sub)),
        _ => range_patterns(address),
    }
}

/// The pattern of an `s` command.
pub open spec fn substitute_pattern(sub: SubstituteModel) -> PatternModel {
    PatternModel { source: sub.pattern, case_insensitive: sub.case_insensitive }
}

/// The patterns of an address or a range of two.
pub open spec fn range_patterns(range: RangeModel) -> Seq<PatternModel> {
    match range {
        RangeModel::Every => Seq::empty(),
        RangeModel::Single { addr, .. } => address_patterns(addr),
        RangeModel::Range { start, end, .. } => address_patterns(start) + address_patterns(end),
    }
}

/// The pattern of an address, if it has one.
pub open spec fn address_patterns(addr: AddressModel) -> Seq<PatternModel> {
    match addr {
        AddressModel::Regex(source) => seq![address_pattern(source)],
        _ => Seq::empty(),
    }
}

/// The pattern of an address: case always counts.
pub open spec fn address_pattern(source: Seq<char>) -> PatternModel {
    PatternModel { source, case_insensitive: false }
}

/// The place of the last of the first `n` instructions that is the label
/// `name`.
pub open spec fn label_index(program: Seq<InstructionModel>, name: Seq<char>, n: int) -> Option<int>
    decreases n,
{
    if n <= 0 {
        None
    } else if program[n - 1].op == OpModel::Do(CommandModel::Label(name)) {
        Some(n - 1)
    } else {
        label_index(program, name, n - 1)
    }
}

/// The place after the end of the block that `i` lies in, `depth` blocks
/// inside it.
pub open spec fn after_block(program: Seq<InstructionModel>, i: int, depth: nat) -> int
    decreases program.len() - i,
{
    if !(0 <= i < program.len()) {
        i
    } else {
        match program[i].op {
            OpModel::ScopeStart => after_block(program, i + 1, depth + 1),
            OpModel::ScopeEnd => if depth == 0 {
                i + 1
            } else {
                after_block(program, i + 1, (depth - 1) as nat)
            },
            OpModel::Do(_) => after_block(program, i + 1, depth),
        }
    }
}

// ---------------------------------------------------------------------------
// States
// ---------------------------------------------------------------------------

/// How lines are printed.
#[derive(Clone, Copy)]
pub struct Config {
    /// No automatic printing
    pub quiet: bool,
    /// Lines end in NUL in place of newline.
    pub null_data: bool,
}

/// What the next line is for.
#[derive(Clone, Copy, Debug)]
pub enum LineUse {
    /// A new cycle
    Cycle,
    /// The `n` command
    Next,
    /// The `N` command
    NextAppend,
}

/// What a state is about to do, or waits for.
pub enum StatusModel {
    /// Carry out the next instruction, or end the cycle.
    Ready,
    /// Read the next line.
    AwaitLine(LineUse),
    /// Read a whole file.
    AwaitFile(Seq<char>),
    /// Read the next line of a file.
    AwaitFileLine(Seq<char>),
    /// Run a shell command; its output replaces the pattern space, or is printed.
    AwaitShell { command: Seq<char>, replace: bool },
    /// Append text to a file.
    AwaitAppend { path: Seq<char>, text: Seq<char> },
    /// The script has ended with this exit status.
    Finished(i32),
}

/// The state of a run.
#[verifier::ext_equal]
pub struct Snapshot {
    /// The instruction that comes next
    pub pc: int,
    /// The number of the current line; the first is 1
    pub line_number: nat,
    pub is_last_line: bool,
    pub pattern_space: Seq<char>,
    pub hold_space: Seq<char>,
    /// What is printed at the end of the cycle
    pub append_queue: Seq<Seq<char>>,
    /// Whether a substitution was made that no `t` has asked for
    pub last_sub_success: bool,
    /// For each instruction, whether its range is open
    pub range_active: Seq<bool>,
    pub file_name: Seq<char>,
    /// What was printed
    pub out: Seq<char>,
    pub status: StatusModel,
}

impl Snapshot {
    /// The state before the first line.
    pub open spec fn initial(program: Seq<InstructionModel>) -> Snapshot {
        Snapshot {
            pc: 0,
            line_number: 0,
            is_last_line: false,
            pattern_space: Seq::empty(),
            hold_space: Seq::empty(),
            append_queue: Seq::empty(),
            last_sub_success: false,
            range_active: Seq::new(program.len(), |i: int| false),
            file_name: seq!['-'],
            out: Seq::empty(),
            status: StatusModel::AwaitLine(LineUse::Cycle),
        }
    }

    /// The state with more text printed.
    pub open spec fn print(self, text: Seq<char>) -> Snapshot {
        Snapshot { out: self.out + text, ..self }
    }

    /// The state at another instruction.
    pub open spec fn go(self, pc: int) -> Snapshot {
        Snapshot { pc, ..self }
    }

    /// The state at the next instruction.
    pub open spec fn next(self) -> Snapshot {
        self.go(self.pc + 1)
    }

    /// The state with another status.
    pub open spec fn with(self, status: StatusModel) -> Snapshot {
        Snapshot { status, ..self }
    }

    /// The state with another pattern space.
    pub open spec fn holding(self, pattern_space: Seq<char>) -> Snapshot {
        Snapshot { pattern_space, ..self }
    }
}

// ---------------------------------------------------------------------------
// Printing
// ---------------------------------------------------------------------------

/// The character that ends a printed line.
pub open spec fn terminator(config: Config) -> char {
    if config.null_data {
        '\0'
    } else {
        '\n'
    }
}

/// A printed line.
pub open spec fn line(config: Config, text: Seq<char>) -> Seq<char> {
    text.push(terminator(config))
}

/// Printed lines.
pub open spec fn lines(config: Config, texts: Seq<Seq<char>>) -> Seq<char>
    decreases texts.len(),
{
    if texts.len() == 0 {
        Seq::empty()
    } else {
        lines(config, texts.drop_last()) + line(config, texts.last())
    }
}

/// The first line is printed first.
pub proof fn lemma_lines_first(config: Config, texts: Seq<Seq<char>>)
    requires
        texts.len() > 0,
    ensures
        lines(config, texts) == line(config, texts[0]) + lines(config, texts.drop_first()),
    decreases texts.len(),
{
    if texts.len() == 1 {
        assert(texts.drop_last() =~= Seq::empty());
        assert(texts.drop_first() =~= Seq::empty());
        assert(lines(config, texts) =~= line(config, texts[0]) + lines(
            config,
            texts.drop_first(),
        ));
    } else {
        lemma_lines_first(config, texts.drop_last());
        assert(texts.drop_last().drop_first() =~= texts.drop_first().drop_last());
        assert(texts.drop_last()[0] == texts[0]);
        assert(texts.drop_first().last() == texts.last());
        assert(lines(config, texts) =~= line(config, texts[0]) + lines(
            config,
            texts.drop_first(),
        ));
    }
}

/// The automatic printing of the pattern space.
pub open spec fn autoprint(config: Config, s: Snapshot) -> Seq<char> {
    if config.quiet {
        Seq::empty()
    } else {
        line(config, s.pattern_space)
    }
}

// ---------------------------------------------------------------------------
// Addresses
// ---------------------------------------------------------------------------

/// Whether an address selects the current line.
pub open spec fn address_selects(addr: AddressModel, s: Snapshot) -> bool {
    match addr {
        AddressModel::Line(n) => s.line_number == n,
        AddressModel::Last => s.is_last_line,
        AddressModel::Regex(source) => address_pattern(source).finds(s.pattern_space),
        AddressModel::Step { first, step } => if step == 0 {
            s.line_number == first
        } else {
            s.line_number >= first && (s.line_number - first) % step as int == 0
        },
    }
}

/// Whether the end of a range is a line number that has been reached when the
/// range starts. No other end is looked at on the line on which a range starts.
pub open spec fn ends_at_start(end: AddressModel, s: Snapshot) -> bool {
    end matches AddressModel::Line(n) && n <= s.line_number
}

/// Whether the range of the instruction at `s.pc` is open.
pub open spec fn is_active(s: Snapshot) -> bool {
    0 <= s.pc < s.range_active.len() && s.range_active[s.pc]
}

/// Whether a range, before it is negated, selects the current line, and
/// whether it is open afterwards.
pub open spec fn range_selects(
    start: AddressModel,
    end: AddressModel,
    s: Snapshot,
) -> (bool, bool) {
    if is_active(s) {
        (true, !address_selects(end, s))
    } else if address_selects(start, s) {
        (true, !ends_at_start(end, s))
    } else {
        (false, false)
    }
}

/// Whether the instruction at `s.pc` applies to the current line.
pub open spec fn selects(range: RangeModel, s: Snapshot) -> bool {
    match range {
        RangeModel::Every => true,
        RangeModel::Single { addr, negated } => address_selects(addr, s) != negated,
        RangeModel::Range { start, end, negated } => range_selects(start, end, s).0 != negated,
    }
}

/// The state after the address of the instruction at `s.pc` was looked at.
pub open spec fn looked(range: RangeModel, s: Snapshot) -> Snapshot {
    match range {
        RangeModel::Range { start, end, .. } => if 0 <= s.pc < s.range_active.len() {
            Snapshot {
                range_active: s.range_active.update(s.pc, range_selects(start, end, s).1),
                ..s
            }
        } else {
            s
        },
        _ => s,
    }
}

// ---------------------------------------------------------------------------
// Commands
// ---------------------------------------------------------------------------

/// What the character `c` becomes, by the pairs from number `i` on. The first
/// pair that fits counts.
pub open spec fn paired(from: Seq<char>, to: Seq<char>, c: char, i: int) -> char
    decreases from.len() - i,
{
    if !(0 <= i < from.len()) {
        c
    } else if from[i] == c {
        to[i]
    } else {
        paired(from, to, c, i + 1)
    }
}

/// What a transliteration makes of a text.
pub open spec fn transliterated(from: Seq<char>, to: Seq<char>, text: Seq<char>) -> Seq<char> {
    text.map_values(|c: char| paired(from, to, c, 0))
}

/// The text before its first newline, or all of it.
pub open spec fn first_line(text: Seq<char>) -> Seq<char> {
    match newline_index(text, 0) {
        Some(i) => text.subrange(0, i),
        None => text,
    }
}

/// The exit status that a `q` or `Q` gives.
pub open spec fn exit_code(code: Option<i32>) -> i32 {
    match code {
        Some(n) => n,
        None => 0,
    }
}

/// The state after a jump to a label: at the label, or behind the last
/// instruction where there is no such label.
pub open spec fn jump(
    program: Seq<InstructionModel>,
    label: Option<Seq<char>>,
    s: Snapshot,
) -> Snapshot {
    match label {
        Some(name) => match label_index(program, name, program.len() as int) {
            Some(target) => s.go(target),
            None => s.go(program.len() as int),
        },
        None => s.go(program.len() as int),
    }
}

/// The end of a cycle without automatic printing: what was queued is printed.
pub open spec fn drop_cycle(config: Config, s: Snapshot) -> Snapshot {
    s.print(lines(config, s.append_queue)).with(StatusModel::AwaitLine(LineUse::Cycle))
}

/// The start of the script on what the pattern space holds.
pub open spec fn restart(s: Snapshot) -> Snapshot {
    Snapshot { pc: 0, append_queue: Seq::empty(), last_sub_success: false, ..s }
}

/// What a command does.
pub open spec fn perform(
    config: Config,
    program: Seq<InstructionModel>,
    command: CommandModel,
    s: Snapshot,
) -> Snapshot {
    match command {
        CommandModel::Substitute(sub) => match substitution(
            substitute_pattern(sub),
            s.pattern_space,
            sub.replacement,
            sub.global,
            sub.nth,
        ) {
            Some(new) => made_substitution(
                config,
                sub,
                Snapshot { last_sub_success: true, ..s.holding(new) },
            ),
            None => s.next(),
        },
        CommandModel::Transliterate { from, to } => s.holding(
            transliterated(from, to, s.pattern_space),
        ).next(),
        CommandModel::Print => s.print(line(config, s.pattern_space)).next(),
        CommandModel::PrintFirstLine => s.print(line(config, first_line(s.pattern_space))).next(),
        CommandModel::PrintLineNumber => s.print(line(config, decimal(s.line_number))).next(),
        CommandModel::List => s.print(line(config, listed(s.pattern_space).push('$'))).next(),
        CommandModel::Delete => drop_cycle(config, s),
        CommandModel::DeleteFirstLine => match newline_index(s.pattern_space, 0) {
            Some(i) => restart(
                s.holding(s.pattern_space.subrange(i + 1, s.pattern_space.len() as int)),
            ),
            None => drop_cycle(config, s),
        },
        CommandModel::Next => s.print(
            autoprint(config, s) + lines(config, s.append_queue),
        ).next().with(StatusModel::AwaitLine(LineUse::Next)),
        CommandModel::NextAppend => s.next().with(StatusModel::AwaitLine(LineUse::NextAppend)),
        CommandModel::HoldReplace => Snapshot { hold_space: s.pattern_space, ..s }.next(),
        CommandModel::HoldAppend => Snapshot {
            hold_space: s.hold_space.push('\n') + s.pattern_space,
            ..s
        }.next(),
        CommandModel::GetReplace => s.holding(s.hold_space).next(),
        CommandModel::GetAppend => s.holding(s.pattern_space.push('\n') + s.hold_space).next(),
        CommandModel::Exchange => Snapshot {
            hold_space: s.pattern_space,
            ..s.holding(s.hold_space)
        }.next(),
        CommandModel::Append(text) => Snapshot {
            append_queue: s.append_queue.push(text),
            ..s
        }.next(),
        CommandModel::Insert(text) => s.print(line(config, text)).next(),
        CommandModel::Change(text) => drop_cycle(config, s.print(line(config, text))),
        CommandModel::Branch(label) => jump(program, label, s),
        CommandModel::BranchIfSub(label) => if s.last_sub_success {
            jump(program, label, Snapshot { last_sub_success: false, ..s })
        } else {
            s.next()
        },
        CommandModel::BranchIfNotSub(label) => if s.last_sub_success {
            s.next()
        } else {
            jump(program, label, s)
        },
        CommandModel::ReadFile(path) => s.next().with(StatusModel::AwaitFile(path)),
        CommandModel::ReadLine(path) => s.next().with(StatusModel::AwaitFileLine(path)),
        CommandModel::WriteFile(path) | CommandModel::WriteFirstLine(path) => s.next().with(
            StatusModel::AwaitAppend { path, text: s.pattern_space.push('\n') },
        ),
        CommandModel::PrintFileName => s.print(line(config, s.file_name)).next(),
        CommandModel::Execute(Some(command)) => s.next().with(
            StatusModel::AwaitShell { command, replace: false },
        ),
        CommandModel::Execute(None) => s.next().with(
            StatusModel::AwaitShell { command: s.pattern_space, replace: true },
        ),
        CommandModel::Quit(code) => s.print(
            autoprint(config, s) + lines(config, s.append_queue),
        ).with(StatusModel::Finished(exit_code(code))),
        CommandModel::QuitNoprint(code) => s.with(StatusModel::Finished(exit_code(code))),
        CommandModel::ClearPattern => s.holding(Seq::empty()).next(),
        CommandModel::Label(_) | CommandModel::Noop | CommandModel::Block(_) => s.next(),
    }
}

/// What follows a substitution that was made.
pub open spec fn made_substitution(config: Config, sub: SubstituteModel, s: Snapshot) -> Snapshot {
    let printed = if sub.print {
        s.print(line(config, s.pattern_space)).next()
    } else {
        s.next()
    };
    match sub.write_file {
        Some(path) => printed.with(
            StatusModel::AwaitAppend { path, text: s.pattern_space.push('\n') },
        ),
        None => printed,
    }
}

// ---------------------------------------------------------------------------
// Steps
// ---------------------------------------------------------------------------

/// One step of a state that is ready: the next instruction, or the end of the
/// cycle.
pub open spec fn step(config: Config, program: Seq<InstructionModel>, s: Snapshot) -> Snapshot {
    if !(0 <= s.pc < program.len()) {
        drop_cycle(config, s.print(autoprint(config, s)))
    } else {
        let instruction = program[s.pc];
        match instruction.op {
            OpModel::ScopeStart => if selects(instruction.address, s) {
                looked(instruction.address, s).next()
            } else {
                looked(instruction.address, s).go(after_block(program, s.pc + 1, 0))
            },
            OpModel::ScopeEnd => s.next(),
            OpModel::Do(command) => if selects(instruction.address, s) {
                perform(config, program, command, looked(instruction.address, s))
            } else {
                looked(instruction.address, s).next()
            },
        }
    }
}

/// The state after the line that it waited for, or the end of the input, has
/// come. With the line comes whether it is the last.
pub open spec fn with_line(
    config: Config,
    s: Snapshot,
    next: Option<(Seq<char>, bool)>,
) -> Snapshot {
    match s.status {
        StatusModel::AwaitLine(purpose) => match next {
            Some((text, is_last_line)) => {
                let read = Snapshot {
                    line_number: s.line_number + 1,
                    is_last_line,
                    status: StatusModel::Ready,
                    ..s
                };
                match purpose {
                    LineUse::Cycle => restart(read.holding(text)),
                    LineUse::Next => read.holding(text),
                    LineUse::NextAppend => read.holding(s.pattern_space.push('\n') + text),
                }
            },
            None => match purpose {
                LineUse::Cycle | LineUse::Next => s.with(StatusModel::Finished(0)),
                LineUse::NextAppend => s.print(autoprint(config, s)).with(
                    StatusModel::Finished(0),
                ),
            },
        },
        _ => s,
    }
}

/// The state after the file that it waited for has been read, if it could be.
/// What stands in the file is queued without the white space at its end.
pub open spec fn with_file(s: Snapshot, content: Option<Seq<char>>) -> Snapshot {
    with_file_line(
        s,
        match content {
            Some(text) => Some(without_trailing_space(text)),
            None => None,
        },
    )
}

/// The state after the line of a file that it waited for has been read, if
/// there was one more. The line is queued.
pub open spec fn with_file_line(s: Snapshot, text: Option<Seq<char>>) -> Snapshot {
    let ready = s.with(StatusModel::Ready);
    match text {
        Some(text) => Snapshot { append_queue: s.append_queue.push(text), ..ready },
        None => ready,
    }
}

/// The text without one newline at its end.
pub open spec fn without_newline(text: Seq<char>) -> Seq<char> {
    if text.len() > 0 && text.last() == '\n' {
        text.drop_last()
    } else {
        text
    }
}

/// The state after the shell command that it waited for has run.
pub open spec fn with_shell_output(s: Snapshot, output: Seq<char>) -> Snapshot {
    match s.status {
        StatusModel::AwaitShell { replace: true, .. } => s.holding(without_newline(output)),
        _ => s.print(output),
    }.with(StatusModel::Ready)
}

// ---------------------------------------------------------------------------
// Runs
// ---------------------------------------------------------------------------

/// What is left of the input: the lines up to the first that is not UTF-8, and
/// whether there is such a line.
#[verifier::ext_equal]
pub struct Source {
    pub lines: Seq<Seq<char>>,
    pub broken: bool,
}

impl Source {
    /// Whether the next line cannot be read. Each line is read together with the
    /// one after it, to know whether it is the last.
    pub open spec fn fails(self) -> bool {
        self.broken && self.lines.len() == 1
    }

    /// The next line and whether it is the last, or the end of the input.
    pub open spec fn next(self) -> Option<(Seq<char>, bool)> {
        if self.lines.len() == 0 {
            None
        } else {
            Some((self.lines[0], self.lines.len() == 1))
        }
    }

    /// What is left after the next line.
    pub open spec fn rest(self) -> Source {
        if self.lines.len() == 0 {
            self
        } else {
            Source { lines: self.lines.drop_first(), ..self }
        }
    }
}

/// How a run ends.
pub enum Ending {
    /// With this exit status, when this was printed.
    Finished(i32, Seq<char>),
    /// At a line that is not UTF-8.
    Broken,
    /// At a command that needs this file or this shell command.
    External(Seq<char>),
    /// Not within the steps that were looked at.
    Unfinished,
}

/// How a run ends that only the input is given to, within so many steps.
pub open spec fn ending(
    config: Config,
    program: Seq<InstructionModel>,
    source: Source,
    s: Snapshot,
    steps: nat,
) -> Ending
    decreases steps,
{
    match s.status {
        StatusModel::Finished(code) => Ending::Finished(code, s.out),
        StatusModel::AwaitFile(name)
        | StatusModel::AwaitFileLine(name)
        | StatusModel::AwaitShell { command: name, .. }
        | StatusModel::AwaitAppend { path: name, .. } => Ending::External(name),
        StatusModel::AwaitLine(_) => if steps == 0 {
            Ending::Unfinished
        } else if source.fails() {
            Ending::Broken
        } else {
            ending(
                config,
                program,
                source.rest(),
                with_line(config, s, source.next()),
                (steps - 1) as nat,
            )
        },
        StatusModel::Ready => if steps == 0 {
            Ending::Unfinished
        } else {
            ending(config, program, source, step(config, program, s), (steps - 1) as nat)
        },
    }
}

/// How a script ends on an input, however many steps that takes. A run that
/// never ends is `Unfinished`.
pub open spec fn outcome(
    config: Config,
    program: Seq<InstructionModel>,
    source: Source,
) -> Ending {
    let start = Snapshot::initial(program);
    ending(
        config,
        program,
        source,
        start,
        choose|n: nat| !(#[trigger] ending(config, program, source, start, n) is Unfinished),
    )
}

} // verus!
