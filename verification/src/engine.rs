//! The execution engine.
//!
//! Compiles parsed commands into instructions with compiled patterns, then
//! processes input line by line in cycles:
//!   1. Read a line into the pattern space
//!   2. Execute all commands
//!   3. Unless quiet, print the pattern space
//!   4. Flush any queued output (from a, r, etc.)
//!
//! The engine does no input and output of its own. A [`State`] that needs
//! something from outside says so in its [`Status`], and is given it.

use vstd::prelude::*;

use crate::cli::Options;
use crate::command::{script_model, SedCommand};
use crate::error::{Error, Result};
use crate::input::{replaced_text, source, text_from_utf8_lossy, Lines};
use crate::laws::{law_step_keeps_the_line, lemma_ended};
use crate::listing::list_escape;
use crate::machine;
use crate::machine::{
    address_selects, after_block, autoprint, drop_cycle, ending, ends_at_start, jump, label_index,
    line, lines, looked, outcome, paired, perform, selects, transliterated, with_file,
    with_file_line, with_line, with_shell_output, without_newline, Config, Ending,
    InstructionModel, LineUse, Snapshot, StatusModel,
};
use crate::program::{
    compile_commands, compiled, program_model, program_wf, CompiledAddress, CompiledAddressRange,
    CompiledCommand, CompiledSedCommand, CompiledSubstitute,
};
use crate::script::{transliterations_paired, CommandModel};
use crate::substitute::apply_substitution;
use crate::text::{
    char_vec, find_newline, lemma_texts_push, same_text, string_of, text_of, texts, trim_end,
    write_decimal,
};

verus! {

broadcast use lemma_texts_push;

// ---------------------------------------------------------------------------
// State
// ---------------------------------------------------------------------------

/// What a state is about to do, or waits for.
#[derive(Debug)]
pub enum Status {
    /// Carry out the next instruction, or end the cycle.
    Ready,
    /// Read the next line.
    AwaitLine(LineUse),
    /// Read a whole file.
    AwaitFile(String),
    /// Read the next line of a file.
    AwaitFileLine(String),
    /// Run a shell command; its output replaces the pattern space, or is printed.
    AwaitShell { command: String, replace: bool },
    /// Append text to a file.
    AwaitAppend { path: String, text: String },
    /// The script has ended with this exit status.
    Finished(i32),
}

impl View for Status {
    type V = StatusModel;

    open spec fn view(&self) -> StatusModel {
        match *self {
            Status::Ready => StatusModel::Ready,
            Status::AwaitLine(purpose) => StatusModel::AwaitLine(purpose),
            Status::AwaitFile(path) => StatusModel::AwaitFile(path@),
            Status::AwaitFileLine(path) => StatusModel::AwaitFileLine(path@),
            Status::AwaitShell { command, replace } => StatusModel::AwaitShell {
                command: command@,
                replace,
            },
            Status::AwaitAppend { path, text } => StatusModel::AwaitAppend {
                path: path@,
                text: text@,
            },
            Status::Finished(code) => StatusModel::Finished(code),
        }
    }
}

/// Mutable state during execution
pub struct State {
    pc: usize,
    line_number: usize,
    is_last_line: bool,
    pattern_space: String,
    hold_space: String,
    append_queue: Vec<String>,
    last_sub_success: bool,
    /// Tracks whether each range-addressed command is currently "in range"
    range_active: Vec<bool>,
    file_name: String,
    out: String,
    status: Status,
}

impl View for State {
    type V = Snapshot;

    closed spec fn view(&self) -> Snapshot {
        Snapshot {
            pc: self.pc as int,
            line_number: self.line_number as nat,
            is_last_line: self.is_last_line,
            pattern_space: self.pattern_space@,
            hold_space: self.hold_space@,
            append_queue: texts(self.append_queue@),
            last_sub_success: self.last_sub_success,
            range_active: self.range_active@,
            file_name: self.file_name@,
            out: self.out@,
            status: self.status@,
        }
    }
}

/// A line that was read and whether it is the last, or the end of the input.
pub open spec fn line_model(next: Option<(String, bool)>) -> Option<(Seq<char>, bool)> {
    match next {
        Some((text, is_last)) => Some((text@, is_last)),
        None => None,
    }
}

impl State {
    /// The state before the first line of a program with so many instructions.
    fn new(num_commands: usize) -> (r: State)
        ensures
            forall|program: Seq<InstructionModel>|
                program.len() == num_commands ==> r@ == #[trigger] Snapshot::initial(program),
    {
        let mut range_active: Vec<bool> = Vec::new();
        let mut i: usize = 0;
        while i < num_commands
            invariant
                i <= num_commands,
                range_active@ == Seq::new(i as nat, |k: int| false),
            decreases num_commands - i,
        {
            range_active.push(false);
            i = i + 1;
            assert(range_active@ =~= Seq::new(i as nat, |k: int| false));
        }
        let r = State {
            pc: 0,
            line_number: 0,
            is_last_line: false,
            pattern_space: String::new(),
            hold_space: String::new(),
            append_queue: Vec::new(),
            last_sub_success: false,
            range_active,
            file_name: "-".to_string(),
            out: String::new(),
            status: Status::AwaitLine(LineUse::Cycle),
        };
        proof {
            reveal_strlit("-");
            assert forall|program: Seq<InstructionModel>|
                program.len() == num_commands implies r@ == #[trigger] Snapshot::initial(
                program,
            ) by {
                assert(r@ =~= Snapshot::initial(program));
            }
        }
        r
    }

    /// What the state is about to do, or waits for.
    pub fn status(&self) -> (r: &Status)
        ensures
            r@ == self@.status,
    {
        &self.status
    }

    /// The number of the current line.
    pub fn line_number(&self) -> (r: usize)
        ensures
            r == self@.line_number,
    {
        self.line_number
    }

    /// Say which file the lines come from.
    pub fn set_file_name(&mut self, name: &str)
        ensures
            final(self)@ == (Snapshot { file_name: name@, ..old(self)@ }),
    {
        self.file_name = name.to_string();
    }

    /// Take what was printed.
    pub fn take_output(&mut self) -> (r: String)
        ensures
            r@ == old(self)@.out,
            final(self)@ == (Snapshot { out: Seq::empty(), ..old(self)@ }),
    {
        let mut out = String::new();
        core::mem::swap(&mut self.out, &mut out);
        assert(self@ =~= (Snapshot { out: Seq::empty(), ..old(self)@ }));
        out
    }

    /// Give the state the content of the file that it waits for, if it can be
    /// read.
    pub fn supply_file(&mut self, content: Option<String>)
        requires
            old(self)@.status is AwaitFile,
        ensures
            final(self)@ == with_file(old(self)@, text_of(content)),
    {
        match content {
            Some(text) => self.append_queue.push(trim_end(text.as_str())),
            None => {},
        }
        self.status = Status::Ready;
    }

    /// Give the state the line of a file that it waits for, if there is one.
    pub fn supply_file_line(&mut self, content: Option<String>)
        requires
            old(self)@.status is AwaitFileLine,
        ensures
            final(self)@ == with_file_line(old(self)@, text_of(content)),
    {
        match content {
            Some(text) => self.append_queue.push(text),
            None => {},
        }
        self.status = Status::Ready;
    }

    /// Give the state the output of the shell command that it waits for.
    pub fn supply_shell_output(&mut self, output: &str)
        requires
            old(self)@.status is AwaitShell,
        ensures
            final(self)@ == with_shell_output(old(self)@, output@),
    {
        let replace = match &self.status {
            Status::AwaitShell { replace, .. } => *replace,
            _ => false,
        };
        if replace {
            let chars = char_vec(output);
            let n: usize = chars.len();
            let end: usize = if n > 0 && chars[n - 1] == '\n' {
                n - 1
            } else {
                n
            };
            self.pattern_space = string_of(&chars, 0, end);
            assert(self.pattern_space@ =~= without_newline(output@));
        } else {
            self.out.append(output);
        }
        self.status = Status::Ready;
    }

    /// Give the state what the shell command that it waits for has written. What
    /// is not UTF-8 in it is replaced.
    pub fn supply_shell_bytes(&mut self, output: &Vec<u8>)
        requires
            old(self)@.status is AwaitShell,
        ensures
            final(self)@ == with_shell_output(old(self)@, replaced_text(output@)),
    {
        let text = text_from_utf8_lossy(output);
        self.supply_shell_output(text.as_str());
    }

    /// Tell the state that the text was appended to the file.
    pub fn appended(&mut self)
        requires
            old(self)@.status is AwaitAppend,
        ensures
            final(self)@ == old(self)@.with(StatusModel::Ready),
    {
        self.status = Status::Ready;
    }
}

// ---------------------------------------------------------------------------
// Engine
// ---------------------------------------------------------------------------

/// A compiled script and how it prints.
pub struct Engine {
    commands: Vec<CompiledSedCommand>,
    config: Config,
}

/// Whether a run that ends so has this result. One that never ends has none.
pub open spec fn ends_in(ending: Ending, r: Result<String>) -> bool {
    match ending {
        Ending::Finished(code, out) => if code == 0 {
            r matches Ok(text) && text@ == out
        } else {
            r == Err::<String, _>(Error::Exit(code))
        },
        Ending::Broken => r == Err::<String, _>(Error::InvalidUtf8),
        Ending::External(name) => r matches Err(Error::External(n)) && n@ == name,
        Ending::Unfinished => false,
    }
}

impl Engine {
    #[verifier::type_invariant]
    spec fn wf(self) -> bool {
        program_wf(self.commands@)
    }

    /// The instructions of the script.
    pub closed spec fn program(self) -> Seq<InstructionModel> {
        program_model(self.commands@)
    }

    /// How the script prints.
    pub closed spec fn config(self) -> Config {
        self.config
    }

    /// Compile the commands of a script.
    pub fn new(parsed: Vec<SedCommand>, options: &Options) -> (r: Result<Engine>)
        requires
            transliterations_paired(script_model(parsed@)),
        ensures
            match r {
                Ok(engine) => {
                    &&& compiled(script_model(parsed@), Ok(engine.program()))
                    &&& engine.config() == (Config {
                        quiet: options.quiet,
                        null_data: options.null_data,
                    })
                },
                Err(e) => compiled(script_model(parsed@), Err(e)),
            },
    {
        match compile_commands(&parsed) {
            Ok(commands) => Ok(
                Engine {
                    commands,
                    config: Config { quiet: options.quiet, null_data: options.null_data },
                },
            ),
            Err(e) => Err(e),
        }
    }

    /// Whether lines end in NUL in place of newline.
    pub fn null_data(&self) -> (r: bool)
        ensures
            r == self.config().null_data,
    {
        self.config.null_data
    }

    /// The state before the first line.
    pub fn start(&self) -> (r: State)
        ensures
            r@ == Snapshot::initial(self.program()),
    {
        let r = State::new(self.commands.len());
        assert(self.program().len() == self.commands@.len());
        r
    }

    /// Append text and the line terminator (NUL in -z mode, newline otherwise).
    fn write_line(&self, out: &mut String, s: &str)
        ensures
            final(out)@ == old(out)@ + line(self.config(), s@),
    {
        let ghost before = out@;
        out.append(s);
        out.push(
            if self.config.null_data {
                '\0'
            } else {
                '\n'
            },
        );
        assert(out@ =~= before + line(self.config(), s@));
    }

    /// Print the pattern space, unless quiet.
    fn print_unless_quiet(&self, state: &mut State)
        ensures
            final(state)@ == old(state)@.print(autoprint(self.config(), old(state)@)),
    {
        if !self.config.quiet {
            self.write_line(&mut state.out, state.pattern_space.as_str());
        }
        assert(state@ =~= old(state)@.print(autoprint(self.config(), old(state)@)));
    }

    /// Print what was queued.
    fn flush_appends(&self, state: &mut State)
        ensures
            final(state)@ == old(state)@.print(lines(self.config(), old(state)@.append_queue)),
    {
        let ghost queue = texts(state.append_queue@);
        let ghost before = state@;
        let mut i: usize = 0;
        assert(state@ =~= before.print(lines(self.config(), queue.take(0))));
        while i < state.append_queue.len()
            invariant
                i <= state.append_queue@.len(),
                queue == texts(state.append_queue@),
                state@ == before.print(lines(self.config(), queue.take(i as int))),
            decreases state.append_queue@.len() - i,
        {
            assert(queue.take(i + 1).drop_last() =~= queue.take(i as int));
            assert(queue.take(i + 1).last() == state.append_queue@[i as int]@);
            self.write_line(&mut state.out, state.append_queue[i].as_str());
            i = i + 1;
            assert(state@ =~= before.print(lines(self.config(), queue.take(i as int))));
        }
        assert(queue.take(i as int) =~= queue);
    }

    /// End the cycle without automatic printing.
    fn end_cycle(&self, state: &mut State)
        ensures
            final(state)@ == drop_cycle(self.config(), old(state)@),
    {
        self.flush_appends(state);
        state.status = Status::AwaitLine(LineUse::Cycle);
    }

    // -- Addresses --

    /// Whether an instruction applies to the current line. Opens and closes its
    /// range.
    pub fn address_matches(&self, addr: &CompiledAddressRange, state: &mut State) -> (r: bool)
        requires
            addr.wf(),
        ensures
            r == selects(addr@, old(state)@),
            final(state)@ == looked(addr@, old(state)@),
    {
        match addr {
            CompiledAddressRange::Every => true,
            CompiledAddressRange::Single { addr, negated } => addr_matches_line(addr, state)
                != *negated,
            CompiledAddressRange::Range { start, end, negated } => {
                let index = state.pc;
                let active = index < state.range_active.len() && state.range_active[index];
                let (raw, open) = if active {
                    // In the range; its end is still part of it.
                    (true, !addr_matches_line(end, state))
                } else if addr_matches_line(start, state) {
                    // Per POSIX/GNU: regex end addresses are NOT checked on the
                    // start line. But line-number end addresses that are
                    // already at or past the current line close the range
                    // immediately (GNU extension: addr2 <= addr1 means
                    // one-line range).
                    (true, !is_line_addr_at_or_before(end, state))
                } else {
                    (false, false)
                };
                if index < state.range_active.len() {
                    state.range_active.set(index, open);
                }
                assert(state@ =~= looked(
                    CompiledAddressRange::Range { start: *start, end: *end, negated: *negated }@,
                    old(state)@,
                ));
                raw != *negated
            },
        }
    }

    // -- Branching --

    /// The place of a label. Of two labels with one name the later counts.
    fn find_label(&self, name: &str) -> (r: Option<usize>)
        ensures
            match r {
                Some(i) => label_index(self.program(), name@, self.program().len() as int) == Some(
                    i as int,
                ),
                None => label_index(
                    self.program(),
                    name@,
                    self.program().len() as int,
                ) is None,
            },
    {
        let mut n: usize = self.commands.len();
        while n > 0
            invariant
                n <= self.commands@.len(),
                self.commands@.len() == self.program().len(),
                label_index(self.program(), name@, n as int) == label_index(
                    self.program(),
                    name@,
                    self.program().len() as int,
                ),
            decreases n,
        {
            n = n - 1;
            assert(self.program()[n as int] == self.commands@[n as int]@);
            if let CompiledCommand::Label(label) = &self.commands[n].command {
                if same_text(label.as_str(), name) {
                    return Some(n);
                }
            }
        }
        None
    }

    /// Go to a label, or to the end of the script where there is none.
    fn branch(&self, label: &Option<String>, state: &mut State)
        ensures
            final(state)@ == jump(self.program(), text_of(*label), old(state)@),
    {
        assert(self.commands@.len() == self.program().len());
        let target = match label {
            Some(name) => match self.find_label(name.as_str()) {
                Some(i) => i,
                None => self.commands.len(),
            },
            None => self.commands.len(),
        };
        state.pc = target;
    }

    /// The place after the block that `from` lies in.
    fn skip_block(&self, from: usize) -> (r: usize)
        requires
            from <= self.program().len(),
        ensures
            r == after_block(self.program(), from as int, 0),
    {
        let mut i: usize = from;
        let mut depth: usize = 0;
        while i < self.commands.len()
            invariant
                from <= i <= self.commands@.len(),
                self.commands@.len() == self.program().len(),
                depth <= i - from,
                after_block(self.program(), i as int, depth as nat) == after_block(
                    self.program(),
                    from as int,
                    0,
                ),
            decreases self.commands@.len() - i,
        {
            assert(self.program()[i as int] == self.commands@[i as int]@);
            match &self.commands[i].command {
                CompiledCommand::ScopeStart => {
                    depth = depth + 1;
                },
                CompiledCommand::ScopeEnd => {
                    if depth == 0 {
                        return i + 1;
                    }
                    depth = depth - 1;
                },
                _ => {},
            }
            i = i + 1;
        }
        i
    }

    // -- Commands --

    /// Carry out an `s` command.
    fn substitute(&self, sub: &CompiledSubstitute, state: &mut State)
        requires
            old(state)@.pc < usize::MAX,
        ensures
            final(state)@ == perform(
                self.config(),
                self.program(),
                CommandModel::Substitute(sub@),
                old(state)@,
            ),
    {
        let (result, matched) = apply_substitution(
            &sub.pattern,
            state.pattern_space.as_str(),
            sub.replacement.as_str(),
            sub.global,
            sub.nth,
        );
        state.pc = state.pc + 1;
        if matched {
            state.pattern_space = result;
            state.last_sub_success = true;
            if sub.print {
                self.write_line(&mut state.out, state.pattern_space.as_str());
            }
            if let Some(path) = &sub.write_file {
                let mut text = state.pattern_space.clone();
                text.push('\n');
                state.status = Status::AwaitAppend { path: path.clone(), text };
            }
        }
        assert(machine::substitute_pattern(sub@) == sub.pattern@);
        assert(state@ =~= perform(
            self.config(),
            self.program(),
            CommandModel::Substitute(sub@),
            old(state)@,
        ));
    }

    /// Carry out a command.
    pub fn execute_one(&self, command: &CompiledCommand, state: &mut State)
        requires
            command.wf(),
            command@ is Do,
            old(state)@.pc < usize::MAX,
        ensures
            final(state)@ == perform(self.config(), self.program(), command@->0, old(state)@),
    {
        match command {
            CompiledCommand::Substitute(sub) => {
                self.substitute(sub, state);
                return ;
            },
            CompiledCommand::Delete => {
                self.end_cycle(state);
                return ;
            },
            CompiledCommand::DeleteFirstLine => {
                let chars = char_vec(state.pattern_space.as_str());
                let n: usize = chars.len();
                match find_newline(&chars) {
                    Some(i) => {
                        // Re-run the script on the remaining pattern space
                        // without reading a new input line
                        state.pattern_space = string_of(&chars, i + 1, n);
                        state.append_queue = Vec::new();
                        state.last_sub_success = false;
                        state.pc = 0;
                        assert(state@ =~= perform(
                            self.config(),
                            self.program(),
                            command@->0,
                            old(state)@,
                        ));
                    },
                    // No newline: same as `d`, discard and read next
                    None => self.end_cycle(state),
                }
                return ;
            },
            CompiledCommand::Change(text) => {
                // Output the replacement text, then restart the cycle
                // (skipping the auto-print of the pattern space)
                self.write_line(&mut state.out, text.as_str());
                self.end_cycle(state);
                return ;
            },
            CompiledCommand::Branch(label) => {
                self.branch(label, state);
                return ;
            },
            CompiledCommand::BranchIfSub(label) => {
                if state.last_sub_success {
                    state.last_sub_success = false;
                    self.branch(label, state);
                    return ;
                }
            },
            CompiledCommand::BranchIfNotSub(label) => {
                if !state.last_sub_success {
                    self.branch(label, state);
                    return ;
                }
            },
            CompiledCommand::Quit(code) => {
                // Print pattern space then quit
                self.print_unless_quiet(state);
                self.flush_appends(state);
                state.status = Status::Finished(
                    match code {
                        Some(n) => *n,
                        None => 0,
                    },
                );
                assert(state@ =~= perform(
                    self.config(),
                    self.program(),
                    command@->0,
                    old(state)@,
                ));
                return ;
            },
            CompiledCommand::QuitNoprint(code) => {
                state.status = Status::Finished(
                    match code {
                        Some(n) => *n,
                        None => 0,
                    },
                );
                return ;
            },
            _ => self.execute_simple(command, state),
        }
        state.pc = state.pc + 1;
        assert(state@ =~= perform(self.config(), self.program(), command@->0, old(state)@));
    }

    /// Carry out a command after which the next one comes.
    fn execute_simple(&self, command: &CompiledCommand, state: &mut State)
        requires
            command.wf(),
            command@ is Do,
            goes_on(command@->0),
        ensures
            final(state)@.next() == perform(
                self.config(),
                self.program(),
                command@->0,
                old(state)@,
            ),
            final(state)@.pc == old(state)@.pc,
    {
        match command {
            CompiledCommand::Transliterate { from, to } => {
                state.pattern_space = transliterate(from, to, state.pattern_space.as_str());
            },
            CompiledCommand::Print => {
                self.write_line(&mut state.out, state.pattern_space.as_str());
            },
            CompiledCommand::PrintFirstLine => {
                let chars = char_vec(state.pattern_space.as_str());
                match find_newline(&chars) {
                    Some(i) => self.write_line(&mut state.out, string_of(&chars, 0, i).as_str()),
                    None => self.write_line(&mut state.out, state.pattern_space.as_str()),
                }
            },
            CompiledCommand::PrintLineNumber => {
                self.write_line(&mut state.out, write_decimal(state.line_number).as_str());
            },
            CompiledCommand::List => {
                // Print pattern space with non-printing chars shown
                let mut listed = list_escape(state.pattern_space.as_str());
                listed.push('$');
                self.write_line(&mut state.out, listed.as_str());
            },
            CompiledCommand::Next => {
                self.print_unless_quiet(state);
                self.flush_appends(state);
                state.status = Status::AwaitLine(LineUse::Next);
            },
            CompiledCommand::NextAppend => {
                state.status = Status::AwaitLine(LineUse::NextAppend);
            },
            CompiledCommand::HoldReplace => {
                state.hold_space = state.pattern_space.clone();
            },
            CompiledCommand::HoldAppend => {
                state.hold_space.push('\n');
                state.hold_space.append(state.pattern_space.as_str());
            },
            CompiledCommand::GetReplace => {
                state.pattern_space = state.hold_space.clone();
            },
            CompiledCommand::GetAppend => {
                state.pattern_space.push('\n');
                state.pattern_space.append(state.hold_space.as_str());
            },
            CompiledCommand::Exchange => {
                core::mem::swap(&mut state.pattern_space, &mut state.hold_space);
            },
            CompiledCommand::Append(text) => {
                state.append_queue.push(text.clone());
            },
            CompiledCommand::Insert(text) => {
                self.write_line(&mut state.out, text.as_str());
            },
            CompiledCommand::ReadFile(path) => {
                state.status = Status::AwaitFile(path.clone());
            },
            CompiledCommand::ReadLine(path) => {
                state.status = Status::AwaitFileLine(path.clone());
            },
            CompiledCommand::WriteFile(path) => {
                let mut text = state.pattern_space.clone();
                text.push('\n');
                state.status = Status::AwaitAppend { path: path.clone(), text };
            },
            CompiledCommand::PrintFileName => {
                self.write_line(&mut state.out, state.file_name.as_str());
            },
            CompiledCommand::Execute(shell) => {
                state.status = match shell {
                    Some(shell) => Status::AwaitShell { command: shell.clone(), replace: false },
                    None => Status::AwaitShell {
                        command: state.pattern_space.clone(),
                        replace: true,
                    },
                };
            },
            CompiledCommand::ClearPattern => {
                state.pattern_space = String::new();
            },
            _ => {},
        }
        assert(state@.next() =~= perform(
            self.config(),
            self.program(),
            command@->0,
            old(state)@,
        ));
    }

    // -- Steps --

    /// Carry out the next instruction, or end the cycle.
    pub fn step(&self, state: &mut State)
        requires
            old(state)@.status is Ready,
        ensures
            final(state)@ == machine::step(self.config(), self.program(), old(state)@),
    {
        proof {
            use_type_invariant(self);
        }
        assert(self.program().len() == self.commands@.len());
        let pc = state.pc;
        if pc >= self.commands.len() {
            self.print_unless_quiet(state);
            self.end_cycle(state);
            return ;
        }
        let instruction = &self.commands[pc];
        assert(self.program()[pc as int] == instruction@);
        assert(instruction.wf());
        match &instruction.command {
            CompiledCommand::ScopeStart => if self.address_matches(&instruction.address, state) {
                state.pc = pc + 1;
            } else {
                state.pc = self.skip_block(pc + 1);
            },
            CompiledCommand::ScopeEnd => {
                state.pc = pc + 1;
            },
            command => if self.address_matches(&instruction.address, state) {
                self.execute_one(command, state);
            } else {
                state.pc = pc + 1;
            },
        }
    }

    /// Give a state the line that it waits for, with whether it is the last, or
    /// the end of the input.
    pub fn supply_line(&self, state: &mut State, next: Option<(String, bool)>)
        requires
            old(state)@.status is AwaitLine,
            next is Some ==> old(state)@.line_number < usize::MAX,
        ensures
            final(state)@ == with_line(self.config(), old(state)@, line_model(next)),
    {
        let purpose = match &state.status {
            Status::AwaitLine(purpose) => *purpose,
            _ => LineUse::Cycle,
        };
        match next {
            Some((text, is_last)) => {
                state.line_number = state.line_number + 1;
                state.is_last_line = is_last;
                state.status = Status::Ready;
                match purpose {
                    LineUse::Cycle => {
                        state.pattern_space = text;
                        state.append_queue = Vec::new();
                        // Reset sub success flag at start of each cycle
                        state.last_sub_success = false;
                        state.pc = 0;
                    },
                    LineUse::Next => {
                        state.pattern_space = text;
                    },
                    LineUse::NextAppend => {
                        state.pattern_space.push('\n');
                        state.pattern_space.append(text.as_str());
                    },
                }
            },
            None => {
                match purpose {
                    LineUse::NextAppend => self.print_unless_quiet(state),
                    _ => {},
                }
                state.status = Status::Finished(0);
            },
        }
        assert(state@ =~= with_line(self.config(), old(state)@, line_model(next)));
    }

    // -- Runs --

    /// Process input in memory and return the output.
    ///
    /// This is the core sed execution loop. It reads lines (or NUL-delimited
    /// records in `-z` mode), applies the compiled commands, and collects the
    /// results. A script that needs a file or the shell stops there, and one
    /// that never ends is run for ever.
    pub fn process_stream(&self, input: &[u8]) -> (r: Result<String>)
        ensures
            ends_in(
                outcome(
                    self.config(),
                    self.program(),
                    source(input@, self.config().null_data),
                ),
                r,
            ),
    {
        let mut input_lines = Lines::new(input, self.config.null_data);
        let mut state = self.start();
        let mut clock = Clock::new();
        let ghost all = input_lines.source();
        let ghost start = state@;
        let ghost made: nat = 0;
        loop
            invariant
                all == source(input@, self.config().null_data),
                start == Snapshot::initial(self.program()),
                input_lines.wf(),
                state@.line_number + input_lines.source().lines.len() <= usize::MAX,
                forall|more: nat|
                    #[trigger] ending(
                        self.config(),
                        self.program(),
                        input_lines.source(),
                        state@,
                        more,
                    ) == ending(self.config(), self.program(), all, start, made + more),
            decreases clock.turns(), clock.ticks(),
        {
            proof {
                lemma_ended(
                    self.config(),
                    self.program(),
                    all,
                    made,
                    input_lines.source(),
                    state@,
                );
            }
            let ready = match &state.status {
                Status::Ready => true,
                Status::AwaitLine(_) => false,
                Status::AwaitFile(name) => return Err(Error::External(name.clone())),
                Status::AwaitFileLine(name) => return Err(Error::External(name.clone())),
                Status::AwaitShell { command, .. } => return Err(
                    Error::External(command.clone()),
                ),
                Status::AwaitAppend { path, .. } => return Err(Error::External(path.clone())),
                Status::Finished(code) => {
                    if *code != 0 {
                        return Err(Error::Exit(*code));
                    }
                    return Ok(state.take_output());
                },
            };
            clock.tick();
            let ghost before = state@;
            let ghost left = input_lines.source();
            if ready {
                proof {
                    law_step_keeps_the_line(self.config(), self.program(), state@);
                }
                self.step(&mut state);
            } else {
                match input_lines.next() {
                    Ok(next) => self.supply_line(&mut state, next),
                    Err(e) => return Err(e),
                }
            }
            proof {
                assert forall|more: nat|
                    #[trigger] ending(
                        self.config(),
                        self.program(),
                        input_lines.source(),
                        state@,
                        more,
                    ) == ending(self.config(), self.program(), all, start, made + 1 + more) by {
                    assert(ending(self.config(), self.program(), left, before, more + 1)
                        == ending(self.config(), self.program(), all, start, made + (more + 1)));
                }
                made = made + 1;
            }
        }
    }
}

// ---------------------------------------------------------------------------
// Time
// ---------------------------------------------------------------------------

/// Counts the steps of a run that may take any number of them, as the measure of
/// the loop that makes them. It has a hand that comes round after `u64::MAX`
/// steps, and puts a mark down each time. No number of steps stops it: there are
/// as many marks as the memory can hold.
struct Clock {
    hand: u64,
    marks: Vec<u8>,
}

impl Clock {
    /// How often the hand can still come round.
    spec fn turns(self) -> int {
        usize::MAX - self.marks@.len()
    }

    /// How far the hand has to go to come round.
    spec fn ticks(self) -> int {
        self.hand as int
    }

    fn new() -> (r: Clock) {
        Clock { hand: u64::MAX, marks: Vec::new() }
    }

    /// Count one step.
    fn tick(&mut self)
        ensures
            0 <= final(self).turns() <= old(self).turns(),
            final(self).turns() < old(self).turns() || 0 <= final(self).ticks()
                < old(self).ticks(),
    {
        if self.hand == 0 {
            self.hand = u64::MAX;
            self.marks.push(0);
        } else {
            self.hand = self.hand - 1;
        }
        assert(self.marks.len() <= usize::MAX);
    }
}

/// Whether the instruction after the command comes next.
pub open spec fn goes_on(command: CommandModel) -> bool {
    match command {
        CommandModel::Substitute(_)
        | CommandModel::Delete
        | CommandModel::DeleteFirstLine
        | CommandModel::Change(_)
        | CommandModel::Branch(_)
        | CommandModel::BranchIfSub(_)
        | CommandModel::BranchIfNotSub(_)
        | CommandModel::Quit(_)
        | CommandModel::QuitNoprint(_) => false,
        _ => true,
    }
}

// ---------------------------------------------------------------------------
// Address matching helper
// ---------------------------------------------------------------------------

/// Check if the address is a line number at or before the current line.
/// Used for immediate range closure when the end address is a line number.
fn is_line_addr_at_or_before(addr: &CompiledAddress, state: &State) -> (r: bool)
    ensures
        r == ends_at_start(addr@, state@),
{
    match addr {
        CompiledAddress::Line(n) => *n <= state.line_number,
        _ => false,
    }
}

/// Check if the address selects the current line.
fn addr_matches_line(addr: &CompiledAddress, state: &State) -> (r: bool)
    requires
        addr.wf(),
    ensures
        r == address_selects(addr@, state@),
{
    match addr {
        CompiledAddress::Line(n) => state.line_number == *n,
        CompiledAddress::Last => state.is_last_line,
        CompiledAddress::Regex(pattern) => {
            assert(pattern@ == machine::address_pattern(pattern@.source));
            pattern.is_match(state.pattern_space.as_str())
        },
        CompiledAddress::Step { first, step } => if *step == 0 {
            state.line_number == *first
        } else {
            state.line_number >= *first && (state.line_number - *first) % *step == 0
        },
    }
}

/// Map each character of a text to its partner.
fn transliterate(from: &Vec<char>, to: &Vec<char>, text: &str) -> (r: String)
    requires
        from@.len() <= to@.len(),
    ensures
        r@ == transliterated(from@, to@, text@),
{
    let chars = char_vec(text);
    let mut new = String::new();
    let mut i: usize = 0;
    while i < chars.len()
        invariant
            i <= chars@.len(),
            chars@ == text@,
            from@.len() <= to@.len(),
            new@ == transliterated(from@, to@, text@).take(i as int),
        decreases chars@.len() - i,
    {
        let c = chars[i];
        let mut partner = c;
        let mut k: usize = 0;
        while k < from.len()
            invariant_except_break
                partner == c,
            invariant
                k <= from@.len(),
                from@.len() <= to@.len(),
                paired(from@, to@, c, k as int) == paired(from@, to@, c, 0),
            ensures
                partner == paired(from@, to@, c, 0),
            decreases from@.len() - k,
        {
            if from[k] == c {
                partner = to[k];
                break;
            }
            k = k + 1;
        }
        new.push(partner);
        i = i + 1;
        assert(new@ =~= transliterated(from@, to@, text@).take(i as int));
    }
    assert(new@ =~= transliterated(from@, to@, text@));
    new
}

} // verus!
