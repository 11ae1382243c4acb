//! What holds of every script.

use vstd::prelude::*;

use crate::listing::listed;
use crate::machine::{
    address_selects, after_block, autoprint, ending, first_line, flatten, is_active, label_index,
    lemma_lines_first, line, lines, looked, lower, outcome, paired, perform, selects, step,
    terminator, transliterated, with_line, Config, Ending, InstructionModel, LineUse, OpModel,
    Snapshot, Source, StatusModel,
};
use crate::script::{AddressModel, CommandModel, RangeModel, SedCommandModel};
use crate::text::decimal;

verus! {

// ---------------------------------------------------------------------------
// Runs
// ---------------------------------------------------------------------------

/// A run starts before the first line, at the first instruction, with nothing held,
/// queued or printed and no range open; its input has no name but `-`.
pub proof fn law_start(program: Seq<InstructionModel>)
    ensures
        ({
            let s = Snapshot::initial(program);
            &&& s.pc == 0
            &&& s.line_number == 0
            &&& s.hold_space.len() == 0
            &&& s.append_queue.len() == 0
            &&& s.out.len() == 0
            &&& !s.last_sub_success
            &&& s.file_name == seq!['-']
            &&& s.range_active.len() == program.len()
            &&& forall|i: int| 0 <= i < program.len() ==> !#[trigger] s.range_active[i]
            &&& s.status == StatusModel::AwaitLine(LineUse::Cycle)
        }),
{
}

/// A run goes on by its steps and by the lines of its input, one after the other. It
/// ends with its exit status and all that it has printed, at a line that is not
/// UTF-8, or at a command that needs a file or the shell.
pub proof fn law_run(
    config: Config,
    program: Seq<InstructionModel>,
    source: Source,
    s: Snapshot,
    steps: nat,
)
    requires
        steps > 0,
    ensures
        ({
            let end = ending(config, program, source, s, steps);
            let fewer = (steps - 1) as nat;
            match s.status {
                StatusModel::Finished(code) => end == Ending::Finished(code, s.out),
                StatusModel::AwaitFile(name) => end == Ending::External(name),
                StatusModel::AwaitFileLine(name) => end == Ending::External(name),
                StatusModel::AwaitShell { command, .. } => end == Ending::External(command),
                StatusModel::AwaitAppend { path, .. } => end == Ending::External(path),
                StatusModel::Ready => end == ending(
                    config,
                    program,
                    source,
                    step(config, program, s),
                    fewer,
                ),
                StatusModel::AwaitLine(_) => if source.lines.len() == 0 {
                    end == ending(config, program, source, with_line(config, s, None), fewer)
                } else if source.lines.len() == 1 && source.broken {
                    end is Broken
                } else {
                    let next = Some((source.lines[0], source.lines.len() == 1));
                    let rest = Source { lines: source.lines.drop_first(), ..source };
                    end == ending(config, program, rest, with_line(config, s, next), fewer)
                },
            }
        }),
{
}

/// A run that has ended ends the same way with more steps.
pub proof fn law_more_steps_change_nothing(
    config: Config,
    program: Seq<InstructionModel>,
    source: Source,
    s: Snapshot,
    few: nat,
    many: nat,
)
    requires
        few <= many,
        !(ending(config, program, source, s, few) is Unfinished),
    ensures
        ending(config, program, source, s, many) == ending(config, program, source, s, few),
    decreases few,
{
    match s.status {
        StatusModel::AwaitLine(_) => if !source.fails() {
            law_more_steps_change_nothing(
                config,
                program,
                source.rest(),
                with_line(config, s, source.next()),
                (few - 1) as nat,
                (many - 1) as nat,
            );
        },
        StatusModel::Ready => {
            law_more_steps_change_nothing(
                config,
                program,
                source,
                step(config, program, s),
                (few - 1) as nat,
                (many - 1) as nat,
            );
        },
        _ => {},
    }
}

/// A script ends as it has ended after any number of steps that is enough.
pub proof fn law_outcome_is_the_ending(
    config: Config,
    program: Seq<InstructionModel>,
    source: Source,
    steps: nat,
)
    requires
        !(ending(config, program, source, Snapshot::initial(program), steps) is Unfinished),
    ensures
        outcome(config, program, source) == ending(
            config,
            program,
            source,
            Snapshot::initial(program),
            steps,
        ),
{
    let start = Snapshot::initial(program);
    let enough = choose|n: nat|
        !(#[trigger] ending(config, program, source, start, n) is Unfinished);
    if enough <= steps {
        law_more_steps_change_nothing(config, program, source, start, enough, steps);
    } else {
        law_more_steps_change_nothing(config, program, source, start, steps, enough);
    }
}

/// A state that is ready for no step and waits for no line is the end of the run
/// that led to it; so is a line that cannot be read.
pub proof fn lemma_ended(
    config: Config,
    program: Seq<InstructionModel>,
    all: Source,
    made: nat,
    left: Source,
    s: Snapshot,
)
    requires
        forall|more: nat|
            #[trigger] ending(config, program, left, s, more) == ending(
                config,
                program,
                all,
                Snapshot::initial(program),
                made + more,
            ),
    ensures
        !(s.status is Ready) && (s.status is AwaitLine ==> left.fails()) ==> outcome(
            config,
            program,
            all,
        ) == ending(config, program, left, s, 1),
{
    let end = ending(config, program, left, s, 1);
    if !(s.status is Ready) && (s.status is AwaitLine ==> left.fails()) {
        law_outcome_is_the_ending(config, program, all, made + 1);
    }
}

/// No run stops at a broken line of an input that has none.
pub proof fn law_whole_input_is_read(
    config: Config,
    program: Seq<InstructionModel>,
    source: Source,
    s: Snapshot,
    steps: nat,
)
    requires
        !source.broken,
    ensures
        !(ending(config, program, source, s, steps) is Broken),
    decreases steps,
{
    if steps > 0 {
        match s.status {
            StatusModel::AwaitLine(_) => {
                law_whole_input_is_read(
                    config,
                    program,
                    source.rest(),
                    with_line(config, s, source.next()),
                    (steps - 1) as nat,
                );
            },
            StatusModel::Ready => {
                law_whole_input_is_read(
                    config,
                    program,
                    source,
                    step(config, program, s),
                    (steps - 1) as nat,
                );
            },
            _ => {},
        }
    }
}

/// Every script prints nothing on an empty input.
pub proof fn law_empty_input(
    config: Config,
    program: Seq<InstructionModel>,
    source: Source,
)
    requires
        source.lines.len() == 0,
    ensures
        outcome(config, program, source) == Ending::Finished(0, Seq::empty()),
{
    reveal_with_fuel(ending, 2);
    law_outcome_is_the_ending(config, program, source, 1);
}

/// A script without commands prints every line as it is, or nothing if quiet.
pub proof fn law_empty_script(config: Config, source: Source)
    requires
        !source.broken,
    ensures
        outcome(config, Seq::empty(), source) == Ending::Finished(
            0,
            if config.quiet {
                Seq::empty()
            } else {
                lines(config, source.lines)
            },
        ),
{
    let program = Seq::<InstructionModel>::empty();
    let steps = 2 * source.lines.len() + 1;
    lemma_empty_script_from(config, source, Snapshot::initial(program), steps);
    law_outcome_is_the_ending(config, program, source, steps);
    let all = if config.quiet {
        Seq::empty()
    } else {
        lines(config, source.lines)
    };
    assert(Seq::<char>::empty() + all =~= all);
}

proof fn lemma_empty_script_from(config: Config, source: Source, s: Snapshot, steps: nat)
    requires
        !source.broken,
        steps > 2 * source.lines.len(),
        s.status == StatusModel::AwaitLine(LineUse::Cycle),
    ensures
        ending(config, Seq::empty(), source, s, steps) == Ending::Finished(
            0,
            s.out + if config.quiet {
                Seq::empty()
            } else {
                lines(config, source.lines)
            },
        ),
    decreases source.lines.len(),
{
    let program = Seq::<InstructionModel>::empty();
    let read = with_line(config, s, source.next());
    if source.lines.len() == 0 {
        assert(ending(config, program, source.rest(), read, (steps - 1) as nat)
            == Ending::Finished(0, s.out));
        assert(s.out + Seq::<char>::empty() =~= s.out);
        assert(lines(config, source.lines) =~= Seq::empty());
    } else {
        let printed = step(config, program, read);
        assert(lines(config, read.append_queue) =~= Seq::empty());
        assert(printed.out =~= s.out + autoprint(config, read));
        lemma_empty_script_from(config, source.rest(), printed, (steps - 2) as nat);
        assert(ending(config, program, source.rest(), read, (steps - 1) as nat) == ending(
            config,
            program,
            source.rest(),
            printed,
            (steps - 2) as nat,
        ));
        lemma_lines_first(config, source.lines);
        if !config.quiet {
            assert(printed.out + lines(config, source.rest().lines) =~= s.out + lines(
                config,
                source.lines,
            ));
        } else {
            assert(printed.out + Seq::<char>::empty() =~= s.out + Seq::<char>::empty());
        }
    }
}

/// `d` on every line deletes all of the input.
pub proof fn law_delete_deletes_all(config: Config, source: Source)
    requires
        !source.broken,
    ensures
        outcome(
            config,
            flatten(
                seq![SedCommandModel { address: RangeModel::Every, command: CommandModel::Delete }],
            ),
            source,
        ) == Ending::Finished(0, Seq::empty()),
{
    let script = seq![
        SedCommandModel { address: RangeModel::Every, command: CommandModel::Delete },
    ];
    let program = flatten(script);
    assert(script.drop_last() =~= Seq::empty());
    assert(program =~= seq![
        InstructionModel { address: RangeModel::Every, op: OpModel::Do(CommandModel::Delete) },
    ]) by {
        assert(flatten(script.drop_last()) =~= Seq::<InstructionModel>::empty());
        assert(script.last() == SedCommandModel {
            address: RangeModel::Every,
            command: CommandModel::Delete,
        });
        assert(lower(RangeModel::Every, CommandModel::Delete) =~= seq![
            InstructionModel { address: RangeModel::Every, op: OpModel::Do(CommandModel::Delete) },
        ]);
    }
    let steps = 2 * source.lines.len() + 1;
    lemma_delete_from(config, program, source, Snapshot::initial(program), steps);
    law_outcome_is_the_ending(config, program, source, steps);
}

proof fn lemma_delete_from(
    config: Config,
    program: Seq<InstructionModel>,
    source: Source,
    s: Snapshot,
    steps: nat,
)
    requires
        program == seq![
            InstructionModel { address: RangeModel::Every, op: OpModel::Do(CommandModel::Delete) },
        ],
        !source.broken,
        steps > 2 * source.lines.len(),
        s.status == StatusModel::AwaitLine(LineUse::Cycle),
    ensures
        ending(config, program, source, s, steps) == Ending::Finished(0, s.out),
    decreases source.lines.len(),
{
    let read = with_line(config, s, source.next());
    if source.lines.len() == 0 {
        assert(ending(config, program, source.rest(), read, (steps - 1) as nat)
            == Ending::Finished(0, s.out));
    } else {
        let deleted = step(config, program, read);
        assert(lines(config, read.append_queue) =~= Seq::empty());
        assert(deleted.out =~= s.out);
        lemma_delete_from(config, program, source.rest(), deleted, (steps - 2) as nat);
        assert(ending(config, program, source.rest(), read, (steps - 1) as nat) == ending(
            config,
            program,
            source.rest(),
            deleted,
            (steps - 2) as nat,
        ));
    }
}

/// Whether an instruction prints nothing of its own and queues nothing.
pub open spec fn is_silent(op: OpModel) -> bool {
    match op {
        OpModel::ScopeStart | OpModel::ScopeEnd => true,
        OpModel::Do(command) => match command {
            CommandModel::Print
            | CommandModel::PrintFirstLine
            | CommandModel::PrintLineNumber
            | CommandModel::PrintFileName
            | CommandModel::List
            | CommandModel::Append(_)
            | CommandModel::Insert(_)
            | CommandModel::Change(_) => false,
            CommandModel::Substitute(sub) => !sub.print,
            _ => true,
        },
    }
}

/// In quiet mode, a script without commands that print prints nothing.
pub proof fn law_quiet_prints_nothing(
    config: Config,
    program: Seq<InstructionModel>,
    source: Source,
)
    requires
        config.quiet,
        forall|i: int| 0 <= i < program.len() ==> is_silent(#[trigger] program[i].op),
    ensures
        outcome(config, program, source) matches Ending::Finished(_, out) ==> out
            == Seq::<char>::empty(),
{
    let start = Snapshot::initial(program);
    let steps = choose|n: nat|
        !(#[trigger] ending(config, program, source, start, n) is Unfinished);
    lemma_quiet_from(config, program, source, start, steps);
}

proof fn lemma_quiet_from(
    config: Config,
    program: Seq<InstructionModel>,
    source: Source,
    s: Snapshot,
    steps: nat,
)
    requires
        config.quiet,
        forall|i: int| 0 <= i < program.len() ==> is_silent(#[trigger] program[i].op),
        s.out == Seq::<char>::empty(),
        s.append_queue == Seq::<Seq<char>>::empty(),
    ensures
        ending(config, program, source, s, steps) matches Ending::Finished(_, out) ==> out
            == Seq::<char>::empty(),
    decreases steps,
{
    if steps > 0 {
        assert(Seq::<char>::empty() + Seq::<char>::empty() =~= Seq::<char>::empty());
        assert(lines(config, s.append_queue) =~= Seq::empty());
        match s.status {
            StatusModel::AwaitLine(_) => {
                lemma_quiet_from(
                    config,
                    program,
                    source.rest(),
                    with_line(config, s, source.next()),
                    (steps - 1) as nat,
                );
            },
            StatusModel::Ready => {
                if 0 <= s.pc < program.len() {
                    assert(is_silent(program[s.pc].op));
                }
                lemma_quiet_from(
                    config,
                    program,
                    source,
                    step(config, program, s),
                    (steps - 1) as nat,
                );
            },
            _ => {},
        }
    }
}

/// Whether a text is made of whole lines.
pub open spec fn is_terminated(config: Config, text: Seq<char>) -> bool {
    text.len() > 0 ==> text.last() == terminator(config)
}

/// The output is made of whole lines: where a line of the input has no line
/// ending, one is added.
pub proof fn law_output_is_terminated(
    config: Config,
    program: Seq<InstructionModel>,
    source: Source,
)
    ensures
        outcome(config, program, source) matches Ending::Finished(_, out)
            ==> is_terminated(config, out),
{
    let start = Snapshot::initial(program);
    let steps = choose|n: nat|
        !(#[trigger] ending(config, program, source, start, n) is Unfinished);
    lemma_terminated_from(config, program, source, start, steps);
}

proof fn lemma_lines_terminated(config: Config, texts: Seq<Seq<char>>)
    ensures
        is_terminated(config, lines(config, texts)),
        texts.len() > 0 ==> lines(config, texts).len() > 0,
{
}

proof fn lemma_terminated_add(config: Config, a: Seq<char>, b: Seq<char>)
    requires
        is_terminated(config, a),
        is_terminated(config, b),
    ensures
        is_terminated(config, a + b),
{
    if b.len() == 0 {
        assert(a + b =~= a);
    } else {
        assert((a + b).last() == b.last());
    }
}

/// No command leaves a line without its terminator.
proof fn lemma_perform_terminated(
    config: Config,
    program: Seq<InstructionModel>,
    command: CommandModel,
    s: Snapshot,
)
    requires
        is_terminated(config, s.out),
    ensures
        is_terminated(config, perform(config, program, command, s).out),
{
    let queued = lines(config, s.append_queue);
    lemma_lines_terminated(config, s.append_queue);
    let r = perform(config, program, command, s).out;
    match command {
        CommandModel::Substitute(sub) => {
            if r != s.out {
                lemma_terminated_add(config, s.out, line(config, perform(
                    config,
                    program,
                    command,
                    s,
                ).pattern_space));
            }
        },
        CommandModel::Print => {
            lemma_terminated_add(config, s.out, line(config, s.pattern_space));
        },
        CommandModel::PrintFirstLine => {
            lemma_terminated_add(config, s.out, line(config, first_line(s.pattern_space)));
        },
        CommandModel::PrintLineNumber => {
            lemma_terminated_add(config, s.out, line(config, decimal(s.line_number)));
        },
        CommandModel::List => {
            lemma_terminated_add(
                config,
                s.out,
                line(config, listed(s.pattern_space).push('$')),
            );
        },
        CommandModel::PrintFileName => {
            lemma_terminated_add(config, s.out, line(config, s.file_name));
        },
        CommandModel::Insert(text) => {
            lemma_terminated_add(config, s.out, line(config, text));
        },
        CommandModel::Change(text) => {
            lemma_terminated_add(config, s.out, line(config, text));
            lemma_terminated_add(config, s.out + line(config, text), queued);
        },
        CommandModel::Delete | CommandModel::DeleteFirstLine => {
            lemma_terminated_add(config, s.out, queued);
        },
        CommandModel::Next | CommandModel::Quit(_) => {
            lemma_terminated_add(config, autoprint(config, s), queued);
            lemma_terminated_add(config, s.out, autoprint(config, s) + queued);
        },
        _ => {
            assert(r == s.out);
        },
    }
}

proof fn lemma_terminated_from(
    config: Config,
    program: Seq<InstructionModel>,
    source: Source,
    s: Snapshot,
    steps: nat,
)
    requires
        is_terminated(config, s.out),
    ensures
        ending(config, program, source, s, steps) matches Ending::Finished(_, out)
            ==> is_terminated(config, out),
    decreases steps,
{
    if steps > 0 {
        match s.status {
            StatusModel::AwaitLine(_) => {
                lemma_terminated_from(
                    config,
                    program,
                    source.rest(),
                    with_line(config, s, source.next()),
                    (steps - 1) as nat,
                );
            },
            StatusModel::Ready => {
                lemma_lines_terminated(config, s.append_queue);
                lemma_terminated_add(config, s.out, autoprint(config, s));
                lemma_terminated_add(
                    config,
                    s.out + autoprint(config, s),
                    lines(config, s.append_queue),
                );
                if 0 <= s.pc < program.len() {
                    if let OpModel::Do(command) = program[s.pc].op {
                        lemma_perform_terminated(
                            config,
                            program,
                            command,
                            looked(program[s.pc].address, s),
                        );
                    }
                }
                assert(is_terminated(config, step(config, program, s).out));
                lemma_terminated_from(
                    config,
                    program,
                    source,
                    step(config, program, s),
                    (steps - 1) as nat,
                );
            },
            _ => {},
        }
    }
}

// ---------------------------------------------------------------------------
// Steps
// ---------------------------------------------------------------------------

/// No step changes which line is the current one, and none takes back what was
/// printed.
pub proof fn law_step_keeps_the_line(config: Config, program: Seq<InstructionModel>, s: Snapshot)
    ensures
        step(config, program, s).line_number == s.line_number,
        step(config, program, s).is_last_line == s.is_last_line,
        step(config, program, s).file_name == s.file_name,
        s.out.is_prefix_of(step(config, program, s).out),
{
    if 0 <= s.pc < program.len() {
        if let OpModel::Do(command) = program[s.pc].op {
            lemma_perform_only_prints(
                config,
                program,
                command,
                looked(program[s.pc].address, s),
            );
        }
    }
}

proof fn lemma_perform_only_prints(
    config: Config,
    program: Seq<InstructionModel>,
    command: CommandModel,
    s: Snapshot,
)
    ensures
        s.out.is_prefix_of(perform(config, program, command, s).out),
{
    if let CommandModel::Change(text) = command {
        let printed = s.out + line(config, text);
        assert(s.out.is_prefix_of(printed));
        assert(printed.is_prefix_of(printed + lines(config, s.append_queue)));
    }
}

/// The state after its output was taken.
pub open spec fn emptied(s: Snapshot) -> Snapshot {
    Snapshot { out: Seq::empty(), ..s }
}

/// The state with text printed before all that it has printed.
pub open spec fn preceded_by(text: Seq<char>, s: Snapshot) -> Snapshot {
    Snapshot { out: text + s.out, ..s }
}

/// It makes no difference to a run when its output is taken: what is printed
/// before and after that is what would have been printed in one piece.
pub proof fn law_output_can_be_taken_at_any_time(
    config: Config,
    program: Seq<InstructionModel>,
    s: Snapshot,
    next: Option<(Seq<char>, bool)>,
)
    ensures
        step(config, program, s) == preceded_by(s.out, step(config, program, emptied(s))),
        with_line(config, s, next) == preceded_by(s.out, with_line(config, emptied(s), next)),
{
    assert(with_line(config, s, next) =~= preceded_by(
        s.out,
        with_line(config, emptied(s), next),
    ));
    if !(0 <= s.pc < program.len()) {
        assert(step(config, program, s) =~= preceded_by(
            s.out,
            step(config, program, emptied(s)),
        ));
    } else {
        let address = program[s.pc].address;
        assert(selects(address, emptied(s)) == selects(address, s));
        assert(looked(address, emptied(s)) == emptied(looked(address, s)));
        if let OpModel::Do(command) = program[s.pc].op {
            lemma_perform_on_emptied(config, program, command, looked(address, s));
        }
        assert(step(config, program, s) =~= preceded_by(
            s.out,
            step(config, program, emptied(s)),
        ));
    }
}

proof fn lemma_perform_on_emptied(
    config: Config,
    program: Seq<InstructionModel>,
    command: CommandModel,
    s: Snapshot,
)
    ensures
        perform(config, program, command, s) == preceded_by(
            s.out,
            perform(config, program, command, emptied(s)),
        ),
{
    assert(perform(config, program, command, s) =~= preceded_by(
        s.out,
        perform(config, program, command, emptied(s)),
    ));
}

/// Only `h`, `H` and `x` change the hold space.
pub proof fn law_hold_space_is_kept(
    config: Config,
    program: Seq<InstructionModel>,
    command: CommandModel,
    s: Snapshot,
)
    requires
        !(command is HoldReplace),
        !(command is HoldAppend),
        !(command is Exchange),
    ensures
        perform(config, program, command, s).hold_space == s.hold_space,
{
}

/// A step opens and closes no range but that of its own instruction.
pub proof fn law_ranges_are_independent(
    config: Config,
    program: Seq<InstructionModel>,
    s: Snapshot,
)
    ensures
        step(config, program, s).range_active.len() == s.range_active.len(),
        forall|i: int|
            0 <= i < s.range_active.len() && i != s.pc ==> #[trigger] step(
                config,
                program,
                s,
            ).range_active[i] == s.range_active[i],
{
}

/// The next instruction is always one of the program, or its end.
pub proof fn law_step_stays_in_the_program(
    config: Config,
    program: Seq<InstructionModel>,
    s: Snapshot,
)
    requires
        0 <= s.pc <= program.len(),
    ensures
        0 <= step(config, program, s).pc <= program.len(),
{
    if s.pc < program.len() {
        lemma_after_block(program, s.pc + 1, 0);
        match program[s.pc].op {
            OpModel::Do(CommandModel::Branch(Some(name)))
            | OpModel::Do(CommandModel::BranchIfSub(Some(name)))
            | OpModel::Do(CommandModel::BranchIfNotSub(Some(name))) => {
                lemma_label_index(program, name, program.len() as int);
            },
            _ => {},
        }
    }
}

proof fn lemma_after_block(program: Seq<InstructionModel>, i: int, depth: nat)
    requires
        0 <= i <= program.len(),
    ensures
        i <= after_block(program, i, depth) <= program.len(),
    decreases program.len() - i,
{
    if i < program.len() {
        lemma_after_block(program, i + 1, depth);
        lemma_after_block(program, i + 1, depth + 1);
        if depth > 0 {
            lemma_after_block(program, i + 1, (depth - 1) as nat);
        }
    }
}

proof fn lemma_label_index(program: Seq<InstructionModel>, name: Seq<char>, n: int)
    requires
        0 <= n <= program.len(),
    ensures
        label_index(program, name, n) matches Some(i) ==> 0 <= i < n,
    decreases n,
{
    if n > 0 {
        lemma_label_index(program, name, n - 1);
    }
}

// ---------------------------------------------------------------------------
// Addresses
// ---------------------------------------------------------------------------

/// A negated address selects exactly the lines that the address does not, and
/// opens and closes its range on the same lines.
pub proof fn law_negation(start: AddressModel, end: AddressModel, s: Snapshot)
    ensures
        selects(RangeModel::Single { addr: start, negated: true }, s) == !selects(
            RangeModel::Single { addr: start, negated: false },
            s,
        ),
        selects(RangeModel::Range { start, end, negated: true }, s) == !selects(
            RangeModel::Range { start, end, negated: false },
            s,
        ),
        looked(RangeModel::Range { start, end, negated: true }, s) == looked(
            RangeModel::Range { start, end, negated: false },
            s,
        ),
{
}

/// Whether the range from line `a` to line `b` is open before line `n`.
pub open spec fn open_before(a: usize, b: usize, n: nat) -> bool {
    a < n && n <= b
}

/// A range of two line numbers selects the lines from the first to the second,
/// and the first alone where the second is no later. Its state is carried from
/// each line to the next.
pub proof fn law_line_range(a: usize, b: usize, s: Snapshot)
    requires
        0 <= s.pc < s.range_active.len(),
        is_active(s) == open_before(a, b, s.line_number),
    ensures
        selects(
            RangeModel::Range {
                start: AddressModel::Line(a),
                end: AddressModel::Line(b),
                negated: false,
            },
            s,
        ) <==> s.line_number == a || a <= s.line_number <= b,
        is_active(
            looked(
                RangeModel::Range {
                    start: AddressModel::Line(a),
                    end: AddressModel::Line(b),
                    negated: false,
                },
                s,
            ),
        ) == open_before(a, b, s.line_number + 1),
{
}

/// Before the first line a range of line numbers is closed.
pub proof fn law_line_range_starts_closed(
    a: usize,
    b: usize,
    program: Seq<InstructionModel>,
    pc: int,
)
    requires
        0 <= pc < program.len(),
        a > 0,
    ensures
        is_active(Snapshot::initial(program).go(pc)) == open_before(a, b, 1),
{
}

/// Looked at once on each line, from the first on, a range of line numbers
/// selects the lines from the first number to the second, and the first alone
/// where the second is no later.
pub proof fn law_line_range_in_order(
    a: usize,
    b: usize,
    negated: bool,
    states: Seq<Snapshot>,
    l: int,
)
    requires
        a > 0,
        0 <= l < states.len(),
        !is_active(states[0]),
        forall|k: int|
            0 <= k < states.len() ==> {
                &&& (#[trigger] states[k]).line_number == k + 1
                &&& states[k].pc == states[0].pc
                &&& 0 <= states[k].pc < states[k].range_active.len()
            },
        forall|k: int|
            0 <= k < states.len() - 1 ==> states[k + 1].range_active == looked(
                RangeModel::Range {
                    start: AddressModel::Line(a),
                    end: AddressModel::Line(b),
                    negated,
                },
                #[trigger] states[k],
            ).range_active,
    ensures
        selects(
            RangeModel::Range {
                start: AddressModel::Line(a),
                end: AddressModel::Line(b),
                negated,
            },
            states[l],
        ) == ((a <= l + 1 && (l + 1 <= a || l + 1 <= b)) != negated),
        is_active(states[l]) == open_before(a, b, (l + 1) as nat),
    decreases l,
{
    if l > 0 {
        law_line_range_in_order(a, b, negated, states, l - 1);
        let before = states[l - 1];
        law_line_range(a, b, before);
        law_negation(AddressModel::Line(a), AddressModel::Line(b), before);
        assert(states[l - 1 + 1].range_active == looked(
            RangeModel::Range {
                start: AddressModel::Line(a),
                end: AddressModel::Line(b),
                negated,
            },
            before,
        ).range_active);
    }
    law_line_range(a, b, states[l]);
}

/// `first~step` selects line `first` and every `step`-th line after it.
pub proof fn law_step_address(first: usize, step: usize, s: Snapshot)
    ensures
        address_selects(AddressModel::Step { first, step }, s) <==> exists|k: nat|
            s.line_number == first + #[trigger] (k * step),
{
    let addr = AddressModel::Step { first, step };
    if address_selects(addr, s) {
        if step == 0 {
            assert(0nat * step == 0) by (nonlinear_arith);
            assert(s.line_number == first + 0nat * step);
        } else {
            let d = s.line_number - first;
            let k = (d / step as int) as nat;
            assert(d == k * step) by {
                vstd::arithmetic::div_mod::lemma_fundamental_div_mod(d, step as int);
                assert(step as int * (d / step as int) == (d / step as int) * step as int)
                    by (nonlinear_arith);
                assert(d / step as int >= 0) by {
                    vstd::arithmetic::div_mod::lemma_div_pos_is_pos(d, step as int);
                }
            }
            assert(s.line_number == first + k * step);
        }
    }
    if exists|k: nat| s.line_number == first + #[trigger] (k * step) {
        let k = choose|k: nat| s.line_number == first + #[trigger] (k * step);
        if step == 0 {
            assert(k * step == 0) by (nonlinear_arith)
                requires
                    step == 0,
            ;
        } else {
            assert(k * step >= 0) by (nonlinear_arith);
            vstd::arithmetic::div_mod::lemma_mod_multiples_basic(k as int, step as int);
        }
    }
}

// ---------------------------------------------------------------------------
// Commands
// ---------------------------------------------------------------------------

/// `x` twice changes nothing.
pub proof fn law_exchange_twice(config: Config, program: Seq<InstructionModel>, s: Snapshot)
    ensures
        perform(
            config,
            program,
            CommandModel::Exchange,
            perform(config, program, CommandModel::Exchange, s),
        ) == s.go(s.pc + 2),
{
}

/// `g` after `h` gives the pattern space back.
pub proof fn law_hold_and_get(config: Config, program: Seq<InstructionModel>, s: Snapshot)
    ensures
        perform(
            config,
            program,
            CommandModel::GetReplace,
            perform(config, program, CommandModel::HoldReplace, s),
        ) == (Snapshot { hold_space: s.pattern_space, ..s.go(s.pc + 2) }),
{
}

/// `y` keeps the number of characters, and those that are not in its first
/// list.
pub proof fn law_transliteration_keeps_places(from: Seq<char>, to: Seq<char>, text: Seq<char>)
    ensures
        transliterated(from, to, text).len() == text.len(),
        forall|i: int|
            0 <= i < text.len() && !from.contains(text[i]) ==> #[trigger] transliterated(
                from,
                to,
                text,
            )[i] == text[i],
{
    assert forall|i: int|
        0 <= i < text.len() && !from.contains(text[i]) implies #[trigger] transliterated(
        from,
        to,
        text,
    )[i] == text[i] by {
        lemma_unpaired(from, to, text[i], 0);
    }
}

/// `y` makes each character that is in its first list the one at the same place of
/// its second list; where a character is there more than once the first place
/// counts. Nothing but the pattern space changes.
pub proof fn law_transliteration(
    config: Config,
    program: Seq<InstructionModel>,
    from: Seq<char>,
    to: Seq<char>,
    s: Snapshot,
    i: int,
    k: int,
)
    requires
        0 <= i < s.pattern_space.len(),
        0 <= k < from.len() <= to.len(),
        from[k] == s.pattern_space[i],
        forall|j: int| 0 <= j < k ==> #[trigger] from[j] != s.pattern_space[i],
    ensures
        ({
            let t = perform(config, program, CommandModel::Transliterate { from, to }, s);
            &&& t.pattern_space.len() == s.pattern_space.len()
            &&& t.pattern_space[i] == to[k]
            &&& t == (Snapshot { pattern_space: t.pattern_space, pc: s.pc + 1, ..s })
        }),
{
    lemma_paired_at(from, to, s.pattern_space[i], 0, k);
}

/// `y` leaves the characters alone that are not in its first list.
pub proof fn law_transliteration_keeps_others(
    config: Config,
    program: Seq<InstructionModel>,
    from: Seq<char>,
    to: Seq<char>,
    s: Snapshot,
)
    ensures
        ({
            let t = perform(config, program, CommandModel::Transliterate { from, to }, s);
            &&& t.pattern_space.len() == s.pattern_space.len()
            &&& forall|i: int|
                0 <= i < s.pattern_space.len() && !from.contains(s.pattern_space[i])
                    ==> #[trigger] t.pattern_space[i] == s.pattern_space[i]
            &&& t == (Snapshot { pattern_space: t.pattern_space, pc: s.pc + 1, ..s })
        }),
{
    law_transliteration_keeps_places(from, to, s.pattern_space);
}

proof fn lemma_paired_at(from: Seq<char>, to: Seq<char>, c: char, i: int, k: int)
    requires
        0 <= i <= k < from.len(),
        from[k] == c,
        forall|j: int| i <= j < k ==> #[trigger] from[j] != c,
    ensures
        paired(from, to, c, i) == to[k],
    decreases k - i,
{
    if i < k {
        assert(from[i] != c);
        lemma_paired_at(from, to, c, i + 1, k);
    }
}

proof fn lemma_unpaired(from: Seq<char>, to: Seq<char>, c: char, i: int)
    requires
        0 <= i <= from.len(),
        !from.contains(c),
    ensures
        paired(from, to, c, i) == c,
    decreases from.len() - i,
{
    if i < from.len() {
        lemma_unpaired(from, to, c, i + 1);
    }
}

} // verus!
