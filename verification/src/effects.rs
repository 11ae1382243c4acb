//! What each command does to the state, and what it leaves alone.

use vstd::prelude::*;

use crate::listing::listed;
use crate::machine::{
    label_index, line, lines, looked, perform, selects, step, with_file,
    with_file_line, with_line, with_shell_output, Config, InstructionModel, LineUse, OpModel,
    Snapshot, StatusModel,
};
use crate::pattern::PatternModel;
use crate::script::{CommandModel, SubstituteModel};
use crate::substitute::substituted;
use crate::text::{decimal, is_white_space, newline_index, without_trailing_space};

verus! {

// ---------------------------------------------------------------------------
// The hold space
// ---------------------------------------------------------------------------

/// Whether a text is two others with a newline between them.
pub open spec fn is_joined(all: Seq<char>, first: Seq<char>, second: Seq<char>) -> bool {
    &&& all.len() == first.len() + 1 + second.len()
    &&& all.take(first.len() as int) == first
    &&& all[first.len() as int] == '\n'
    &&& all.skip(first.len() as int + 1) == second
}

/// After `H` the hold space is what it held before, then a newline, then the
/// pattern space. Nothing else changes.
pub proof fn law_hold_append(config: Config, program: Seq<InstructionModel>, s: Snapshot)
    ensures
        ({
            let t = perform(config, program, CommandModel::HoldAppend, s);
            &&& is_joined(t.hold_space, s.hold_space, s.pattern_space)
            &&& s.hold_space.is_prefix_of(t.hold_space)
            &&& t == (Snapshot { hold_space: t.hold_space, pc: s.pc + 1, ..s })
        }),
{
    let t = perform(config, program, CommandModel::HoldAppend, s);
    assert(t.hold_space.take(s.hold_space.len() as int) =~= s.hold_space);
    assert(t.hold_space.skip(s.hold_space.len() as int + 1) =~= s.pattern_space);
    assert(t =~= Snapshot { hold_space: t.hold_space, pc: s.pc + 1, ..s });
}

/// After `G` the pattern space is what it held before, then a newline, then the
/// hold space. Nothing else changes.
pub proof fn law_get_append(config: Config, program: Seq<InstructionModel>, s: Snapshot)
    ensures
        ({
            let t = perform(config, program, CommandModel::GetAppend, s);
            &&& is_joined(t.pattern_space, s.pattern_space, s.hold_space)
            &&& s.pattern_space.is_prefix_of(t.pattern_space)
            &&& t == (Snapshot { pattern_space: t.pattern_space, pc: s.pc + 1, ..s })
        }),
{
    let t = perform(config, program, CommandModel::GetAppend, s);
    assert(t.pattern_space.take(s.pattern_space.len() as int) =~= s.pattern_space);
    assert(t.pattern_space.skip(s.pattern_space.len() as int + 1) =~= s.hold_space);
    assert(t =~= Snapshot { pattern_space: t.pattern_space, pc: s.pc + 1, ..s });
}

/// `h` and `g` make the two spaces the same, each in the one direction, and `x`
/// swaps them. Nothing else changes.
pub proof fn law_hold_get_and_exchange(
    config: Config,
    program: Seq<InstructionModel>,
    s: Snapshot,
)
    ensures
        perform(config, program, CommandModel::HoldReplace, s) == (Snapshot {
            pc: s.pc + 1,
            hold_space: s.pattern_space,
            ..s
        }),
        perform(config, program, CommandModel::GetReplace, s) == (Snapshot {
            pc: s.pc + 1,
            pattern_space: s.hold_space,
            ..s
        }),
        perform(config, program, CommandModel::Exchange, s) == (Snapshot {
            pc: s.pc + 1,
            pattern_space: s.hold_space,
            hold_space: s.pattern_space,
            ..s
        }),
{
}

/// `H;x` does what `x;G` does.
pub proof fn law_append_before_or_after_exchange(
    config: Config,
    program: Seq<InstructionModel>,
    s: Snapshot,
)
    ensures
        perform(
            config,
            program,
            CommandModel::Exchange,
            perform(config, program, CommandModel::HoldAppend, s),
        ) == perform(
            config,
            program,
            CommandModel::GetAppend,
            perform(config, program, CommandModel::Exchange, s),
        ),
{
    assert(perform(
        config,
        program,
        CommandModel::Exchange,
        perform(config, program, CommandModel::HoldAppend, s),
    ) =~= perform(
        config,
        program,
        CommandModel::GetAppend,
        perform(config, program, CommandModel::Exchange, s),
    ));
}

/// `z` empties the pattern space. Nothing else changes.
pub proof fn law_zap(config: Config, program: Seq<InstructionModel>, s: Snapshot)
    ensures
        ({
            let t = perform(config, program, CommandModel::ClearPattern, s);
            &&& t.pattern_space.len() == 0
            &&& t == (Snapshot { pattern_space: t.pattern_space, pc: s.pc + 1, ..s })
        }),
{
}

// ---------------------------------------------------------------------------
// Printing
// ---------------------------------------------------------------------------

/// Whether a state has printed this text and a line end after it, more than
/// another, and differs from it in nothing else but the place.
pub open spec fn has_printed(config: Config, s: Snapshot, t: Snapshot, text: Seq<char>) -> bool {
    let n = s.out.len() as int;
    &&& t.out.len() == n + text.len() + 1
    &&& t.out.take(n) == s.out
    &&& t.out.subrange(n, n + text.len()) == text
    &&& t.out.last() == (if config.null_data { '\0' } else { '\n' })
    &&& t == (Snapshot { out: t.out, pc: s.pc + 1, ..s })
}

proof fn lemma_has_printed(config: Config, s: Snapshot, text: Seq<char>)
    ensures
        has_printed(config, s, s.print(line(config, text)).next(), text),
{
    let t = s.print(line(config, text)).next();
    let n = s.out.len() as int;
    assert(t.out.take(n) =~= s.out);
    assert(t.out.subrange(n, n + text.len()) =~= text);
    assert(t =~= Snapshot { out: t.out, pc: s.pc + 1, ..s });
}

/// `p` prints the pattern space, `i` its text, `F` the name of the file, `=` the
/// number of the line in decimal, and `l` the pattern space in its unambiguous
/// form with a `$` at the end.
pub proof fn law_printing(
    config: Config,
    program: Seq<InstructionModel>,
    text: Seq<char>,
    s: Snapshot,
)
    ensures
        has_printed(
            config,
            s,
            perform(config, program, CommandModel::Print, s),
            s.pattern_space,
        ),
        has_printed(config, s, perform(config, program, CommandModel::Insert(text), s), text),
        has_printed(
            config,
            s,
            perform(config, program, CommandModel::PrintFileName, s),
            s.file_name,
        ),
        has_printed(
            config,
            s,
            perform(config, program, CommandModel::PrintLineNumber, s),
            decimal(s.line_number),
        ),
        has_printed(
            config,
            s,
            perform(config, program, CommandModel::List, s),
            listed(s.pattern_space) + seq!['$'],
        ),
{
    lemma_has_printed(config, s, s.pattern_space);
    lemma_has_printed(config, s, text);
    lemma_has_printed(config, s, s.file_name);
    lemma_has_printed(config, s, decimal(s.line_number));
    lemma_has_printed(config, s, listed(s.pattern_space) + seq!['$']);
    assert(listed(s.pattern_space).push('$') =~= listed(s.pattern_space) + seq!['$']);
}

/// Whether a text holds no newline.
pub open spec fn is_one_line(text: Seq<char>) -> bool {
    forall|i: int| 0 <= i < text.len() ==> #[trigger] text[i] != '\n'
}

proof fn lemma_newline_index(text: Seq<char>, first: Seq<char>, i: int)
    requires
        0 <= i <= first.len(),
        is_one_line(first),
        first.is_prefix_of(text),
    ensures
        text.len() == first.len() ==> newline_index(text, i) is None,
        text.len() > first.len() && text[first.len() as int] == '\n' ==> newline_index(text, i)
            == Some(first.len() as int),
    decreases first.len() - i,
{
    if i < first.len() {
        assert(text[i] == first[i]);
        lemma_newline_index(text, first, i + 1);
    }
}

/// `P` prints the pattern space up to its first newline, and all of it where it
/// holds none.
pub proof fn law_print_first_line(
    config: Config,
    program: Seq<InstructionModel>,
    first: Seq<char>,
    rest: Seq<char>,
    s: Snapshot,
)
    requires
        is_one_line(first),
        s.pattern_space == first || is_joined(s.pattern_space, first, rest),
    ensures
        has_printed(
            config,
            s,
            perform(config, program, CommandModel::PrintFirstLine, s),
            first,
        ),
{
    lemma_newline_index(s.pattern_space, first, 0);
    lemma_has_printed(config, s, first);
    assert(s.pattern_space.subrange(0, first.len() as int) =~= s.pattern_space.take(
        first.len() as int,
    ));
}

// ---------------------------------------------------------------------------
// The end of a cycle
// ---------------------------------------------------------------------------

/// Whether a state waits for the line of a new cycle when it has printed some
/// text more than another, from which it differs in nothing else.
pub open spec fn has_ended_cycle(s: Snapshot, t: Snapshot, text: Seq<char>) -> bool {
    t == (Snapshot {
        out: s.out + text,
        status: StatusModel::AwaitLine(LineUse::Cycle),
        ..s
    })
}

/// `d` ends the cycle: what `a` has queued is printed, the pattern space is not.
pub proof fn law_delete(config: Config, program: Seq<InstructionModel>, s: Snapshot)
    ensures
        has_ended_cycle(
            s,
            perform(config, program, CommandModel::Delete, s),
            lines(config, s.append_queue),
        ),
        s.append_queue.len() == 0 ==> perform(config, program, CommandModel::Delete, s).out
            == s.out,
{
    if s.append_queue.len() == 0 {
        assert(s.out + lines(config, s.append_queue) =~= s.out);
    }
}

/// `D` takes the pattern space up to its first newline away and starts the
/// script again without reading a line; where there is no newline it does what
/// `d` does.
pub proof fn law_delete_first_line(
    config: Config,
    program: Seq<InstructionModel>,
    first: Seq<char>,
    rest: Seq<char>,
    s: Snapshot,
)
    requires
        is_one_line(first),
    ensures
        s.pattern_space == first ==> perform(config, program, CommandModel::DeleteFirstLine, s)
            == perform(config, program, CommandModel::Delete, s),
        is_joined(s.pattern_space, first, rest) ==> perform(
            config,
            program,
            CommandModel::DeleteFirstLine,
            s,
        ) == (Snapshot {
            pc: 0,
            pattern_space: rest,
            append_queue: Seq::empty(),
            last_sub_success: false,
            ..s
        }),
{
    if s.pattern_space == first {
        lemma_newline_index(s.pattern_space, first, 0);
    }
    if is_joined(s.pattern_space, first, rest) {
        lemma_newline_index(s.pattern_space, first, 0);
        assert(s.pattern_space.subrange(first.len() as int + 1, s.pattern_space.len() as int)
            =~= s.pattern_space.skip(first.len() as int + 1));
    }
}

/// `c` does what `i` with the same text and then `d` does.
pub proof fn law_change(
    config: Config,
    program: Seq<InstructionModel>,
    text: Seq<char>,
    s: Snapshot,
)
    ensures
        perform(config, program, CommandModel::Change(text), s) == perform(
            config,
            program,
            CommandModel::Delete,
            Snapshot { pc: s.pc, ..perform(config, program, CommandModel::Insert(text), s) },
        ),
{
}

/// `a` queues its text behind what is queued already. Nothing is printed yet and
/// nothing else changes.
pub proof fn law_append(
    config: Config,
    program: Seq<InstructionModel>,
    text: Seq<char>,
    s: Snapshot,
)
    ensures
        perform(config, program, CommandModel::Append(text), s) == (Snapshot {
            pc: s.pc + 1,
            append_queue: s.append_queue + seq![text],
            ..s
        }),
{
    assert(s.append_queue.push(text) =~= s.append_queue + seq![text]);
}

/// Behind the last instruction the cycle ends: the pattern space is printed,
/// unless the script is quiet, and then what `a` has queued.
pub proof fn law_end_of_script(config: Config, program: Seq<InstructionModel>, s: Snapshot)
    requires
        s.pc >= program.len(),
    ensures
        has_ended_cycle(
            s,
            step(config, program, s),
            (if config.quiet {
                Seq::empty()
            } else {
                s.pattern_space + seq![
                    if config.null_data {
                        '\0'
                    } else {
                        '\n'
                    },
                ]
            }) + lines(config, s.append_queue),
        ),
{
    let end = if config.null_data {
        '\0'
    } else {
        '\n'
    };
    assert(s.pattern_space.push(end) =~= s.pattern_space + seq![end]);
    let printed = if config.quiet {
        Seq::empty()
    } else {
        s.pattern_space + seq![end]
    };
    let t = step(config, program, s);
    assert(t.out =~= s.out + (printed + lines(config, s.append_queue)));
}

// ---------------------------------------------------------------------------
// Lines
// ---------------------------------------------------------------------------

/// A new cycle starts at the first instruction with the line as the pattern
/// space. The hold space, the ranges and what was printed stay; what was queued
/// and the mark of a substitution do not. Where there is no line the run is over
/// and nothing more is printed.
pub proof fn law_new_cycle(config: Config, s: Snapshot, text: Seq<char>, is_last: bool)
    requires
        s.status == StatusModel::AwaitLine(LineUse::Cycle),
    ensures
        with_line(config, s, Some((text, is_last))) == (Snapshot {
            pc: 0,
            line_number: s.line_number + 1,
            is_last_line: is_last,
            pattern_space: text,
            append_queue: Seq::empty(),
            last_sub_success: false,
            status: StatusModel::Ready,
            ..s
        }),
        with_line(config, s, None) == (Snapshot { status: StatusModel::Finished(0), ..s }),
{
}

/// `n` prints the pattern space, unless the script is quiet, and what is queued;
/// then the next line takes the place of the pattern space and the script goes on
/// behind the `n`. Where there is no line the run is over.
pub proof fn law_next(
    config: Config,
    program: Seq<InstructionModel>,
    s: Snapshot,
    text: Seq<char>,
    is_last: bool,
)
    ensures
        ({
            let t = perform(config, program, CommandModel::Next, s);
            let printed = (if config.quiet {
                Seq::empty()
            } else {
                s.pattern_space + seq![
                    if config.null_data {
                        '\0'
                    } else {
                        '\n'
                    },
                ]
            }) + lines(config, s.append_queue);
            &&& with_line(config, t, Some((text, is_last))) == (Snapshot {
                pc: s.pc + 1,
                line_number: s.line_number + 1,
                is_last_line: is_last,
                pattern_space: text,
                out: s.out + printed,
                status: StatusModel::Ready,
                ..s
            })
            &&& with_line(config, t, None) == (Snapshot {
                pc: s.pc + 1,
                out: s.out + printed,
                status: StatusModel::Finished(0),
                ..s
            })
        }),
{
    let end = if config.null_data {
        '\0'
    } else {
        '\n'
    };
    assert(s.pattern_space.push(end) =~= s.pattern_space + seq![end]);
}

/// `N` prints nothing; the next line goes behind the pattern space, with a newline
/// between them, and the script goes on behind the `N`. Where there is no line the
/// pattern space is printed, unless the script is quiet, and the run is over.
pub proof fn law_next_append(
    config: Config,
    program: Seq<InstructionModel>,
    s: Snapshot,
    text: Seq<char>,
    is_last: bool,
)
    ensures
        ({
            let t = perform(config, program, CommandModel::NextAppend, s);
            let read = with_line(config, t, Some((text, is_last)));
            let over = with_line(config, t, None);
            &&& t.out == s.out
            &&& is_joined(read.pattern_space, s.pattern_space, text)
            &&& read == (Snapshot {
                pc: s.pc + 1,
                line_number: s.line_number + 1,
                is_last_line: is_last,
                pattern_space: read.pattern_space,
                status: StatusModel::Ready,
                ..s
            })
            &&& over.status == StatusModel::Finished(0)
            &&& config.quiet ==> over.out == s.out
            &&& !config.quiet ==> has_printed(
                config,
                s,
                Snapshot { status: s.status, ..over },
                s.pattern_space,
            )
        }),
{
    let t = perform(config, program, CommandModel::NextAppend, s);
    let read = with_line(config, t, Some((text, is_last)));
    let over = with_line(config, t, None);
    assert(read.pattern_space.take(s.pattern_space.len() as int) =~= s.pattern_space);
    assert(read.pattern_space.skip(s.pattern_space.len() as int + 1) =~= text);
    lemma_has_printed(config, s, s.pattern_space);
    if config.quiet {
        assert(s.out + Seq::<char>::empty() =~= s.out);
    } else {
        assert((Snapshot { status: s.status, ..over }) =~= s.print(
            line(config, s.pattern_space),
        ).next());
    }
}

// ---------------------------------------------------------------------------
// Branches
// ---------------------------------------------------------------------------

/// The label of a jump is found: the jump goes to a label of that name, to the
/// last where there are several, and behind the last instruction where there is
/// none or no name is given.
pub proof fn law_branch(
    config: Config,
    program: Seq<InstructionModel>,
    label: Option<Seq<char>>,
    s: Snapshot,
)
    ensures
        ({
            let t = perform(config, program, CommandModel::Branch(label), s);
            &&& t == (Snapshot { pc: t.pc, ..s })
            &&& label is None ==> t.pc == program.len()
            &&& label matches Some(name) ==> {
                let here = OpModel::Do(CommandModel::Label(name));
                if exists|i: int| 0 <= i < program.len() && #[trigger] program[i].op == here {
                    &&& 0 <= t.pc < program.len()
                    &&& program[t.pc].op == here
                    &&& forall|i: int| t.pc < i < program.len() ==> #[trigger] program[i].op != here
                } else {
                    t.pc == program.len()
                }
            }
        }),
{
    if let Some(name) = label {
        lemma_label_is_last(program, name, program.len() as int);
        let here = OpModel::Do(CommandModel::Label(name));
        if exists|i: int| 0 <= i < program.len() && #[trigger] program[i].op == here {
            let i = choose|i: int| 0 <= i < program.len() && #[trigger] program[i].op == here;
            assert(program[i].op == here);
        }
    }
}

proof fn lemma_label_is_last(program: Seq<InstructionModel>, name: Seq<char>, n: int)
    requires
        0 <= n <= program.len(),
    ensures
        match label_index(program, name, n) {
            Some(i) => {
                &&& 0 <= i < n
                &&& program[i].op == OpModel::Do(CommandModel::Label(name))
                &&& forall|k: int|
                    i < k < n ==> #[trigger] program[k].op != OpModel::Do(
                        CommandModel::Label(name),
                    )
            },
            None => forall|k: int|
                0 <= k < n ==> #[trigger] program[k].op != OpModel::Do(CommandModel::Label(name)),
        },
    decreases n,
{
    if n > 0 {
        lemma_label_is_last(program, name, n - 1);
    }
}

/// After a substitution was made that no `t` has asked for, `t` goes where `b`
/// with the same label goes, for a label and for none alike, and forgets the
/// substitution. Where none was made the next command comes.
pub proof fn law_branch_if_substituted(
    config: Config,
    program: Seq<InstructionModel>,
    label: Option<Seq<char>>,
    s: Snapshot,
)
    ensures
        s.last_sub_success ==> perform(config, program, CommandModel::BranchIfSub(label), s)
            == perform(
            config,
            program,
            CommandModel::Branch(label),
            Snapshot { last_sub_success: false, ..s },
        ),
        !s.last_sub_success ==> perform(config, program, CommandModel::BranchIfSub(label), s) == (
        Snapshot { pc: s.pc + 1, ..s }),
{
}

/// `T` goes where `b` with the same label goes exactly where no substitution was
/// made, and remembers one that was.
pub proof fn law_branch_unless_substituted(
    config: Config,
    program: Seq<InstructionModel>,
    label: Option<Seq<char>>,
    s: Snapshot,
)
    ensures
        s.last_sub_success ==> perform(config, program, CommandModel::BranchIfNotSub(label), s)
            == (Snapshot { pc: s.pc + 1, ..s }),
        !s.last_sub_success ==> perform(config, program, CommandModel::BranchIfNotSub(label), s)
            == perform(config, program, CommandModel::Branch(label), s),
{
}

/// After `b`, or after `t` where a substitution was made, without a label, no
/// command behind it is carried out on this line: the cycle ends next, and the
/// pattern space is printed as it is.
pub proof fn law_branch_to_the_end(
    config: Config,
    program: Seq<InstructionModel>,
    command: CommandModel,
    s: Snapshot,
)
    requires
        command == CommandModel::Branch(None) || (command == CommandModel::BranchIfSub(None)
            && s.last_sub_success) || (command == CommandModel::BranchIfNotSub(None)
            && !s.last_sub_success),
    ensures
        ({
            let t = perform(config, program, command, s);
            &&& t.pattern_space == s.pattern_space
            &&& t.out == s.out
            &&& step(config, program, t).status == StatusModel::AwaitLine(LineUse::Cycle)
            &&& !config.quiet && s.append_queue.len() == 0 ==> step(config, program, t).out
                == s.out + s.pattern_space + seq![
                if config.null_data {
                    '\0'
                } else {
                    '\n'
                },
            ]
        }),
{
    let t = perform(config, program, command, s);
    law_branch(config, program, None, s);
    law_branch_if_substituted(config, program, None, s);
    law_branch_unless_substituted(config, program, None, s);
    law_branch(config, program, None, Snapshot { last_sub_success: false, ..s });
    law_end_of_script(config, program, t);
    assert(lines(config, Seq::empty()) =~= Seq::empty());
    if s.append_queue.len() == 0 {
        assert(s.append_queue =~= Seq::empty());
        let end = if config.null_data {
            '\0'
        } else {
            '\n'
        };
        if !config.quiet {
            assert(step(config, program, t).out =~= s.out + s.pattern_space + seq![end]);
        }
    }
}

/// Labels, comments and `v` do nothing.
pub proof fn law_no_effect(
    config: Config,
    program: Seq<InstructionModel>,
    name: Seq<char>,
    s: Snapshot,
)
    ensures
        perform(config, program, CommandModel::Label(name), s) == (Snapshot { pc: s.pc + 1, ..s }),
        perform(config, program, CommandModel::Noop, s) == (Snapshot { pc: s.pc + 1, ..s }),
{
}

// ---------------------------------------------------------------------------
// Steps
// ---------------------------------------------------------------------------

/// A command is carried out on the lines that its address selects, and on others
/// nothing happens but that its range may open or close.
pub proof fn law_step(config: Config, program: Seq<InstructionModel>, s: Snapshot)
    requires
        0 <= s.pc < program.len(),
    ensures
        ({
            let address = program[s.pc].address;
            let t = step(config, program, s);
            let seen = looked(address, s);
            &&& program[s.pc].op matches OpModel::Do(command) ==> t == (if selects(address, s) {
                perform(config, program, command, seen)
            } else {
                Snapshot { pc: s.pc + 1, ..seen }
            })
            &&& program[s.pc].op is ScopeEnd ==> t == (Snapshot { pc: s.pc + 1, ..s })
            &&& program[s.pc].op is ScopeStart && selects(address, s) ==> t == (Snapshot {
                pc: s.pc + 1,
                ..seen
            })
            &&& seen == (Snapshot { range_active: seen.range_active, ..s })
        }),
{
}

// ---------------------------------------------------------------------------
// Quitting
// ---------------------------------------------------------------------------

/// `q` ends the run when it has printed what the end of the cycle prints, with its
/// exit status or with zero. `Q` does the same and prints nothing.
pub proof fn law_quit_commands(
    config: Config,
    program: Seq<InstructionModel>,
    code: Option<i32>,
    s: Snapshot,
)
    ensures
        ({
            let status = match code {
                Some(n) => n,
                None => 0,
            };
            let end = step(config, program, Snapshot { pc: program.len() as int, ..s });
            &&& perform(config, program, CommandModel::Quit(code), s) == (Snapshot {
                out: end.out,
                status: StatusModel::Finished(status),
                ..s
            })
            &&& perform(config, program, CommandModel::QuitNoprint(code), s) == (Snapshot {
                status: StatusModel::Finished(status),
                ..s
            })
        }),
{
    let end = step(config, program, Snapshot { pc: program.len() as int, ..s });
    let t = perform(config, program, CommandModel::Quit(code), s);
    assert(t.out =~= end.out);
}

// ---------------------------------------------------------------------------
// Files and the shell
// ---------------------------------------------------------------------------

/// `r` asks for its file and `R` for the next line of it, `w` and `W` ask for the
/// pattern space and a newline to be appended to theirs, and `e` asks for a shell
/// command: its own, whose output is printed, or else the pattern space, which
/// the output replaces. Nothing else changes.
pub proof fn law_requests(
    config: Config,
    program: Seq<InstructionModel>,
    name: Seq<char>,
    s: Snapshot,
)
    ensures
        perform(config, program, CommandModel::ReadFile(name), s) == (Snapshot {
            pc: s.pc + 1,
            status: StatusModel::AwaitFile(name),
            ..s
        }),
        perform(config, program, CommandModel::ReadLine(name), s) == (Snapshot {
            pc: s.pc + 1,
            status: StatusModel::AwaitFileLine(name),
            ..s
        }),
        perform(config, program, CommandModel::WriteFile(name), s) == (Snapshot {
            pc: s.pc + 1,
            status: StatusModel::AwaitAppend { path: name, text: s.pattern_space + seq!['\n'] },
            ..s
        }),
        perform(config, program, CommandModel::WriteFirstLine(name), s) == perform(
            config,
            program,
            CommandModel::WriteFile(name),
            s,
        ),
        perform(config, program, CommandModel::Execute(Some(name)), s) == (Snapshot {
            pc: s.pc + 1,
            status: StatusModel::AwaitShell { command: name, replace: false },
            ..s
        }),
        perform(config, program, CommandModel::Execute(None), s) == (Snapshot {
            pc: s.pc + 1,
            status: StatusModel::AwaitShell { command: s.pattern_space, replace: true },
            ..s
        }),
{
    assert(s.pattern_space.push('\n') =~= s.pattern_space + seq!['\n']);
}

/// A text without white space at its end is what is queued of a file that holds
/// it and then white space; a line of a file is queued as it is; a file that
/// cannot be read, or has no more lines, changes nothing. The script goes on.
pub proof fn law_supplied_files(s: Snapshot, text: Seq<char>, space: Seq<char>)
    requires
        text.len() > 0 ==> !is_white_space(text.last()),
        forall|i: int| 0 <= i < space.len() ==> is_white_space(#[trigger] space[i]),
    ensures
        with_file(s, Some(text + space)) == (Snapshot {
            append_queue: s.append_queue + seq![text],
            status: StatusModel::Ready,
            ..s
        }),
        with_file(s, None) == (Snapshot { status: StatusModel::Ready, ..s }),
        with_file_line(s, Some(text + space)) == (Snapshot {
            append_queue: s.append_queue + seq![text + space],
            status: StatusModel::Ready,
            ..s
        }),
        with_file_line(s, None) == (Snapshot { status: StatusModel::Ready, ..s }),
{
    law_trailing_space(text, space);
    assert(s.append_queue.push(text) =~= s.append_queue + seq![text]);
    assert(s.append_queue.push(text + space) =~= s.append_queue + seq![text + space]);
}

/// Trimming takes all white space at the end of a text away and nothing else.
pub proof fn law_trailing_space(text: Seq<char>, space: Seq<char>)
    requires
        text.len() > 0 ==> !is_white_space(text.last()),
        forall|i: int| 0 <= i < space.len() ==> is_white_space(#[trigger] space[i]),
    ensures
        without_trailing_space(text + space) == text,
    decreases space.len(),
{
    if space.len() == 0 {
        assert(text + space =~= text);
    } else {
        law_trailing_space(text, space.drop_last());
        assert((text + space).drop_last() =~= text + space.drop_last());
        assert((text + space).last() == space.last());
        assert(is_white_space(space[space.len() - 1]));
    }
}

/// What the shell writes takes the place of the pattern space where the command
/// was the pattern space, without one newline at its end; else it is printed as it
/// is. The script goes on.
pub proof fn law_supplied_shell_output(s: Snapshot, output: Seq<char>)
    requires
        s.status is AwaitShell,
    ensures
        !s.status->replace ==> with_shell_output(s, output) == (Snapshot {
            out: s.out + output,
            status: StatusModel::Ready,
            ..s
        }),
        s.status->replace ==> with_shell_output(s, output + seq!['\n']) == (Snapshot {
            pattern_space: output,
            status: StatusModel::Ready,
            ..s
        }),
        s.status->replace && (output.len() > 0 ==> output.last() != '\n') ==> with_shell_output(
            s,
            output,
        ) == (Snapshot { pattern_space: output, status: StatusModel::Ready, ..s }),
{
    assert((output + seq!['\n']).drop_last() =~= output);
}

// ---------------------------------------------------------------------------
// Substitution
// ---------------------------------------------------------------------------

/// `s` looks for its pattern, with or without regard to case as its flag says, in
/// the pattern space. Where nothing is replaced nothing changes. Where something
/// is, the new text is the pattern space, `t` can ask for it, and it is printed if
/// the flag `p` says so; with the flag `w` it is to be appended to the file, with a
/// newline.
pub proof fn law_substitute_command(
    config: Config,
    program: Seq<InstructionModel>,
    sub: SubstituteModel,
    s: Snapshot,
)
    ensures
        ({
            let pattern = PatternModel {
                source: sub.pattern,
                case_insensitive: sub.case_insensitive,
            };
            let t = perform(config, program, CommandModel::Substitute(sub), s);
            let plain = Snapshot { status: s.status, ..t };
            match substituted(
                s.pattern_space,
                pattern.spans(s.pattern_space),
                sub.replacement,
                sub.global,
                sub.nth,
            ) {
                None => t == (Snapshot { pc: s.pc + 1, ..s }),
                Some(new) => {
                    let made = Snapshot { pattern_space: new, last_sub_success: true, ..s };
                    &&& sub.print ==> has_printed(config, made, plain, new)
                    &&& !sub.print ==> plain == (Snapshot { pc: s.pc + 1, ..made })
                    &&& t.status == (match sub.write_file {
                        Some(path) => StatusModel::AwaitAppend { path, text: new + seq!['\n'] },
                        None => s.status,
                    })
                },
            }
        }),
{
    let pattern = PatternModel { source: sub.pattern, case_insensitive: sub.case_insensitive };
    if let Some(new) = substituted(
        s.pattern_space,
        pattern.spans(s.pattern_space),
        sub.replacement,
        sub.global,
        sub.nth,
    ) {
        let made = Snapshot { pattern_space: new, last_sub_success: true, ..s };
        lemma_has_printed(config, made, new);
        assert(new.push('\n') =~= new + seq!['\n']);
    }
}

} // verus!
