//! What a script of one command does to a whole input.

use vstd::prelude::*;
use vstd::utf8::encode_utf8;

use crate::grammar::{commands, digits_value, number, one_command, run_end, skip_blanks};
use crate::input::{is_line, law_printed_lines_are_read_back};
use crate::laws::{law_line_range, law_outcome_is_the_ending, open_before};
use crate::machine::{
    address_pattern, command_patterns, ending, flatten, is_active, lemma_lines_first, line, lines,
    looked, lower, outcome, perform, script_patterns, selects, step, substitute_pattern, with_line,
    Config, Ending, InstructionModel, LineUse, OpModel, Snapshot, Source, StatusModel,
};
use crate::script::{AddressModel, CommandModel, RangeModel, SedCommandModel, SubstituteModel};
use crate::sed::{accepted, run_of};
use crate::selection::{at_line, law_delete_selected, law_print_selected, picked, selection};
use crate::substitute::substitution;

verus! {

/// The instructions of the script that carries out one command on some lines.
pub open spec fn one(address: RangeModel, command: CommandModel) -> Seq<InstructionModel> {
    flatten(seq![SedCommandModel { address, command }])
}

pub proof fn lemma_one(address: RangeModel, command: CommandModel)
    requires
        !(command is Block),
        !(command is Label),
        !(command is WriteFirstLine),
    ensures
        one(address, command) == seq![InstructionModel { address, op: OpModel::Do(command) }],
{
    let script = seq![SedCommandModel { address, command }];
    assert(script.drop_last() =~= Seq::empty());
    assert(flatten(script.drop_last()) =~= Seq::<InstructionModel>::empty());
    assert(script.last() == SedCommandModel { address, command });
    assert(flatten(script) =~= lower(address, command));
}

/// What one command does to the line that was just read, up to the end of the
/// cycle.
pub proof fn lemma_cycle(
    config: Config,
    address: RangeModel,
    command: CommandModel,
    source: Source,
    s: Snapshot,
    steps: nat,
)
    requires
        !source.broken,
        source.lines.len() > 0,
        steps > 3,
        s.status == StatusModel::AwaitLine(LineUse::Cycle),
    ensures
        ({
            let program = seq![InstructionModel { address, op: OpModel::Do(command) }];
            let read = with_line(config, s, source.next());
            let seen = looked(address, read);
            let done = if selects(address, read) {
                perform(config, program, command, seen)
            } else {
                seen.next()
            };
            &&& read.status is Ready
            &&& read.pc == 0
            &&& done.status is Ready && done.pc == 1 ==> ending(
                config,
                program,
                source,
                s,
                steps,
            ) == ending(
                config,
                program,
                source.rest(),
                step(config, program, done),
                (steps - 3) as nat,
            )
            &&& ending(config, program, source, s, steps) == ending(
                config,
                program,
                source.rest(),
                done,
                (steps - 2) as nat,
            )
        }),
{
    let program = seq![InstructionModel { address, op: OpModel::Do(command) }];
    let read = with_line(config, s, source.next());
    assert(ending(config, program, source, s, steps) == ending(
        config,
        program,
        source.rest(),
        read,
        (steps - 1) as nat,
    ));
    assert(program[0].address == address);
    assert(ending(config, program, source.rest(), read, (steps - 1) as nat) == ending(
        config,
        program,
        source.rest(),
        step(config, program, read),
        (steps - 2) as nat,
    ));
}

// ---------------------------------------------------------------------------
// Substitution
// ---------------------------------------------------------------------------

/// What a substitution makes of a line, or the line if it replaces nothing.
pub open spec fn edited(sub: SubstituteModel, text: Seq<char>) -> Seq<char> {
    match substitution(substitute_pattern(sub), text, sub.replacement, sub.global, sub.nth) {
        Some(new) => new,
        None => text,
    }
}

/// What is printed of one line: the new line where the `p` flag asks for it and
/// something was replaced, and the line in any case unless quiet.
pub open spec fn edited_output(config: Config, sub: SubstituteModel, text: Seq<char>) -> Seq<char> {
    let by_flag = if sub.print && substitution(
        substitute_pattern(sub),
        text,
        sub.replacement,
        sub.global,
        sub.nth,
    ) is Some {
        line(config, edited(sub, text))
    } else {
        Seq::empty()
    };
    let by_cycle = if config.quiet {
        Seq::empty()
    } else {
        line(config, edited(sub, text))
    };
    by_flag + by_cycle
}

/// What is printed of all lines.
pub open spec fn edited_outputs(
    config: Config,
    sub: SubstituteModel,
    texts: Seq<Seq<char>>,
) -> Seq<char>
    decreases texts.len(),
{
    if texts.len() == 0 {
        Seq::empty()
    } else {
        edited_output(config, sub, texts[0]) + edited_outputs(config, sub, texts.drop_first())
    }
}

/// An `s` command on every line replaces in each line on its own.
pub proof fn law_substitute_every_line(
    config: Config,
    sub: SubstituteModel,
    source: Source,
)
    requires
        sub.write_file is None,
        !source.broken,
    ensures
        outcome(config, one(RangeModel::Every, CommandModel::Substitute(sub)), source)
            == Ending::Finished(0, edited_outputs(config, sub, source.lines)),
{
    let command = CommandModel::Substitute(sub);
    lemma_one(RangeModel::Every, command);
    let program = one(RangeModel::Every, command);
    let steps = 3 * source.lines.len() + 4;
    lemma_substitute_from(config, sub, source, Snapshot::initial(program), steps);
    law_outcome_is_the_ending(config, program, source, steps);
    let all = edited_outputs(config, sub, source.lines);
    assert(Seq::<char>::empty() + all =~= all);
}

proof fn lemma_substitute_from(
    config: Config,
    sub: SubstituteModel,
    source: Source,
    s: Snapshot,
    steps: nat,
)
    requires
        sub.write_file is None,
        !source.broken,
        steps > 3 * source.lines.len() + 3,
        s.status == StatusModel::AwaitLine(LineUse::Cycle),
    ensures
        ending(
            config,
            seq![
                InstructionModel {
                    address: RangeModel::Every,
                    op: OpModel::Do(CommandModel::Substitute(sub)),
                },
            ],
            source,
            s,
            steps,
        ) == Ending::Finished(0, s.out + edited_outputs(config, sub, source.lines)),
    decreases source.lines.len(),
{
    let command = CommandModel::Substitute(sub);
    let program = seq![
        InstructionModel { address: RangeModel::Every, op: OpModel::Do(command) },
    ];
    let read = with_line(config, s, source.next());
    if source.lines.len() == 0 {
        assert(ending(config, program, source.rest(), read, (steps - 1) as nat)
            == Ending::Finished(0, s.out));
        assert(s.out + Seq::<char>::empty() =~= s.out);
    } else {
        let text = source.lines[0];
        lemma_cycle(config, RangeModel::Every, command, source, s, steps);
        let done = perform(config, program, command, read);
        let end = step(config, program, done);
        assert(done.pattern_space == edited(sub, text));
        assert(lines(config, done.append_queue) =~= Seq::empty());
        assert(end.out =~= s.out + edited_output(config, sub, text));
        lemma_substitute_from(config, sub, source.rest(), end, (steps - 3) as nat);
        assert(end.out + edited_outputs(config, sub, source.rest().lines) =~= s.out
            + edited_outputs(config, sub, source.lines));
    }
}

/// Without the `p` flag and not quiet, the output is the edited lines.
pub proof fn law_substitute_prints_edited_lines(
    config: Config,
    sub: SubstituteModel,
    texts: Seq<Seq<char>>,
)
    requires
        !config.quiet,
        !sub.print,
    ensures
        edited_outputs(config, sub, texts) == lines(
            config,
            texts.map_values(|text: Seq<char>| edited(sub, text)),
        ),
    decreases texts.len(),
{
    let all = texts.map_values(|text: Seq<char>| edited(sub, text));
    if texts.len() > 0 {
        law_substitute_prints_edited_lines(config, sub, texts.drop_first());
        assert(all.drop_first() =~= texts.drop_first().map_values(
            |text: Seq<char>| edited(sub, text),
        ));
        lemma_lines_first(config, all);
        assert(edited_output(config, sub, texts[0]) =~= line(config, all[0]));
    } else {
        assert(all =~= Seq::empty());
    }
}

// ---------------------------------------------------------------------------
// Lines that a pattern selects
// ---------------------------------------------------------------------------

/// The address of the lines in which a pattern occurs, or of the others.
pub open spec fn matching(source: Seq<char>, negated: bool) -> RangeModel {
    RangeModel::Single { addr: AddressModel::Regex(source), negated }
}

/// Whether [`matching`] selects a line.
pub open spec fn is_matching(source: Seq<char>, negated: bool, text: Seq<char>) -> bool {
    address_pattern(source).finds(text) != negated
}

proof fn lemma_filter_first(texts: Seq<Seq<char>>, keep: spec_fn(Seq<char>) -> bool)
    requires
        texts.len() > 0,
    ensures
        texts.filter(keep) == (if keep(texts[0]) {
            seq![texts[0]] + texts.drop_first().filter(keep)
        } else {
            texts.drop_first().filter(keep)
        }),
{
    let first = seq![texts[0]];
    assert(texts =~= first + texts.drop_first());
    Seq::filter_distributes_over_add(first, texts.drop_first(), keep);
    reveal(Seq::filter);
    assert(first.drop_last() =~= Seq::empty());
    assert(first.drop_last().filter(keep) =~= Seq::empty());
    assert(first.filter(keep) =~= if keep(texts[0]) {
        first
    } else {
        Seq::empty()
    });
    assert(Seq::<Seq<char>>::empty() + texts.drop_first().filter(keep)
        =~= texts.drop_first().filter(keep));
}

/// `/regex/d` drops the lines in which the pattern occurs and prints the
/// others; `/regex/!d` the other way round.
pub proof fn law_delete_matching(
    config: Config,
    pattern: Seq<char>,
    negated: bool,
    source: Source,
)
    requires
        !config.quiet,
        !source.broken,
    ensures
        outcome(config, one(matching(pattern, negated), CommandModel::Delete), source)
            == Ending::Finished(
            0,
            lines(
                config,
                source.lines.filter(|text: Seq<char>| !is_matching(pattern, negated, text)),
            ),
        ),
{
    law_delete_selected(config, matching(pattern, negated), source);
    lemma_picked_matching(pattern, negated, source.lines, 0, false, false);
    let kept = |text: Seq<char>| is_matching(pattern, negated, text) == false;
    assert(kept =~= |text: Seq<char>| !is_matching(pattern, negated, text));
}

/// The lines that [`matching`] picks.
proof fn lemma_picked_matching(
    pattern: Seq<char>,
    negated: bool,
    texts: Seq<Seq<char>>,
    read: nat,
    open: bool,
    wanted: bool,
)
    ensures
        picked(texts, selection(matching(pattern, negated), texts, read, open), wanted)
            == texts.filter(|text: Seq<char>| is_matching(pattern, negated, text) == wanted),
    decreases texts.len(),
{
    let keep = |text: Seq<char>| is_matching(pattern, negated, text) == wanted;
    let address = matching(pattern, negated);
    if texts.len() == 0 {
        reveal(Seq::filter);
        assert(texts.filter(keep) =~= Seq::empty());
    } else {
        let s = at_line(read + 1, texts.len() == 1, texts[0], open);
        let next = is_active(looked(address, s));
        lemma_filter_first(texts, keep);
        lemma_picked_matching(pattern, negated, texts.drop_first(), read + 1, next, wanted);
        assert(selection(address, texts, read, open).drop_first() =~= selection(
            address,
            texts.drop_first(),
            read + 1,
            next,
        ));
    }
}

/// In quiet mode `/regex/p` prints the lines in which the pattern occurs and no
/// others; `/regex/!p` the other way round.
pub proof fn law_print_matching(
    config: Config,
    pattern: Seq<char>,
    negated: bool,
    source: Source,
)
    requires
        config.quiet,
        !source.broken,
    ensures
        outcome(config, one(matching(pattern, negated), CommandModel::Print), source)
            == Ending::Finished(
            0,
            lines(
                config,
                source.lines.filter(|text: Seq<char>| is_matching(pattern, negated, text)),
            ),
        ),
{
    law_print_selected(config, matching(pattern, negated), source);
    lemma_picked_matching(pattern, negated, source.lines, 0, false, true);
    let printed = |text: Seq<char>| is_matching(pattern, negated, text) == true;
    assert(printed =~= |text: Seq<char>| is_matching(pattern, negated, text));
}

// ---------------------------------------------------------------------------
// Lines that their numbers select
// ---------------------------------------------------------------------------

/// The lines whose numbers do not lie from `a` to `b`, where the first of them
/// has the number `n`. Line `a` counts as between them in any case.
pub open spec fn outside(texts: Seq<Seq<char>>, n: nat, a: usize, b: usize) -> Seq<Seq<char>>
    decreases texts.len(),
{
    if texts.len() == 0 {
        Seq::empty()
    } else if n == a || a <= n <= b {
        outside(texts.drop_first(), n + 1, a, b)
    } else {
        seq![texts[0]] + outside(texts.drop_first(), n + 1, a, b)
    }
}

/// The address of the lines from number `a` to number `b`.
pub open spec fn from_to(a: usize, b: usize) -> RangeModel {
    RangeModel::Range { start: AddressModel::Line(a), end: AddressModel::Line(b), negated: false }
}

/// `a,bd` drops the lines from number `a` to number `b` and prints the others.
pub proof fn law_delete_lines(config: Config, a: usize, b: usize, source: Source)
    requires
        a > 0,
        !config.quiet,
        !source.broken,
    ensures
        outcome(config, one(from_to(a, b), CommandModel::Delete), source)
            == Ending::Finished(0, lines(config, outside(source.lines, 1, a, b))),
{
    law_delete_selected(config, from_to(a, b), source);
    lemma_picked_outside(a, b, source.lines, 0, false);
}

/// The lines that [`from_to`] leaves.
proof fn lemma_picked_outside(a: usize, b: usize, texts: Seq<Seq<char>>, read: nat, open: bool)
    requires
        a > 0,
        open == open_before(a, b, read + 1),
    ensures
        picked(texts, selection(from_to(a, b), texts, read, open), false) == outside(
            texts,
            read + 1,
            a,
            b,
        ),
    decreases texts.len(),
{
    if texts.len() > 0 {
        let s = at_line(read + 1, texts.len() == 1, texts[0], open);
        let next = is_active(looked(from_to(a, b), s));
        law_line_range(a, b, s);
        lemma_picked_outside(a, b, texts.drop_first(), read + 1, next);
        assert(selection(from_to(a, b), texts, read, open).drop_first() =~= selection(
            from_to(a, b),
            texts.drop_first(),
            read + 1,
            next,
        ));
    }
}

/// Where `b` is no earlier than `a`, the lines outside are the first `a - 1` and
/// those behind number `b`.
pub proof fn law_outside(texts: Seq<Seq<char>>, a: usize, b: usize)
    requires
        0 < a <= b <= texts.len(),
    ensures
        outside(texts, 1, a, b) == texts.take(a - 1) + texts.skip(b as int),
{
    lemma_outside_from(texts, 1, a, b);
    assert(texts.skip(0) =~= texts);
    assert(texts.subrange(0, a - 1) =~= texts.take(a - 1));
}

proof fn lemma_outside_from(texts: Seq<Seq<char>>, n: nat, a: usize, b: usize)
    requires
        0 < n <= texts.len() + 1,
        0 < a <= b <= texts.len(),
    ensures
        outside(texts.skip(n - 1), n, a, b) == (if n < a {
            texts.subrange(n - 1, a - 1)
        } else {
            Seq::empty()
        }) + texts.skip(if n <= b {
            b as int
        } else {
            n - 1
        }),
    decreases texts.len() + 1 - n,
{
    if n <= texts.len() {
        lemma_outside_from(texts, n + 1, a, b);
        assert(texts.skip(n - 1).drop_first() =~= texts.skip(n as int));
        assert(texts.skip(n - 1)[0] == texts[n - 1]);
    }
    assert(outside(texts.skip(n - 1), n, a, b) =~= (if n < a {
        texts.subrange(n - 1, a - 1)
    } else {
        Seq::empty()
    }) + texts.skip(if n <= b {
        b as int
    } else {
        n - 1
    }));
}

// ---------------------------------------------------------------------------
// Quitting
// ---------------------------------------------------------------------------

/// `nq` prints the first `n` lines and reads no further.
pub proof fn law_quit(config: Config, n: usize, code: Option<i32>, source: Source)
    requires
        !config.quiet,
        !source.broken,
        0 < n <= source.lines.len(),
    ensures
        outcome(
            config,
            one(
                RangeModel::Single { addr: AddressModel::Line(n), negated: false },
                CommandModel::Quit(code),
            ),
            source,
        ) == Ending::Finished(
            crate::machine::exit_code(code),
            lines(config, source.lines.take(n as int)),
        ),
{
    let address = RangeModel::Single { addr: AddressModel::Line(n), negated: false };
    lemma_one(address, CommandModel::Quit(code));
    let program = one(address, CommandModel::Quit(code));
    let steps = 3 * source.lines.len() + 4;
    lemma_quit_from(config, n, code, source, Snapshot::initial(program), steps);
    law_outcome_is_the_ending(config, program, source, steps);
    let all = lines(config, source.lines.take(n as int));
    assert(Seq::<char>::empty() + all =~= all);
}

proof fn lemma_quit_from(
    config: Config,
    n: usize,
    code: Option<i32>,
    source: Source,
    s: Snapshot,
    steps: nat,
)
    requires
        !config.quiet,
        !source.broken,
        s.line_number < n <= s.line_number + source.lines.len(),
        steps > 3 * source.lines.len() + 3,
        s.status == StatusModel::AwaitLine(LineUse::Cycle),
    ensures
        ending(
            config,
            seq![
                InstructionModel {
                    address: RangeModel::Single { addr: AddressModel::Line(n), negated: false },
                    op: OpModel::Do(CommandModel::Quit(code)),
                },
            ],
            source,
            s,
            steps,
        ) == Ending::Finished(
            crate::machine::exit_code(code),
            s.out + lines(config, source.lines.take(n - s.line_number)),
        ),
    decreases source.lines.len(),
{
    let address = RangeModel::Single { addr: AddressModel::Line(n), negated: false };
    let command = CommandModel::Quit(code);
    let program = seq![InstructionModel { address, op: OpModel::Do(command) }];
    let read = with_line(config, s, source.next());
    let text = source.lines[0];
    let head = source.lines.take(n - s.line_number);
    lemma_cycle(config, address, command, source, s, steps);
    lemma_lines_first(config, head);
    assert(lines(config, read.append_queue) =~= Seq::empty());
    if s.line_number + 1 == n {
        let done = perform(config, program, command, read);
        assert(head.drop_first() =~= Seq::empty());
        assert(done.out =~= s.out + lines(config, head));
    } else {
        let end = step(config, program, read.next());
        assert(end.out =~= s.out + line(config, text));
        lemma_quit_from(config, n, code, source.rest(), end, (steps - 3) as nat);
        assert(head.drop_first() =~= source.rest().lines.take(n - end.line_number));
        assert(end.out + lines(config, head.drop_first()) =~= s.out + lines(config, head));
    }
}

// ---------------------------------------------------------------------------
// The last line
// ---------------------------------------------------------------------------

/// The address of the last line.
pub open spec fn last() -> RangeModel {
    RangeModel::Single { addr: AddressModel::Last, negated: false }
}

/// `$d` drops the last line and prints the others.
pub proof fn law_delete_last(config: Config, source: Source)
    requires
        !config.quiet,
        !source.broken,
        source.lines.len() > 0,
    ensures
        outcome(config, one(last(), CommandModel::Delete), source) == Ending::Finished(
            0,
            lines(config, source.lines.drop_last()),
        ),
{
    law_delete_selected(config, last(), source);
    lemma_picked_but_last(source.lines, 0, false);
}

/// The lines that [`last`] leaves.
proof fn lemma_picked_but_last(texts: Seq<Seq<char>>, read: nat, open: bool)
    requires
        texts.len() > 0,
    ensures
        picked(texts, selection(last(), texts, read, open), false) == texts.drop_last(),
    decreases texts.len(),
{
    let s = at_line(read + 1, texts.len() == 1, texts[0], open);
    let next = is_active(looked(last(), s));
    let flags = selection(last(), texts, read, open);
    assert(flags.drop_first() =~= selection(last(), texts.drop_first(), read + 1, next));
    if texts.len() == 1 {
        assert(picked(texts.drop_first(), flags.drop_first(), false) =~= Seq::empty());
        assert(picked(texts, flags, false) =~= texts.drop_last());
    } else {
        lemma_picked_but_last(texts.drop_first(), read + 1, next);
        assert(picked(texts, flags, false) =~= texts.drop_last());
    }
}

// ---------------------------------------------------------------------------
// Lines between two patterns
// ---------------------------------------------------------------------------

/// The lines from one in which the first pattern occurs up to the next after it
/// in which the second occurs, again and again. `open` says whether the first
/// has been found.
pub open spec fn between(
    texts: Seq<Seq<char>>,
    open: bool,
    first: Seq<char>,
    second: Seq<char>,
) -> Seq<Seq<char>>
    decreases texts.len(),
{
    if texts.len() == 0 {
        Seq::empty()
    } else if open {
        seq![texts[0]] + between(
            texts.drop_first(),
            !address_pattern(second).finds(texts[0]),
            first,
            second,
        )
    } else if address_pattern(first).finds(texts[0]) {
        seq![texts[0]] + between(texts.drop_first(), true, first, second)
    } else {
        between(texts.drop_first(), false, first, second)
    }
}

/// In quiet mode `/first/,/second/p` prints the lines between the two, both
/// included, and no others.
pub proof fn law_print_between(
    config: Config,
    first: Seq<char>,
    second: Seq<char>,
    source: Source,
)
    requires
        config.quiet,
        !source.broken,
    ensures
        outcome(
            config,
            one(
                RangeModel::Range {
                    start: AddressModel::Regex(first),
                    end: AddressModel::Regex(second),
                    negated: false,
                },
                CommandModel::Print,
            ),
            source,
        ) == Ending::Finished(0, lines(config, between(source.lines, false, first, second))),
{
    let address = RangeModel::Range {
        start: AddressModel::Regex(first),
        end: AddressModel::Regex(second),
        negated: false,
    };
    law_print_selected(config, address, source);
    lemma_picked_between(first, second, source.lines, 0, false);
}

/// The lines that a range of two patterns picks.
proof fn lemma_picked_between(
    first: Seq<char>,
    second: Seq<char>,
    texts: Seq<Seq<char>>,
    read: nat,
    open: bool,
)
    ensures
        ({
            let address = RangeModel::Range {
                start: AddressModel::Regex(first),
                end: AddressModel::Regex(second),
                negated: false,
            };
            picked(texts, selection(address, texts, read, open), true) == between(
                texts,
                open,
                first,
                second,
            )
        }),
    decreases texts.len(),
{
    if texts.len() > 0 {
        let address = RangeModel::Range {
            start: AddressModel::Regex(first),
            end: AddressModel::Regex(second),
            negated: false,
        };
        let s = at_line(read + 1, texts.len() == 1, texts[0], open);
        let next = is_active(looked(address, s));
        lemma_picked_between(first, second, texts.drop_first(), read + 1, next);
        assert(selection(address, texts, read, open).drop_first() =~= selection(
            address,
            texts.drop_first(),
            read + 1,
            next,
        ));
    }
}

// ---------------------------------------------------------------------------
// Lines in reverse
// ---------------------------------------------------------------------------

/// `1!G;h;$!d`
pub open spec fn reversing() -> Seq<SedCommandModel> {
    seq![
        SedCommandModel {
            address: RangeModel::Single { addr: AddressModel::Line(1), negated: true },
            command: CommandModel::GetAppend,
        },
        SedCommandModel { address: RangeModel::Every, command: CommandModel::HoldReplace },
        SedCommandModel {
            address: RangeModel::Single { addr: AddressModel::Last, negated: true },
            command: CommandModel::Delete,
        },
    ]
}

spec fn reversing_program() -> Seq<InstructionModel> {
    seq![
        InstructionModel {
            address: RangeModel::Single { addr: AddressModel::Line(1), negated: true },
            op: OpModel::Do(CommandModel::GetAppend),
        },
        InstructionModel {
            address: RangeModel::Every,
            op: OpModel::Do(CommandModel::HoldReplace),
        },
        InstructionModel {
            address: RangeModel::Single { addr: AddressModel::Last, negated: true },
            op: OpModel::Do(CommandModel::Delete),
        },
    ]
}

/// Texts from the last to the first, with a newline between each two.
pub open spec fn stacked(texts: Seq<Seq<char>>) -> Seq<char>
    decreases texts.len(),
{
    if texts.len() == 0 {
        Seq::empty()
    } else if texts.len() == 1 {
        texts[0]
    } else {
        texts.last().push('\n') + stacked(texts.drop_last())
    }
}

/// `1!G;h;$!d` prints the lines in reverse order.
pub proof fn law_reverse(config: Config, source: Source)
    requires
        !config.quiet,
        !source.broken,
        source.lines.len() > 0,
    ensures
        outcome(config, flatten(reversing()), source) == Ending::Finished(
            0,
            line(config, stacked(source.lines)),
        ),
{
    let script = reversing();
    let program = reversing_program();
    assert(flatten(script) =~= program) by {
        reveal_with_fuel(flatten, 4);
        reveal_with_fuel(lower, 2);
    }
    let steps = 5 * source.lines.len() + 6;
    lemma_reverse_from(config, Seq::empty(), source, Snapshot::initial(program), steps);
    law_outcome_is_the_ending(config, program, source, steps);
    assert(Seq::<Seq<char>>::empty() + source.lines =~= source.lines);
    let all = line(config, stacked(source.lines));
    assert(Seq::<char>::empty() + all =~= all);
}

proof fn lemma_reverse_from(
    config: Config,
    seen: Seq<Seq<char>>,
    source: Source,
    s: Snapshot,
    steps: nat,
)
    requires
        !config.quiet,
        !source.broken,
        source.lines.len() > 0,
        steps > 5 * source.lines.len() + 5,
        s.status == StatusModel::AwaitLine(LineUse::Cycle),
        s.line_number == seen.len(),
        seen.len() > 0 ==> s.hold_space == stacked(seen),
    ensures
        ending(config, reversing_program(), source, s, steps) == Ending::Finished(
            0,
            s.out + line(config, stacked(seen + source.lines)),
        ),
    decreases source.lines.len(),
{
    let program = reversing_program();
    let text = source.lines[0];
    let more = seen.push(text);
    let rest = source.rest();
    let read = with_line(config, s, source.next());
    let gotten = step(config, program, read);
    let held = step(config, program, gotten);
    let third = step(config, program, held);
    assert(more.drop_last() =~= seen);
    assert(gotten.pattern_space =~= stacked(more));
    assert(held.hold_space == stacked(more));
    assert(lines(config, held.append_queue) =~= Seq::empty());
    assert(ending(config, program, source, s, steps) == ending(
        config,
        program,
        rest,
        read,
        (steps - 1) as nat,
    ));
    assert(ending(config, program, rest, read, (steps - 1) as nat) == ending(
        config,
        program,
        rest,
        gotten,
        (steps - 2) as nat,
    ));
    assert(ending(config, program, rest, gotten, (steps - 2) as nat) == ending(
        config,
        program,
        rest,
        held,
        (steps - 3) as nat,
    ));
    assert(ending(config, program, rest, held, (steps - 3) as nat) == ending(
        config,
        program,
        rest,
        third,
        (steps - 4) as nat,
    ));
    if source.lines.len() == 1 {
        assert(seen + source.lines =~= more);
        let printed = step(config, program, third);
        assert(printed.out =~= s.out + line(config, stacked(more)));
        assert(ending(config, program, rest, third, (steps - 4) as nat) == ending(
            config,
            program,
            rest,
            printed,
            (steps - 5) as nat,
        ));
        let over = with_line(config, printed, rest.next());
        assert(ending(config, program, rest, printed, (steps - 5) as nat) == ending(
            config,
            program,
            rest,
            over,
            (steps - 6) as nat,
        ));
    } else {
        assert(third.out =~= s.out);
        lemma_reverse_from(config, more, rest, third, (steps - 4) as nat);
        assert(more + rest.lines =~= seen + source.lines);
    }
}

/// A printed stack of lines is the lines printed in reverse order.
proof fn lemma_stacked(config: Config, texts: Seq<Seq<char>>)
    requires
        !config.null_data,
        texts.len() > 0,
    ensures
        line(config, stacked(texts)) == lines(config, texts.reverse()),
    decreases texts.len(),
{
    let back = texts.reverse();
    lemma_lines_first(config, back);
    assert(back.drop_first() =~= texts.drop_last().reverse());
    if texts.len() == 1 {
        assert(back.drop_first() =~= Seq::empty());
        assert(line(config, stacked(texts)) =~= lines(config, back));
    } else {
        lemma_stacked(config, texts.drop_last());
        assert(line(config, stacked(texts)) =~= line(config, texts.last()) + line(
            config,
            stacked(texts.drop_last()),
        ));
    }
}

/// `1!G;h;$!d` prints lines in reverse order, and on what it printed gives them
/// back.
pub proof fn law_reverse_twice(texts: Seq<Seq<char>>)
    requires
        0 < texts.len(),
        forall|i: int| 0 <= i < texts.len() ==> is_line(#[trigger] texts[i], false),
    ensures
        ({
            let config = Config { quiet: false, null_data: false };
            let input = lines(config, texts);
            let output = lines(config, texts.reverse());
            &&& accepted("1!G;h;$!d"@) == Some(flatten(reversing()))
            &&& run_of(config, flatten(reversing()), encode_utf8(input)) == Ending::Finished(
                0,
                output,
            )
            &&& run_of(config, flatten(reversing()), encode_utf8(output)) == Ending::Finished(
                0,
                input,
            )
        }),
{
    let config = Config { quiet: false, null_data: false };
    let back = texts.reverse();
    assert forall|i: int| 0 <= i < back.len() implies is_line(#[trigger] back[i], false) by {
        assert(back[i] == texts[texts.len() - 1 - i]);
    }
    law_printed_lines_are_read_back(config, texts);
    law_printed_lines_are_read_back(config, back);
    law_reverse(config, Source { lines: texts, broken: false });
    law_reverse(config, Source { lines: back, broken: false });
    lemma_stacked(config, texts);
    lemma_stacked(config, back);
    assert(back.reverse() =~= texts);
    lemma_reversing_script();
}

/// The text of the script that reverses.
proof fn lemma_reversing_script()
    ensures
        accepted("1!G;h;$!d"@) == Some(flatten(reversing())),
{
    reveal_strlit("1!G;h;$!d");
    let s = "1!G;h;$!d"@;
    assert(s =~= seq!['1', '!', 'G', ';', 'h', ';', '$', '!', 'd']);
    reveal_with_fuel(run_end, 3);
    reveal_with_fuel(skip_blanks, 3);
    reveal_with_fuel(digits_value, 3);
    assert(number(s, 0) == (1usize, 1int));
    assert(one_command(s, 0) == Ok::<_, Seq<char>>((Some(reversing()[0]), 3int)));
    assert(one_command(s, 4) == Ok::<_, Seq<char>>((Some(reversing()[1]), 5int)));
    assert(one_command(s, 6) == Ok::<_, Seq<char>>((Some(reversing()[2]), 9int)));
    assert(commands(s, 9, false) == Ok::<_, Seq<char>>((Seq::<SedCommandModel>::empty(), 9int)));
    assert(commands(s, 5, false) matches Ok((list, _)) && list =~= seq![reversing()[2]]);
    assert(commands(s, 3, false) matches Ok((list, _)) && list =~= seq![
        reversing()[1],
        reversing()[2],
    ]);
    assert(commands(s, 0, false) matches Ok((list, _)) && list =~= reversing());
    assert(script_patterns(reversing()) =~= Seq::empty()) by {
        reveal_with_fuel(script_patterns, 4);
        reveal_with_fuel(command_patterns, 2);
    }
}

} // verus!
