//! What scripts that work on several lines at once do to a whole input.

use vstd::prelude::*;
use vstd::utf8::encode_utf8;

use crate::grammar::{commands, one_command, run_end, skip_blanks};
use crate::input::{is_line, law_printed_lines_are_read_back};
use crate::laws::law_outcome_is_the_ending;
use crate::machine::{
    command_patterns, ending, flatten, lemma_lines_first, line, lines, lower, outcome,
    script_patterns, step, with_line, Config, Ending, InstructionModel, LineUse, OpModel, Snapshot,
    Source, StatusModel,
};
use crate::oneliners::{lemma_one, one};
use crate::script::{AddressModel, CommandModel, RangeModel, SedCommandModel};
use crate::sed::{accepted, run_of};
use crate::text::decimal;

verus! {

/// One step of a run.
proof fn lemma_step(
    config: Config,
    program: Seq<InstructionModel>,
    source: Source,
    s: Snapshot,
    steps: nat,
)
    requires
        s.status is Ready,
        steps > 0,
    ensures
        ending(config, program, source, s, steps) == ending(
            config,
            program,
            source,
            step(config, program, s),
            (steps - 1) as nat,
        ),
{
}

/// One line of a run.
proof fn lemma_line(
    config: Config,
    program: Seq<InstructionModel>,
    source: Source,
    s: Snapshot,
    steps: nat,
)
    requires
        s.status is AwaitLine,
        !source.broken,
        steps > 0,
    ensures
        ending(config, program, source, s, steps) == ending(
            config,
            program,
            source.rest(),
            with_line(config, s, source.next()),
            (steps - 1) as nat,
        ),
{
}

// ---------------------------------------------------------------------------
// All lines in one
// ---------------------------------------------------------------------------

/// `H;$!d;x`
pub open spec fn collecting() -> Seq<SedCommandModel> {
    seq![
        SedCommandModel { address: RangeModel::Every, command: CommandModel::HoldAppend },
        SedCommandModel {
            address: RangeModel::Single { addr: AddressModel::Last, negated: true },
            command: CommandModel::Delete,
        },
        SedCommandModel { address: RangeModel::Every, command: CommandModel::Exchange },
    ]
}

spec fn collecting_program() -> Seq<InstructionModel> {
    seq![
        InstructionModel {
            address: RangeModel::Every,
            op: OpModel::Do(CommandModel::HoldAppend),
        },
        InstructionModel {
            address: RangeModel::Single { addr: AddressModel::Last, negated: true },
            op: OpModel::Do(CommandModel::Delete),
        },
        InstructionModel { address: RangeModel::Every, op: OpModel::Do(CommandModel::Exchange) },
    ]
}

/// Texts one after the other, with a newline before each.
pub open spec fn gathered(texts: Seq<Seq<char>>) -> Seq<char>
    decreases texts.len(),
{
    if texts.len() == 0 {
        Seq::empty()
    } else {
        seq!['\n'] + texts[0] + gathered(texts.drop_first())
    }
}

proof fn lemma_collect_from(config: Config, source: Source, s: Snapshot, steps: nat)
    requires
        !config.quiet,
        !source.broken,
        source.lines.len() > 0,
        steps > 5 * source.lines.len() + 5,
        s.status == StatusModel::AwaitLine(LineUse::Cycle),
    ensures
        ending(config, collecting_program(), source, s, steps) == Ending::Finished(
            0,
            s.out + line(config, s.hold_space + gathered(source.lines)),
        ),
    decreases source.lines.len(),
{
    let program = collecting_program();
    let text = source.lines[0];
    let rest = source.rest();
    let read = with_line(config, s, source.next());
    let held = step(config, program, read);
    let second = step(config, program, held);
    lemma_line(config, program, source, s, steps);
    lemma_step(config, program, rest, read, (steps - 1) as nat);
    lemma_step(config, program, rest, held, (steps - 2) as nat);
    assert(lines(config, held.append_queue) =~= Seq::empty());
    assert(held.hold_space =~= s.hold_space + (seq!['\n'] + text));
    if source.lines.len() == 1 {
        let third = step(config, program, second);
        let printed = step(config, program, third);
        lemma_step(config, program, rest, second, (steps - 3) as nat);
        lemma_step(config, program, rest, third, (steps - 4) as nat);
        lemma_line(config, program, rest, printed, (steps - 5) as nat);
        assert(source.lines.drop_first() =~= Seq::empty());
        assert(gathered(source.lines.drop_first()) =~= Seq::empty());
        assert(gathered(source.lines) =~= seq!['\n'] + text);
        assert(printed.out =~= s.out + line(config, s.hold_space + gathered(source.lines)));
    } else {
        assert(second.out =~= s.out);
        lemma_collect_from(config, rest, second, (steps - 3) as nat);
        assert(held.hold_space + gathered(rest.lines) =~= s.hold_space + gathered(source.lines));
    }
}

/// `H;$!d;x` prints all lines in their order as one, with a newline before each.
pub proof fn law_collect(config: Config, source: Source)
    requires
        !config.quiet,
        !source.broken,
        source.lines.len() > 0,
    ensures
        outcome(config, flatten(collecting()), source) == Ending::Finished(
            0,
            line(config, gathered(source.lines)),
        ),
{
    let program = collecting_program();
    assert(flatten(collecting()) =~= program) by {
        reveal_with_fuel(flatten, 4);
        reveal_with_fuel(lower, 2);
    }
    let steps = 5 * source.lines.len() + 6;
    lemma_collect_from(config, source, Snapshot::initial(program), steps);
    law_outcome_is_the_ending(config, program, source, steps);
    let all = gathered(source.lines);
    assert(Seq::<char>::empty() + all =~= all);
    assert(Seq::<char>::empty() + line(config, all) =~= line(config, all));
}

/// The text of the script that collects, and what it does to a text of lines.
pub proof fn law_collect_text(texts: Seq<Seq<char>>)
    requires
        texts.len() > 0,
        forall|i: int| 0 <= i < texts.len() ==> is_line(#[trigger] texts[i], false),
    ensures
        ({
            let config = Config { quiet: false, null_data: false };
            &&& accepted("H;$!d;x"@) == Some(flatten(collecting()))
            &&& run_of(config, flatten(collecting()), encode_utf8(lines(config, texts)))
                == Ending::Finished(0, gathered(texts) + seq!['\n'])
        }),
{
    let config = Config { quiet: false, null_data: false };
    law_printed_lines_are_read_back(config, texts);
    law_collect(config, Source { lines: texts, broken: false });
    assert(line(config, gathered(texts)) =~= gathered(texts) + seq!['\n']);
    reveal_strlit("H;$!d;x");
    let s = "H;$!d;x"@;
    assert(s =~= seq!['H', ';', '$', '!', 'd', ';', 'x']);
    reveal_with_fuel(run_end, 3);
    reveal_with_fuel(skip_blanks, 3);
    assert(one_command(s, 0) == Ok::<_, Seq<char>>((Some(collecting()[0]), 1int)));
    assert(one_command(s, 2) == Ok::<_, Seq<char>>((Some(collecting()[1]), 5int)));
    assert(one_command(s, 6) == Ok::<_, Seq<char>>((Some(collecting()[2]), 7int)));
    assert(commands(s, 7, false) == Ok::<_, Seq<char>>((Seq::<SedCommandModel>::empty(), 7int)));
    assert(commands(s, 5, false) matches Ok((list, _)) && list =~= seq![collecting()[2]]);
    assert(commands(s, 1, false) matches Ok((list, _)) && list =~= seq![
        collecting()[1],
        collecting()[2],
    ]);
    assert(commands(s, 0, false) matches Ok((list, _)) && list =~= collecting());
    assert(script_patterns(collecting()) =~= Seq::empty()) by {
        reveal_with_fuel(script_patterns, 4);
        reveal_with_fuel(command_patterns, 2);
    }
}

// ---------------------------------------------------------------------------
// Each line with something added
// ---------------------------------------------------------------------------

/// For each text its number, from `n` on, on a line of its own, and then the text.
pub open spec fn numbered_lines(config: Config, texts: Seq<Seq<char>>, n: nat) -> Seq<char>
    decreases texts.len(),
{
    if texts.len() == 0 {
        Seq::empty()
    } else {
        line(config, decimal(n)) + line(config, texts[0]) + numbered_lines(
            config,
            texts.drop_first(),
            n + 1,
        )
    }
}

proof fn lemma_number_from(config: Config, source: Source, s: Snapshot, steps: nat)
    requires
        !config.quiet,
        !source.broken,
        steps > 3 * source.lines.len() + 3,
        s.status == StatusModel::AwaitLine(LineUse::Cycle),
    ensures
        ending(
            config,
            one(RangeModel::Every, CommandModel::PrintLineNumber),
            source,
            s,
            steps,
        ) == Ending::Finished(0, s.out + numbered_lines(config, source.lines, s.line_number + 1)),
    decreases source.lines.len(),
{
    lemma_one(RangeModel::Every, CommandModel::PrintLineNumber);
    let program = one(RangeModel::Every, CommandModel::PrintLineNumber);
    let read = with_line(config, s, source.next());
    lemma_line(config, program, source, s, steps);
    if source.lines.len() == 0 {
        assert(s.out + Seq::<char>::empty() =~= s.out);
    } else {
        let first = step(config, program, read);
        let end = step(config, program, first);
        lemma_step(config, program, source.rest(), read, (steps - 1) as nat);
        lemma_step(config, program, source.rest(), first, (steps - 2) as nat);
        assert(lines(config, first.append_queue) =~= Seq::empty());
        assert(end.out =~= s.out + (line(config, decimal(s.line_number + 1)) + line(
            config,
            source.lines[0],
        )));
        lemma_number_from(config, source.rest(), end, (steps - 3) as nat);
        assert(end.out + numbered_lines(config, source.rest().lines, s.line_number + 2) =~= s.out
            + numbered_lines(config, source.lines, s.line_number + 1));
    }
}

/// `=` prints the number of each line before it, from 1 on.
pub proof fn law_number_lines(config: Config, source: Source)
    requires
        !config.quiet,
        !source.broken,
    ensures
        outcome(config, one(RangeModel::Every, CommandModel::PrintLineNumber), source)
            == Ending::Finished(0, numbered_lines(config, source.lines, 1)),
{
    let program = one(RangeModel::Every, CommandModel::PrintLineNumber);
    let steps = 3 * source.lines.len() + 4;
    lemma_number_from(config, source, Snapshot::initial(program), steps);
    law_outcome_is_the_ending(config, program, source, steps);
    let all = numbered_lines(config, source.lines, 1);
    assert(Seq::<char>::empty() + all =~= all);
}

/// Each text with one text before it and one behind it, on lines of their own.
pub open spec fn framed_lines(
    config: Config,
    texts: Seq<Seq<char>>,
    before: Seq<Seq<char>>,
    behind: Seq<Seq<char>>,
) -> Seq<char>
    decreases texts.len(),
{
    if texts.len() == 0 {
        Seq::empty()
    } else {
        lines(config, before) + line(config, texts[0]) + lines(config, behind) + framed_lines(
            config,
            texts.drop_first(),
            before,
            behind,
        )
    }
}

/// A command that only adds text around the line: `i` before it, `a` behind it.
proof fn lemma_frame_from(
    config: Config,
    command: CommandModel,
    before: Seq<Seq<char>>,
    behind: Seq<Seq<char>>,
    source: Source,
    s: Snapshot,
    steps: nat,
)
    requires
        !config.quiet,
        !source.broken,
        steps > 3 * source.lines.len() + 3,
        s.status == StatusModel::AwaitLine(LineUse::Cycle),
        (command matches CommandModel::Insert(text) && before == seq![text] && behind.len() == 0)
            || (command matches CommandModel::Append(text) && behind == seq![text] && before.len()
            == 0),
    ensures
        ending(config, one(RangeModel::Every, command), source, s, steps) == Ending::Finished(
            0,
            s.out + framed_lines(config, source.lines, before, behind),
        ),
    decreases source.lines.len(),
{
    lemma_one(RangeModel::Every, command);
    let program = one(RangeModel::Every, command);
    let read = with_line(config, s, source.next());
    lemma_line(config, program, source, s, steps);
    if source.lines.len() == 0 {
        assert(s.out + Seq::<char>::empty() =~= s.out);
    } else {
        let first = step(config, program, read);
        let end = step(config, program, first);
        lemma_step(config, program, source.rest(), read, (steps - 1) as nat);
        lemma_step(config, program, source.rest(), first, (steps - 2) as nat);
        assert(lines(config, Seq::empty()) =~= Seq::empty());
        if before.len() == 0 {
            assert(before =~= Seq::empty());
            assert(first.append_queue =~= behind);
        } else {
            assert(behind =~= Seq::empty());
            lemma_lines_first(config, before);
            assert(before.drop_first() =~= Seq::empty());
            assert(lines(config, before) =~= line(config, before[0]));
            assert(first.append_queue =~= Seq::empty());
        }
        assert(end.out =~= s.out + (lines(config, before) + line(config, source.lines[0])
            + lines(config, behind)));
        lemma_frame_from(
            config,
            command,
            before,
            behind,
            source.rest(),
            end,
            (steps - 3) as nat,
        );
        assert(end.out + framed_lines(config, source.rest().lines, before, behind) =~= s.out
            + framed_lines(config, source.lines, before, behind));
    }
}

/// `i` puts its text before every line, and `a` behind every line.
pub proof fn law_insert_and_append(config: Config, text: Seq<char>, source: Source)
    requires
        !config.quiet,
        !source.broken,
    ensures
        outcome(config, one(RangeModel::Every, CommandModel::Insert(text)), source)
            == Ending::Finished(
            0,
            framed_lines(config, source.lines, seq![text], Seq::empty()),
        ),
        outcome(config, one(RangeModel::Every, CommandModel::Append(text)), source)
            == Ending::Finished(
            0,
            framed_lines(config, source.lines, Seq::empty(), seq![text]),
        ),
{
    let steps = 3 * source.lines.len() + 4;
    let none = Seq::<Seq<char>>::empty();
    let inserting = CommandModel::Insert(text);
    let appending = CommandModel::Append(text);
    let first = one(RangeModel::Every, inserting);
    let second = one(RangeModel::Every, appending);
    lemma_frame_from(
        config,
        inserting,
        seq![text],
        none,
        source,
        Snapshot::initial(first),
        steps,
    );
    lemma_frame_from(
        config,
        appending,
        none,
        seq![text],
        source,
        Snapshot::initial(second),
        steps,
    );
    law_outcome_is_the_ending(config, first, source, steps);
    law_outcome_is_the_ending(config, second, source, steps);
    let a = framed_lines(config, source.lines, seq![text], none);
    let b = framed_lines(config, source.lines, none, seq![text]);
    assert(Seq::<char>::empty() + a =~= a);
    assert(Seq::<char>::empty() + b =~= b);
}

/// Each text with an empty line behind it.
pub open spec fn spaced(texts: Seq<Seq<char>>) -> Seq<Seq<char>> {
    texts.map_values(|text: Seq<char>| text + seq!['\n'])
}

proof fn lemma_space_from(config: Config, source: Source, s: Snapshot, steps: nat)
    requires
        !config.quiet,
        !source.broken,
        steps > 3 * source.lines.len() + 3,
        s.status == StatusModel::AwaitLine(LineUse::Cycle),
        s.hold_space.len() == 0,
    ensures
        ending(config, one(RangeModel::Every, CommandModel::GetAppend), source, s, steps)
            == Ending::Finished(0, s.out + lines(config, spaced(source.lines))),
    decreases source.lines.len(),
{
    lemma_one(RangeModel::Every, CommandModel::GetAppend);
    let program = one(RangeModel::Every, CommandModel::GetAppend);
    let read = with_line(config, s, source.next());
    let all = spaced(source.lines);
    lemma_line(config, program, source, s, steps);
    if source.lines.len() == 0 {
        assert(all =~= Seq::empty());
        assert(s.out + lines(config, all) =~= s.out);
    } else {
        let first = step(config, program, read);
        let end = step(config, program, first);
        lemma_step(config, program, source.rest(), read, (steps - 1) as nat);
        lemma_step(config, program, source.rest(), first, (steps - 2) as nat);
        assert(lines(config, first.append_queue) =~= Seq::empty());
        assert(first.pattern_space =~= source.lines[0] + seq!['\n']);
        assert(end.out =~= s.out + line(config, all[0]));
        lemma_space_from(config, source.rest(), end, (steps - 3) as nat);
        lemma_lines_first(config, all);
        assert(all.drop_first() =~= spaced(source.rest().lines));
        assert(end.out + lines(config, all.drop_first()) =~= s.out + lines(config, all));
    }
}

/// `G` puts an empty line behind every line, as long as nothing was held.
pub proof fn law_double_space(config: Config, source: Source)
    requires
        !config.quiet,
        !source.broken,
    ensures
        outcome(config, one(RangeModel::Every, CommandModel::GetAppend), source)
            == Ending::Finished(0, lines(config, spaced(source.lines))),
{
    let program = one(RangeModel::Every, CommandModel::GetAppend);
    let steps = 3 * source.lines.len() + 4;
    lemma_space_from(config, source, Snapshot::initial(program), steps);
    law_outcome_is_the_ending(config, program, source, steps);
    let all = lines(config, spaced(source.lines));
    assert(Seq::<char>::empty() + all =~= all);
}

// ---------------------------------------------------------------------------
// Two lines at a time
// ---------------------------------------------------------------------------

/// The first text, the third, and so on.
pub open spec fn every_other(texts: Seq<Seq<char>>) -> Seq<Seq<char>>
    decreases texts.len(),
{
    if texts.len() == 0 {
        Seq::empty()
    } else if texts.len() == 1 {
        texts
    } else {
        seq![texts[0]] + every_other(texts.subrange(2, texts.len() as int))
    }
}

/// `n;d`
pub open spec fn skipping() -> Seq<SedCommandModel> {
    seq![
        SedCommandModel { address: RangeModel::Every, command: CommandModel::Next },
        SedCommandModel { address: RangeModel::Every, command: CommandModel::Delete },
    ]
}

spec fn skipping_program() -> Seq<InstructionModel> {
    seq![
        InstructionModel { address: RangeModel::Every, op: OpModel::Do(CommandModel::Next) },
        InstructionModel { address: RangeModel::Every, op: OpModel::Do(CommandModel::Delete) },
    ]
}

proof fn lemma_skip_from(config: Config, source: Source, s: Snapshot, steps: nat)
    requires
        !config.quiet,
        !source.broken,
        steps > 4 * source.lines.len() + 4,
        s.status == StatusModel::AwaitLine(LineUse::Cycle),
    ensures
        ending(config, skipping_program(), source, s, steps) == Ending::Finished(
            0,
            s.out + lines(config, every_other(source.lines)),
        ),
    decreases source.lines.len(),
{
    let program = skipping_program();
    let read = with_line(config, s, source.next());
    let all = every_other(source.lines);
    lemma_line(config, program, source, s, steps);
    if source.lines.len() == 0 {
        assert(s.out + lines(config, all) =~= s.out);
    } else {
        let rest = source.rest();
        let first = step(config, program, read);
        lemma_step(config, program, rest, read, (steps - 1) as nat);
        assert(lines(config, read.append_queue) =~= Seq::empty());
        assert(first.out =~= s.out + line(config, source.lines[0]));
        lemma_line(config, program, rest, first, (steps - 2) as nat);
        lemma_lines_first(config, all);
        if source.lines.len() == 1 {
            assert(all.drop_first() =~= Seq::empty());
            assert(lines(config, all.drop_first()) =~= Seq::empty());
            assert(lines(config, all) =~= line(config, source.lines[0]));
        } else {
            let second = with_line(config, first, rest.next());
            let end = step(config, program, second);
            let later = rest.rest();
            lemma_step(config, program, later, second, (steps - 3) as nat);
            assert(lines(config, second.append_queue) =~= Seq::empty());
            assert(end.out =~= first.out);
            assert(later.lines =~= source.lines.subrange(2, source.lines.len() as int));
            lemma_skip_from(config, later, end, (steps - 4) as nat);
            assert(all.drop_first() =~= every_other(later.lines));
            assert(end.out + lines(config, all.drop_first()) =~= s.out + lines(config, all));
        }
    }
}

/// `n;d` prints the first line, the third, and so on.
pub proof fn law_every_other_line(config: Config, source: Source)
    requires
        !config.quiet,
        !source.broken,
    ensures
        outcome(config, flatten(skipping()), source) == Ending::Finished(
            0,
            lines(config, every_other(source.lines)),
        ),
{
    let program = skipping_program();
    assert(flatten(skipping()) =~= program) by {
        reveal_with_fuel(flatten, 3);
        reveal_with_fuel(lower, 2);
    }
    let steps = 4 * source.lines.len() + 5;
    lemma_skip_from(config, source, Snapshot::initial(program), steps);
    law_outcome_is_the_ending(config, program, source, steps);
    let all = lines(config, every_other(source.lines));
    assert(Seq::<char>::empty() + all =~= all);
}

proof fn lemma_join_from(config: Config, source: Source, s: Snapshot, steps: nat)
    requires
        !config.quiet,
        !config.null_data,
        !source.broken,
        steps > 4 * source.lines.len() + 4,
        s.status == StatusModel::AwaitLine(LineUse::Cycle),
    ensures
        ending(config, one(RangeModel::Every, CommandModel::NextAppend), source, s, steps)
            == Ending::Finished(0, s.out + lines(config, source.lines)),
    decreases source.lines.len(),
{
    lemma_one(RangeModel::Every, CommandModel::NextAppend);
    let program = one(RangeModel::Every, CommandModel::NextAppend);
    let read = with_line(config, s, source.next());
    lemma_line(config, program, source, s, steps);
    if source.lines.len() == 0 {
        assert(s.out + lines(config, source.lines) =~= s.out);
    } else {
        let rest = source.rest();
        let first = step(config, program, read);
        lemma_step(config, program, rest, read, (steps - 1) as nat);
        lemma_line(config, program, rest, first, (steps - 2) as nat);
        lemma_lines_first(config, source.lines);
        if source.lines.len() == 1 {
            assert(rest.lines =~= Seq::empty());
            assert(lines(config, rest.lines) =~= Seq::empty());
            let over = with_line(config, first, rest.next());
            assert(over.out =~= s.out + lines(config, source.lines));
        } else {
            let both = with_line(config, first, rest.next());
            let end = step(config, program, both);
            let later = rest.rest();
            lemma_step(config, program, later, both, (steps - 3) as nat);
            assert(lines(config, both.append_queue) =~= Seq::empty());
            lemma_lines_first(config, rest.lines);
            assert(end.out =~= s.out + (line(config, source.lines[0]) + line(
                config,
                rest.lines[0],
            )));
            lemma_join_from(config, later, end, (steps - 4) as nat);
            assert(end.out + lines(config, later.lines) =~= s.out + lines(config, source.lines));
        }
    }
}

/// `N` joins the lines in pairs; printed, they are the lines again, and none is lost,
/// not even a last one without a partner.
pub proof fn law_joined_lines_are_printed(config: Config, source: Source)
    requires
        !config.quiet,
        !config.null_data,
        !source.broken,
    ensures
        outcome(config, one(RangeModel::Every, CommandModel::NextAppend), source)
            == Ending::Finished(0, lines(config, source.lines)),
{
    let program = one(RangeModel::Every, CommandModel::NextAppend);
    let steps = 4 * source.lines.len() + 5;
    lemma_join_from(config, source, Snapshot::initial(program), steps);
    law_outcome_is_the_ending(config, program, source, steps);
    let all = lines(config, source.lines);
    assert(Seq::<char>::empty() + all =~= all);
}

} // verus!
