//! Which lines an address selects, over a whole input.

use vstd::prelude::*;
use vstd::utf8::encode_utf8;

use crate::input::{is_line, law_printed_lines_are_read_back};
use crate::laws::law_outcome_is_the_ending;
use crate::machine::{
    ending, is_active, lemma_lines_first, line, lines, looked, outcome, perform, selects, step,
    with_line, Config, Ending, InstructionModel, LineUse, OpModel, Snapshot, Source, StatusModel,
};
use crate::oneliners::{lemma_cycle, lemma_one, one};
use crate::script::{AddressModel, CommandModel, RangeModel};
use crate::sed::run_of;

verus! {

// ---------------------------------------------------------------------------
// Selection
// ---------------------------------------------------------------------------

/// The state of a script of one command when it comes to that command, as far
/// as addresses look at it: the number and the text of the line, whether it is
/// the last, and whether the range is open.
pub open spec fn at_line(number: nat, is_last: bool, text: Seq<char>, open: bool) -> Snapshot {
    Snapshot {
        pc: 0,
        line_number: number,
        is_last_line: is_last,
        pattern_space: text,
        range_active: seq![open],
        status: StatusModel::Ready,
        ..Snapshot::initial(Seq::empty())
    }
}

/// For each of the last lines of an input, whether an address selects it. `read`
/// lines come before them, and `open` says whether the range of the address is
/// open then.
pub open spec fn selection(
    address: RangeModel,
    texts: Seq<Seq<char>>,
    read: nat,
    open: bool,
) -> Seq<bool>
    decreases texts.len(),
{
    if texts.len() == 0 {
        Seq::empty()
    } else {
        let s = at_line(read + 1, texts.len() == 1, texts[0], open);
        seq![selects(address, s)] + selection(
            address,
            texts.drop_first(),
            read + 1,
            is_active(looked(address, s)),
        )
    }
}

/// For each line of an input, whether an address selects it.
pub open spec fn selected(address: RangeModel, texts: Seq<Seq<char>>) -> Seq<bool> {
    selection(address, texts, 0, false)
}

/// The texts whose flag is `wanted`, in their order.
pub open spec fn picked(texts: Seq<Seq<char>>, flags: Seq<bool>, wanted: bool) -> Seq<Seq<char>>
    decreases texts.len(),
{
    if texts.len() == 0 {
        Seq::empty()
    } else if flags[0] == wanted {
        seq![texts[0]] + picked(texts.drop_first(), flags.drop_first(), wanted)
    } else {
        picked(texts.drop_first(), flags.drop_first(), wanted)
    }
}

/// Two lists as one: for each flag the next text of the first list where it is
/// set, and of the second where it is not.
pub open spec fn merged(
    flags: Seq<bool>,
    yes: Seq<Seq<char>>,
    no: Seq<Seq<char>>,
) -> Seq<Seq<char>>
    decreases flags.len(),
{
    if flags.len() == 0 {
        Seq::empty()
    } else if flags[0] {
        seq![yes[0]] + merged(flags.drop_first(), yes.drop_first(), no)
    } else {
        seq![no[0]] + merged(flags.drop_first(), yes, no.drop_first())
    }
}

/// The address that selects the lines that `address` does not. The address of
/// every line has none.
pub open spec fn negated(address: RangeModel) -> RangeModel {
    match address {
        RangeModel::Every => RangeModel::Every,
        RangeModel::Single { addr, negated } => RangeModel::Single { addr, negated: !negated },
        RangeModel::Range { start, end, negated } => RangeModel::Range {
            start,
            end,
            negated: !negated,
        },
    }
}

/// Addresses look at nothing but what [`at_line`] holds.
proof fn lemma_at_line(address: RangeModel, s: Snapshot)
    requires
        s.pc == 0,
        s.range_active.len() == 1,
    ensures
        ({
            let t = at_line(s.line_number, s.is_last_line, s.pattern_space, s.range_active[0]);
            &&& selects(address, s) == selects(address, t)
            &&& looked(address, s).range_active.len() == 1
            &&& looked(address, s).range_active[0] == is_active(looked(address, t))
        }),
{
    let t = at_line(s.line_number, s.is_last_line, s.pattern_space, s.range_active[0]);
    assert(is_active(t) == is_active(s));
}

pub proof fn lemma_selection_len(address: RangeModel, texts: Seq<Seq<char>>, read: nat, open: bool)
    ensures
        selection(address, texts, read, open).len() == texts.len(),
    decreases texts.len(),
{
    if texts.len() > 0 {
        let s = at_line(read + 1, texts.len() == 1, texts[0], open);
        lemma_selection_len(
            address,
            texts.drop_first(),
            read + 1,
            is_active(looked(address, s)),
        );
    }
}

proof fn lemma_negated_from(
    address: RangeModel,
    texts: Seq<Seq<char>>,
    read: nat,
    open: bool,
    wanted: bool,
)
    requires
        !(address is Every),
    ensures
        picked(texts, selection(negated(address), texts, read, open), wanted) == picked(
            texts,
            selection(address, texts, read, open),
            !wanted,
        ),
    decreases texts.len(),
{
    if texts.len() > 0 {
        let s = at_line(read + 1, texts.len() == 1, texts[0], open);
        let there = selection(address, texts, read, open);
        let here = selection(negated(address), texts, read, open);
        assert(looked(negated(address), s) == looked(address, s));
        let after = is_active(looked(address, s));
        lemma_negated_from(address, texts.drop_first(), read + 1, after, wanted);
        assert(there.drop_first() =~= selection(address, texts.drop_first(), read + 1, after));
        assert(here.drop_first() =~= selection(
            negated(address),
            texts.drop_first(),
            read + 1,
            after,
        ));
    }
}

/// The lines that an address selects and those that it does not split the
/// input: each line is in exactly one of the two lists, and both keep the order.
pub proof fn law_lines_are_split(address: RangeModel, texts: Seq<Seq<char>>)
    ensures
        ({
            let flags = selected(address, texts);
            let yes = picked(texts, flags, true);
            let no = picked(texts, flags, false);
            &&& flags.len() == texts.len()
            &&& yes.len() + no.len() == texts.len()
            &&& merged(flags, yes, no) == texts
        }),
{
    lemma_selection_len(address, texts, 0, false);
    lemma_split(texts, selected(address, texts));
}

proof fn lemma_split(texts: Seq<Seq<char>>, flags: Seq<bool>)
    requires
        flags.len() == texts.len(),
    ensures
        picked(texts, flags, true).len() + picked(texts, flags, false).len() == texts.len(),
        merged(flags, picked(texts, flags, true), picked(texts, flags, false)) == texts,
    decreases texts.len(),
{
    let yes = picked(texts, flags, true);
    let no = picked(texts, flags, false);
    if texts.len() > 0 {
        lemma_split(texts.drop_first(), flags.drop_first());
        assert(texts =~= seq![texts[0]] + texts.drop_first());
        if flags[0] {
            assert(yes.drop_first() =~= picked(texts.drop_first(), flags.drop_first(), true));
        } else {
            assert(no.drop_first() =~= picked(texts.drop_first(), flags.drop_first(), false));
        }
    } else {
        assert(merged(flags, yes, no) =~= texts);
    }
}

/// What `address` does not select is what its negation selects.
pub proof fn law_negated_selection(address: RangeModel, texts: Seq<Seq<char>>, wanted: bool)
    requires
        !(address is Every),
    ensures
        picked(texts, selected(negated(address), texts), wanted) == picked(
            texts,
            selected(address, texts),
            !wanted,
        ),
{
    lemma_negated_from(address, texts, 0, false, wanted);
}

// ---------------------------------------------------------------------------
// Deleting and printing
// ---------------------------------------------------------------------------

/// `d` drops exactly the lines that its address selects, whatever address it
/// is, and prints the others.
pub proof fn law_delete_selected(config: Config, address: RangeModel, source: Source)
    requires
        !config.quiet,
        !source.broken,
    ensures
        outcome(config, one(address, CommandModel::Delete), source) == Ending::Finished(
            0,
            lines(config, picked(source.lines, selected(address, source.lines), false)),
        ),
{
    lemma_one(address, CommandModel::Delete);
    let program = one(address, CommandModel::Delete);
    let steps = 3 * source.lines.len() + 4;
    lemma_delete_selected_from(config, address, source, Snapshot::initial(program), steps);
    law_outcome_is_the_ending(config, program, source, steps);
    let all = lines(config, picked(source.lines, selected(address, source.lines), false));
    assert(Seq::<char>::empty() + all =~= all);
}

proof fn lemma_delete_selected_from(
    config: Config,
    address: RangeModel,
    source: Source,
    s: Snapshot,
    steps: nat,
)
    requires
        !config.quiet,
        !source.broken,
        steps > 3 * source.lines.len() + 3,
        s.status == StatusModel::AwaitLine(LineUse::Cycle),
        s.range_active.len() == 1,
    ensures
        ending(
            config,
            seq![InstructionModel { address, op: OpModel::Do(CommandModel::Delete) }],
            source,
            s,
            steps,
        ) == Ending::Finished(
            0,
            s.out + lines(
                config,
                picked(
                    source.lines,
                    selection(address, source.lines, s.line_number, s.range_active[0]),
                    false,
                ),
            ),
        ),
    decreases source.lines.len(),
{
    let program = seq![InstructionModel { address, op: OpModel::Do(CommandModel::Delete) }];
    let read = with_line(config, s, source.next());
    if source.lines.len() == 0 {
        assert(ending(config, program, source.rest(), read, (steps - 1) as nat)
            == Ending::Finished(0, s.out));
        assert(s.out + Seq::<char>::empty() =~= s.out);
    } else {
        let flags = selection(address, source.lines, s.line_number, s.range_active[0]);
        let kept = picked(source.lines, flags, false);
        lemma_cycle(config, address, CommandModel::Delete, source, s, steps);
        lemma_at_line(address, read);
        let seen = looked(address, read);
        let rest = selection(
            address,
            source.rest().lines,
            s.line_number + 1,
            seen.range_active[0],
        );
        assert(flags.drop_first() =~= rest);
        assert(lines(config, read.append_queue) =~= Seq::empty());
        if selects(address, read) {
            let end = perform(config, program, CommandModel::Delete, seen);
            assert(end.out =~= s.out);
            lemma_delete_selected_from(config, address, source.rest(), end, (steps - 2) as nat);
        } else {
            let end = step(config, program, seen.next());
            assert(end.out =~= s.out + line(config, source.lines[0]));
            lemma_delete_selected_from(config, address, source.rest(), end, (steps - 3) as nat);
            lemma_lines_first(config, kept);
            assert(kept.drop_first() =~= picked(source.rest().lines, rest, false));
            assert(end.out + lines(config, kept.drop_first()) =~= s.out + lines(config, kept));
        }
    }
}

/// In quiet mode `p` prints exactly the lines that its address selects, whatever
/// address it is.
pub proof fn law_print_selected(config: Config, address: RangeModel, source: Source)
    requires
        config.quiet,
        !source.broken,
    ensures
        outcome(config, one(address, CommandModel::Print), source) == Ending::Finished(
            0,
            lines(config, picked(source.lines, selected(address, source.lines), true)),
        ),
{
    lemma_one(address, CommandModel::Print);
    let program = one(address, CommandModel::Print);
    let steps = 3 * source.lines.len() + 4;
    lemma_print_selected_from(config, address, source, Snapshot::initial(program), steps);
    law_outcome_is_the_ending(config, program, source, steps);
    let all = lines(config, picked(source.lines, selected(address, source.lines), true));
    assert(Seq::<char>::empty() + all =~= all);
}

proof fn lemma_print_selected_from(
    config: Config,
    address: RangeModel,
    source: Source,
    s: Snapshot,
    steps: nat,
)
    requires
        config.quiet,
        !source.broken,
        steps > 3 * source.lines.len() + 3,
        s.status == StatusModel::AwaitLine(LineUse::Cycle),
        s.range_active.len() == 1,
    ensures
        ending(
            config,
            seq![InstructionModel { address, op: OpModel::Do(CommandModel::Print) }],
            source,
            s,
            steps,
        ) == Ending::Finished(
            0,
            s.out + lines(
                config,
                picked(
                    source.lines,
                    selection(address, source.lines, s.line_number, s.range_active[0]),
                    true,
                ),
            ),
        ),
    decreases source.lines.len(),
{
    let program = seq![InstructionModel { address, op: OpModel::Do(CommandModel::Print) }];
    let read = with_line(config, s, source.next());
    if source.lines.len() == 0 {
        assert(ending(config, program, source.rest(), read, (steps - 1) as nat)
            == Ending::Finished(0, s.out));
        assert(s.out + Seq::<char>::empty() =~= s.out);
    } else {
        let flags = selection(address, source.lines, s.line_number, s.range_active[0]);
        let kept = picked(source.lines, flags, true);
        lemma_cycle(config, address, CommandModel::Print, source, s, steps);
        lemma_at_line(address, read);
        let seen = looked(address, read);
        let rest = selection(
            address,
            source.rest().lines,
            s.line_number + 1,
            seen.range_active[0],
        );
        assert(flags.drop_first() =~= rest);
        assert(lines(config, read.append_queue) =~= Seq::empty());
        let done = if selects(address, read) {
            perform(config, program, CommandModel::Print, seen)
        } else {
            seen.next()
        };
        let end = step(config, program, done);
        assert(end.out =~= done.out);
        lemma_print_selected_from(config, address, source.rest(), end, (steps - 3) as nat);
        if selects(address, read) {
            lemma_lines_first(config, kept);
            assert(kept.drop_first() =~= picked(source.rest().lines, rest, true));
            assert(end.out + lines(config, kept.drop_first()) =~= s.out + lines(config, kept));
        }
    }
}

/// Of every address but that of every line: `d` and `d` with the address
/// negated print two lists into which the input is split, and `p` in quiet mode
/// prints the second.
pub proof fn law_delete_and_print_split(
    null_data: bool,
    address: RangeModel,
    source: Source,
)
    requires
        !(address is Every),
        !source.broken,
    ensures
        ({
            let loud = Config { quiet: false, null_data };
            let quiet = Config { quiet: true, null_data };
            let flags = selected(address, source.lines);
            let yes = picked(source.lines, flags, true);
            let no = picked(source.lines, flags, false);
            &&& yes.len() + no.len() == source.lines.len()
            &&& merged(flags, yes, no) == source.lines
            &&& outcome(loud, one(address, CommandModel::Delete), source)
                == Ending::Finished(0, lines(loud, no))
            &&& outcome(loud, one(negated(address), CommandModel::Delete), source)
                == Ending::Finished(0, lines(loud, yes))
            &&& outcome(quiet, one(address, CommandModel::Print), source) == outcome(
                loud,
                one(negated(address), CommandModel::Delete),
                source,
            )
        }),
{
    let loud = Config { quiet: false, null_data };
    let quiet = Config { quiet: true, null_data };
    law_lines_are_split(address, source.lines);
    law_delete_selected(loud, address, source);
    law_delete_selected(loud, negated(address), source);
    law_print_selected(quiet, address, source);
    law_negated_selection(address, source.lines, false);
    lemma_lines_quiet(loud, quiet, picked(source.lines, selected(address, source.lines), true));
}

/// The same of a text of lines.
pub proof fn law_text_is_split(null_data: bool, address: RangeModel, texts: Seq<Seq<char>>)
    requires
        !(address is Every),
        forall|i: int| 0 <= i < texts.len() ==> is_line(#[trigger] texts[i], null_data),
    ensures
        ({
            let loud = Config { quiet: false, null_data };
            let quiet = Config { quiet: true, null_data };
            let input = encode_utf8(lines(loud, texts));
            let flags = selected(address, texts);
            let yes = picked(texts, flags, true);
            let no = picked(texts, flags, false);
            &&& yes.len() + no.len() == texts.len()
            &&& merged(flags, yes, no) == texts
            &&& run_of(loud, one(address, CommandModel::Delete), input) == Ending::Finished(
                0,
                lines(loud, no),
            )
            &&& run_of(loud, one(negated(address), CommandModel::Delete), input)
                == Ending::Finished(0, lines(loud, yes))
            &&& run_of(quiet, one(address, CommandModel::Print), input) == run_of(
                loud,
                one(negated(address), CommandModel::Delete),
                input,
            )
        }),
{
    let loud = Config { quiet: false, null_data };
    law_printed_lines_are_read_back(loud, texts);
    law_delete_and_print_split(null_data, address, Source { lines: texts, broken: false });
}

/// How lines are printed does not depend on quiet mode.
proof fn lemma_lines_quiet(a: Config, b: Config, texts: Seq<Seq<char>>)
    requires
        a.null_data == b.null_data,
    ensures
        lines(a, texts) == lines(b, texts),
    decreases texts.len(),
{
    if texts.len() > 0 {
        lemma_lines_quiet(a, b, texts.drop_last());
    }
}

// ---------------------------------------------------------------------------
// Ranges of line numbers
// ---------------------------------------------------------------------------

/// A range of two line numbers selects, of a whole input, exactly the lines from
/// the first to the second, and the first alone where the second is no later.
pub proof fn law_selected_lines(a: usize, b: usize, negated: bool, texts: Seq<Seq<char>>)
    requires
        a > 0,
    ensures
        ({
            let address = RangeModel::Range {
                start: AddressModel::Line(a),
                end: AddressModel::Line(b),
                negated,
            };
            &&& selected(address, texts).len() == texts.len()
            &&& forall|i: int|
                0 <= i < texts.len() ==> #[trigger] selected(address, texts)[i] == ((a <= i + 1 && (
                i + 1 <= a || i + 1 <= b)) != negated)
        }),
{
    lemma_selected_lines_from(a, b, negated, texts, 0, false);
}

proof fn lemma_selected_lines_from(
    a: usize,
    b: usize,
    negated: bool,
    texts: Seq<Seq<char>>,
    read: nat,
    open: bool,
)
    requires
        a > 0,
        open == (a <= read && read < b),
    ensures
        ({
            let address = RangeModel::Range {
                start: AddressModel::Line(a),
                end: AddressModel::Line(b),
                negated,
            };
            let flags = selection(address, texts, read, open);
            &&& flags.len() == texts.len()
            &&& forall|i: int|
                0 <= i < texts.len() ==> #[trigger] flags[i] == ((a <= read + i + 1 && (read + i + 1
                    <= a || read + i + 1 <= b)) != negated)
        }),
    decreases texts.len(),
{
    if texts.len() > 0 {
        let address = RangeModel::Range {
            start: AddressModel::Line(a),
            end: AddressModel::Line(b),
            negated,
        };
        let flags = selection(address, texts, read, open);
        let s = at_line(read + 1, texts.len() == 1, texts[0], open);
        let after = is_active(looked(address, s));
        lemma_selected_lines_from(a, b, negated, texts.drop_first(), read + 1, after);
        let rest = selection(address, texts.drop_first(), read + 1, after);
        assert forall|i: int| 0 <= i < texts.len() implies #[trigger] flags[i] == ((a <= read + i
            + 1 && (read + i + 1 <= a || read + i + 1 <= b)) != negated) by {
            if i > 0 {
                assert(flags[i] == rest[i - 1]);
            }
        }
    }
}

} // verus!
