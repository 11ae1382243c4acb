//! Which lines of an input the addresses and the ranges select.

use vstd::prelude::*;

use crate::laws::law_step_address;
use crate::machine::{address_selects, is_active, looked, selects, Snapshot};
use crate::pattern::regex_finds;
use crate::script::{AddressModel, RangeModel};
use crate::selection::{at_line, lemma_selection_len, selected, selection};

verus! {

// ---------------------------------------------------------------------------
// One line
// ---------------------------------------------------------------------------

/// A number selects the line with that number, `$` the last line, and a pattern
/// the lines in which it occurs, with regard to case.
pub proof fn law_addresses(n: usize, source: Seq<char>, s: Snapshot)
    ensures
        address_selects(AddressModel::Line(n), s) <==> s.line_number == n,
        address_selects(AddressModel::Last, s) <==> s.is_last_line,
        address_selects(AddressModel::Regex(source), s) <==> regex_finds(
            source,
            false,
            s.pattern_space,
        ),
{
}

/// Without an address a command applies to every line; with one it applies to the
/// lines that the address selects, and behind `!` to the others. An address that is
/// no range leaves the state as it is.
pub proof fn law_single_addresses(addr: AddressModel, s: Snapshot)
    ensures
        selects(RangeModel::Every, s),
        selects(RangeModel::Single { addr, negated: false }, s) <==> address_selects(addr, s),
        selects(RangeModel::Single { addr, negated: true }, s) <==> !address_selects(addr, s),
        looked(RangeModel::Every, s) == s,
        looked(RangeModel::Single { addr, negated: false }, s) == s,
        looked(RangeModel::Single { addr, negated: true }, s) == s,
{
}

/// A line on which a range is open belongs to the range, whether or not the end
/// address selects it, and whatever the two addresses are. The range is open
/// afterwards exactly if the end address does not select the line.
pub proof fn law_open_range(start: AddressModel, end: AddressModel, s: Snapshot)
    requires
        is_active(s),
    ensures
        selects(RangeModel::Range { start, end, negated: false }, s),
        !selects(RangeModel::Range { start, end, negated: true }, s),
        is_active(looked(RangeModel::Range { start, end, negated: false }, s))
            <==> !address_selects(end, s),
        is_active(looked(RangeModel::Range { start, end, negated: true }, s))
            <==> !address_selects(end, s),
{
}

/// A line on which a range is closed belongs to the range exactly if the start
/// address selects it. The range is open afterwards unless its end is the number of
/// this line or of an earlier one; the end address is not looked at otherwise.
pub proof fn law_closed_range(start: AddressModel, end: AddressModel, s: Snapshot)
    requires
        !is_active(s),
        0 <= s.pc < s.range_active.len(),
    ensures
        selects(RangeModel::Range { start, end, negated: false }, s) <==> address_selects(start, s),
        selects(RangeModel::Range { start, end, negated: true }, s) <==> !address_selects(start, s),
        is_active(looked(RangeModel::Range { start, end, negated: false }, s)) <==> {
            &&& address_selects(start, s)
            &&& !(end is Line && end->Line_0 <= s.line_number)
        },
{
}

/// Looking at a range changes nothing but whether this range is open.
pub proof fn law_looking_changes_one_range(
    start: AddressModel,
    end: AddressModel,
    negated: bool,
    s: Snapshot,
)
    ensures
        ({
            let t = looked(RangeModel::Range { start, end, negated }, s);
            &&& t == (Snapshot { range_active: t.range_active, ..s })
            &&& t.range_active.len() == s.range_active.len()
            &&& forall|i: int|
                0 <= i < s.range_active.len() && i != s.pc ==> #[trigger] t.range_active[i]
                    == s.range_active[i]
        }),
{
}

// ---------------------------------------------------------------------------
// Whole inputs
// ---------------------------------------------------------------------------

/// Whether an address stands for line `i`, counted from 0, of the last lines of an
/// input, before which there are `read` others.
pub open spec fn stands_for(addr: AddressModel, texts: Seq<Seq<char>>, read: nat, i: int) -> bool {
    match addr {
        AddressModel::Line(n) => read + i + 1 == n,
        AddressModel::Last => i + 1 == texts.len(),
        AddressModel::Regex(source) => regex_finds(source, false, texts[i]),
        AddressModel::Step { first, step } => exists|k: nat|
            read + i + 1 == first + #[trigger] (k * step),
    }
}

proof fn lemma_stands_for(addr: AddressModel, texts: Seq<Seq<char>>, read: nat, open: bool)
    requires
        texts.len() > 0,
    ensures
        address_selects(addr, at_line(read + 1, texts.len() == 1, texts[0], open)) == stands_for(
            addr,
            texts,
            read,
            0,
        ),
{
    if let AddressModel::Step { first, step } = addr {
        let s = at_line(read + 1, texts.len() == 1, texts[0], open);
        law_step_address(first, step, s);
        if address_selects(addr, s) {
            let k = choose|k: nat| s.line_number == first + #[trigger] (k * step);
            assert(read + 0 + 1 == first + k * step);
        }
        if stands_for(addr, texts, read, 0) {
            let k = choose|k: nat| read + 0 + 1 == first + #[trigger] (k * step);
            assert(s.line_number == first + k * step);
        }
    }
}

proof fn lemma_stands_for_later(
    addr: AddressModel,
    texts: Seq<Seq<char>>,
    read: nat,
    n: int,
    i: int,
)
    requires
        0 <= n <= i < texts.len(),
    ensures
        stands_for(addr, texts.skip(n), (read + n) as nat, i - n) == stands_for(
            addr,
            texts,
            read,
            i,
        ),
{
    assert(texts.skip(n)[i - n] == texts[i]);
    if let AddressModel::Step { first, step } = addr {
        if stands_for(addr, texts, read, i) {
            let k = choose|k: nat| read + i + 1 == first + #[trigger] (k * step);
            assert((read + n) as nat + (i - n) + 1 == first + k * step);
        }
        if stands_for(addr, texts.skip(n), (read + n) as nat, i - n) {
            let k = choose|k: nat|
                (read + n) as nat + (i - n) + 1 == first + #[trigger] (k * step);
            assert(read + i + 1 == first + k * step);
        }
    }
}

proof fn lemma_single_from(
    addr: AddressModel,
    negated: bool,
    texts: Seq<Seq<char>>,
    read: nat,
    open: bool,
)
    ensures
        ({
            let flags = selection(RangeModel::Single { addr, negated }, texts, read, open);
            &&& flags.len() == texts.len()
            &&& forall|i: int|
                0 <= i < texts.len() ==> #[trigger] flags[i] == (stands_for(addr, texts, read, i)
                    != negated)
        }),
    decreases texts.len(),
{
    let address = RangeModel::Single { addr, negated };
    let flags = selection(address, texts, read, open);
    if texts.len() > 0 {
        let rest = texts.drop_first();
        lemma_stands_for(addr, texts, read, open);
        lemma_single_from(addr, negated, rest, read + 1, open);
        assert(texts.skip(1) =~= rest);
        let s = at_line(read + 1, texts.len() == 1, texts[0], open);
        assert(is_active(looked(address, s)) == open);
        assert forall|i: int| 0 <= i < texts.len() implies #[trigger] flags[i] == (stands_for(
            addr,
            texts,
            read,
            i,
        ) != negated) by {
            if i > 0 {
                lemma_stands_for_later(addr, texts, read, 1, i);
                assert(flags[i] == selection(address, rest, read + 1, open)[i - 1]);
            }
        }
    }
}

/// Of a whole input an address selects the lines that it stands for, and behind
/// `!` the others; without an address every line is selected.
pub proof fn law_selected_by_address(addr: AddressModel, negated: bool, texts: Seq<Seq<char>>)
    ensures
        ({
            let flags = selected(RangeModel::Single { addr, negated }, texts);
            &&& flags.len() == texts.len()
            &&& forall|i: int|
                0 <= i < texts.len() ==> #[trigger] flags[i] == (stands_for(addr, texts, 0, i)
                    != negated)
        }),
        selected(RangeModel::Every, texts) == Seq::new(texts.len(), |i: int| true),
{
    lemma_single_from(addr, negated, texts, 0, false);
    lemma_every_from(texts, 0, false);
}

proof fn lemma_every_from(texts: Seq<Seq<char>>, read: nat, open: bool)
    ensures
        selection(RangeModel::Every, texts, read, open) == Seq::new(texts.len(), |i: int| true),
    decreases texts.len(),
{
    if texts.len() > 0 {
        lemma_every_from(texts.drop_first(), read + 1, open);
    }
    assert(selection(RangeModel::Every, texts, read, open) =~= Seq::new(
        texts.len(),
        |i: int| true,
    ));
}

/// So many flags of one kind.
pub open spec fn flags_of(n: int, flag: bool) -> Seq<bool> {
    Seq::new(n as nat, |i: int| flag)
}

proof fn lemma_closed_run(
    start: AddressModel,
    end: AddressModel,
    texts: Seq<Seq<char>>,
    read: nat,
    n: int,
)
    requires
        0 <= n <= texts.len(),
        forall|i: int| 0 <= i < n ==> !#[trigger] stands_for(start, texts, read, i),
    ensures
        ({
            let range = RangeModel::Range { start, end, negated: false };
            selection(range, texts, read, false) == flags_of(n, false) + selection(
                range,
                texts.skip(n),
                (read + n) as nat,
                false,
            )
        }),
    decreases n,
{
    let range = RangeModel::Range { start, end, negated: false };
    let all = selection(range, texts, read, false);
    if n == 0 {
        assert(texts.skip(0) =~= texts);
        assert(flags_of(0, false) + all =~= all);
    } else {
        let rest = texts.drop_first();
        lemma_stands_for(start, texts, read, false);
        assert(!stands_for(start, texts, read, 0));
        assert(texts.skip(1) =~= rest);
        assert forall|i: int| 0 <= i < n - 1 implies !#[trigger] stands_for(
            start,
            rest,
            read + 1,
            i,
        ) by {
            lemma_stands_for_later(start, texts, read, 1, i + 1);
            assert(!stands_for(start, texts, read, i + 1));
        }
        lemma_closed_run(start, end, rest, read + 1, n - 1);
        assert(rest.skip(n - 1) =~= texts.skip(n));
        assert(all =~= flags_of(n, false) + selection(
            range,
            texts.skip(n),
            (read + n) as nat,
            false,
        ));
    }
}

proof fn lemma_open_run(
    start: AddressModel,
    end: AddressModel,
    texts: Seq<Seq<char>>,
    read: nat,
    m: int,
)
    requires
        0 <= m <= texts.len(),
        forall|i: int| 0 <= i < m ==> !#[trigger] stands_for(end, texts, read, i),
        m < texts.len() ==> stands_for(end, texts, read, m),
    ensures
        ({
            let range = RangeModel::Range { start, end, negated: false };
            selection(range, texts, read, true) == (if m < texts.len() {
                flags_of(m + 1, true) + selection(
                    range,
                    texts.skip(m + 1),
                    (read + m + 1) as nat,
                    false,
                )
            } else {
                flags_of(m, true)
            })
        }),
    decreases m,
{
    let range = RangeModel::Range { start, end, negated: false };
    let all = selection(range, texts, read, true);
    if texts.len() == 0 {
        assert(all =~= flags_of(m, true));
    } else {
        let rest = texts.drop_first();
        lemma_stands_for(end, texts, read, true);
        assert(texts.skip(1) =~= rest);
        if m == 0 {
            assert(all =~= flags_of(1, true) + selection(range, rest, read + 1, false));
        } else {
            assert(!stands_for(end, texts, read, 0));
            assert forall|i: int| 0 <= i < m - 1 implies !#[trigger] stands_for(
                end,
                rest,
                read + 1,
                i,
            ) by {
                lemma_stands_for_later(end, texts, read, 1, i + 1);
                assert(!stands_for(end, texts, read, i + 1));
            }
            if m < texts.len() {
                lemma_stands_for_later(end, texts, read, 1, m);
            }
            lemma_open_run(start, end, rest, read + 1, m - 1);
            if m < texts.len() {
                assert(rest.skip(m) =~= texts.skip(m + 1));
                assert(all =~= flags_of(m + 1, true) + selection(
                    range,
                    texts.skip(m + 1),
                    (read + m + 1) as nat,
                    false,
                ));
            } else {
                assert(all =~= flags_of(m, true));
            }
        }
    }
}

/// A range selects no line before the first that its start stands for, and none
/// at all where there is no such line.
pub proof fn law_range_waits_for_its_start(
    start: AddressModel,
    end: AddressModel,
    texts: Seq<Seq<char>>,
    read: nat,
    j: int,
)
    requires
        0 <= j <= texts.len(),
        forall|i: int| 0 <= i < j ==> !#[trigger] stands_for(start, texts, read, i),
    ensures
        ({
            let range = RangeModel::Range { start, end, negated: false };
            let flags = selection(range, texts, read, false);
            &&& flags.take(j) == flags_of(j, false)
            &&& flags.skip(j) == selection(range, texts.skip(j), (read + j) as nat, false)
        }),
{
    let range = RangeModel::Range { start, end, negated: false };
    let flags = selection(range, texts, read, false);
    lemma_closed_run(start, end, texts, read, j);
    assert(flags.take(j) =~= flags_of(j, false));
    assert(flags.skip(j) =~= selection(range, texts.skip(j), (read + j) as nat, false));
}

/// From the line that its start stands for, a range selects every line up to and
/// with the next that its end stands for, or all that are left where there is none;
/// behind that line it starts anew. Where the end is the number of the line on
/// which the range starts, or an earlier one, the range is that line alone.
pub proof fn law_range_runs_to_its_end(
    start: AddressModel,
    end: AddressModel,
    texts: Seq<Seq<char>>,
    read: nat,
    m: int,
)
    requires
        texts.len() > 0,
        stands_for(start, texts, read, 0),
        if end is Line && end->Line_0 <= read + 1 {
            m == 0
        } else {
            &&& 0 < m <= texts.len()
            &&& forall|i: int| 0 < i < m ==> !#[trigger] stands_for(end, texts, read, i)
            &&& m < texts.len() ==> stands_for(end, texts, read, m)
        },
    ensures
        ({
            let range = RangeModel::Range { start, end, negated: false };
            let flags = selection(range, texts, read, false);
            if m < texts.len() {
                &&& flags.take(m + 1) == flags_of(m + 1, true)
                &&& flags.skip(m + 1) == selection(
                    range,
                    texts.skip(m + 1),
                    (read + m + 1) as nat,
                    false,
                )
            } else {
                flags == flags_of(m, true)
            }
        }),
{
    let range = RangeModel::Range { start, end, negated: false };
    let flags = selection(range, texts, read, false);
    let rest = texts.drop_first();
    let s = at_line(read + 1, texts.len() == 1, texts[0], false);
    lemma_stands_for(start, texts, read, false);
    assert(texts.skip(1) =~= rest);
    if end is Line && end->Line_0 <= read + 1 {
        assert(flags.take(1) =~= flags_of(1, true));
        assert(flags.skip(1) =~= selection(range, rest, read + 1, false));
    } else {
        assert forall|i: int| 0 <= i < m - 1 implies !#[trigger] stands_for(
            end,
            rest,
            read + 1,
            i,
        ) by {
            lemma_stands_for_later(end, texts, read, 1, i + 1);
            assert(!stands_for(end, texts, read, i + 1));
        }
        if m < texts.len() {
            lemma_stands_for_later(end, texts, read, 1, m);
        }
        assert(is_active(looked(range, s)));
        lemma_open_run(start, end, rest, read + 1, m - 1);
        assert(flags == seq![true] + selection(range, rest, read + 1, true));
        if m < texts.len() {
            assert(rest.skip(m) =~= texts.skip(m + 1));
            assert(flags.take(m + 1) =~= flags_of(m + 1, true));
            assert(flags.skip(m + 1) =~= selection(
                range,
                texts.skip(m + 1),
                (read + m + 1) as nat,
                false,
            ));
        } else {
            assert(flags =~= flags_of(m, true));
        }
    }
}

/// `n,/regex/` selects of a whole input line `n` and the lines after it, up to and
/// with the first later one in which the pattern occurs, and no others.
pub proof fn law_line_to_pattern(n: usize, source: Seq<char>, texts: Seq<Seq<char>>, m: int)
    requires
        0 < n <= texts.len(),
        n <= m <= texts.len(),
        forall|i: int| n <= i < m ==> !regex_finds(source, false, #[trigger] texts[i]),
        m < texts.len() ==> regex_finds(source, false, texts[m]),
    ensures
        ({
            let range = RangeModel::Range {
                start: AddressModel::Line(n),
                end: AddressModel::Regex(source),
                negated: false,
            };
            &&& selected(range, texts).len() == texts.len()
            &&& forall|i: int|
                0 <= i < texts.len() ==> #[trigger] selected(range, texts)[i] == (n - 1 <= i <= m)
        }),
{
    let start = AddressModel::Line(n);
    let end = AddressModel::Regex(source);
    let range = RangeModel::Range { start, end, negated: false };
    let j = n - 1;
    lemma_closed_run(start, end, texts, 0, j);
    let later = texts.skip(j);
    assert forall|i: int| 0 < i < m - j implies !#[trigger] stands_for(end, later, j as nat, i) by {
        assert(later[i] == texts[j + i]);
    }
    if m < texts.len() {
        assert(later[m - j] == texts[m]);
    }
    law_range_runs_to_its_end(start, end, later, j as nat, m - j);
    let flags = selected(range, texts);
    let behind = selection(range, later, j as nat, false);
    lemma_selection_len(range, later, j as nat, false);
    assert(flags == flags_of(j, false) + behind);
    if m < texts.len() {
        let rest = later.skip(m - j + 1);
        lemma_closed_run(start, end, rest, (m + 1) as nat, rest.len() as int);
        let none = rest.skip(rest.len() as int);
        assert(none =~= Seq::empty());
        assert(behind.skip(m - j + 1) =~= flags_of(rest.len() as int, false));
        assert(behind =~= behind.take(m - j + 1) + behind.skip(m - j + 1));
        assert(flags =~= flags_of(j, false) + flags_of(m - j + 1, true) + flags_of(
            rest.len() as int,
            false,
        ));
    }
}

} // verus!
