//! Scripts written out, and read back.
//!
//! A script can be written as text in the ordinary way: addresses, the letter of
//! the command, its argument, and a newline or a semicolon. Reading that text gives
//! the script again.

use vstd::prelude::*;

use crate::effects::law_trailing_space;
use crate::grammar::{
    address, at, closing, command_head, commands, digits_value, filename_arg, is_kind,
    is_plain_command, is_separator, joined_lines, label_arg, lemma_preceded_by_none,
    lemma_skip_blanks, negation, number, one_command, optional_int, parse_script, plain_command,
    plain_delimiters, preceded, regex_text, replacement_text, rest_of_line, run_end, skip_blanks,
    skip_spaces, substitute, substitute_flags, text_arg, text_end, text_start, transliterate,
    CharKind,
};
use crate::joining::lemma_shift_commands;
use crate::script::{AddressModel, CommandModel, RangeModel, SedCommandModel, SubstituteModel};
use crate::text::{decimal, is_letter_or_number, is_white_space, without_trailing_space};

verus! {

// ---------------------------------------------------------------------------
// Text at a place
// ---------------------------------------------------------------------------

/// Whether a text stands at the place `i` of a script.
pub open spec fn stands_at(s: Seq<char>, i: int, text: Seq<char>) -> bool {
    &&& 0 <= i
    &&& i + text.len() <= s.len()
    &&& s.subrange(i, i + text.len()) == text
}

pub proof fn lemma_stands_char(s: Seq<char>, i: int, text: Seq<char>, k: int)
    requires
        stands_at(s, i, text),
        0 <= k < text.len(),
    ensures
        s[i + k] == text[k],
{
    assert(s.subrange(i, i + text.len())[k] == s[i + k]);
}

pub proof fn lemma_stands_parts(s: Seq<char>, i: int, a: Seq<char>, b: Seq<char>)
    requires
        stands_at(s, i, a + b),
    ensures
        stands_at(s, i, a),
        stands_at(s, i + a.len(), b),
{
    assert forall|k: int| 0 <= k < a.len() implies s[i + k] == a[k] by {
        lemma_stands_char(s, i, a + b, k);
    }
    assert forall|k: int| 0 <= k < b.len() implies s[i + a.len() + k] == b[k] by {
        lemma_stands_char(s, i, a + b, a.len() + k);
    }
    assert(s.subrange(i, i + a.len()) =~= a);
    assert(s.subrange(i + a.len(), i + a.len() + b.len()) =~= b);
}

proof fn lemma_run(s: Seq<char>, i: int, text: Seq<char>, from: int, kind: CharKind)
    requires
        stands_at(s, i, text),
        0 <= from <= text.len(),
        forall|k: int| 0 <= k < text.len() ==> is_kind(kind, #[trigger] text[k]),
        i + text.len() < s.len() ==> !is_kind(kind, s[i + text.len()]),
    ensures
        run_end(s, i + from, kind) == i + text.len(),
    decreases text.len() - from,
{
    if from < text.len() {
        lemma_stands_char(s, i, text, from);
        assert(is_kind(kind, text[from]));
        lemma_run(s, i, text, from + 1, kind);
    }
}

/// No blank stands here.
proof fn lemma_no_spaces(s: Seq<char>, i: int)
    requires
        0 <= i,
        i < s.len() ==> s[i] != ' ' && s[i] != '\t',
    ensures
        skip_spaces(s, i) == i,
{
}

/// Whether a text is made of spaces and tabs.
pub open spec fn is_gap(gap: Seq<char>) -> bool {
    forall|k: int| 0 <= k < gap.len() ==> #[trigger] gap[k] == ' ' || gap[k] == '\t'
}

/// Blanks stand here.
proof fn lemma_gap(s: Seq<char>, i: int, gap: Seq<char>)
    requires
        is_gap(gap),
        stands_at(s, i, gap),
        i + gap.len() < s.len() ==> s[i + gap.len()] != ' ' && s[i + gap.len()] != '\t',
    ensures
        skip_spaces(s, i) == i + gap.len(),
{
    lemma_run(s, i, gap, 0, CharKind::Blank);
}

// ---------------------------------------------------------------------------
// Numbers
// ---------------------------------------------------------------------------

/// A decimal numeral is made of digits, has no zero in front but for the number
/// zero, and has the value of the number.
pub proof fn law_decimal(n: nat)
    ensures
        decimal(n).len() > 0,
        forall|k: int| 0 <= k < decimal(n).len() ==> '0' <= #[trigger] decimal(n)[k] <= '9',
        decimal(n).len() > 1 ==> decimal(n)[0] != '0',
        digits_value(decimal(n), 0, decimal(n).len() as int) == n,
    decreases n,
{
    let all = decimal(n);
    if n < 10 {
        reveal_with_fuel(digits_value, 2);
        assert(digits_value(all, 0, 1) == n);
    } else {
        let front = decimal(n / 10);
        law_decimal(n / 10);
        assert(all.len() == front.len() + 1);
        assert(all[0] == front[0]);
        lemma_same_digits(all, front, 0, front.len() as int);
        assert(digits_value(all, 0, all.len() as int) == (n / 10) * 10 + n % 10);
        if front.len() == 1 && front[0] == '0' {
            reveal_with_fuel(digits_value, 2);
            assert(digits_value(front, 0, 1) == 0);
        }
        assert forall|k: int| 0 <= k < all.len() implies '0' <= #[trigger] all[k] <= '9' by {
            if k < front.len() {
                assert(all[k] == front[k]);
            }
        }
    }
}

proof fn lemma_same_digits(s: Seq<char>, t: Seq<char>, i: int, len: int)
    requires
        0 <= i,
        0 <= len <= t.len(),
        i + len <= s.len(),
        forall|k: int| 0 <= k < len ==> s[i + k] == #[trigger] t[k],
    ensures
        digits_value(s, i, i + len) == digits_value(t, 0, len),
    decreases len,
{
    if len > 0 {
        lemma_same_digits(s, t, i, len - 1);
        assert(s[i + (len - 1)] == t[len - 1]);
    }
}

/// A numeral that no further digit follows is read as its number.
proof fn lemma_number(s: Seq<char>, i: int, n: usize)
    requires
        stands_at(s, i, decimal(n as nat)),
        i + decimal(n as nat).len() < s.len() ==> !('0' <= s[i + decimal(n as nat).len()] <= '9'),
    ensures
        number(s, i) == (n, i + decimal(n as nat).len()),
        '0' <= s[i] <= '9',
        i < s.len(),
        decimal(n as nat).len() > 0,
{
    let text = decimal(n as nat);
    law_decimal(n as nat);
    lemma_stands_char(s, i, text, 0);
    lemma_run(s, i, text, 0, CharKind::Digit);
    assert forall|k: int| 0 <= k < text.len() implies s[i + k] == #[trigger] text[k] by {
        lemma_stands_char(s, i, text, k);
    }
    lemma_same_digits(s, text, i, text.len() as int);
}

// ---------------------------------------------------------------------------
// Delimited text
// ---------------------------------------------------------------------------

/// Whether a text from `k` on can stand before a closing delimiter: the delimiter
/// does not occur in it but behind a backslash, and no backslash stands at its end.
pub open spec fn is_delimited(text: Seq<char>, k: int, delim: char) -> bool
    decreases text.len() - k,
{
    if !(0 <= k < text.len()) {
        true
    } else if text[k] == delim {
        false
    } else if text[k] == '\\' {
        k + 1 < text.len() && is_delimited(text, k + 2, delim)
    } else {
        is_delimited(text, k + 1, delim)
    }
}

proof fn lemma_closing_behind(s: Seq<char>, i: int, text: Seq<char>, k: int, delim: char)
    requires
        stands_at(s, i, text),
        0 <= k <= text.len(),
        is_delimited(text, k, delim),
        i + text.len() < s.len(),
        s[i + text.len()] == delim,
    ensures
        closing(s, i + k, delim) == Some(i + text.len()),
    decreases text.len() - k,
{
    if k < text.len() {
        lemma_stands_char(s, i, text, k);
        if text[k] == '\\' {
            lemma_closing_behind(s, i, text, k + 2, delim);
        } else {
            lemma_closing_behind(s, i, text, k + 1, delim);
        }
    }
}

/// What stands before the closing delimiter is the pattern, as it is.
pub proof fn law_pattern_is_read(s: Seq<char>, i: int, text: Seq<char>, delim: char)
    requires
        is_delimited(text, 0, delim),
        stands_at(s, i, text + seq![delim]),
    ensures
        regex_text(s, i, delim) == Ok::<_, Seq<char>>((text, i + text.len() + 1)),
{
    lemma_stands_parts(s, i, text, seq![delim]);
    lemma_stands_char(s, i + text.len(), seq![delim], 0);
    lemma_closing_behind(s, i, text, 0, delim);
}

/// Whether a text from `k` on can be a replacement: every backslash in it has a
/// character behind it, which is not the delimiter.
pub open spec fn is_replacement(text: Seq<char>, k: int, delim: char) -> bool
    decreases text.len() - k,
{
    if !(0 <= k < text.len()) {
        true
    } else if text[k] == '\\' {
        k + 1 < text.len() && text[k + 1] != delim && is_replacement(text, k + 2, delim)
    } else {
        is_replacement(text, k + 1, delim)
    }
}

/// A replacement from `k` on with a backslash put before each delimiter.
pub open spec fn with_escaped_delimiters(text: Seq<char>, k: int, delim: char) -> Seq<char>
    decreases text.len() - k,
{
    if !(0 <= k < text.len()) {
        Seq::empty()
    } else if text[k] == '\\' && k + 1 < text.len() {
        seq!['\\', text[k + 1]] + with_escaped_delimiters(text, k + 2, delim)
    } else if text[k] == delim {
        seq!['\\', delim] + with_escaped_delimiters(text, k + 1, delim)
    } else {
        seq![text[k]] + with_escaped_delimiters(text, k + 1, delim)
    }
}

proof fn lemma_replacement_from(s: Seq<char>, i: int, text: Seq<char>, k: int, delim: char)
    requires
        delim != '\\',
        0 <= k <= text.len(),
        is_replacement(text, k, delim),
        stands_at(s, i, with_escaped_delimiters(text, k, delim) + seq![delim]),
    ensures
        ({
            let end = i + with_escaped_delimiters(text, k, delim).len();
            &&& closing(s, i, delim) == Some(end)
            &&& plain_delimiters(s, i, end, delim) == text.subrange(k, text.len() as int)
        }),
    decreases text.len() - k,
{
    let written = with_escaped_delimiters(text, k, delim);
    let n = text.len() as int;
    lemma_stands_parts(s, i, written, seq![delim]);
    lemma_stands_char(s, i + written.len(), seq![delim], 0);
    if k == text.len() {
        assert(plain_delimiters(s, i, i, delim) =~= text.subrange(k, n));
    } else {
        let next = if text[k] == '\\' {
            k + 2
        } else {
            k + 1
        };
        let first = if text[k] == '\\' {
            seq!['\\', text[k + 1]]
        } else if text[k] == delim {
            seq!['\\', delim]
        } else {
            seq![text[k]]
        };
        let rest = with_escaped_delimiters(text, next, delim);
        assert(written + seq![delim] =~= first + (rest + seq![delim]));
        lemma_stands_parts(s, i, first, rest + seq![delim]);
        lemma_replacement_from(s, i + first.len(), text, next, delim);
        lemma_stands_char(s, i, first, 0);
        if first.len() > 1 {
            lemma_stands_char(s, i, first, 1);
        }
        assert(text.subrange(k, n) =~= text.subrange(k, next) + text.subrange(next, n));
        assert(plain_delimiters(s, i, i + written.len(), delim) =~= text.subrange(k, n));
    }
}

/// A replacement with a backslash put before each delimiter in it, and the
/// delimiter behind it, is read as the replacement: for every delimiter but the
/// backslash, and every text whose backslashes have another character behind them.
pub proof fn law_replacement_is_read(s: Seq<char>, i: int, text: Seq<char>, delim: char)
    requires
        delim != '\\',
        is_replacement(text, 0, delim),
        stands_at(s, i, with_escaped_delimiters(text, 0, delim) + seq![delim]),
    ensures
        replacement_text(s, i, delim) == Ok::<_, Seq<char>>(
            (text, i + with_escaped_delimiters(text, 0, delim).len() + 1),
        ),
{
    lemma_replacement_from(s, i, text, 0, delim);
    assert(text.subrange(0, text.len() as int) =~= text);
}

/// Every text without a backslash can be a replacement.
pub proof fn law_plain_text_is_a_replacement(text: Seq<char>, k: int, delim: char)
    requires
        0 <= k <= text.len(),
        forall|j: int| 0 <= j < text.len() ==> #[trigger] text[j] != '\\',
    ensures
        is_replacement(text, k, delim),
    decreases text.len() - k,
{
    if k < text.len() {
        law_plain_text_is_a_replacement(text, k + 1, delim);
    }
}

// ---------------------------------------------------------------------------
// Addresses
// ---------------------------------------------------------------------------

/// Whether an address can be written with this delimiter around its pattern.
pub open spec fn is_address(addr: AddressModel, delim: char) -> bool {
    match addr {
        AddressModel::Regex(source) => is_delimited(source, 0, delim),
        _ => true,
    }
}

/// How an address is written.
pub open spec fn address_written(addr: AddressModel, delim: char) -> Seq<char> {
    match addr {
        AddressModel::Line(n) => decimal(n as nat),
        AddressModel::Last => seq!['$'],
        AddressModel::Regex(source) => (if delim == '/' {
            seq!['/']
        } else {
            seq!['\\', delim]
        }) + (source + seq![delim]),
        AddressModel::Step { first, step } => decimal(first as nat) + (seq!['~'] + decimal(
            step as nat,
        )),
    }
}

/// Whether an address can end before this character.
pub open spec fn ends_address(c: char) -> bool {
    !('0' <= c <= '9') && c != '~'
}

pub proof fn lemma_address_read(s: Seq<char>, i: int, addr: AddressModel, delim: char)
    requires
        is_address(addr, delim),
        stands_at(s, i, address_written(addr, delim)),
        i + address_written(addr, delim).len() < s.len(),
        ends_address(s[i + address_written(addr, delim).len()]),
    ensures
        address(s, i) == Ok::<_, Seq<char>>(
            (Some(addr), i + address_written(addr, delim).len()),
        ),
        address_written(addr, delim).len() > 0,
{
    let text = address_written(addr, delim);
    match addr {
        AddressModel::Line(n) => {
            lemma_number(s, i, n);
        },
        AddressModel::Last => {
            lemma_stands_char(s, i, text, 0);
        },
        AddressModel::Regex(source) => {
            let open = if delim == '/' {
                seq!['/']
            } else {
                seq!['\\', delim]
            };
            lemma_stands_parts(s, i, open, source + seq![delim]);
            lemma_stands_char(s, i, open, 0);
            if open.len() > 1 {
                lemma_stands_char(s, i, open, 1);
            }
            law_pattern_is_read(s, i + open.len(), source, delim);
        },
        AddressModel::Step { first, step } => {
            let a = decimal(first as nat);
            let b = decimal(step as nat);
            lemma_stands_parts(s, i, a, seq!['~'] + b);
            lemma_stands_parts(s, i + a.len(), seq!['~'], b);
            lemma_stands_char(s, i + a.len(), seq!['~'], 0);
            lemma_number(s, i, first);
            lemma_number(s, i + a.len() + 1, step);
        },
    }
}

/// Whether addresses can be written with this delimiter.
pub open spec fn is_range(range: RangeModel, delim: char) -> bool {
    match range {
        RangeModel::Every => true,
        RangeModel::Single { addr, .. } => is_address(addr, delim),
        RangeModel::Range { start, end, .. } => is_address(start, delim) && is_address(end, delim),
    }
}

/// The mark of negated addresses.
pub open spec fn mark_written(negated: bool) -> Seq<char> {
    if negated {
        seq!['!']
    } else {
        Seq::empty()
    }
}

/// How what stands between the addresses and the letter of a command is written.
pub open spec fn behind_written(negated: bool, gap: Seq<char>) -> Seq<char> {
    gap + (mark_written(negated) + (if negated {
        gap
    } else {
        Seq::empty()
    }))
}

/// How the addresses of a command are written, with blanks wherever there may be
/// any.
pub open spec fn range_written(range: RangeModel, delim: char, gap: Seq<char>) -> Seq<char> {
    match range {
        RangeModel::Every => Seq::empty(),
        RangeModel::Single { addr, negated } => address_written(addr, delim) + behind_written(
            negated,
            gap,
        ),
        RangeModel::Range { start, end, negated } => address_written(start, delim) + (gap + (
        seq![','] + (gap + (address_written(end, delim) + behind_written(negated, gap))))),
    }
}

/// Whether a character can be the letter of a command.
pub open spec fn is_letter(c: char) -> bool {
    ||| 'a' <= c <= 'z'
    ||| 'A' <= c <= 'Z'
    ||| c == '='
    ||| c == ':'
    ||| c == '{'
}

proof fn lemma_behind_read(s: Seq<char>, i: int, negated: bool, gap: Seq<char>)
    requires
        is_gap(gap),
        stands_at(s, i, behind_written(negated, gap)),
        i + behind_written(negated, gap).len() < s.len(),
        is_letter(s[i + behind_written(negated, gap).len()]),
    ensures
        i < s.len(),
        ends_address(s[i]),
        at(s, skip_spaces(s, i)) != Some(','),
        i <= skip_spaces(s, i),
        ({
            let (found, end) = negation(s, skip_spaces(s, i));
            &&& found == negated
            &&& skip_spaces(s, end) == i + behind_written(negated, gap).len()
        }),
{
    let mark = mark_written(negated);
    let tail = if negated {
        gap
    } else {
        Seq::empty()
    };
    lemma_stands_parts(s, i, gap, mark + tail);
    lemma_stands_parts(s, i + gap.len(), mark, tail);
    if gap.len() > 0 {
        lemma_stands_char(s, i, gap, 0);
        assert(gap[0] == ' ' || gap[0] == '\t');
    }
    if negated {
        lemma_stands_char(s, i + gap.len(), mark, 0);
    }
    lemma_gap(s, i, gap);
    lemma_gap(s, i + gap.len() + mark.len(), tail);
}

/// Addresses are read as they were written, up to the letter of the command.
pub proof fn law_addresses_are_read(
    s: Seq<char>,
    i: int,
    range: RangeModel,
    delim: char,
    gap: Seq<char>,
)
    requires
        is_gap(gap),
        is_range(range, delim),
        stands_at(s, i, range_written(range, delim, gap)),
        i + range_written(range, delim, gap).len() < s.len(),
        is_letter(s[i + range_written(range, delim, gap).len()]),
    ensures
        command_head(s, i) == Ok::<_, Seq<char>>(
            (
                (range, Some(s[i + range_written(range, delim, gap).len()])),
                i + range_written(range, delim, gap).len() + 1,
            ),
        ),
        s[i] != '#',
        !is_separator(s[i]),
{
    let end = i + range_written(range, delim, gap).len();
    match range {
        RangeModel::Every => {
            lemma_no_spaces(s, end);
        },
        RangeModel::Single { addr, negated } => {
            let a = address_written(addr, delim);
            lemma_stands_parts(s, i, a, behind_written(negated, gap));
            lemma_behind_read(s, i + a.len(), negated, gap);
            lemma_address_read(s, i, addr, delim);
            lemma_address_start(s, i, addr, delim);
        },
        RangeModel::Range { start, end: last, negated } => {
            lemma_range_read(s, i, start, last, negated, delim, gap);
        },
    }
}

proof fn lemma_range_read(
    s: Seq<char>,
    i: int,
    start: AddressModel,
    last: AddressModel,
    negated: bool,
    delim: char,
    gap: Seq<char>,
)
    requires
        is_gap(gap),
        is_address(start, delim),
        is_address(last, delim),
        ({
            let text = range_written(RangeModel::Range { start, end: last, negated }, delim, gap);
            &&& stands_at(s, i, text)
            &&& i + text.len() < s.len()
            &&& is_letter(s[i + text.len()])
        }),
    ensures
        ({
            let range = RangeModel::Range { start, end: last, negated };
            let end = i + range_written(range, delim, gap).len();
            command_head(s, i) == Ok::<_, Seq<char>>(((range, Some(s[end])), end + 1))
        }),
        s[i] != '#',
        !is_separator(s[i]),
{
    let a = address_written(start, delim);
    let b = address_written(last, delim);
    let behind = behind_written(negated, gap);
    let i1 = i + a.len();
    let i2 = i1 + gap.len();
    let i3 = i2 + 1;
    let i4 = i3 + gap.len();
    lemma_stands_parts(s, i, a, gap + (seq![','] + (gap + (b + behind))));
    lemma_stands_parts(s, i1, gap, seq![','] + (gap + (b + behind)));
    lemma_stands_parts(s, i2, seq![','], gap + (b + behind));
    lemma_stands_parts(s, i3, gap, b + behind);
    lemma_stands_parts(s, i4, b, behind);
    lemma_stands_char(s, i2, seq![','], 0);
    if gap.len() > 0 {
        lemma_stands_char(s, i1, gap, 0);
        assert(gap[0] == ' ' || gap[0] == '\t');
    }
    lemma_behind_read(s, i4 + b.len(), negated, gap);
    assert(ends_address(s[i1]));
    lemma_address_read(s, i, start, delim);
    lemma_address_start(s, i, start, delim);
    lemma_address_read(s, i4, last, delim);
    lemma_address_start(s, i4, last, delim);
    lemma_gap(s, i1, gap);
    lemma_gap(s, i3, gap);
    assert(skip_spaces(s, i1) == i2);
    assert(skip_spaces(s, i3) == i4);
}

pub proof fn lemma_address_start(s: Seq<char>, i: int, addr: AddressModel, delim: char)
    requires
        stands_at(s, i, address_written(addr, delim)),
    ensures
        i < s.len(),
        '0' <= s[i] <= '9' || s[i] == '$' || s[i] == '/' || s[i] == '\\',
{
    let text = address_written(addr, delim);
    match addr {
        AddressModel::Line(n) => {
            law_decimal(n as nat);
            lemma_stands_char(s, i, text, 0);
            assert('0' <= decimal(n as nat)[0] <= '9');
        },
        AddressModel::Step { first, step } => {
            law_decimal(first as nat);
            lemma_stands_char(s, i, text, 0);
            assert(text[0] == decimal(first as nat)[0]);
        },
        _ => {
            lemma_stands_char(s, i, text, 0);
        },
    }
}

// ---------------------------------------------------------------------------
// Arguments
// ---------------------------------------------------------------------------

/// Whether a text can be a name of a file: it holds no newline and no semicolon,
/// starts with no blank and ends in no white space.
pub open spec fn is_file_name(name: Seq<char>) -> bool {
    &&& forall|k: int| 0 <= k < name.len() ==> #[trigger] name[k] != '\n' && name[k] != ';'
    &&& name.len() > 0 ==> name[0] != ' ' && name[0] != '\t' && !is_white_space(name.last())
}

/// Whether a text can be a shell command: it is not empty, holds no newline, starts
/// with no blank and ends in no white space.
pub open spec fn is_shell_command(text: Seq<char>) -> bool {
    &&& text.len() > 0
    &&& forall|k: int| 0 <= k < text.len() ==> #[trigger] text[k] != '\n'
    &&& text[0] != ' ' && text[0] != '\t' && !is_white_space(text.last())
}

/// Whether a text can be a label: it is made of letters, numbers, `_`, `.` and `-`.
pub open spec fn is_label(name: Seq<char>) -> bool {
    forall|k: int|
        0 <= k < name.len() ==> is_letter_or_number(#[trigger] name[k]) || name[k] == '_'
            || name[k] == '.' || name[k] == '-'
}

/// Whether a text can stand behind `a`, `i` or `c`: it does not end in a backslash.
pub open spec fn is_text(text: Seq<char>) -> bool {
    text.len() > 0 ==> text.last() != '\\'
}

/// A text with a backslash put before each newline.
pub open spec fn with_continued_lines(text: Seq<char>) -> Seq<char>
    decreases text.len(),
{
    if text.len() == 0 {
        Seq::empty()
    } else if text.last() == '\n' {
        with_continued_lines(text.drop_last()) + seq!['\\', '\n']
    } else {
        with_continued_lines(text.drop_last()).push(text.last())
    }
}

proof fn lemma_trimmed(text: Seq<char>)
    requires
        text.len() > 0 ==> !is_white_space(text.last()),
    ensures
        without_trailing_space(text) == text,
{
    let none = Seq::<char>::empty();
    law_trailing_space(text, none);
    assert(text + none =~= text);
}

/// The name of a file is what stands up to a newline or a semicolon, without the
/// white space around it.
pub proof fn law_file_name_is_read(s: Seq<char>, i: int, gap: Seq<char>, name: Seq<char>)
    requires
        is_gap(gap),
        is_file_name(name),
        stands_at(s, i, gap + name),
        i + (gap + name).len() < s.len() ==> s[i + (gap + name).len()] == '\n' || s[i + (gap
            + name).len()] == ';',
    ensures
        filename_arg(s, i) == (name, i + (gap + name).len()),
{
    lemma_stands_parts(s, i, gap, name);
    if name.len() > 0 {
        lemma_stands_char(s, i + gap.len(), name, 0);
    }
    lemma_gap(s, i, gap);
    lemma_run(s, i + gap.len(), name, 0, CharKind::FileName);
    lemma_trimmed(name);
}

/// A shell command is what stands up to the end of the line, without the white
/// space around it.
pub proof fn law_shell_command_is_read(s: Seq<char>, i: int, gap: Seq<char>, text: Seq<char>)
    requires
        is_gap(gap),
        is_shell_command(text),
        stands_at(s, i, gap + text),
        i + (gap + text).len() < s.len() ==> s[i + (gap + text).len()] == '\n',
    ensures
        rest_of_line(s, i) == (text, i + (gap + text).len()),
{
    lemma_stands_parts(s, i, gap, text);
    lemma_stands_char(s, i + gap.len(), text, 0);
    lemma_gap(s, i, gap);
    lemma_run(s, i + gap.len(), text, 0, CharKind::Line);
    lemma_trimmed(text);
}

/// A label is the letters, numbers, `_`, `.` and `-` behind the blanks; there is none
/// where none of these stands there.
pub proof fn law_label_is_read(s: Seq<char>, i: int, gap: Seq<char>, name: Seq<char>)
    requires
        is_gap(gap),
        is_label(name),
        stands_at(s, i, gap + name),
        i + (gap + name).len() < s.len() ==> {
            let c = s[i + (gap + name).len()];
            !is_letter_or_number(c) && c != '_' && c != '.' && c != '-' && (name.len() == 0 ==> c
                != ' ' && c != '\t')
        },
    ensures
        label_arg(s, i) == (
            if name.len() == 0 {
                None
            } else {
                Some(name)
            },
            i + (gap + name).len(),
        ),
{
    lemma_stands_parts(s, i, gap, name);
    if name.len() > 0 {
        lemma_stands_char(s, i + gap.len(), name, 0);
        assert(is_letter_or_number(name[0]) || name[0] == '_' || name[0] == '.' || name[0] == '-');
    }
    lemma_gap(s, i, gap);
    lemma_run(s, i + gap.len(), name, 0, CharKind::Label);
}

proof fn lemma_continued_len(text: Seq<char>)
    ensures
        with_continued_lines(text).len() >= text.len(),
        text.len() > 0 ==> with_continued_lines(text).last() == text.last(),
    decreases text.len(),
{
    if text.len() > 0 {
        lemma_continued_len(text.drop_last());
    }
}

/// Every newline of a text with continued lines has a backslash before it.
proof fn lemma_continued(text: Seq<char>, k: int)
    requires
        0 <= k < with_continued_lines(text).len(),
        with_continued_lines(text)[k] == '\n',
    ensures
        k > 0,
        with_continued_lines(text)[k - 1] == '\\',
    decreases text.len(),
{
    if text.len() > 0 {
        let front = with_continued_lines(text.drop_last());
        if k < front.len() {
            lemma_continued(text.drop_last(), k);
        }
    }
}

proof fn lemma_text_end_behind(s: Seq<char>, start: int, text: Seq<char>, k: int)
    requires
        stands_at(s, start, with_continued_lines(text)),
        is_text(text),
        0 <= k <= with_continued_lines(text).len(),
        start + with_continued_lines(text).len() < s.len() ==> s[start + with_continued_lines(
            text,
        ).len()] == '\n',
    ensures
        text_end(s, start, start + k) == start + with_continued_lines(text).len(),
    decreases with_continued_lines(text).len() - k,
{
    let written = with_continued_lines(text);
    lemma_continued_len(text);
    if k < written.len() {
        lemma_stands_char(s, start, written, k);
        if written[k] == '\n' {
            lemma_continued(text, k);
            lemma_stands_char(s, start, written, k - 1);
        }
        lemma_text_end_behind(s, start, text, k + 1);
    } else if written.len() > 0 {
        lemma_stands_char(s, start, written, written.len() - 1);
    }
}

proof fn lemma_joined_lines_read(s: Seq<char>, start: int, text: Seq<char>)
    requires
        stands_at(s, start, with_continued_lines(text)),
    ensures
        joined_lines(s, start, start + with_continued_lines(text).len()) == text,
    decreases text.len(),
{
    let written = with_continued_lines(text);
    if text.len() > 0 {
        let front = with_continued_lines(text.drop_last());
        let last = text.last();
        if last == '\n' {
            lemma_stands_parts(s, start, front, seq!['\\', '\n']);
            lemma_joined_lines_read(s, start, text.drop_last());
            lemma_stands_char(s, start, written, front.len() as int);
            lemma_stands_char(s, start, written, front.len() as int + 1);
            assert(text.drop_last().push('\n') =~= text);
        } else {
            assert(written =~= front + seq![last]);
            lemma_stands_parts(s, start, front, seq![last]);
            lemma_joined_lines_read(s, start, text.drop_last());
            lemma_stands_char(s, start, written, front.len() as int);
            assert(text.drop_last().push(last) =~= text);
        }
    } else {
        assert(joined_lines(s, start, start) =~= text);
    }
}

/// Whether a text can stand between the letter `a`, `i` or `c` and its text: one
/// space, tab or newline, a backslash before one of these, or, before a text that
/// starts with none of them, a backslash alone or nothing.
pub open spec fn is_opening(opening: Seq<char>, text: Seq<char>) -> bool {
    let first = with_continued_lines(text);
    let plain = first.len() > 0 && first[0] != ' ' && first[0] != '\t' && first[0] != '\n';
    ||| opening == seq![' ']
    ||| opening == seq!['\t']
    ||| opening == seq!['\n']
    ||| opening == seq!['\\', ' ']
    ||| opening == seq!['\\', '\t']
    ||| opening == seq!['\\', '\n']
    ||| plain && opening == seq!['\\']
    ||| plain && first[0] != '\\' && opening == Seq::<char>::empty()
}

/// The text behind `a`, `i` or `c` is what stands up to the end of the line, or up
/// to the end of the first line that no backslash continues; such a backslash is no
/// part of the text.
pub proof fn law_text_is_read(s: Seq<char>, i: int, opening: Seq<char>, text: Seq<char>)
    requires
        is_text(text),
        is_opening(opening, text),
        stands_at(s, i, opening + with_continued_lines(text)),
        ({
            let end = i + (opening + with_continued_lines(text)).len();
            end < s.len() ==> s[end] == '\n'
        }),
    ensures
        text_arg(s, i) == (text, i + (opening + with_continued_lines(text)).len()),
{
    let written = with_continued_lines(text);
    lemma_stands_parts(s, i, opening, written);
    if opening.len() > 0 {
        lemma_stands_char(s, i, opening, 0);
    }
    if opening.len() > 1 {
        lemma_stands_char(s, i, opening, 1);
    }
    if written.len() > 0 {
        lemma_stands_char(s, i + opening.len(), written, 0);
    }
    let start = i + opening.len();
    assert(text_start(s, i) == start);
    lemma_text_end_behind(s, start, text, 0);
    lemma_joined_lines_read(s, start, text);
}

// ---------------------------------------------------------------------------
// Substitution and transliteration
// ---------------------------------------------------------------------------

/// A letter, or nothing.
pub open spec fn letter_if(there: bool, c: char) -> Seq<char> {
    if there {
        seq![c]
    } else {
        Seq::empty()
    }
}

/// How a number is written, if there is one.
pub open spec fn number_if(n: Option<usize>) -> Seq<char> {
    match n {
        Some(n) => decimal(n as nat),
        None => Seq::empty(),
    }
}

/// How the file of a `w` flag is written, if there is one.
pub open spec fn file_if(name: Option<Seq<char>>, gap: Seq<char>) -> Seq<char> {
    match name {
        Some(name) => seq!['w'] + (gap + name),
        None => Seq::empty(),
    }
}

/// How the flags of an `s` command are written.
pub open spec fn flags_written(sub: SubstituteModel, gap: Seq<char>) -> Seq<char> {
    letter_if(sub.global, 'g') + (letter_if(sub.print, 'p') + (letter_if(
        sub.case_insensitive,
        'i',
    ) + (number_if(sub.nth) + file_if(sub.write_file, gap))))
}

/// Whether what stands before the place `j` is over there: the script ends, or a
/// newline follows, or a semicolon or a closing brace where these can end it.
pub open spec fn is_over(s: Seq<char>, j: int, semicolon: bool, brace: bool) -> bool {
    ||| j == s.len()
    ||| 0 <= j < s.len() && (s[j] == '\n' || (semicolon && s[j] == ';') || (brace && s[j] == '}'))
}

proof fn lemma_file_flag(
    s: Seq<char>,
    i: int,
    sub: SubstituteModel,
    name: Option<Seq<char>>,
    gap: Seq<char>,
)
    requires
        is_gap(gap),
        sub.write_file is None,
        name matches Some(name) ==> is_file_name(name),
        stands_at(s, i, file_if(name, gap)),
        is_over(s, i + file_if(name, gap).len(), true, name is None),
    ensures
        substitute_flags(s, i, sub) == (
            SubstituteModel { write_file: name, ..sub },
            i + file_if(name, gap).len(),
        ),
        i < s.len() ==> !('0' <= s[i] <= '9'),
{
    if let Some(name) = name {
        lemma_stands_parts(s, i, seq!['w'], gap + name);
        lemma_stands_char(s, i, seq!['w'], 0);
        law_file_name_is_read(s, i + 1, gap, name);
    }
}

proof fn lemma_number_flag(
    s: Seq<char>,
    i: int,
    sub: SubstituteModel,
    n: Option<usize>,
    name: Option<Seq<char>>,
    gap: Seq<char>,
)
    requires
        is_gap(gap),
        sub.write_file is None,
        sub.nth is None,
        name matches Some(name) ==> is_file_name(name),
        stands_at(s, i, number_if(n) + file_if(name, gap)),
        is_over(s, i + (number_if(n) + file_if(name, gap)).len(), true, name is None),
    ensures
        substitute_flags(s, i, sub) == (
            SubstituteModel { nth: n, write_file: name, ..sub },
            i + (number_if(n) + file_if(name, gap)).len(),
        ),
{
    lemma_stands_parts(s, i, number_if(n), file_if(name, gap));
    let with_n = SubstituteModel { nth: n, ..sub };
    lemma_file_flag(s, i + number_if(n).len(), with_n, name, gap);
    if let Some(k) = n {
        lemma_number(s, i, k);
        assert(substitute_flags(s, i, sub) == substitute_flags(
            s,
            i + decimal(k as nat).len(),
            with_n,
        ));
    } else {
        assert(with_n == sub);
    }
}

proof fn lemma_letter_flag(s: Seq<char>, i: int, sub: SubstituteModel, c: char)
    requires
        0 <= i < s.len(),
        s[i] == c,
        c == 'g' || c == 'p' || c == 'i' || c == 'I',
    ensures
        substitute_flags(s, i, sub) == substitute_flags(
            s,
            i + 1,
            SubstituteModel {
                global: sub.global || c == 'g',
                print: sub.print || c == 'p',
                case_insensitive: sub.case_insensitive || c == 'i' || c == 'I',
                ..sub
            },
        ),
{
}

/// Flags are read as they were written.
pub proof fn law_flags_are_read(s: Seq<char>, i: int, sub: SubstituteModel, gap: Seq<char>)
    requires
        is_gap(gap),
        sub.write_file matches Some(name) ==> is_file_name(name),
        stands_at(s, i, flags_written(sub, gap)),
        is_over(s, i + flags_written(sub, gap).len(), true, sub.write_file is None),
    ensures
        ({
            let bare = SubstituteModel {
                global: false,
                print: false,
                nth: None,
                case_insensitive: false,
                write_file: None,
                ..sub
            };
            substitute_flags(s, i, bare) == (sub, i + flags_written(sub, gap).len())
        }),
{
    let bare = SubstituteModel {
        global: false,
        print: false,
        nth: None,
        case_insensitive: false,
        write_file: None,
        ..sub
    };
    let g = letter_if(sub.global, 'g');
    let p = letter_if(sub.print, 'p');
    let c = letter_if(sub.case_insensitive, 'i');
    let rest = number_if(sub.nth) + file_if(sub.write_file, gap);
    lemma_stands_parts(s, i, g, p + (c + rest));
    let i1 = i + g.len();
    lemma_stands_parts(s, i1, p, c + rest);
    let i2 = i1 + p.len();
    lemma_stands_parts(s, i2, c, rest);
    let i3 = i2 + c.len();
    let with_g = SubstituteModel { global: sub.global, ..bare };
    let with_p = SubstituteModel { print: sub.print, ..with_g };
    let with_c = SubstituteModel { case_insensitive: sub.case_insensitive, ..with_p };
    lemma_number_flag(s, i3, with_c, sub.nth, sub.write_file, gap);
    if sub.case_insensitive {
        lemma_stands_char(s, i2, c, 0);
        lemma_letter_flag(s, i2, with_p, 'i');
    } else {
        assert(with_c == with_p);
    }
    if sub.print {
        lemma_stands_char(s, i1, p, 0);
        lemma_letter_flag(s, i1, with_g, 'p');
    } else {
        assert(with_p == with_g);
    }
    if sub.global {
        lemma_stands_char(s, i, g, 0);
        lemma_letter_flag(s, i, bare, 'g');
    } else {
        assert(with_g == bare);
    }
}

/// Flags may stand in any order and more than once: `g`, `p` and `i` or `I` are set
/// exactly if they occur among the letters.
pub proof fn law_flags_in_any_order(
    s: Seq<char>,
    i: int,
    letters: Seq<char>,
    sub: SubstituteModel,
)
    requires
        forall|k: int|
            0 <= k < letters.len() ==> (#[trigger] letters[k] == 'g' || letters[k] == 'p'
                || letters[k] == 'i' || letters[k] == 'I'),
        stands_at(s, i, letters),
        is_over(s, i + letters.len(), true, true),
    ensures
        substitute_flags(s, i, sub) == (
            SubstituteModel {
                global: sub.global || letters.contains('g'),
                print: sub.print || letters.contains('p'),
                case_insensitive: sub.case_insensitive || letters.contains('i')
                    || letters.contains('I'),
                ..sub
            },
            i + letters.len(),
        ),
    decreases letters.len(),
{
    if letters.len() > 0 {
        let c = letters[0];
        let rest = letters.drop_first();
        lemma_stands_char(s, i, letters, 0);
        assert(letters =~= seq![c] + rest);
        lemma_stands_parts(s, i, seq![c], rest);
        lemma_letter_flag(s, i, sub, c);
        let next = SubstituteModel {
            global: sub.global || c == 'g',
            print: sub.print || c == 'p',
            case_insensitive: sub.case_insensitive || c == 'i' || c == 'I',
            ..sub
        };
        assert forall|k: int| 0 <= k < rest.len() implies (#[trigger] rest[k] == 'g' || rest[k]
            == 'p' || rest[k] == 'i' || rest[k] == 'I') by {
            assert(rest[k] == letters[k + 1]);
        }
        law_flags_in_any_order(s, i + 1, rest, next);
        lemma_contains(letters, 'g');
        lemma_contains(letters, 'p');
        lemma_contains(letters, 'i');
        lemma_contains(letters, 'I');
    }
}

proof fn lemma_contains(letters: Seq<char>, c: char)
    requires
        letters.len() > 0,
    ensures
        letters.contains(c) == (letters[0] == c || letters.drop_first().contains(c)),
{
    let rest = letters.drop_first();
    if letters.contains(c) && letters[0] != c {
        let k = choose|k: int| 0 <= k < letters.len() && letters[k] == c;
        assert(rest[k - 1] == c);
    }
    if rest.contains(c) {
        let k = choose|k: int| 0 <= k < rest.len() && rest[k] == c;
        assert(letters[k + 1] == c);
    }
    if letters[0] == c {
        assert(letters.contains(c));
    }
}

/// Whether an `s` command can be written with this delimiter.
pub open spec fn is_substitution(sub: SubstituteModel, delim: char) -> bool {
    &&& is_delimited(sub.pattern, 0, delim)
    &&& is_replacement(sub.replacement, 0, delim)
    &&& sub.write_file matches Some(name) ==> is_file_name(name)
}

/// How the rest of an `s` command is written.
pub open spec fn substitution_written(
    sub: SubstituteModel,
    delim: char,
    gap: Seq<char>,
) -> Seq<char> {
    seq![delim] + ((sub.pattern + seq![delim]) + ((with_escaped_delimiters(
        sub.replacement,
        0,
        delim,
    ) + seq![delim]) + flags_written(sub, gap)))
}

proof fn lemma_substitution_read(
    s: Seq<char>,
    i: int,
    sub: SubstituteModel,
    delim: char,
    gap: Seq<char>,
)
    requires
        is_gap(gap),
        delim != '\\',
        is_substitution(sub, delim),
        stands_at(s, i, substitution_written(sub, delim, gap)),
        is_over(
            s,
            i + substitution_written(sub, delim, gap).len(),
            true,
            sub.write_file is None,
        ),
    ensures
        substitute(s, i) == Ok::<_, Seq<char>>(
            (CommandModel::Substitute(sub), i + substitution_written(sub, delim, gap).len()),
        ),
{
    let a = sub.pattern + seq![delim];
    let b = with_escaped_delimiters(sub.replacement, 0, delim) + seq![delim];
    let f = flags_written(sub, gap);
    lemma_stands_parts(s, i, seq![delim], a + (b + f));
    lemma_stands_parts(s, i + 1, a, b + f);
    lemma_stands_parts(s, i + 1 + a.len(), b, f);
    lemma_stands_char(s, i, seq![delim], 0);
    law_pattern_is_read(s, i + 1, sub.pattern, delim);
    law_replacement_is_read(s, i + 1 + a.len(), sub.replacement, delim);
    law_flags_are_read(s, i + 1 + a.len() + b.len(), sub, gap);
}

/// How the rest of a `y` command is written.
pub open spec fn transliteration_written(
    from: Seq<char>,
    to: Seq<char>,
    delim: char,
) -> Seq<char> {
    seq![delim] + ((from + seq![delim]) + (to + seq![delim]))
}

proof fn lemma_transliteration_read(
    s: Seq<char>,
    i: int,
    from: Seq<char>,
    to: Seq<char>,
    delim: char,
)
    requires
        from.len() == to.len(),
        is_delimited(from, 0, delim),
        is_delimited(to, 0, delim),
        stands_at(s, i, transliteration_written(from, to, delim)),
    ensures
        transliterate(s, i) == Ok::<_, Seq<char>>(
            (
                CommandModel::Transliterate { from, to },
                i + transliteration_written(from, to, delim).len(),
            ),
        ),
{
    let a = from + seq![delim];
    let b = to + seq![delim];
    lemma_stands_parts(s, i, seq![delim], a + b);
    lemma_stands_parts(s, i + 1, a, b);
    lemma_stands_char(s, i, seq![delim], 0);
    law_pattern_is_read(s, i + 1, from, delim);
    law_pattern_is_read(s, i + 1 + a.len(), to, delim);
}

// ---------------------------------------------------------------------------
// Commands
// ---------------------------------------------------------------------------

/// Whether an exit status can be written.
pub open spec fn is_status(code: Option<i32>) -> bool {
    code matches Some(n) ==> n >= 0
}

/// How an exit status is written, if there is one.
pub open spec fn status_written(code: Option<i32>, gap: Seq<char>) -> Seq<char> {
    match code {
        Some(n) => gap + decimal(n as nat),
        None => Seq::empty(),
    }
}

/// Whether the label of a jump can be written.
pub open spec fn is_target(label: Option<Seq<char>>) -> bool {
    label matches Some(name) ==> name.len() > 0 && is_label(name)
}

/// How the label of a jump is written, if there is one.
pub open spec fn target_written(label: Option<Seq<char>>, gap: Seq<char>) -> Seq<char> {
    match label {
        Some(name) => gap + name,
        None => Seq::empty(),
    }
}

/// Whether a command that holds no others can be written with this delimiter.
pub open spec fn is_simple(command: CommandModel, delim: char) -> bool {
    match command {
        CommandModel::Substitute(sub) => is_substitution(sub, delim),
        CommandModel::Transliterate { from, to } => from.len() == to.len() && is_delimited(
            from,
            0,
            delim,
        ) && is_delimited(to, 0, delim),
        CommandModel::Append(text) | CommandModel::Insert(text) | CommandModel::Change(text) =>
            is_text(text),
        CommandModel::Label(name) => is_label(name),
        CommandModel::Branch(label)
        | CommandModel::BranchIfSub(label)
        | CommandModel::BranchIfNotSub(label) => is_target(label),
        CommandModel::ReadFile(name)
        | CommandModel::ReadLine(name)
        | CommandModel::WriteFile(name)
        | CommandModel::WriteFirstLine(name) => is_file_name(name),
        CommandModel::Execute(command) => command matches Some(text) ==> is_shell_command(text),
        CommandModel::Quit(code) | CommandModel::QuitNoprint(code) => is_status(code),
        CommandModel::Block(_) => false,
        _ => true,
    }
}

/// The letter of a command.
pub open spec fn letter_of(command: CommandModel) -> char {
    match command {
        CommandModel::Substitute(_) => 's',
        CommandModel::Transliterate { .. } => 'y',
        CommandModel::Print => 'p',
        CommandModel::PrintFirstLine => 'P',
        CommandModel::PrintLineNumber => '=',
        CommandModel::List => 'l',
        CommandModel::Delete => 'd',
        CommandModel::DeleteFirstLine => 'D',
        CommandModel::Next => 'n',
        CommandModel::NextAppend => 'N',
        CommandModel::HoldReplace => 'h',
        CommandModel::HoldAppend => 'H',
        CommandModel::GetReplace => 'g',
        CommandModel::GetAppend => 'G',
        CommandModel::Exchange => 'x',
        CommandModel::Append(_) => 'a',
        CommandModel::Insert(_) => 'i',
        CommandModel::Change(_) => 'c',
        CommandModel::Label(_) => ':',
        CommandModel::Branch(_) => 'b',
        CommandModel::BranchIfSub(_) => 't',
        CommandModel::BranchIfNotSub(_) => 'T',
        CommandModel::ReadFile(_) => 'r',
        CommandModel::ReadLine(_) => 'R',
        CommandModel::WriteFile(_) => 'w',
        CommandModel::WriteFirstLine(_) => 'W',
        CommandModel::PrintFileName => 'F',
        CommandModel::Execute(_) => 'e',
        CommandModel::Quit(_) => 'q',
        CommandModel::QuitNoprint(_) => 'Q',
        CommandModel::ClearPattern => 'z',
        CommandModel::Noop => 'v',
        CommandModel::Block(_) => '{',
    }
}

/// How what follows the letter of a command is written, where the command holds no
/// others.
pub open spec fn argument_written(
    command: CommandModel,
    delim: char,
    gap: Seq<char>,
) -> Seq<char> {
    match command {
        CommandModel::Substitute(sub) => substitution_written(sub, delim, gap),
        CommandModel::Transliterate { from, to } => transliteration_written(from, to, delim),
        CommandModel::Append(text) | CommandModel::Insert(text) | CommandModel::Change(text) =>
            seq![' '] + with_continued_lines(text),
        CommandModel::Label(name)
        | CommandModel::ReadFile(name)
        | CommandModel::ReadLine(name)
        | CommandModel::WriteFile(name)
        | CommandModel::WriteFirstLine(name) => gap + name,
        CommandModel::Branch(label)
        | CommandModel::BranchIfSub(label)
        | CommandModel::BranchIfNotSub(label) => target_written(label, gap),
        CommandModel::Execute(Some(text)) => gap + text,
        CommandModel::Quit(code) | CommandModel::QuitNoprint(code) => status_written(code, gap),
        _ => Seq::empty(),
    }
}

/// Whether a command can hold a closing brace as part of a name or text.
pub open spec fn takes_a_name(command: CommandModel) -> bool {
    match command {
        CommandModel::ReadFile(_)
        | CommandModel::ReadLine(_)
        | CommandModel::WriteFile(_)
        | CommandModel::WriteFirstLine(_) => true,
        CommandModel::Substitute(sub) => sub.write_file is Some,
        _ => takes_the_line(command),
    }
}

/// Whether a command goes on to the end of the line, so that no semicolon ends it.
pub open spec fn takes_the_line(command: CommandModel) -> bool {
    match command {
        CommandModel::Append(_)
        | CommandModel::Insert(_)
        | CommandModel::Change(_)
        | CommandModel::Execute(_) => true,
        _ => false,
    }
}

proof fn lemma_status_read(s: Seq<char>, i: int, code: Option<i32>, gap: Seq<char>)
    requires
        is_gap(gap),
        is_status(code),
        stands_at(s, i, status_written(code, gap)),
        is_over(s, i + status_written(code, gap).len(), true, true),
    ensures
        optional_int(s, i) == (code, i + status_written(code, gap).len()),
{
    match code {
        Some(n) => {
            lemma_stands_parts(s, i, gap, decimal(n as nat));
            lemma_number(s, i + gap.len(), n as usize);
            lemma_gap(s, i, gap);
        },
        None => {
            lemma_no_spaces(s, i);
        },
    }
}

proof fn lemma_target_read(s: Seq<char>, i: int, label: Option<Seq<char>>, gap: Seq<char>)
    requires
        is_gap(gap),
        is_target(label),
        stands_at(s, i, target_written(label, gap)),
        is_over(s, i + target_written(label, gap).len(), true, true),
    ensures
        label_arg(s, i) == (label, i + target_written(label, gap).len()),
{
    let none = Seq::<char>::empty();
    match label {
        Some(name) => {
            law_label_is_read(s, i, gap, name);
        },
        None => {
            assert(none + none =~= none);
            law_label_is_read(s, i, none, none);
        },
    }
}

/// The letter and the argument of a command are read as they were written.
pub proof fn law_command_is_read(
    s: Seq<char>,
    i: int,
    command: CommandModel,
    delim: char,
    gap: Seq<char>,
)
    requires
        delim != '\\',
        is_gap(gap),
        is_simple(command, delim),
        stands_at(s, i, argument_written(command, delim, gap)),
        is_over(
            s,
            i + argument_written(command, delim, gap).len(),
            !takes_the_line(command),
            !takes_a_name(command),
        ),
    ensures
        plain_command(s, i, letter_of(command)) == Ok::<_, Seq<char>>(
            (command, i + argument_written(command, delim, gap).len()),
        ),
        is_plain_command(letter_of(command)),
{
    match command {
        CommandModel::Substitute(sub) => {
            lemma_substitution_read(s, i, sub, delim, gap);
        },
        CommandModel::Transliterate { from, to } => {
            lemma_transliteration_read(s, i, from, to, delim);
        },
        CommandModel::Append(text) | CommandModel::Insert(text) | CommandModel::Change(text) => {
            law_text_is_read(s, i, seq![' '], text);
        },
        CommandModel::Label(name) => {
            law_label_is_read(s, i, gap, name);
            if name.len() == 0 {
                assert(name =~= Seq::empty());
            }
        },
        CommandModel::ReadFile(name)
        | CommandModel::ReadLine(name)
        | CommandModel::WriteFile(name)
        | CommandModel::WriteFirstLine(name) => {
            law_file_name_is_read(s, i, gap, name);
        },
        CommandModel::Branch(label)
        | CommandModel::BranchIfSub(label)
        | CommandModel::BranchIfNotSub(label) => {
            lemma_target_read(s, i, label, gap);
        },
        CommandModel::Execute(Some(text)) => {
            law_shell_command_is_read(s, i, gap, text);
        },
        CommandModel::Execute(None) => {
            lemma_no_spaces(s, i);
            assert(s.subrange(i, i) =~= Seq::empty());
        },
        CommandModel::Quit(code) | CommandModel::QuitNoprint(code) => {
            lemma_status_read(s, i, code, gap);
        },
        CommandModel::Noop => {
            lemma_target_read(s, i, None, gap);
        },
        _ => {},
    }
}

// ---------------------------------------------------------------------------
// Scripts
// ---------------------------------------------------------------------------

/// Whether a script can be written with this delimiter.
pub open spec fn is_script(script: Seq<SedCommandModel>, delim: char) -> bool
    decreases script,
{
    script.len() > 0 ==> {
        &&& is_range(script[0].address, delim)
        &&& is_command(script[0].command, delim)
        &&& is_script(script.drop_first(), delim)
    }
}

/// Whether a command can be written with this delimiter.
pub open spec fn is_command(command: CommandModel, delim: char) -> bool
    decreases command,
{
    match command {
        CommandModel::Block(block) => is_script(block, delim),
        _ => is_simple(command, delim),
    }
}

/// How a script may be written.
pub struct Style {
    /// What stands around patterns and replacements
    pub delim: char,
    /// The blanks where there may be any
    pub gap: Seq<char>,
    /// What stands between commands: a newline or a semicolon
    pub separator: char,
    /// Whether nothing stands behind the last command where nothing has to
    pub tight: bool,
}

/// Whether a script can be written so.
pub open spec fn is_style(style: Style) -> bool {
    &&& style.delim != '\\'
    &&& is_gap(style.gap)
    &&& style.separator == '\n' || style.separator == ';'
}

/// What stands behind a command.
pub open spec fn end_written(
    command: CommandModel,
    is_last: bool,
    block: bool,
    style: Style,
) -> Seq<char> {
    if style.tight && is_last && !(block && takes_a_name(command)) {
        Seq::empty()
    } else {
        seq![
            if takes_the_line(command) {
                '\n'
            } else {
                style.separator
            },
        ]
    }
}

/// How a script, or the inside of a block, is written: each command with its
/// addresses, and a separator behind it.
pub open spec fn script_written(
    script: Seq<SedCommandModel>,
    block: bool,
    style: Style,
) -> Seq<char>
    decreases script,
{
    if script.len() == 0 {
        Seq::empty()
    } else {
        (range_written(script[0].address, style.delim, style.gap) + (command_written(
            script[0].command,
            style,
        ) + end_written(script[0].command, script.len() == 1, block, style))) + script_written(
            script.drop_first(),
            block,
            style,
        )
    }
}

/// How a command is written: its letter and its argument, or the commands that it
/// holds between braces.
pub open spec fn command_written(command: CommandModel, style: Style) -> Seq<char>
    decreases command,
{
    match command {
        CommandModel::Block(block) => seq!['{'] + (script_written(block, true, style) + seq!['}']),
        _ => seq![letter_of(command)] + argument_written(command, style.delim, style.gap),
    }
}

proof fn lemma_separator(s: Seq<char>, k: int, block: bool)
    requires
        0 <= k < s.len(),
        s[k] == '\n' || s[k] == ';',
    ensures
        commands(s, k, block) == commands(s, k + 1, block),
{
    lemma_skip_blanks(s, k);
    lemma_skip_blanks(s, k + 1);
}

proof fn lemma_command_read(
    s: Seq<char>,
    i: int,
    command: SedCommandModel,
    style: Style,
)
    requires
        is_style(style),
        is_range(command.address, style.delim),
        is_command(command.command, style.delim),
        ({
            let range = range_written(command.address, style.delim, style.gap);
            let body = command_written(command.command, style);
            &&& stands_at(s, i, range + body)
            &&& is_over(
                s,
                i + (range + body).len(),
                !takes_the_line(command.command),
                !takes_a_name(command.command),
            )
        }),
    ensures
        ({
            let end = i + (range_written(command.address, style.delim, style.gap)
                + command_written(command.command, style)).len();
            &&& i < end <= s.len()
            &&& skip_blanks(s, i) == i
            &&& s[i] != '}'
            &&& one_command(s, i) == Ok::<_, Seq<char>>((Some(command), end))
        }),
    decreases command.command, 1int,
{
    let delim = style.delim;
    let gap = style.gap;
    let range = range_written(command.address, delim, gap);
    let body = command_written(command.command, style);
    lemma_stands_parts(s, i, range, body);
    let j = i + range.len();
    match command.command {
        CommandModel::Block(block) => {
            let inner = script_written(block, true, style);
            lemma_stands_parts(s, j, seq!['{'], inner + seq!['}']);
            lemma_stands_parts(s, j + 1, inner, seq!['}']);
            lemma_stands_char(s, j, seq!['{'], 0);
            lemma_stands_char(s, j + 1 + inner.len(), seq!['}'], 0);
            law_addresses_are_read(s, i, command.address, delim, gap);
            lemma_script_read(s, j + 1, block, true, style);
        },
        _ => {
            let letter = letter_of(command.command);
            lemma_stands_parts(s, j, seq![letter], argument_written(command.command, delim, gap));
            lemma_stands_char(s, j, seq![letter], 0);
            law_addresses_are_read(s, i, command.address, delim, gap);
            law_command_is_read(s, j + 1, command.command, delim, gap);
        },
    }
    lemma_skip_blanks(s, i);
    match command.address {
        RangeModel::Every => {},
        RangeModel::Single { addr, negated } => {
            lemma_stands_parts(s, i, address_written(addr, delim), behind_written(negated, gap));
            lemma_address_start(s, i, addr, delim);
        },
        RangeModel::Range { start, end, negated } => {
            lemma_stands_parts(
                s,
                i,
                address_written(start, delim),
                gap + (seq![','] + (gap + (address_written(end, delim) + behind_written(
                    negated,
                    gap,
                )))),
            );
            lemma_address_start(s, i, start, delim);
        },
    }
}

proof fn lemma_script_read(
    s: Seq<char>,
    i: int,
    script: Seq<SedCommandModel>,
    block: bool,
    style: Style,
)
    requires
        is_style(style),
        is_script(script, style.delim),
        stands_at(s, i, script_written(script, block, style)),
        ({
            let end = i + script_written(script, block, style).len();
            if block {
                end < s.len() && s[end] == '}'
            } else {
                end == s.len()
            }
        }),
    ensures
        commands(s, i, block) == Ok::<_, Seq<char>>(
            (
                script,
                i + script_written(script, block, style).len() + (if block {
                    1int
                } else {
                    0
                }),
            ),
        ),
    decreases script, 0int,
{
    if script.len() == 0 {
        assert(script =~= Seq::empty());
        lemma_skip_blanks(s, i);
    } else {
        let command = script[0];
        let rest = script.drop_first();
        let range = range_written(command.address, style.delim, style.gap);
        let body = command_written(command.command, style);
        let end_mark = end_written(command.command, script.len() == 1, block, style);
        let more = script_written(rest, block, style);
        lemma_stands_parts(s, i, range + (body + end_mark), more);
        assert(range + (body + end_mark) =~= (range + body) + end_mark);
        lemma_stands_parts(s, i, range + body, end_mark);
        let end = i + (range + body).len();
        if end_mark.len() > 0 {
            lemma_stands_char(s, end, end_mark, 0);
        } else {
            assert(rest =~= Seq::empty());
            assert(more =~= Seq::empty());
        }
        assert(decreases_to!(script => command));
        assert(decreases_to!(command => command.command));
        lemma_command_read(s, i, command, style);
        lemma_script_read(s, end + end_mark.len(), rest, block, style);
        if end_mark.len() > 0 {
            lemma_separator(s, end, block);
        }
        assert(seq![command] + rest =~= script);
    }
}

/// A script that is written out is read as the script: every command with its
/// letter, its addresses and their negation, its arguments and flags, and the
/// commands of its blocks. That holds for every delimiter but the backslash, with
/// newlines or semicolons between the commands, with or without one behind the
/// last, and with any blanks, or none, between the addresses, the letter and the
/// argument.
pub proof fn law_script_is_read_back(script: Seq<SedCommandModel>, style: Style)
    requires
        is_style(style),
        is_script(script, style.delim),
    ensures
        parse_script(script_written(script, false, style)) == Ok::<_, Seq<char>>(script),
{
    let s = script_written(script, false, style);
    assert(s.subrange(0, s.len() as int) =~= s);
    lemma_script_read(s, 0, script, false, style);
}

proof fn lemma_commands_first(
    s: Seq<char>,
    i: int,
    script: Seq<SedCommandModel>,
    style: Style,
)
    requires
        is_style(style),
        !style.tight,
        is_script(script, style.delim),
        stands_at(s, i, script_written(script, false, style)),
    ensures
        commands(s, i, false) == preceded(
            script,
            commands(s, i + script_written(script, false, style).len(), false),
        ),
    decreases script.len(),
{
    if script.len() == 0 {
        assert(script =~= Seq::empty());
        lemma_preceded_by_none(commands(s, i, false));
    } else {
        let command = script[0];
        let rest = script.drop_first();
        let range = range_written(command.address, style.delim, style.gap);
        let body = command_written(command.command, style);
        let end_mark = end_written(command.command, script.len() == 1, false, style);
        let more = script_written(rest, false, style);
        lemma_stands_parts(s, i, range + (body + end_mark), more);
        assert(range + (body + end_mark) =~= (range + body) + end_mark);
        lemma_stands_parts(s, i, range + body, end_mark);
        let end = i + (range + body).len();
        lemma_stands_char(s, end, end_mark, 0);
        lemma_command_read(s, i, command, style);
        lemma_commands_first(s, end + 1, rest, style);
        lemma_separator(s, end, false);
        let last = commands(s, end + 1 + more.len(), false);
        assert(script_written(script, false, style).len() == (range + body).len() + 1
            + more.len());
        if let Ok((list, e)) = last {
            assert(seq![command] + (rest + list) =~= script + list);
        }
    }
}

/// What stands behind commands that are written out is read after them, and a
/// mistake in it is the mistake of the whole.
pub proof fn law_written_commands_come_first(
    script: Seq<SedCommandModel>,
    style: Style,
    rest: Seq<char>,
)
    requires
        is_style(style),
        !style.tight,
        is_script(script, style.delim),
    ensures
        parse_script(script_written(script, false, style) + rest) == (match parse_script(rest) {
            Ok(more) => Ok::<_, Seq<char>>(script + more),
            Err(message) => Err(message),
        }),
{
    let front = script_written(script, false, style);
    let s = front + rest;
    assert(s.subrange(0, front.len() as int) =~= front);
    lemma_commands_first(s, 0, script, style);
    lemma_shift_commands(front, rest, 0, false);
}

} // verus!
