//! What the special characters of a pattern become in each of its places.

use vstd::prelude::*;

use crate::bre::{
    bracket, bracket_members, bracket_start, digits_end, digits_number, is_plain, lemma_token,
    token, translated,
};
use crate::text::{digit_char, digit_value, hexadecimal};
use crate::unescape::is_hex_digit;
use crate::writing::{lemma_stands_char, lemma_stands_parts, stands_at};

verus! {

/// Whether a text is made of characters that mean the same in every place of both
/// dialects.
pub open spec fn is_plain_text(text: Seq<char>) -> bool {
    forall|k: int| 0 <= k < text.len() ==> is_plain(#[trigger] text[k])
}

/// What a whole pattern becomes.
pub open spec fn rewritten(pattern: Seq<char>, extended: bool) -> Seq<char> {
    translated(pattern, 0, true, false, extended)
}

proof fn lemma_plain_run(
    s: Seq<char>,
    i: int,
    text: Seq<char>,
    at_start: bool,
    after_atom: bool,
    extended: bool,
)
    requires
        is_plain_text(text),
        stands_at(s, i, text),
    ensures
        translated(s, i, at_start, after_atom, extended) == text + translated(
            s,
            i + text.len(),
            at_start && text.len() == 0,
            after_atom || text.len() > 0,
            extended,
        ),
    decreases text.len(),
{
    if text.len() == 0 {
        assert(text + translated(s, i, at_start, after_atom, extended) =~= translated(
            s,
            i,
            at_start,
            after_atom,
            extended,
        ));
    } else {
        let c = text[0];
        let rest = text.drop_first();
        assert(is_plain(c));
        lemma_stands_char(s, i, text, 0);
        assert(text =~= seq![c] + rest);
        lemma_stands_parts(s, i, seq![c], rest);
        assert forall|k: int| 0 <= k < rest.len() implies is_plain(#[trigger] rest[k]) by {
            assert(rest[k] == text[k + 1]);
        }
        lemma_plain_run(s, i + 1, rest, false, true, extended);
        assert(token(s, i, at_start, after_atom, extended).text == seq![c] && token(
            s,
            i,
            at_start,
            after_atom,
            extended,
        ).end == i + 1 && !token(s, i, at_start, after_atom, extended).at_start && token(
            s,
            i,
            at_start,
            after_atom,
            extended,
        ).after_atom) by {
            reveal(token);
        }
        assert(translated(s, i, at_start, after_atom, extended) =~= text + translated(
            s,
            i + text.len(),
            false,
            true,
            extended,
        ));
    }
}

/// One token that becomes `text`, of so many characters.
proof fn lemma_token_first(
    s: Seq<char>,
    i: int,
    at_start: bool,
    after_atom: bool,
    extended: bool,
)
    requires
        0 <= i < s.len(),
    ensures
        ({
            let t = token(s, i, at_start, after_atom, extended);
            translated(s, i, at_start, after_atom, extended) == t.text + translated(
                s,
                t.end,
                t.at_start,
                t.after_atom,
                extended,
            )
        }),
{
    lemma_token(s, i, at_start, after_atom, extended);
}

/// In a basic pattern `^` at the start and `$` at the end are anchors.
pub proof fn law_anchors(a: Seq<char>)
    requires
        is_plain_text(a),
    ensures
        rewritten(seq!['^'] + a + seq!['$'], false) == seq!['^'] + a + seq!['$'],
{
    let s = seq!['^'] + a + seq!['$'];
    let end = 1 + a.len() as int;
    assert(s[0] == '^' && s[end] == '$');
    assert(s.subrange(1, end) =~= a);
    assert(token(s, 0, true, false, false).text == seq!['^'] && token(
        s,
        0,
        true,
        false,
        false,
    ).end == 1) by {
        reveal(token);
    }
    let t = token(s, 0, true, false, false);
    lemma_token_first(s, 0, true, false, false);
    lemma_plain_run(s, 1, a, t.at_start, t.after_atom, false);
    let x = t.at_start && a.len() == 0;
    let y = t.after_atom || a.len() > 0;
    assert(token(s, end, x, y, false).text == seq!['$'] && token(s, end, x, y, false).end
        == s.len()) by {
        reveal(token);
    }
    lemma_token_first(s, end, x, y, false);
    let z = token(s, end, x, y, false);
    assert(translated(s, s.len() as int, z.at_start, z.after_atom, false) =~= Seq::empty());
    assert(rewritten(s, false) =~= s);
}

/// In a basic pattern `^` and `$` in the middle stand for themselves, and get a
/// backslash.
pub proof fn law_characters_in_the_middle(a: Seq<char>, b: Seq<char>, c: char)
    requires
        is_plain_text(a),
        is_plain_text(b),
        a.len() > 0,
        b.len() > 0,
        c == '^' || c == '$',
    ensures
        rewritten(a + seq![c] + b, false) == a + seq!['\\', c] + b,
{
    let s = a + seq![c] + b;
    let n = a.len() as int;
    assert(s.subrange(0, n) =~= a);
    assert(s[n] == c && s[n + 1] == b[0]);
    assert(s.subrange(n + 1, n + 1 + b.len()) =~= b);
    assert(is_plain(b[0]));
    lemma_plain_run(s, 0, a, true, false, false);
    let t = token(s, n, false, true, false);
    assert(t.text == seq!['\\', c] && t.end == n + 1) by {
        reveal(token);
    }
    lemma_token_first(s, n, false, true, false);
    lemma_plain_run(s, n + 1, b, t.at_start, t.after_atom, false);
    assert(translated(
        s,
        s.len() as int,
        t.at_start && b.len() == 0,
        t.after_atom || b.len() > 0,
        false,
    ) =~= Seq::empty());
    assert(rewritten(s, false) =~= a + seq!['\\', c] + b);
}

/// In a basic pattern `*` behind something repeats it, and at the start, or behind
/// the anchor there, it stands for itself.
pub proof fn law_stars(a: Seq<char>, b: Seq<char>)
    requires
        is_plain_text(a),
        is_plain_text(b),
    ensures
        a.len() > 0 ==> rewritten(a + seq!['*'] + b, false) == a + seq!['*'] + b,
        rewritten(seq!['*'] + b, false) == seq!['\\', '*'] + b,
        rewritten(seq!['^', '*'] + b, false) == seq!['^', '\\', '*'] + b,
{
    if a.len() > 0 {
        let s = a + seq!['*'] + b;
        let n = a.len() as int;
        assert(s.subrange(0, n) =~= a);
        assert(s[n] == '*');
        assert(s.subrange(n + 1, n + 1 + b.len()) =~= b);
        lemma_plain_run(s, 0, a, true, false, false);
        let t = token(s, n, false, true, false);
        assert(t.text == seq!['*'] && t.end == n + 1) by {
            reveal(token);
        }
        lemma_token_first(s, n, false, true, false);
        lemma_plain_run(s, n + 1, b, t.at_start, t.after_atom, false);
        lemma_nothing_left(s, t.at_start && b.len() == 0, t.after_atom || b.len() > 0);
        assert(rewritten(s, false) =~= s);
    }
    let s = seq!['*'] + b;
    assert(s[0] == '*');
    assert(s.subrange(1, 1 + b.len() as int) =~= b);
    let t = token(s, 0, true, false, false);
    assert(t.text == seq!['\\', '*'] && t.end == 1) by {
        reveal(token);
    }
    lemma_token_first(s, 0, true, false, false);
    lemma_plain_run(s, 1, b, t.at_start, t.after_atom, false);
    lemma_nothing_left(s, t.at_start && b.len() == 0, t.after_atom || b.len() > 0);
    assert(rewritten(s, false) =~= seq!['\\', '*'] + b);
    let s = seq!['^', '*'] + b;
    assert(s[0] == '^' && s[1] == '*');
    assert(s.subrange(2, 2 + b.len() as int) =~= b);
    let t = token(s, 0, true, false, false);
    assert(t.text == seq!['^'] && t.end == 1) by {
        reveal(token);
    }
    assert(!t.after_atom) by {
        reveal(token);
    }
    lemma_token_first(s, 0, true, false, false);
    let u = token(s, 1, t.at_start, t.after_atom, false);
    assert(u.text == seq!['\\', '*'] && u.end == 2) by {
        reveal(token);
    }
    lemma_token_first(s, 1, t.at_start, t.after_atom, false);
    lemma_plain_run(s, 2, b, u.at_start, u.after_atom, false);
    lemma_nothing_left(s, u.at_start && b.len() == 0, u.after_atom || b.len() > 0);
    assert(rewritten(s, false) =~= seq!['^', '\\', '*'] + b);
}

proof fn lemma_nothing_left(s: Seq<char>, at_start: bool, after_atom: bool)
    ensures
        translated(s, s.len() as int, at_start, after_atom, false) == Seq::<char>::empty(),
{
}

/// In a basic pattern a subexpression starts behind `\(` and behind `\|`: `^` is an
/// anchor there, and `*` stands for itself. Before `\)` and `\|` one ends: `$` is an
/// anchor there.
pub proof fn law_subexpressions(a: Seq<char>, d: char)
    requires
        is_plain_text(a),
        d == '(' || d == '|',
    ensures
        rewritten(seq!['\\', d, '^'] + a, false) == seq![d, '^'] + a,
        rewritten(seq!['\\', d, '*'] + a, false) == seq![d, '\\', '*'] + a,
        rewritten(a + seq!['$', '\\', ')'], false) == a + seq!['$', ')'],
        rewritten(a + seq!['$', '\\', '|'], false) == a + seq!['$', '|'],
{
    lemma_opened(a, d, '^');
    lemma_opened(a, d, '*');
    lemma_closed(a, ')');
    lemma_closed(a, '|');
}

proof fn lemma_opened(a: Seq<char>, d: char, c: char)
    requires
        is_plain_text(a),
        d == '(' || d == '|',
        c == '^' || c == '*',
    ensures
        rewritten(seq!['\\', d, c] + a, false) == (if c == '^' {
            seq![d, '^']
        } else {
            seq![d, '\\', '*']
        }) + a,
{
    let s = seq!['\\', d, c] + a;
    assert(s[0] == '\\' && s[1] == d && s[2] == c);
    assert(s.subrange(3, 3 + a.len() as int) =~= a);
    let t = token(s, 0, true, false, false);
    assert(t.text == seq![d] && t.end == 2 && t.at_start && !t.after_atom) by {
        reveal(token);
    }
    lemma_token_first(s, 0, true, false, false);
    let u = token(s, 2, true, false, false);
    assert(u.end == 3 && u.text == (if c == '^' {
        seq!['^']
    } else {
        seq!['\\', '*']
    })) by {
        reveal(token);
    }
    lemma_token_first(s, 2, true, false, false);
    lemma_plain_run(s, 3, a, u.at_start, u.after_atom, false);
    lemma_nothing_left(s, u.at_start && a.len() == 0, u.after_atom || a.len() > 0);
    assert(rewritten(s, false) =~= (if c == '^' {
        seq![d, '^']
    } else {
        seq![d, '\\', '*']
    }) + a);
}

proof fn lemma_closed(a: Seq<char>, d: char)
    requires
        is_plain_text(a),
        d == ')' || d == '|',
    ensures
        rewritten(a + seq!['$', '\\', d], false) == a + seq!['$', d],
{
    let s = a + seq!['$', '\\', d];
    let n = a.len() as int;
    assert(s.subrange(0, n) =~= a);
    assert(s[n] == '$' && s[n + 1] == '\\' && s[n + 2] == d);
    lemma_plain_run(s, 0, a, true, false, false);
    let x = a.len() == 0;
    let y = a.len() > 0;
    let t = token(s, n, x, y, false);
    assert(t.text == seq!['$'] && t.end == n + 1) by {
        reveal(token);
    }
    lemma_token_first(s, n, x, y, false);
    let u = token(s, n + 1, t.at_start, t.after_atom, false);
    assert(u.text == seq![d] && u.end == n + 3) by {
        reveal(token);
    }
    lemma_token_first(s, n + 1, t.at_start, t.after_atom, false);
    lemma_nothing_left(s, u.at_start, u.after_atom);
    assert(rewritten(s, false) =~= a + seq!['$', d]);
}

// ---------------------------------------------------------------------------
// Bracket expressions
// ---------------------------------------------------------------------------

/// Whether a text can stand between brackets as it is.
pub open spec fn are_members(text: Seq<char>) -> bool {
    &&& text.len() > 0
    &&& text[0] != '^'
    &&& forall|k: int|
        0 <= k < text.len() ==> #[trigger] text[k] != '[' && text[k] != ']' && text[k] != '\\'
}

proof fn lemma_members(s: Seq<char>, i: int, text: Seq<char>)
    requires
        forall|k: int|
            0 <= k < text.len() ==> #[trigger] text[k] != '[' && text[k] != ']' && text[k] != '\\',
        stands_at(s, i, text),
    ensures
        bracket_members(s, i) == (
            text + bracket_members(s, i + text.len()).0,
            bracket_members(s, i + text.len()).1,
        ),
    decreases text.len(),
{
    if text.len() == 0 {
        assert(text + bracket_members(s, i).0 =~= bracket_members(s, i).0);
    } else {
        let rest = text.drop_first();
        lemma_stands_char(s, i, text, 0);
        assert(text =~= seq![text[0]] + rest);
        lemma_stands_parts(s, i, seq![text[0]], rest);
        assert forall|k: int| 0 <= k < rest.len() implies #[trigger] rest[k] != '[' && rest[k]
            != ']' && rest[k] != '\\' by {
            assert(rest[k] == text[k + 1]);
        }
        lemma_members(s, i + 1, rest);
        assert(seq![text[0]] + (rest + bracket_members(s, i + text.len()).0) =~= text
            + bracket_members(s, i + text.len()).0);
    }
}

/// A bracket expression stays as it is in both dialects, whatever special characters
/// stand in it; so does one that is negated.
pub proof fn law_brackets_stay(members: Seq<char>, extended: bool)
    requires
        are_members(members),
    ensures
        rewritten(seq!['['] + members + seq![']'], extended) == seq!['['] + members + seq![']'],
        rewritten(seq!['[', '^'] + members + seq![']'], extended) == seq!['[', '^'] + members
            + seq![']'],
{
    lemma_bracket_stays(seq!['['], members, extended);
    lemma_bracket_stays(seq!['[', '^'], members, extended);
}

proof fn lemma_bracket_stays(open: Seq<char>, members: Seq<char>, extended: bool)
    requires
        are_members(members),
        open == seq!['['] || open == seq!['[', '^'],
    ensures
        rewritten(open + members + seq![']'], extended) == open + members + seq![']'],
{
    let s = open + members + seq![']'];
    let n = open.len() as int;
    let end = n + members.len() as int;
    assert(s[0] == '[');
    assert(s[n] == members[0]);
    assert(s[end] == ']');
    if n > 1 {
        assert(s[1] == '^');
    }
    assert(members[0] != ']');
    assert(s.subrange(n, end) =~= members);
    assert(bracket_start(s, 0) == n);
    lemma_members(s, n, members);
    assert(bracket_members(s, end) == (seq![']'], end + 1));
    assert(s.subrange(0, n) =~= open);
    assert(bracket(s, 0).0 =~= s);
    let t = token(s, 0, true, false, extended);
    assert(t.text == bracket(s, 0).0 && t.end == s.len()) by {
        reveal(token);
    }
    lemma_token_first(s, 0, true, false, extended);
    assert(translated(s, s.len() as int, t.at_start, t.after_atom, extended) =~= Seq::empty());
    assert(rewritten(s, extended) =~= s);
}

/// What stands in brackets becomes the same in both dialects and in every place.
pub proof fn law_brackets_are_the_same(
    s: Seq<char>,
    i: int,
    at_start: bool,
    after_atom: bool,
    elsewhere: bool,
)
    requires
        0 <= i < s.len(),
        s[i] == '[',
    ensures
        token(s, i, at_start, after_atom, false) == token(s, i, elsewhere, elsewhere, true),
        token(s, i, at_start, after_atom, false).after_atom,
        !token(s, i, at_start, after_atom, false).at_start,
{
    reveal(token);
}

/// A backslash at the end of a pattern is kept, in both dialects.
pub proof fn law_backslash_at_the_end(a: Seq<char>, extended: bool)
    requires
        is_plain_text(a),
    ensures
        rewritten(a + seq!['\\'], extended) == a + seq!['\\'],
{
    let s = a + seq!['\\'];
    let n = a.len() as int;
    assert(s.subrange(0, n) =~= a);
    assert(s[n] == '\\');
    lemma_plain_run(s, 0, a, true, false, extended);
    let x = a.len() == 0;
    let y = a.len() > 0;
    let t = token(s, n, x, y, extended);
    assert(t.text == seq!['\\'] && t.end == n + 1) by {
        reveal(token);
    }
    lemma_token_first(s, n, x, y, extended);
    assert(translated(s, s.len() as int, t.at_start, t.after_atom, extended) =~= Seq::empty());
    assert(rewritten(s, extended) =~= s);
}

/// In a basic pattern `*` behind a group, or behind a bracket expression, repeats it.
pub proof fn law_stars_behind_groups(a: Seq<char>, members: Seq<char>)
    requires
        is_plain_text(a),
        are_members(members),
    ensures
        rewritten(seq!['\\', '('] + a + seq!['\\', ')', '*'], false) == seq!['('] + a + seq![
            ')',
            '*',
        ],
        rewritten(seq!['['] + members + seq![']', '*'], false) == seq!['['] + members + seq![
            ']',
            '*',
        ],
{
    lemma_star_behind_group(a);
    lemma_star_behind_bracket(members);
}

proof fn lemma_star_behind_group(a: Seq<char>)
    requires
        is_plain_text(a),
    ensures
        rewritten(seq!['\\', '('] + a + seq!['\\', ')', '*'], false) == seq!['('] + a + seq![
            ')',
            '*',
        ],
{
    let s = seq!['\\', '('] + a + seq!['\\', ')', '*'];
    let n = 2 + a.len() as int;
    assert(s[0] == '\\' && s[1] == '(' && s[n] == '\\' && s[n + 1] == ')' && s[n + 2] == '*');
    assert(s.subrange(2, n) =~= a);
    let t = token(s, 0, true, false, false);
    assert(t.text == seq!['('] && t.end == 2) by {
        reveal(token);
    }
    lemma_token_first(s, 0, true, false, false);
    lemma_plain_run(s, 2, a, t.at_start, t.after_atom, false);
    let x = t.at_start && a.len() == 0;
    let y = t.after_atom || a.len() > 0;
    let u = token(s, n, x, y, false);
    assert(u.text == seq![')'] && u.end == n + 2 && u.after_atom) by {
        reveal(token);
    }
    lemma_token_first(s, n, x, y, false);
    let v = token(s, n + 2, u.at_start, u.after_atom, false);
    assert(v.text == seq!['*'] && v.end == n + 3) by {
        reveal(token);
    }
    lemma_token_first(s, n + 2, u.at_start, u.after_atom, false);
    lemma_nothing_left(s, v.at_start, v.after_atom);
    assert(rewritten(s, false) =~= seq!['('] + a + seq![')', '*']);
}

proof fn lemma_star_behind_bracket(members: Seq<char>)
    requires
        are_members(members),
    ensures
        rewritten(seq!['['] + members + seq![']', '*'], false) == seq!['['] + members + seq![
            ']',
            '*',
        ],
{
    let s = seq!['['] + members + seq![']', '*'];
    let end = 1 + members.len() as int;
    assert(s[0] == '[' && s[1] == members[0] && s[end] == ']' && s[end + 1] == '*');
    assert(members[0] != ']');
    assert(s.subrange(1, end) =~= members);
    assert(bracket_start(s, 0) == 1);
    lemma_members(s, 1, members);
    assert(bracket_members(s, end) == (seq![']'], end + 1));
    assert(s.subrange(0, 1) =~= seq!['[']);
    assert(bracket(s, 0).0 =~= seq!['['] + members + seq![']']);
    let t = token(s, 0, true, false, false);
    assert(t.text == bracket(s, 0).0 && t.end == end + 1 && t.after_atom) by {
        reveal(token);
    }
    lemma_token_first(s, 0, true, false, false);
    let u = token(s, end + 1, t.at_start, t.after_atom, false);
    assert(u.text == seq!['*'] && u.end == end + 2) by {
        reveal(token);
    }
    lemma_token_first(s, end + 1, t.at_start, t.after_atom, false);
    lemma_nothing_left(s, u.at_start, u.after_atom);
    assert(rewritten(s, false) =~= s);
}

/// A backslash before the closing bracket stands for itself, and is doubled; the
/// bracket closes the expression all the same.
pub proof fn law_backslash_in_brackets(members: Seq<char>, extended: bool)
    requires
        are_members(members),
    ensures
        rewritten(seq!['['] + members + seq!['\\', ']'], extended) == seq!['['] + members + seq![
            '\\',
            '\\',
            ']',
        ],
{
    let s = seq!['['] + members + seq!['\\', ']'];
    let end = 1 + members.len() as int;
    assert(s[0] == '[');
    assert(s[1] == members[0]);
    assert(s[end] == '\\' && s[end + 1] == ']');
    assert(members[0] != ']');
    assert(s.subrange(1, end) =~= members);
    assert(bracket_start(s, 0) == 1);
    lemma_members(s, 1, members);
    assert(bracket_members(s, end + 1) == (seq![']'], end + 2));
    assert(bracket_members(s, end).0 =~= seq!['\\', '\\', ']']);
    assert(s.subrange(0, 1) =~= seq!['[']);
    assert(bracket(s, 0).0 =~= seq!['['] + members + seq!['\\', '\\', ']']);
    let t = token(s, 0, true, false, extended);
    assert(t.text == bracket(s, 0).0 && t.end == s.len()) by {
        reveal(token);
    }
    lemma_token_first(s, 0, true, false, extended);
    assert(translated(s, s.len() as int, t.at_start, t.after_atom, extended) =~= Seq::empty());
    assert(rewritten(s, extended) =~= seq!['['] + members + seq!['\\', '\\', ']']);
}

// ---------------------------------------------------------------------------
// Numeric escapes
// ---------------------------------------------------------------------------

/// A digit has its value in every radix that is larger, and none in others.
pub proof fn law_digit_values(c: char, value: int, radix: nat)
    requires
        is_hex_digit(c, value),
        radix <= 16,
    ensures
        value < radix ==> digit_value(c, radix) == Some(value as nat),
        value >= radix ==> digit_value(c, radix) is None,
{
}

/// A hexadecimal numeral has the value of the number.
pub proof fn law_hexadecimal(n: nat)
    ensures
        hexadecimal(n).len() > 0,
        digits_number(hexadecimal(n), 0, hexadecimal(n).len() as int, 16) == n,
    decreases n,
{
    let all = hexadecimal(n);
    if n < 16 {
        reveal_with_fuel(digits_number, 2);
        assert(digits_number(all, 0, 1, 16) == n);
    } else {
        let front = hexadecimal(n / 16);
        law_hexadecimal(n / 16);
        lemma_digits_front(all, front, front.len() as int);
        assert(all[front.len() as int] == digit_char(n % 16));
        assert(digit_value(digit_char(n % 16), 16) == Some(n % 16));
    }
}

proof fn lemma_digits_front(s: Seq<char>, t: Seq<char>, len: int)
    requires
        0 <= len <= t.len() <= s.len(),
        forall|k: int| 0 <= k < t.len() ==> s[k] == #[trigger] t[k],
    ensures
        digits_number(s, 0, len, 16) == digits_number(t, 0, len, 16),
    decreases len,
{
    if len > 0 {
        lemma_digits_front(s, t, len - 1);
        assert(s[len - 1] == t[len - 1]);
    }
}

/// `\x` takes up to two hexadecimal digits, `\o` up to three octal and `\d` up to
/// three decimal ones. In both dialects the escape becomes `\x{..}` with the number
/// in hexadecimal. Without a digit `\d` is kept and the others lose the backslash.
pub proof fn law_numeric_escapes(
    s: Seq<char>,
    i: int,
    at_start: bool,
    after_atom: bool,
    extended: bool,
)
    requires
        0 <= i,
        i + 1 < s.len(),
        s[i] == '\\',
        s[i + 1] == 'x' || s[i + 1] == 'o' || s[i + 1] == 'd',
    ensures
        ({
            let t = token(s, i, at_start, after_atom, extended);
            let kind = s[i + 1];
            let radix: nat = if kind == 'x' {
                16
            } else if kind == 'o' {
                8
            } else {
                10
            };
            let most = if kind == 'x' {
                2int
            } else {
                3int
            };
            &&& i + 2 <= t.end <= i + 2 + most
            &&& t.end <= s.len()
            &&& forall|k: int|
                i + 2 <= k < t.end ==> digit_value(#[trigger] s[k], radix) is Some
            &&& t.end < i + 2 + most && t.end < s.len() ==> digit_value(s[t.end], radix) is None
            &&& t.end > i + 2 ==> t.text == seq!['\\', 'x', '{'] + hexadecimal(
                digits_number(s, i + 2, t.end, radix),
            ) + seq!['}']
            &&& t.end == i + 2 ==> t.text == (if kind == 'd' {
                seq!['\\', 'd']
            } else {
                seq![kind]
            })
        }),
{
    reveal(token);
    let kind = s[i + 1];
    let radix: nat = if kind == 'x' {
        16
    } else if kind == 'o' {
        8
    } else {
        10
    };
    let most: nat = if kind == 'x' {
        2
    } else {
        3
    };
    lemma_digits_run(s, i + 2, radix, most);
}

proof fn lemma_digits_run(s: Seq<char>, i: int, radix: nat, most: nat)
    requires
        0 <= i <= s.len(),
    ensures
        i <= digits_end(s, i, radix, most) <= s.len(),
        digits_end(s, i, radix, most) <= i + most,
        forall|k: int|
            i <= k < digits_end(s, i, radix, most) ==> digit_value(#[trigger] s[k], radix) is Some,
        digits_end(s, i, radix, most) < i + most && digits_end(s, i, radix, most) < s.len()
            ==> digit_value(s[digits_end(s, i, radix, most)], radix) is None,
    decreases most,
{
    if most > 0 && i < s.len() && digit_value(s[i], radix) is Some {
        lemma_digits_run(s, i + 1, radix, (most - 1) as nat);
    }
}

} // verus!
