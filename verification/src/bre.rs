//! Regex dialects of sed, rewritten into the syntax of the `regex` crate.
//!
//! GNU sed defaults to POSIX *basic* regular expressions (BRE), where
//! `\(...\)` groups, `\{m,n\}` is an interval, and bare `( ) { } + ? |` are
//! literals; `-E` switches to *extended* REs (ERE), which is what the `regex`
//! crate speaks natively. [`translate_pattern`] swaps the escaped and unescaped
//! meaning of the metacharacters in BRE mode.
//!
//! Both modes also normalize GNU sed's character escapes, `\xHH` (hex),
//! `\oNNN` (octal) and `\dNNN` (decimal), into `\x{..}`.

use vstd::prelude::*;

use crate::text::{char_vec, digit_value, hexadecimal, read_digit, write_hexadecimal};

verus! {

// ---------------------------------------------------------------------------
// Numeric escapes
// ---------------------------------------------------------------------------

/// Where a run of at most `max` digits at `i` ends.
pub open spec fn digits_end(s: Seq<char>, i: int, radix: nat, max: nat) -> int
    decreases max,
{
    if max > 0 && 0 <= i < s.len() && digit_value(s[i], radix) is Some {
        digits_end(s, i + 1, radix, (max - 1) as nat)
    } else {
        i
    }
}

/// The number that the digits `s[i..end]` write.
pub open spec fn digits_number(s: Seq<char>, i: int, end: int, radix: nat) -> nat
    decreases end - i,
{
    if end <= i {
        0
    } else {
        digits_number(s, i, end - 1, radix) * radix + digit_value(s[end - 1], radix)->0
    }
}

proof fn lemma_digits_end(s: Seq<char>, i: int, radix: nat, max: nat)
    requires
        0 <= i <= s.len(),
    ensures
        i <= digits_end(s, i, radix, max) <= s.len(),
        digits_end(s, i, radix, max) <= i + max,
        forall|k: int|
            i <= k < digits_end(s, i, radix, max) ==> digit_value(#[trigger] s[k], radix) is Some,
    decreases max,
{
    if max > 0 && i < s.len() && digit_value(s[i], radix) is Some {
        lemma_digits_end(s, i + 1, radix, (max - 1) as nat);
    }
}

proof fn lemma_digits_number_grows(s: Seq<char>, i: int, k: int, end: int, radix: nat)
    requires
        i <= k <= end,
        radix > 0,
    ensures
        digits_number(s, i, k, radix) <= digits_number(s, i, end, radix),
    decreases end - k,
{
    if k < end {
        lemma_digits_number_grows(s, i, k, end - 1, radix);
        let n = digits_number(s, i, end - 1, radix);
        assert(n <= n * radix) by (nonlinear_arith)
            requires
                radix > 0,
        ;
    }
}

proof fn lemma_digits_number_bound(s: Seq<char>, i: int, end: int, radix: nat, max: nat)
    requires
        0 <= i <= end <= s.len(),
        end <= i + max,
        max <= 3,
        radix <= 16,
        forall|k: int| i <= k < end ==> digit_value(#[trigger] s[k], radix) is Some,
    ensures
        digits_number(s, i, end, radix) < 0x1000,
{
    reveal_with_fuel(digits_number, 4);
    assert(0 * radix == 0) by (nonlinear_arith);
    assert(i < end ==> digit_value(s[i], radix) is Some);
    let a = if i < end { digits_number(s, i, i + 1, radix) } else { 0 };
    assert(a < 16);
    if i + 1 < end {
        assert(digit_value(s[i + 1], radix) is Some);
        let b = digits_number(s, i, i + 2, radix);
        assert(b < 256) by {
            assert(a * radix <= 15 * 16) by (nonlinear_arith)
                requires
                    a <= 15,
                    radix <= 16,
            ;
        }
        if i + 2 < end {
            assert(digit_value(s[i + 2], radix) is Some);
            assert(b * radix <= 255 * 16) by (nonlinear_arith)
                requires
                    b <= 255,
                    radix <= 16,
            ;
        }
    }
}

/// Parse up to `max` digits of the given radix starting at `chars[*i]`,
/// advancing `*i` past them. Returns `None` if no digit is present.
pub fn parse_digits(chars: &Vec<char>, i: &mut usize, radix: u32, max: usize) -> (r: Option<u32>)
    requires
        radix <= 36,
        digits_number(
            chars@,
            *old(i) as int,
            digits_end(chars@, *old(i) as int, radix as nat, max as nat),
            radix as nat,
        ) <= u32::MAX,
    ensures
        *final(i) == digits_end(chars@, *old(i) as int, radix as nat, max as nat),
        *old(i) <= chars@.len() ==> *final(i) <= chars@.len(),
        r == (if *final(i) == *old(i) {
            None
        } else {
            Some(
                digits_number(
                    chars@,
                    *old(i) as int,
                    *final(i) as int,
                    radix as nat,
                ) as u32,
            )
        }),
{
    let start: usize = *i;
    let ghost end = digits_end(chars@, start as int, radix as nat, max as nat);
    let mut value: u32 = 0;
    let mut n: usize = 0;
    let mut k: usize = start;
    while n < max && k < chars.len()
        invariant
            start <= k,
            start <= chars@.len() ==> k <= chars@.len(),
            k == start + n,
            n <= max,
            radix <= 36,
            end == digits_end(chars@, start as int, radix as nat, max as nat),
            digits_end(chars@, k as int, radix as nat, (max - n) as nat) == end,
            digits_number(chars@, start as int, end, radix as nat) <= u32::MAX,
            value == digits_number(chars@, start as int, k as int, radix as nat),
        ensures
            k == end,
            start <= chars@.len() ==> k <= chars@.len(),
            value == digits_number(chars@, start as int, k as int, radix as nat),
        decreases max - n,
    {
        match read_digit(chars[k], radix) {
            Some(d) => {
                proof {
                    lemma_digits_end(chars@, k + 1, radix as nat, (max - n - 1) as nat);
                    lemma_digits_number_grows(
                        chars@,
                        start as int,
                        k + 1,
                        end,
                        radix as nat,
                    );
                    assert(value * radix >= 0) by (nonlinear_arith);
                }
                value = value * radix + d;
                k = k + 1;
                n = n + 1;
            },
            None => break,
        }
    }
    *i = k;
    if k == start {
        None
    } else {
        Some(value)
    }
}

/// The radix of a numeric escape, and how many digits it has at most.
pub open spec fn escape_digits(kind: char) -> (nat, nat) {
    if kind == 'x' {
        (16, 2)
    } else if kind == 'o' {
        (8, 3)
    } else {
        (10, 3)
    }
}

/// Where the digits of a numeric escape end.
pub open spec fn escape_end(kind: char, s: Seq<char>, i: int) -> int {
    digits_end(s, i, escape_digits(kind).0, escape_digits(kind).1)
}

/// The value of a numeric escape, if it has a digit.
pub open spec fn escape_value(kind: char, s: Seq<char>, i: int) -> Option<nat> {
    let end = escape_end(kind, s, i);
    if end == i {
        None
    } else {
        Some(digits_number(s, i, end, escape_digits(kind).0))
    }
}

/// Parse the digits of a `\xHH` / `\oNNN` / `\dNNN` character escape
/// (after the letter), returning the decoded value. `None` if no digit
/// of the right radix follows.
pub fn parse_escape_value(kind: char, chars: &Vec<char>, i: &mut usize) -> (r: Option<u32>)
    ensures
        *final(i) == escape_end(kind, chars@, *old(i) as int),
        *old(i) <= chars@.len() ==> *final(i) <= chars@.len(),
        match r {
            Some(value) => escape_value(kind, chars@, *old(i) as int) == Some(value as nat),
            None => escape_value(kind, chars@, *old(i) as int) is None,
        },
{
    let radix: u32 = match kind {
        'x' => 16,
        'o' => 8,
        _ => 10,
    };
    let max: usize = if kind == 'x' {
        2
    } else {
        3
    };
    proof {
        if *i <= chars@.len() {
            lemma_digits_end(chars@, *i as int, radix as nat, max as nat);
            lemma_digits_number_bound(
                chars@,
                *i as int,
                digits_end(chars@, *i as int, radix as nat, max as nat),
                radix as nat,
                max as nat,
            );
        }
    }
    parse_digits(chars, i, radix, max)
}

// ---------------------------------------------------------------------------
// Bracket expressions
// ---------------------------------------------------------------------------

/// Whether `[` and `c` open a named class inside a bracket expression.
pub open spec fn opens_class(c: char) -> bool {
    c == ':' || c == '.' || c == '='
}

/// Where the named class with the mark `kind` ends that `i` lies in: behind the
/// mark and the bracket, or at the end of the pattern.
pub open spec fn class_end(s: Seq<char>, i: int, kind: char) -> int
    decreases s.len() - i,
{
    if !(0 <= i < s.len()) {
        i
    } else if s[i] == kind && i + 1 < s.len() && s[i + 1] == ']' {
        i + 2
    } else {
        class_end(s, i + 1, kind)
    }
}

pub proof fn lemma_class_end(s: Seq<char>, i: int, kind: char)
    requires
        0 <= i <= s.len(),
    ensures
        i <= class_end(s, i, kind) <= s.len(),
    decreases s.len() - i,
{
    if i < s.len() && !(s[i] == kind && i + 1 < s.len() && s[i + 1] == ']') {
        lemma_class_end(s, i + 1, kind);
    }
}

/// What the members of a bracket expression from `i` on become, the closing
/// bracket with them, and where they end. All is kept but for a backslash before
/// a closing bracket, which is doubled: it stands for itself.
pub open spec fn bracket_members(s: Seq<char>, i: int) -> (Seq<char>, int)
    decreases s.len() - i,
{
    if !(0 <= i < s.len()) {
        (Seq::empty(), i)
    } else if s[i] == ']' {
        (seq![']'], i + 1)
    } else if s[i] == '[' && i + 1 < s.len() && opens_class(s[i + 1]) {
        let end = class_end(s, i + 2, s[i + 1]);
        proof {
            lemma_class_end(s, i + 2, s[i + 1]);
        }
        let rest = bracket_members(s, end);
        (s.subrange(i, end) + rest.0, rest.1)
    } else if s[i] == '\\' && i + 1 < s.len() && s[i + 1] == ']' {
        let rest = bracket_members(s, i + 1);
        (seq!['\\', '\\'] + rest.0, rest.1)
    } else {
        let rest = bracket_members(s, i + 1);
        (seq![s[i]] + rest.0, rest.1)
    }
}

/// Where the members of the bracket expression at `i` start. A `^` and a `]`
/// right after the opening bracket have no special meaning for its end.
pub open spec fn bracket_start(s: Seq<char>, i: int) -> int {
    let j = if i + 1 < s.len() && s[i + 1] == '^' {
        i + 2
    } else {
        i + 1
    };
    if j < s.len() && s[j] == ']' {
        j + 1
    } else {
        j
    }
}

/// What the bracket expression at `i` becomes, and where it ends.
pub open spec fn bracket(s: Seq<char>, i: int) -> (Seq<char>, int) {
    let j = bracket_start(s, i);
    let members = bracket_members(s, j);
    (s.subrange(i, j) + members.0, members.1)
}

proof fn lemma_bracket_members(s: Seq<char>, i: int)
    requires
        0 <= i <= s.len(),
    ensures
        i <= bracket_members(s, i).1 <= s.len(),
    decreases s.len() - i,
{
    if i < s.len() {
        if s[i] == '[' && i + 1 < s.len() && opens_class(s[i + 1]) {
            let end = class_end(s, i + 2, s[i + 1]);
            lemma_class_end(s, i + 2, s[i + 1]);
            lemma_bracket_members(s, end);
        } else if s[i] != ']' {
            lemma_bracket_members(s, i + 1);
        }
    }
}

/// Copy a bracket expression (`[...]`) verbatim, respecting the POSIX
/// rules for a leading `^`/`]` and embedded `[:class:]`, `[=equiv=]`,
/// and `[.collate.]` forms.
fn copy_bracket_expression(chars: &Vec<char>, i: &mut usize, out: &mut String)
    requires
        *old(i) < chars@.len(),
        chars@[*old(i) as int] == '[',
    ensures
        *final(i) == bracket(chars@, *old(i) as int).1,
        *old(i) < *final(i) <= chars@.len(),
        final(out)@ == old(out)@ + bracket(chars@, *old(i) as int).0,
{
    let n: usize = chars.len();
    let start: usize = *i;
    let ghost before = out@;
    let mut k: usize = start + 1;
    out.push('[');
    if k < n && chars[k] == '^' {
        out.push('^');
        k = k + 1;
    }
    if k < n && chars[k] == ']' {
        out.push(']');
        k = k + 1;
    }
    assert(k == bracket_start(chars@, start as int));
    let ghost all = bracket(chars@, start as int);
    assert(out@ + bracket_members(chars@, k as int).0 =~= before + all.0);
    while k < n
        invariant_except_break
            out@ + bracket_members(chars@, k as int).0 == before + all.0,
            bracket_members(chars@, k as int).1 == all.1,
        invariant
            n == chars@.len(),
            start < k <= n,
        ensures
            start < k <= n,
            out@ == before + all.0,
            k == all.1,
        decreases n - k,
    {
        let c = chars[k];
        let ghost done = out@;
        let ghost rest = bracket_members(chars@, k as int).0;
        if c == ']' {
            out.push(']');
            k = k + 1;
            assert(out@ =~= done + rest);
            break;
        }
        if c == '[' && k + 1 < n && (chars[k + 1] == ':' || chars[k + 1] == '.' || chars[k + 1]
            == '=') {
            let kind = chars[k + 1];
            let ghost end = class_end(chars@, k + 2, kind);
            let from = k;
            out.push('[');
            out.push(kind);
            k = k + 2;
            assert(out@ =~= done + chars@.subrange(from as int, k as int));
            while k < n && !(chars[k] == kind && k + 1 < n && chars[k + 1] == ']')
                invariant
                    n == chars@.len(),
                    from < k <= n,
                    class_end(chars@, k as int, kind) == end,
                    out@ == done + chars@.subrange(from as int, k as int),
                decreases n - k,
            {
                out.push(chars[k]);
                k = k + 1;
                assert(out@ =~= done + chars@.subrange(from as int, k as int));
            }
            if k < n {
                out.push(kind);
                out.push(']');
                k = k + 2;
                assert(out@ =~= done + chars@.subrange(from as int, k as int));
            }
            assert(k == end);
            assert(out@ + bracket_members(chars@, k as int).0 =~= done + rest);
        } else if c == '\\' && k + 1 < n && chars[k + 1] == ']' {
            // GNU treats a backslash before `]` as a literal backslash
            // (the `]` still closes the class); double it so the regex
            // crate doesn't read `\]` as an escaped bracket.
            out.push('\\');
            out.push('\\');
            k = k + 1;
            assert(out@ + bracket_members(chars@, k as int).0 =~= done + rest);
        } else {
            out.push(c);
            k = k + 1;
            assert(out@ + bracket_members(chars@, k as int).0 =~= done + rest);
        }
    }
    // Unterminated bracket: everything was copied; the regex compiler
    // will report the error.
    *i = k;
}

// ---------------------------------------------------------------------------
// Patterns
// ---------------------------------------------------------------------------

/// What stands at one place of a pattern, and what is known behind it.
pub struct Token {
    /// What it becomes
    pub text: Seq<char>,
    /// Where it ends
    pub end: int,
    /// Whether the start of the pattern or of a subexpression comes next
    pub at_start: bool,
    /// Whether something comes before that can be repeated
    pub after_atom: bool,
}

/// Whether a character means itself in a basic expression, and is special
/// behind a backslash.
pub open spec fn swapped(c: char) -> bool {
    c == '(' || c == ')' || c == '{' || c == '}' || c == '+' || c == '?' || c == '|'
}

/// What the numeric escape with the letter at `i` becomes. Without digits `\d`
/// stays the class of digits, and the other letters stand for themselves.
pub open spec fn numeric_escape(s: Seq<char>, i: int) -> Seq<char> {
    match escape_value(s[i], s, i + 1) {
        Some(value) => seq!['\\', 'x', '{'] + hexadecimal(value) + seq!['}'],
        None => if s[i] == 'd' {
            seq!['\\', 'd']
        } else {
            seq![s[i]]
        },
    }
}

/// The token at `i`, in a place where `at_start` and `after_atom` hold or not.
#[verifier::opaque]
pub open spec fn token(
    s: Seq<char>,
    i: int,
    at_start: bool,
    after_atom: bool,
    extended: bool,
) -> Token {
    let c = s[i];
    if c == '\\' && i + 1 >= s.len() {
        Token { text: seq!['\\'], end: i + 1, at_start, after_atom }
    } else if c == '\\' {
        let d = s[i + 1];
        if d == 'x' || d == 'o' || d == 'd' {
            Token {
                text: numeric_escape(s, i + 1),
                end: escape_end(d, s, i + 2),
                at_start: false,
                after_atom: true,
            }
        } else if !extended && swapped(d) {
            let opens = d == '(' || d == '|';
            Token {
                text: seq![d],
                end: i + 2,
                at_start: opens,
                after_atom: d == ')' || (!opens && after_atom),
            }
        } else {
            Token { text: seq!['\\', d], end: i + 2, at_start: false, after_atom: true }
        }
    } else if c == '[' {
        Token {
            text: bracket(s, i).0,
            end: bracket(s, i).1,
            at_start: false,
            after_atom: true,
        }
    } else if extended {
        Token { text: seq![c], end: i + 1, at_start: false, after_atom: true }
    } else if swapped(c) || (c == '^' && !at_start) || (c == '$' && !ends_subexpression(s, i + 1))
        || (c == '*' && !after_atom) {
        Token { text: seq!['\\', c], end: i + 1, at_start: false, after_atom: true }
    } else {
        Token {
            text: seq![c],
            end: i + 1,
            at_start: false,
            after_atom: !(c == '^' || c == '$'),
        }
    }
}

/// Whether the pattern or a subexpression ends at `i`.
pub open spec fn ends_subexpression(s: Seq<char>, i: int) -> bool {
    i >= s.len() || (s[i] == '\\' && i + 1 < s.len() && (s[i + 1] == ')' || s[i + 1] == '|'))
}

pub proof fn lemma_token(s: Seq<char>, i: int, at_start: bool, after_atom: bool, extended: bool)
    requires
        0 <= i < s.len(),
    ensures
        i < token(s, i, at_start, after_atom, extended).end <= s.len(),
{
    reveal(token);
    if s[i] == '\\' && i + 1 < s.len() {
        let kind = s[i + 1];
        lemma_digits_end(s, i + 2, escape_digits(kind).0, escape_digits(kind).1);
    } else if s[i] == '[' {
        lemma_bracket_members(s, bracket_start(s, i));
    }
}

/// What a pattern from `i` on becomes.
pub open spec fn translated(
    s: Seq<char>,
    i: int,
    at_start: bool,
    after_atom: bool,
    extended: bool,
) -> Seq<char>
    decreases s.len() - i,
{
    if !(0 <= i < s.len()) {
        Seq::empty()
    } else {
        let t = token(s, i, at_start, after_atom, extended);
        proof {
            lemma_token(s, i, at_start, after_atom, extended);
        }
        t.text + translated(s, t.end, t.at_start, t.after_atom, extended)
    }
}

/// What is known about the place up to which a pattern has been rewritten.
struct Place {
    i: usize,
    /// BRE bookkeeping: `^` anchors and a leading `*` is literal only at the
    /// start of the pattern or of a subexpression (after `\(` or `\|`).
    at_subexpr_start: bool,
    /// Whether a repeatable atom precedes the current position.
    prev_atom: bool,
}

impl Place {
    /// The token at the place.
    spec fn token(self, s: Seq<char>, extended: bool) -> Token {
        token(s, self.i as int, self.at_subexpr_start, self.prev_atom, extended)
    }

    /// What the pattern becomes from the place on.
    spec fn rest(self, s: Seq<char>, extended: bool) -> Seq<char> {
        translated(s, self.i as int, self.at_subexpr_start, self.prev_atom, extended)
    }

    /// The place is the one behind the token.
    spec fn is_behind(self, t: Token) -> bool {
        self.i == t.end && self.at_subexpr_start == t.at_start && self.prev_atom == t.after_atom
    }
}

/// Rewrite a backslash and what follows it.
fn translate_escape(chars: &Vec<char>, place: &mut Place, extended: bool, out: &mut String)
    requires
        old(place).i < chars.len(),
        chars@[old(place).i as int] == '\\',
    ensures
        final(place).is_behind(old(place).token(chars@, extended)),
        final(out)@ == old(out)@ + old(place).token(chars@, extended).text,
{
    reveal(token);
    let ghost t = place.token(chars@, extended);
    let ghost before = out@;
    let i: usize = place.i;
    if i + 1 >= chars.len() {
        // Trailing backslash: pass through, regex will reject it.
        out.push('\\');
        place.i = i + 1;
        assert(out@ =~= before + t.text);
        return ;
    }
    let next = chars[i + 1];
    place.i = i + 2;
    if next == 'x' || next == 'o' || next == 'd' {
        let mut end: usize = i + 2;
        match parse_escape_value(next, chars, &mut end) {
            Some(value) => {
                out.push('\\');
                out.push('x');
                out.push('{');
                out.append(write_hexadecimal(value).as_str());
                out.push('}');
            },
            None => {
                // Bare `\d` keeps the regex digit-class meaning;
                // `\x`/`\o` degrade to the letter.
                if next == 'd' {
                    out.push('\\');
                }
                out.push(next);
            },
        }
        place.i = end;
        place.prev_atom = true;
        place.at_subexpr_start = false;
    } else if !extended && (next == '(' || next == '|') {
        out.push(next);
        place.at_subexpr_start = true;
        place.prev_atom = false;
    } else if !extended && next == ')' {
        out.push(')');
        place.prev_atom = true;
        place.at_subexpr_start = false;
    } else if !extended && (next == '{' || next == '}' || next == '+' || next == '?') {
        out.push(next);
        place.at_subexpr_start = false;
    } else {
        out.push('\\');
        out.push(next);
        place.prev_atom = true;
        place.at_subexpr_start = false;
    }
    assert(out@ =~= before + t.text);
}

/// Rewrite a character of a basic expression that is neither a backslash nor an
/// opening bracket.
fn translate_basic(chars: &Vec<char>, place: &mut Place, out: &mut String)
    requires
        old(place).i < chars.len(),
        chars@[old(place).i as int] != '\\',
        chars@[old(place).i as int] != '[',
    ensures
        final(place).is_behind(old(place).token(chars@, false)),
        final(out)@ == old(out)@ + old(place).token(chars@, false).text,
{
    reveal(token);
    let ghost t = place.token(chars@, false);
    let ghost before = out@;
    let n: usize = chars.len();
    let i: usize = place.i;
    let c = chars[i];
    let literal = match c {
        '(' | ')' | '{' | '}' | '+' | '?' | '|' => true,
        '^' => !place.at_subexpr_start,
        // Anchor only at end of pattern or before `\)` / `\|`
        '$' => !(i + 1 >= n || (chars[i + 1] == '\\' && i + 2 < n && (chars[i + 2] == ')'
            || chars[i + 2] == '|'))),
        // A `*` with nothing to repeat is literal in BRE
        '*' => !place.prev_atom,
        _ => false,
    };
    if literal {
        out.push('\\');
    }
    out.push(c);
    place.i = i + 1;
    place.prev_atom = literal || !(c == '^' || c == '$');
    place.at_subexpr_start = false;
    assert(out@ =~= before + t.text);
}

/// Rewrite what stands at one place.
fn translate_token(chars: &Vec<char>, place: &mut Place, extended: bool, out: &mut String)
    requires
        old(place).i < chars.len(),
    ensures
        final(place).is_behind(old(place).token(chars@, extended)),
        final(out)@ == old(out)@ + old(place).token(chars@, extended).text,
{
    reveal(token);
    let ghost t = place.token(chars@, extended);
    let ghost before = out@;
    let i: usize = place.i;
    let c = chars[i];
    if c == '\\' {
        translate_escape(chars, place, extended, out);
    } else if c == '[' {
        let mut end: usize = i;
        copy_bracket_expression(chars, &mut end, out);
        place.i = end;
        place.prev_atom = true;
        place.at_subexpr_start = false;
    } else if extended {
        out.push(c);
        place.i = i + 1;
        place.prev_atom = true;
        place.at_subexpr_start = false;
        assert(out@ =~= before + t.text);
    } else {
        translate_basic(chars, place, out);
    }
}

/// Rewrite a sed pattern into the syntax of the `regex` crate.
pub fn translate_pattern(pattern: &str, extended: bool) -> (r: String)
    ensures
        r@ == translated(pattern@, 0, true, false, extended),
{
    let chars = char_vec(pattern);
    let n: usize = chars.len();
    let mut out = String::new();
    let mut place = Place { i: 0, at_subexpr_start: true, prev_atom: false };
    let ghost all = translated(chars@, 0, true, false, extended);
    assert(out@ + all =~= all);
    while place.i < n
        invariant
            n == chars@.len(),
            place.i <= n,
            out@ + place.rest(chars@, extended) == all,
        decreases n - place.i,
    {
        let ghost done = out@;
        let ghost before = place;
        proof {
            lemma_token(
                chars@,
                place.i as int,
                place.at_subexpr_start,
                place.prev_atom,
                extended,
            );
        }
        translate_token(&chars, &mut place, extended, &mut out);
        assert(out@ + place.rest(chars@, extended) =~= done + before.rest(chars@, extended));
    }
    assert(out@ =~= all);
    out
}

// ---------------------------------------------------------------------------
// Laws
// ---------------------------------------------------------------------------

/// An extended pattern without backslashes stays as it is, its bracket
/// expressions too.
pub proof fn law_extended_stays(s: Seq<char>)
    requires
        forall|k: int| 0 <= k < s.len() ==> #[trigger] s[k] != '\\',
    ensures
        translated(s, 0, true, false, true) == s,
{
    lemma_extended_from(s, 0, true, false);
    assert(s.subrange(0, s.len() as int) =~= s);
}

proof fn lemma_members_stay(s: Seq<char>, i: int)
    requires
        0 <= i <= s.len(),
        forall|k: int| 0 <= k < s.len() ==> #[trigger] s[k] != '\\',
    ensures
        bracket_members(s, i).0 == s.subrange(i, bracket_members(s, i).1),
    decreases s.len() - i,
{
    if i < s.len() {
        let end = bracket_members(s, i).1;
        lemma_bracket_members(s, i);
        if s[i] == '[' && i + 1 < s.len() && opens_class(s[i + 1]) {
            let class = class_end(s, i + 2, s[i + 1]);
            lemma_class_end(s, i + 2, s[i + 1]);
            lemma_bracket_members(s, class);
            lemma_members_stay(s, class);
            assert(s.subrange(i, end) =~= s.subrange(i, class) + s.subrange(class, end));
        } else if s[i] != ']' {
            lemma_bracket_members(s, i + 1);
            lemma_members_stay(s, i + 1);
            assert(s.subrange(i, end) =~= seq![s[i]] + s.subrange(i + 1, end));
        }
    }
}

proof fn lemma_extended_from(s: Seq<char>, i: int, at_start: bool, after_atom: bool)
    requires
        0 <= i <= s.len(),
        forall|k: int| 0 <= k < s.len() ==> #[trigger] s[k] != '\\',
    ensures
        translated(s, i, at_start, after_atom, true) == s.subrange(i, s.len() as int),
    decreases s.len() - i,
{
    if i < s.len() {
        let t = token(s, i, at_start, after_atom, true);
        lemma_token(s, i, at_start, after_atom, true);
        assert(t.text =~= s.subrange(i, t.end)) by {
            reveal(token);
            if s[i] == '[' {
                let from = bracket_start(s, i);
                lemma_bracket_members(s, from);
                lemma_members_stay(s, from);
            }
        }
        lemma_extended_from(s, t.end, t.at_start, t.after_atom);
        assert(s.subrange(i, s.len() as int) =~= s.subrange(i, t.end) + s.subrange(
            t.end,
            s.len() as int,
        ));
    }
}

/// Whether a character means the same in every place of both dialects.
pub open spec fn is_plain(c: char) -> bool {
    c != '\\' && c != '[' && c != '^' && c != '$' && c != '*' && !swapped(c)
}

/// In both dialects a pattern without special characters stays as it is.
pub proof fn law_plain_pattern_stays(s: Seq<char>, extended: bool)
    requires
        forall|k: int| 0 <= k < s.len() ==> is_plain(#[trigger] s[k]),
    ensures
        translated(s, 0, true, false, extended) == s,
{
    lemma_plain_from(s, 0, true, false, extended);
    assert(s.subrange(0, s.len() as int) =~= s);
}

proof fn lemma_plain_from(s: Seq<char>, i: int, at_start: bool, after_atom: bool, extended: bool)
    requires
        0 <= i <= s.len(),
        forall|k: int| 0 <= k < s.len() ==> is_plain(#[trigger] s[k]),
    ensures
        translated(s, i, at_start, after_atom, extended) == s.subrange(i, s.len() as int),
    decreases s.len() - i,
{
    if i < s.len() {
        reveal(token);
        lemma_plain_from(s, i + 1, false, true, extended);
        assert(s.subrange(i, s.len() as int) =~= seq![s[i]] + s.subrange(i + 1, s.len() as int));
    }
}

/// In a basic pattern a backslash in front of `( ) { } + ? |` takes away or
/// gives their special meaning: what is written with it is special, and what is
/// written without it gets one.
pub proof fn law_basic_swaps(s: Seq<char>, i: int, at_start: bool, after_atom: bool)
    requires
        0 <= i < s.len(),
    ensures
        swapped(s[i]) ==> token(s, i, at_start, after_atom, false).text == seq!['\\', s[i]],
        s[i] == '\\' && i + 1 < s.len() && swapped(s[i + 1]) ==> token(
            s,
            i,
            at_start,
            after_atom,
            false,
        ).text == seq![s[i + 1]],
{
    reveal(token);
}

/// Whether a pattern from `i` on is made of groups, intervals, repetitions and
/// alternatives of plain characters: what `( ) { } + ? |` and their escapes can
/// write, without bracket expressions, numeric escapes, and the characters whose
/// meaning depends on their place.
pub open spec fn is_swappable(s: Seq<char>, i: int) -> bool
    decreases s.len() - i,
{
    if !(0 <= i < s.len()) {
        true
    } else if s[i] == '\\' {
        &&& i + 1 < s.len()
        &&& s[i + 1] != 'x' && s[i + 1] != 'o' && s[i + 1] != 'd'
        &&& is_swappable(s, i + 2)
    } else {
        &&& is_plain(s[i]) || swapped(s[i])
        &&& is_swappable(s, i + 1)
    }
}

/// The pattern from `i` on with a backslash put in front of each of
/// `( ) { } + ? |` that has none, and taken away from each that has one.
pub open spec fn with_escapes_swapped(s: Seq<char>, i: int) -> Seq<char>
    decreases s.len() - i,
{
    if !(0 <= i < s.len()) {
        Seq::empty()
    } else if s[i] == '\\' && i + 1 < s.len() {
        (if swapped(s[i + 1]) {
            seq![s[i + 1]]
        } else {
            seq!['\\', s[i + 1]]
        }) + with_escapes_swapped(s, i + 2)
    } else {
        (if swapped(s[i]) {
            seq!['\\', s[i]]
        } else {
            seq![s[i]]
        }) + with_escapes_swapped(s, i + 1)
    }
}

/// A basic pattern means what the extended pattern means in which the escapes
/// are swapped, and the other way round; and swapping them twice gives the
/// pattern back.
pub proof fn law_dialects_are_swapped(s: Seq<char>)
    requires
        is_swappable(s, 0),
    ensures
        ({
            let other = with_escapes_swapped(s, 0);
            &&& is_swappable(other, 0)
            &&& with_escapes_swapped(other, 0) == s
            &&& translated(s, 0, true, false, false) == translated(other, 0, true, false, true)
            &&& translated(s, 0, true, false, true) == translated(other, 0, true, false, false)
        }),
{
    let other = with_escapes_swapped(s, 0);
    let none = Seq::<char>::empty();
    lemma_swapped_back(none, s, 0);
    assert(none + other =~= other);
    assert(s.subrange(0, s.len() as int) =~= s);
    assert(other.subrange(0, other.len() as int) =~= other);
    lemma_swappable_from(s, 0, true, false);
    lemma_swappable_from(other, 0, true, false);
}

proof fn lemma_swappable_from(s: Seq<char>, i: int, at_start: bool, after_atom: bool)
    requires
        0 <= i <= s.len(),
        is_swappable(s, i),
    ensures
        translated(s, i, at_start, after_atom, false) == with_escapes_swapped(s, i),
        translated(s, i, at_start, after_atom, true) == s.subrange(i, s.len() as int),
    decreases s.len() - i,
{
    if i < s.len() {
        let n = s.len() as int;
        let basic = token(s, i, at_start, after_atom, false);
        let extended = token(s, i, at_start, after_atom, true);
        lemma_token(s, i, at_start, after_atom, false);
        lemma_token(s, i, at_start, after_atom, true);
        assert(basic.end == extended.end && is_swappable(s, basic.end)) by {
            reveal(token);
        }
        assert(extended.text =~= s.subrange(i, extended.end)) by {
            reveal(token);
        }
        lemma_swappable_from(s, basic.end, basic.at_start, basic.after_atom);
        lemma_swappable_from(s, extended.end, extended.at_start, extended.after_atom);
        assert(s.subrange(i, n) =~= s.subrange(i, extended.end) + s.subrange(extended.end, n));
        assert(translated(s, i, at_start, after_atom, false) == with_escapes_swapped(s, i)) by {
            reveal(token);
        }
    }
}

proof fn lemma_swapped_back(before: Seq<char>, s: Seq<char>, i: int)
    requires
        0 <= i <= s.len(),
        is_swappable(s, i),
    ensures
        ({
            let all = before + with_escapes_swapped(s, i);
            let start = before.len() as int;
            &&& is_swappable(all, start)
            &&& with_escapes_swapped(all, start) == s.subrange(i, s.len() as int)
        }),
    decreases s.len() - i,
{
    let all = before + with_escapes_swapped(s, i);
    let start = before.len() as int;
    let n = s.len() as int;
    if i == s.len() {
        assert(with_escapes_swapped(all, start) =~= s.subrange(i, n));
    } else {
        let end = if s[i] == '\\' {
            i + 2
        } else {
            i + 1
        };
        let first = if s[i] == '\\' {
            if swapped(s[i + 1]) {
                seq![s[i + 1]]
            } else {
                seq!['\\', s[i + 1]]
            }
        } else if swapped(s[i]) {
            seq!['\\', s[i]]
        } else {
            seq![s[i]]
        };
        lemma_swapped_back(before + first, s, end);
        assert(all =~= (before + first) + with_escapes_swapped(s, end));
        assert(all[start] == first[0]);
        if first.len() > 1 {
            assert(all[start + 1] == first[1]);
        }
        assert(s.subrange(i, n) =~= s.subrange(i, end) + s.subrange(end, n));
        assert(with_escapes_swapped(all, start) =~= s.subrange(i, n));
    }
}

} // verus!
