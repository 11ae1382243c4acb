//! Backslash escapes in plain text.

use vstd::prelude::*;

use crate::bre::digits_number;
use crate::text::{char_vec, digit_value, read_digit, scalar_char};

verus! {

/// The letters that name a character behind a backslash.
pub open spec fn named(c: char) -> Option<char> {
    if c == 'n' {
        Some('\n')
    } else if c == 'r' {
        Some('\r')
    } else if c == 't' {
        Some('\t')
    } else if c == '\'' || c == '"' || c == '\\' {
        Some(c)
    } else if c == 'a' {
        Some('\x07')
    } else {
        None
    }
}

/// The number of digits of a numeric escape.
pub open spec fn numeric_length(c: char) -> Option<int> {
    if c == 'u' {
        Some(4)
    } else if c == 'x' {
        Some(2)
    } else {
        None
    }
}

/// Whether `s[i..end]` is a hexadecimal number: at least one digit, and digits
/// only but for a plus sign that may stand before them.
pub open spec fn is_hexadecimal(s: Seq<char>, i: int, end: int) -> bool {
    let from = digits_from(s, i);
    &&& from < end
    &&& forall|k: int| from <= k < end ==> digit_value(#[trigger] s[k], 16) is Some
}

/// Where the digits of the number at `i` start.
pub open spec fn digits_from(s: Seq<char>, i: int) -> int {
    if s[i] == '+' {
        i + 1
    } else {
        i
    }
}

/// The character whose number is written in the `length` characters at `i`, if
/// they are a hexadecimal number and there is such a character.
pub open spec fn numbered(s: Seq<char>, i: int, length: int) -> Option<char> {
    if i + length <= s.len() && is_hexadecimal(s, i, i + length) {
        scalar_char(digits_number(s, digits_from(s, i), i + length, 16))
    } else {
        None
    }
}

/// What the escape with the letter at `i` stands for, and where it ends.
pub open spec fn escaped(s: Seq<char>, i: int) -> Option<(char, int)> {
    match named(s[i]) {
        Some(c) => Some((c, i + 1)),
        None => match numeric_length(s[i]) {
            Some(length) => match numbered(s, i + 1, length) {
                Some(c) => Some((c, i + 1 + length)),
                None => None,
            },
            None => None,
        },
    }
}

/// The text from `i` on with its escapes resolved. An escape that stands for
/// nothing is kept.
pub open spec fn unescaped(s: Seq<char>, i: int) -> Seq<char>
    decreases s.len() - i,
{
    if !(0 <= i < s.len()) {
        Seq::empty()
    } else if s[i] != '\\' || i + 1 >= s.len() {
        seq![s[i]] + unescaped(s, i + 1)
    } else {
        match escaped(s, i + 1) {
            Some((c, end)) => if i < end {
                seq![c] + unescaped(s, end)
            } else {
                Seq::empty()
            },
            None => seq!['\\', s[i + 1]] + unescaped(s, i + 2),
        }
    }
}

/// Takes in a string with backslash escapes written out with literal
/// backslash characters and converts it to a string with the proper
/// escaped characters.
pub fn unescape(input: &str) -> (r: String)
    ensures
        r@ == unescaped(input@, 0),
{
    let chars = char_vec(input);
    let n: usize = chars.len();
    let mut out = String::new();
    let mut i: usize = 0;
    let ghost all = unescaped(chars@, 0);
    assert(out@ + all =~= all);
    while i < n
        invariant
            n == chars@.len(),
            i <= n,
            out@ + unescaped(chars@, i as int) == all,
        decreases n - i,
    {
        let ghost done = out@;
        let ghost rest = unescaped(chars@, i as int);
        let c = chars[i];
        if c != '\\' || i + 1 >= n {
            out.push(c);
            i = i + 1;
            assert(out@ + unescaped(chars@, i as int) =~= done + rest);
        } else {
            let letter = chars[i + 1];
            let simple = match letter {
                'n' => Some('\n'),
                'r' => Some('\r'),
                't' => Some('\t'),
                '\'' => Some('\''),
                '"' => Some('"'),
                '\\' => Some('\\'),
                'a' => Some('\x07'),
                _ => None,
            };
            assert(simple == named(letter));
            let length: usize = match letter {
                'u' => 4,
                'x' => 2,
                _ => 0,
            };
            match simple {
                Some(c) => {
                    out.push(c);
                    i = i + 2;
                },
                None => {
                    let character = if length > 0 {
                        escape_n_chars(&chars, i + 2, length)
                    } else {
                        None
                    };
                    match character {
                        Some(c) => {
                            out.push(c);
                            i = i + 2 + length;
                        },
                        None => {
                            out.push('\\');
                            out.push(letter);
                            i = i + 2;
                        },
                    }
                },
            }
            assert(out@ + unescaped(chars@, i as int) =~= done + rest);
        }
    }
    assert(out@ =~= all);
    out
}

/// The character of a sequence such as `\x08` or `\u1234`, whose number starts
/// at `i` and has `length` digits.
fn escape_n_chars(chars: &Vec<char>, i: usize, length: usize) -> (r: Option<char>)
    requires
        i <= chars@.len(),
        0 < length <= 4,
    ensures
        r == numbered(chars@, i as int, length as int),
        r is Some ==> i + length <= chars@.len(),
{
    let n: usize = chars.len();
    if n - i < length {
        return None;
    }
    let end: usize = i + length;
    let from: usize = if chars[i] == '+' {
        i + 1
    } else {
        i
    };
    if from == end {
        return None;
    }
    let mut value: u32 = 0;
    let mut k: usize = from;
    let ghost mut bound: int = 1;
    while k < end
        invariant
            n == chars@.len(),
            from <= k <= end <= n,
            end <= from + 4,
            value == digits_number(chars@, from as int, k as int, 16),
            forall|j: int| from <= j < k ==> digit_value(#[trigger] chars@[j], 16) is Some,
            value < bound,
            bound == (if k == from {
                1int
            } else if k == from + 1 {
                16
            } else if k == from + 2 {
                256
            } else if k == from + 3 {
                4096
            } else {
                65536
            }),
            from == digits_from(chars@, i as int),
            end == i + length,
        decreases end - k,
    {
        match read_digit(chars[k], 16) {
            Some(d) => {
                value = value * 16 + d;
                k = k + 1;
                proof {
                    bound = bound * 16;
                }
            },
            None => {
                assert(digit_value(chars@[k as int], 16) is None);
                return None;
            },
        }
    }
    char::from_u32(value)
}

/// Text without backslashes stays as it is.
pub proof fn law_plain_text_stays(s: Seq<char>)
    requires
        forall|k: int| 0 <= k < s.len() ==> #[trigger] s[k] != '\\',
    ensures
        unescaped(s, 0) == s,
{
    lemma_plain_from(s, 0);
    assert(s.subrange(0, s.len() as int) =~= s);
}

proof fn lemma_plain_from(s: Seq<char>, i: int)
    requires
        0 <= i <= s.len(),
        forall|k: int| 0 <= k < s.len() ==> #[trigger] s[k] != '\\',
    ensures
        unescaped(s, i) == s.subrange(i, s.len() as int),
    decreases s.len() - i,
{
    if i < s.len() {
        lemma_plain_from(s, i + 1);
        assert(s.subrange(i, s.len() as int) =~= seq![s[i]] + s.subrange(i + 1, s.len() as int));
    }
}

/// How a character is written with an escape, if it has a letter that names it,
/// and as it is otherwise.
pub open spec fn escape_for(c: char) -> Seq<char> {
    if c == '\n' {
        seq!['\\', 'n']
    } else if c == '\r' {
        seq!['\\', 'r']
    } else if c == '\t' {
        seq!['\\', 't']
    } else if c == '\x07' {
        seq!['\\', 'a']
    } else if c == '\'' || c == '"' || c == '\\' {
        seq!['\\', c]
    } else {
        seq![c]
    }
}

/// The text from `i` on with each character written by [`escape_for`].
pub open spec fn with_escapes(s: Seq<char>, i: int) -> Seq<char>
    decreases s.len() - i,
{
    if !(0 <= i < s.len()) {
        Seq::empty()
    } else {
        escape_for(s[i]) + with_escapes(s, i + 1)
    }
}

/// Every text is what its escaped form stands for.
pub proof fn law_escaped_text_comes_back(s: Seq<char>)
    ensures
        unescaped(with_escapes(s, 0), 0) == s,
{
    let none = Seq::<char>::empty();
    lemma_escaped_from(none, s, 0);
    assert(none + with_escapes(s, 0) =~= with_escapes(s, 0));
    assert(s.subrange(0, s.len() as int) =~= s);
}

proof fn lemma_escaped_from(before: Seq<char>, s: Seq<char>, i: int)
    requires
        0 <= i <= s.len(),
    ensures
        unescaped(before + with_escapes(s, i), before.len() as int) == s.subrange(
            i,
            s.len() as int,
        ),
    decreases s.len() - i,
{
    let all = before + with_escapes(s, i);
    let start = before.len() as int;
    let n = s.len() as int;
    if i == s.len() {
        assert(unescaped(all, start) =~= s.subrange(i, n));
    } else {
        let first = escape_for(s[i]);
        lemma_escaped_from(before + first, s, i + 1);
        assert(all =~= (before + first) + with_escapes(s, i + 1));
        assert(all[start] == first[0]);
        if first.len() > 1 {
            assert(all[start + 1] == first[1]);
        }
        assert(unescaped(all, start) =~= seq![s[i]] + s.subrange(i + 1, n));
        assert(s.subrange(i, n) =~= seq![s[i]] + s.subrange(i + 1, n));
    }
}

proof fn lemma_digits_behind(p: Seq<char>, b: Seq<char>, i: int, end: int)
    requires
        0 <= i,
        end <= b.len(),
    ensures
        digits_number(p + b, p.len() + i, p.len() + end, 16) == digits_number(b, i, end, 16),
    decreases end - i,
{
    if i < end {
        lemma_digits_behind(p, b, i, end - 1);
        assert((p + b)[p.len() + end - 1] == b[end - 1]);
    }
}

proof fn lemma_numbered_behind(p: Seq<char>, b: Seq<char>, i: int, length: int)
    requires
        0 <= i,
        length > 0,
    ensures
        numbered(p + b, p.len() + i, length) == numbered(b, i, length),
{
    let s = p + b;
    let m = p.len() as int;
    if i + length <= b.len() {
        assert(s[m + i] == b[i]);
        let from = digits_from(b, i);
        assert(digits_from(s, m + i) == m + from);
        assert(is_hexadecimal(s, m + i, m + i + length) == is_hexadecimal(b, i, i + length)) by {
            if is_hexadecimal(b, i, i + length) {
                assert forall|k: int| m + from <= k < m + i + length implies digit_value(
                    #[trigger] s[k],
                    16,
                ) is Some by {
                    assert(s[k] == b[k - m]);
                }
            }
            if is_hexadecimal(s, m + i, m + i + length) {
                assert forall|k: int| from <= k < i + length implies digit_value(
                    #[trigger] b[k],
                    16,
                ) is Some by {
                    assert(s[m + k] == b[k]);
                }
            }
        }
        lemma_digits_behind(p, b, from, i + length);
    }
}

/// Text is resolved from the front: what stands before makes no difference.
proof fn lemma_unescaped_behind(p: Seq<char>, b: Seq<char>, i: int)
    requires
        0 <= i <= b.len(),
    ensures
        unescaped(p + b, p.len() + i) == unescaped(b, i),
    decreases b.len() - i,
{
    let s = p + b;
    if i < b.len() {
        assert(s[p.len() + i] == b[i]);
        lemma_unescaped_behind(p, b, i + 1);
        if i + 1 < b.len() {
            assert(s[p.len() + i + 1] == b[i + 1]);
            lemma_unescaped_behind(p, b, i + 2);
            lemma_numbered_behind(p, b, i + 2, 4);
            lemma_numbered_behind(p, b, i + 2, 2);
            if i + 4 <= b.len() {
                lemma_unescaped_behind(p, b, i + 4);
            }
            if i + 6 <= b.len() {
                lemma_unescaped_behind(p, b, i + 6);
            }
        }
    }
}

/// Characters without a backslash stand for themselves, and what follows them is
/// resolved on its own.
pub proof fn law_plain_front(front: Seq<char>, rest: Seq<char>)
    requires
        forall|k: int| 0 <= k < front.len() ==> #[trigger] front[k] != '\\',
    ensures
        unescaped(front + rest, 0) == front + unescaped(rest, 0),
    decreases front.len(),
{
    if front.len() == 0 {
        assert(front + rest =~= rest);
        assert(front + unescaped(rest, 0) =~= unescaped(rest, 0));
    } else {
        let first = seq![front[0]];
        let more = front.drop_first();
        assert forall|k: int| 0 <= k < more.len() implies #[trigger] more[k] != '\\' by {
            assert(more[k] == front[k + 1]);
        }
        law_plain_front(more, rest);
        assert(front + rest =~= first + (more + rest));
        lemma_unescaped_behind(first, more + rest, 0);
        assert((front + rest)[0] == front[0]);
        assert(unescaped(front + rest, 0) =~= front + unescaped(rest, 0));
    }
}

/// A backslash and one of `n r t a ' " \\` stand for newline, carriage return, tab,
/// bell, and the character itself, and what follows is resolved on its own.
pub proof fn law_named_escape(letter: char, c: char, rest: Seq<char>)
    requires
        (letter == 'n' && c == '\n') || (letter == 'r' && c == '\r') || (letter == 't' && c == '\t')
            || (letter == 'a' && c == '\x07') || ((letter == '\'' || letter == '"' || letter
            == '\\') && c == letter),
    ensures
        unescaped(seq!['\\', letter] + rest, 0) == seq![c] + unescaped(rest, 0),
{
    let front = seq!['\\', letter];
    let s = front + rest;
    assert(s[0] == '\\' && s[1] == letter);
    lemma_unescaped_behind(front, rest, 0);
}

/// A backslash and a character that has no meaning behind it are kept, and what
/// follows is resolved on its own.
pub proof fn law_unknown_escape_is_kept(c: char, rest: Seq<char>)
    requires
        c != 'n' && c != 'r' && c != 't' && c != 'a' && c != '\'' && c != '"' && c != '\\' && c
            != 'x' && c != 'u',
    ensures
        unescaped(seq!['\\', c] + rest, 0) == seq!['\\', c] + unescaped(rest, 0),
{
    let front = seq!['\\', c];
    let s = front + rest;
    assert(s[0] == '\\' && s[1] == c);
    lemma_unescaped_behind(front, rest, 0);
}

/// Whether `c` is a hexadecimal digit with this value, in either case.
pub open spec fn is_hex_digit(c: char, value: int) -> bool {
    ||| '0' <= c <= '9' && value == c as int - '0' as int
    ||| 'a' <= c <= 'f' && value == c as int - 'a' as int + 10
    ||| 'A' <= c <= 'F' && value == c as int - 'A' as int + 10
}

/// `\x` and two hexadecimal digits stand for the character with that number.
pub proof fn law_two_digit_escape(a: char, b: char, m: int, n: int, rest: Seq<char>)
    requires
        is_hex_digit(a, m),
        is_hex_digit(b, n),
    ensures
        unescaped(seq!['\\', 'x', a, b] + rest, 0) == seq![(16 * m + n) as char] + unescaped(
            rest,
            0,
        ),
{
    let front = seq!['\\', 'x', a, b];
    let s = front + rest;
    assert(s[0] == '\\' && s[1] == 'x' && s[2] == a && s[3] == b);
    reveal_with_fuel(digits_number, 3);
    assert(digits_number(s, 2, 4, 16) == 16 * m + n);
    assert(is_hexadecimal(s, 2, 4));
    lemma_unescaped_behind(front, rest, 0);
}

/// `\u` and four hexadecimal digits stand for the character with that number, if
/// there is one, and are kept otherwise.
pub proof fn law_four_digit_escape(
    digits: Seq<char>,
    values: Seq<int>,
    rest: Seq<char>,
)
    requires
        digits.len() == 4,
        values.len() == 4,
        forall|k: int| 0 <= k < 4 ==> is_hex_digit(#[trigger] digits[k], values[k]),
    ensures
        ({
            let number = ((values[0] * 16 + values[1]) * 16 + values[2]) * 16 + values[3];
            !(0xD800 <= number < 0xE000) ==> unescaped(seq!['\\', 'u'] + digits + rest, 0)
                == seq![number as char] + unescaped(rest, 0)
        }),
{
    let front = seq!['\\', 'u'] + digits;
    let s = front + rest;
    assert(s[0] == '\\' && s[1] == 'u');
    assert(s[2] == digits[0] && s[3] == digits[1] && s[4] == digits[2] && s[5] == digits[3]);
    let number = ((values[0] * 16 + values[1]) * 16 + values[2]) * 16 + values[3];
    assert(is_hex_digit(digits[0], values[0]) && is_hex_digit(digits[1], values[1]));
    assert(is_hex_digit(digits[2], values[2]) && is_hex_digit(digits[3], values[3]));
    reveal_with_fuel(digits_number, 5);
    assert(digits_number(s, 2, 6, 16) == number);
    assert(is_hexadecimal(s, 2, 6)) by {
        assert forall|k: int| 2 <= k < 6 implies digit_value(#[trigger] s[k], 16) is Some by {
            assert(s[k] == digits[k - 2]);
            assert(is_hex_digit(digits[k - 2], values[k - 2]));
        }
    }
    lemma_unescaped_behind(front, rest, 0);
}

/// `\x` and `\u` are kept where the first character behind them is no hexadecimal
/// digit, or where there are too few characters, and what follows is resolved on its
/// own.
pub proof fn law_incomplete_number_is_kept(letter: char, rest: Seq<char>)
    requires
        letter == 'x' || letter == 'u',
        rest.len() < (if letter == 'x' {
            2int
        } else {
            4int
        }) || (rest[0] != '+' && forall|v: int| !#[trigger] is_hex_digit(rest[0], v)),
    ensures
        unescaped(seq!['\\', letter] + rest, 0) == seq!['\\', letter] + unescaped(rest, 0),
{
    let front = seq!['\\', letter];
    let s = front + rest;
    let length = if letter == 'x' {
        2int
    } else {
        4int
    };
    assert(s[0] == '\\' && s[1] == letter);
    if rest.len() >= length {
        assert(s[2] == rest[0]);
        assert(digit_value(s[2], 16) is None) by {
            if let Some(v) = digit_value(s[2], 16) {
                assert(is_hex_digit(rest[0], v as int));
            }
        }
        assert(!is_hexadecimal(s, 2, 2 + length));
    }
    assert(numbered(s, 2, length) is None);
    lemma_unescaped_behind(front, rest, 0);
}

} // verus!
