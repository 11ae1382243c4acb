//! The unambiguous form in which the `l` command prints text.

use vstd::prelude::*;

use crate::text::{char_vec, digit_char, write_digit};
use crate::unescape::{
    is_hex_digit, law_named_escape, law_plain_front, law_two_digit_escape, unescaped,
};

verus! {

/// Whether `c` is a control character: the Unicode general category `Cc`.
pub open spec fn is_control(c: char) -> bool {
    c as u32 <= 0x1f || 0x7f <= c as u32 <= 0x9f
}

/// The letter that stands for `c` after a backslash, if there is one.
pub open spec fn listed_letter(c: char) -> Option<char> {
    if c == '\\' {
        Some('\\')
    } else if c == '\n' {
        Some('n')
    } else if c == '\t' {
        Some('t')
    } else if c == '\r' {
        Some('r')
    } else if c == '\x07' {
        Some('a')
    } else if c == '\x08' {
        Some('b')
    } else if c == '\x0C' {
        Some('f')
    } else if c == '\x1B' {
        Some('e')
    } else {
        None
    }
}

/// How one character is listed: a few by a letter after a backslash, the other
/// control characters by two hexadecimal digits, and the rest as they are.
pub open spec fn listed_char(c: char) -> Seq<char> {
    match listed_letter(c) {
        Some(letter) => seq!['\\', letter],
        None => if is_control(c) {
            seq!['\\', 'x', digit_char((c as u32 / 16) as nat), digit_char((c as u32 % 16) as nat)]
        } else {
            seq![c]
        },
    }
}

/// How a text is listed.
pub open spec fn listed(s: Seq<char>) -> Seq<char>
    decreases s.len(),
{
    if s.len() == 0 {
        Seq::empty()
    } else {
        listed(s.drop_last()) + listed_char(s.last())
    }
}

/// Write text with its non-printing characters shown.
pub fn list_escape(s: &str) -> (r: String)
    ensures
        r@ == listed(s@),
{
    let chars = char_vec(s);
    let mut out = String::new();
    let mut i: usize = 0;
    while i < chars.len()
        invariant
            i <= chars.len(),
            chars@ == s@,
            out@ == listed(s@.subrange(0, i as int)),
        decreases chars.len() - i,
    {
        let ghost before = out@;
        let c = chars[i];
        let letter = match c {
            '\\' => Some('\\'),
            '\n' => Some('n'),
            '\t' => Some('t'),
            '\r' => Some('r'),
            '\x07' => Some('a'),
            '\x08' => Some('b'),
            '\x0C' => Some('f'),
            '\x1B' => Some('e'),
            _ => None,
        };
        match letter {
            Some(letter) => {
                out.push('\\');
                out.push(letter);
            },
            None => {
                let code = c as u32;
                if code <= 0x1f || (0x7f <= code && code <= 0x9f) {
                    out.push('\\');
                    out.push('x');
                    out.push(write_digit((code / 16) as u8));
                    out.push(write_digit((code % 16) as u8));
                } else {
                    out.push(c);
                }
            },
        }
        assert(out@ =~= before + listed_char(c));
        assert(s@.subrange(0, i + 1).drop_last() =~= s@.subrange(0, i as int));
        i = i + 1;
    }
    assert(s@.subrange(0, i as int) =~= s@);
    out
}

/// A listing holds no control characters.
pub proof fn law_listing_is_printable(s: Seq<char>)
    ensures
        forall|i: int| 0 <= i < listed(s).len() ==> !is_control(#[trigger] listed(s)[i]),
    decreases s.len(),
{
    if s.len() > 0 {
        law_listing_is_printable(s.drop_last());
        let front = listed(s.drop_last());
        let back = listed_char(s.last());
        assert(forall|d: nat| d < 16 ==> !is_control(#[trigger] digit_char(d)));
        assert forall|i: int| 0 <= i < listed(s).len() implies !is_control(
            #[trigger] listed(s)[i],
        ) by {
            if i < front.len() {
                assert(listed(s)[i] == front[i]);
            } else {
                assert(listed(s)[i] == back[i - front.len()]);
            }
        }
    }
}

/// Text without backslashes and control characters is listed as it is.
pub proof fn law_printable_text_is_kept(s: Seq<char>)
    requires
        forall|i: int| 0 <= i < s.len() ==> #[trigger] s[i] != '\\' && !is_control(s[i]),
    ensures
        listed(s) == s,
    decreases s.len(),
{
    if s.len() > 0 {
        law_printable_text_is_kept(s.drop_last());
        assert(s.last() == s[s.len() - 1]);
        assert(listed(s) =~= s.drop_last() + seq![s.last()]);
        assert(s =~= s.drop_last() + seq![s.last()]);
    }
}

/// A text is listed character by character.
pub proof fn law_listing_is_by_parts(a: Seq<char>, b: Seq<char>)
    ensures
        listed(a + b) == listed(a) + listed(b),
    decreases b.len(),
{
    if b.len() == 0 {
        assert(a + b =~= a);
        assert(listed(a) + listed(b) =~= listed(a));
    } else {
        law_listing_is_by_parts(a, b.drop_last());
        assert((a + b).drop_last() =~= a + b.drop_last());
        assert((a + b).last() == b.last());
        assert(listed(a + b) =~= listed(a) + listed(b));
    }
}

proof fn lemma_listed_one(c: char)
    ensures
        listed(seq![c]) == listed_char(c),
{
    assert(seq![c].drop_last() =~= Seq::empty());
    assert(listed(seq![c].drop_last()) =~= Seq::empty());
    assert(listed(seq![c]) =~= listed_char(c));
}

proof fn lemma_digit(d: nat)
    requires
        d < 16,
    ensures
        is_hex_digit(digit_char(d), d as int),
        !('a' <= digit_char(d) <= 'f'),
{
}

/// A listing can be read back: resolving its escapes gives the text again. Three
/// control characters are listed by letters that the escapes do not know; each of
/// them is a backslash and its letter wherever it stands.
pub proof fn law_listing_can_be_read_back(s: Seq<char>)
    requires
        forall|i: int|
            0 <= i < s.len() ==> #[trigger] s[i] != '\x08' && s[i] != '\x0C' && s[i] != '\x1B',
    ensures
        unescaped(listed(s), 0) == s,
    decreases s.len(),
{
    if s.len() == 0 {
        assert(unescaped(listed(s), 0) =~= s);
    } else {
        let c = s[0];
        let rest = s.drop_first();
        assert(s =~= seq![c] + rest);
        law_listing_is_by_parts(seq![c], rest);
        lemma_listed_one(c);
        assert forall|i: int| 0 <= i < rest.len() implies #[trigger] rest[i] != '\x08' && rest[i]
            != '\x0C' && rest[i] != '\x1B' by {
            assert(rest[i] == s[i + 1]);
        }
        law_listing_can_be_read_back(rest);
        assert(s[0] == c);
        let more = listed(rest);
        match listed_letter(c) {
            Some(letter) => {
                law_named_escape(letter, c, more);
            },
            None => if is_control(c) {
                let code = c as u32;
                assert(code <= 0x9f);
                let m = (code / 16) as int;
                let n = (code % 16) as int;
                assert(m < 16 && n < 16 && 16 * m + n == code);
                lemma_digit(m as nat);
                lemma_digit(n as nat);
                law_two_digit_escape(digit_char(m as nat), digit_char(n as nat), m, n, more);
                let read = (16 * m + n) as char;
                assert(read as u32 == code);
                vstd::utf8::char_u32_cast(c, code);
                vstd::utf8::char_u32_cast(read, code);
                assert(seq![read] + rest =~= s);
            } else {
                law_plain_front(seq![c], more);
            },
        }
    }
}

/// Backspace, form feed and escape are listed as `\b`, `\f` and `\e`.
pub proof fn law_listed_by_letter(a: Seq<char>, b: Seq<char>)
    ensures
        listed(a + seq!['\x08'] + b) == listed(a) + seq!['\\', 'b'] + listed(b),
        listed(a + seq!['\x0C'] + b) == listed(a) + seq!['\\', 'f'] + listed(b),
        listed(a + seq!['\x1B'] + b) == listed(a) + seq!['\\', 'e'] + listed(b),
{
    law_listing_is_by_parts(a + seq!['\x08'], b);
    law_listing_is_by_parts(a, seq!['\x08']);
    lemma_listed_one('\x08');
    law_listing_is_by_parts(a + seq!['\x0C'], b);
    law_listing_is_by_parts(a, seq!['\x0C']);
    lemma_listed_one('\x0C');
    law_listing_is_by_parts(a + seq!['\x1B'], b);
    law_listing_is_by_parts(a, seq!['\x1B']);
    lemma_listed_one('\x1B');
}

/// Other control characters are listed as `\x` and two hexadecimal digits in upper
/// case.
pub proof fn law_listed_by_number(c: char)
    requires
        is_control(c),
        !(0x07 <= c as u32 <= 0x0A),
        c as u32 != 0x0C,
        c as u32 != 0x0D,
        c as u32 != 0x1B,
    ensures
        ({
            let text = listed(seq![c]);
            &&& text.len() == 4
            &&& text[0] == '\\'
            &&& text[1] == 'x'
            &&& is_hex_digit(text[2], c as int / 16)
            &&& is_hex_digit(text[3], c as int % 16)
            &&& !('a' <= text[2] <= 'f')
            &&& !('a' <= text[3] <= 'f')
        }),
{
    lemma_listed_one(c);
    lemma_digit((c as u32 / 16) as nat);
    lemma_digit((c as u32 % 16) as nat);
}

} // verus!
