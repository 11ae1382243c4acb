//! The `s` command: which matches are replaced, and by what.

use vstd::prelude::*;
use vstd::string::StringSliceAdditionalSpecFns;
use vstd::utf8::{
    decode_utf8, decode_utf8_split, encode_utf8, encode_utf8_decode_utf8, encode_utf8_valid_utf8,
    is_char_boundary, is_char_boundary_iff_not_is_continuation_byte,
    is_char_boundary_start_end_of_seq, valid_utf8_split,
};

use crate::pattern::{match_fits, span_fits, span_lists, spans_fit, whole, Pattern, PatternModel};
use crate::text::{char_vec, is_decimal_digit};

verus! {

// ---------------------------------------------------------------------------
// Pieces of a text
// ---------------------------------------------------------------------------

/// The part of the text between two byte offsets.
pub open spec fn slice(text: Seq<char>, start: int, end: int) -> Seq<char> {
    decode_utf8(encode_utf8(text).subrange(start, end))
}

/// A character boundary before the cut is one of what lies before the cut.
pub proof fn lemma_boundary_before(bytes: Seq<u8>, start: int, end: int)
    requires
        vstd::utf8::valid_utf8(bytes),
        0 <= start <= end <= bytes.len(),
        is_char_boundary(bytes, start),
        is_char_boundary(bytes, end),
    ensures
        is_char_boundary(bytes.subrange(0, end), start),
{
    let front = bytes.subrange(0, end);
    valid_utf8_split(bytes, end);
    if start == end {
        is_char_boundary_start_end_of_seq(front);
    } else {
        is_char_boundary_iff_not_is_continuation_byte(bytes, start);
        is_char_boundary_iff_not_is_continuation_byte(front, start);
        assert(front[start] == bytes[start]);
    }
}

/// A text is made of its pieces.
pub proof fn lemma_slice_join(text: Seq<char>, start: int, mid: int, end: int)
    requires
        0 <= start <= mid <= end <= encode_utf8(text).len(),
        is_char_boundary(encode_utf8(text), start),
        is_char_boundary(encode_utf8(text), mid),
        is_char_boundary(encode_utf8(text), end),
    ensures
        slice(text, start, mid) + slice(text, mid, end) == slice(text, start, end),
{
    let bytes = encode_utf8(text);
    encode_utf8_valid_utf8(text);
    let front = bytes.subrange(0, end);
    lemma_boundary_before(bytes, start, end);
    lemma_boundary_before(bytes, mid, end);
    valid_utf8_split(bytes, end);
    let middle = front.subrange(start, front.len() as int);
    valid_utf8_split(front, start);
    assert(is_char_boundary(middle, mid - start)) by {
        if mid == end {
            is_char_boundary_start_end_of_seq(middle);
        } else if mid == start {
            is_char_boundary_start_end_of_seq(middle);
        } else {
            is_char_boundary_iff_not_is_continuation_byte(bytes, mid);
            is_char_boundary_iff_not_is_continuation_byte(middle, mid - start);
            assert(middle[mid - start] == bytes[mid]);
        }
    }
    decode_utf8_split(middle, mid - start);
    assert(middle =~= bytes.subrange(start, end));
    assert(middle.subrange(0, mid - start) =~= bytes.subrange(start, mid));
    assert(middle.subrange(mid - start, middle.len() as int) =~= bytes.subrange(mid, end));
}

/// The piece from the start to the end is the whole text.
pub proof fn lemma_slice_whole(text: Seq<char>)
    ensures
        slice(text, 0, encode_utf8(text).len() as int) == text,
        is_char_boundary(encode_utf8(text), 0),
        is_char_boundary(encode_utf8(text), encode_utf8(text).len() as int),
{
    encode_utf8_valid_utf8(text);
    is_char_boundary_start_end_of_seq(encode_utf8(text));
    assert(encode_utf8(text).subrange(0, encode_utf8(text).len() as int) =~= encode_utf8(text));
    encode_utf8_decode_utf8(text);
}

/// Cut a piece out of a text.
fn cut(text: &str, start: usize, end: usize) -> (r: &str)
    requires
        span_fits((start, end), text@),
    ensures
        r@ == slice(text@, start as int, end as int),
{
    proof {
        encode_utf8_valid_utf8(text@);
        lemma_boundary_before(encode_utf8(text@), start as int, end as int);
    }
    let (front, _) = text.split_at(end);
    assert(front.spec_bytes() =~= encode_utf8(text@).subrange(0, end as int));
    let (_, piece) = front.split_at(start);
    proof {
        assert(piece.spec_bytes() =~= encode_utf8(text@).subrange(start as int, end as int));
        encode_utf8_decode_utf8(piece@);
    }
    piece
}

// ---------------------------------------------------------------------------
// The replacement
// ---------------------------------------------------------------------------

/// What each capture group of a match holds.
pub open spec fn group_texts(text: Seq<char>, groups: Seq<Option<(usize, usize)>>) -> Seq<
    Option<Seq<char>>,
> {
    groups.map_values(
        |group: Option<(usize, usize)>|
            match group {
                Some(span) => Some(slice(text, span.0 as int, span.1 as int)),
                None => None,
            },
    )
}

/// The text of capture group `n`: nothing where there is no such group, or
/// where it took no part in the match.
pub open spec fn group_text(groups: Seq<Option<Seq<char>>>, n: int) -> Seq<char> {
    if 0 <= n < groups.len() && groups[n] is Some {
        groups[n]->0
    } else {
        Seq::empty()
    }
}

/// What a backslash and the character `c` stand for in a replacement, if they
/// stand for anything but themselves.
pub open spec fn replacement_escape(c: char, groups: Seq<Option<Seq<char>>>) -> Option<Seq<char>> {
    if is_decimal_digit(c) {
        Some(group_text(groups, c as int - '0' as int))
    } else if c == 'n' {
        Some(seq!['\n'])
    } else if c == 't' {
        Some(seq!['\t'])
    } else if c == '\\' || c == '&' {
        Some(seq![c])
    } else {
        None
    }
}

/// What the replacement from `i` on becomes for one match.
///
/// `&` is the whole match, `\0` to `\9` are its capture groups, `\n` and `\t`
/// are newline and tab, `\\` and `\&` are the second character itself. Every
/// other character is kept, a backslash in front of it too.
pub open spec fn expand(template: Seq<char>, i: int, groups: Seq<Option<Seq<char>>>) -> Seq<char>
    decreases template.len() - i,
{
    if !(0 <= i < template.len()) {
        Seq::empty()
    } else if template[i] == '&' {
        group_text(groups, 0) + expand(template, i + 1, groups)
    } else if template[i] == '\\' && i + 1 < template.len() && replacement_escape(
        template[i + 1],
        groups,
    ) is Some {
        replacement_escape(template[i + 1], groups)->0 + expand(template, i + 2, groups)
    } else {
        seq![template[i]] + expand(template, i + 1, groups)
    }
}

/// Append to `output` the capture group `n` of a match in `text`.
fn push_group(
    text: &str,
    groups: &Vec<Option<(usize, usize)>>,
    n: usize,
    output: &mut String,
)
    requires
        match_fits(groups@, text@),
    ensures
        final(output)@ == old(output)@ + group_text(group_texts(text@, groups@), n as int),
{
    let ghost before = output@;
    if n < groups.len() {
        if let Some((start, end)) = groups[n] {
            assert(span_fits((start, end), text@)) by {
                assert(groups@[n as int] == Some((start, end)));
            }
            output.append(cut(text, start, end));
            return ;
        }
    }
    assert(before + Seq::<char>::empty() =~= before);
}

/// Append to `output` what a replacement becomes for one match in `text`.
///
/// Handles:
///   &       → whole match
///   \0..\9  → numbered capture group
///   \n      → newline
///   \t      → tab
///   \\      → literal backslash
///   \&      → literal &
pub fn apply_sed_replacement(
    text: &str,
    groups: &Vec<Option<(usize, usize)>>,
    replacement: &str,
    output: &mut String,
)
    requires
        match_fits(groups@, text@),
    ensures
        final(output)@ == old(output)@ + expand(replacement@, 0, group_texts(text@, groups@)),
{
    let chars = char_vec(replacement);
    let ghost held = group_texts(text@, groups@);
    let ghost before = output@;
    let mut i: usize = 0;
    while i < chars.len()
        invariant
            i <= chars.len(),
            chars@ == replacement@,
            match_fits(groups@, text@),
            held == group_texts(text@, groups@),
            output@ + expand(replacement@, i as int, held) == before + expand(
                replacement@,
                0,
                held,
            ),
        decreases chars.len() - i,
    {
        let ghost done = output@;
        let ghost rest = expand(replacement@, i as int, held);
        let c = chars[i];
        if c == '&' {
            push_group(text, groups, 0, output);
            i = i + 1;
            assert(output@ + expand(replacement@, i as int, held) =~= done + rest);
        } else if c == '\\' && i + 1 < chars.len() {
            let next = chars[i + 1];
            if '0' <= next && next <= '9' {
                push_group(text, groups, (next as u32 - '0' as u32) as usize, output);
                i = i + 2;
            } else if next == 'n' {
                output.push('\n');
                i = i + 2;
            } else if next == 't' {
                output.push('\t');
                i = i + 2;
            } else if next == '\\' || next == '&' {
                output.push(next);
                i = i + 2;
            } else {
                // Not a recognized escape; pass through
                output.push('\\');
                i = i + 1;
            }
            assert(output@ + expand(replacement@, i as int, held) =~= done + rest);
        } else {
            output.push(c);
            i = i + 1;
            assert(output@ + expand(replacement@, i as int, held) =~= done + rest);
        }
    }
    assert(output@ + expand(replacement@, i as int, held) =~= output@);
}

// ---------------------------------------------------------------------------
// The substitution
// ---------------------------------------------------------------------------

/// Whether match number `k`, counted from 1, is replaced.
///
/// Without flags it is the first match, with a number `n` the `n`-th, with `g`
/// every match, and with both the `n`-th and those after it. There is no match
/// number 0.
pub open spec fn is_replaced(k: int, global: bool, nth: Option<usize>) -> bool {
    match nth {
        Some(n) => k == n || (global && 0 < n < k),
        None => global || k == 1,
    }
}

/// Whether any of `count` matches is replaced.
pub open spec fn any_replaced(count: int, global: bool, nth: Option<usize>) -> bool {
    match nth {
        Some(n) => 0 < n <= count,
        None => count > 0,
    }
}

/// The text from the byte offset `from` on, with the replacement in place of
/// those of the matches from number `k` on that are replaced.
pub open spec fn spliced(
    text: Seq<char>,
    matches: Seq<Seq<Option<(usize, usize)>>>,
    k: int,
    from: int,
    template: Seq<char>,
    global: bool,
    nth: Option<usize>,
) -> Seq<char>
    decreases matches.len() - k,
{
    if !(0 <= k < matches.len()) {
        slice(text, from, encode_utf8(text).len() as int)
    } else if is_replaced(k + 1, global, nth) {
        slice(text, from, whole(matches[k]).0 as int) + expand(
            template,
            0,
            group_texts(text, matches[k]),
        ) + spliced(text, matches, k + 1, whole(matches[k]).1 as int, template, global, nth)
    } else {
        spliced(text, matches, k + 1, from, template, global, nth)
    }
}

/// What a substitution makes of a text with the given matches, if it replaces
/// any of them.
pub open spec fn substituted(
    text: Seq<char>,
    matches: Seq<Seq<Option<(usize, usize)>>>,
    template: Seq<char>,
    global: bool,
    nth: Option<usize>,
) -> Option<Seq<char>> {
    if any_replaced(matches.len() as int, global, nth) {
        Some(spliced(text, matches, 0, 0, template, global, nth))
    } else {
        None
    }
}

/// Replace the matches that the flags select. Returns the new text and whether
/// any replacement was made.
pub fn replace_matches(
    text: &str,
    matches: &Vec<Vec<Option<(usize, usize)>>>,
    replacement: &str,
    global: bool,
    nth: Option<usize>,
) -> (r: (String, bool))
    requires
        spans_fit(span_lists(matches@), text@),
    ensures
        match substituted(text@, span_lists(matches@), replacement@, global, nth) {
            Some(new) => r.1 && r.0@ == new,
            None => !r.1 && r.0@ == text@,
        },
{
    let ghost lists = span_lists(matches@);
    let ghost size = encode_utf8(text@).len() as int;
    let ghost all = spliced(text@, lists, 0, 0, replacement@, global, nth);
    let mut result = String::new();
    let mut last_end: usize = 0;
    let mut made_substitution = false;
    let mut k: usize = 0;
    proof {
        lemma_slice_whole(text@);
        assert(result@ + all =~= all);
    }
    while k < matches.len()
        invariant
            k <= matches.len(),
            lists == span_lists(matches@),
            spans_fit(lists, text@),
            size == encode_utf8(text@).len(),
            last_end <= size,
            is_char_boundary(encode_utf8(text@), last_end as int),
            forall|j: int|
                k <= j < lists.len() ==> last_end <= whole(#[trigger] lists[j]).0,
            result@ + spliced(
                text@,
                lists,
                k as int,
                last_end as int,
                replacement@,
                global,
                nth,
            ) == all,
            made_substitution == any_replaced(k as int, global, nth),
            !made_substitution ==> last_end == 0 && result@.len() == 0,
        decreases matches.len() - k,
    {
        let ghost done = result@;
        let ghost rest = spliced(
            text@,
            lists,
            k as int,
            last_end as int,
            replacement@,
            global,
            nth,
        );
        let groups = &matches[k];
        assert(lists[k as int] == groups@);
        assert(match_fits(lists[k as int], text@));
        let should_replace = match nth {
            Some(n) => k + 1 == n || (global && 0 < n && n < k + 1),
            None => global || k == 0,
        };
        if should_replace {
            if let Some((start, end)) = groups[0] {
                assert(span_fits((start, end), text@));
                assert(last_end <= whole(lists[k as int]).0);
                result.append(cut(text, last_end, start));
                apply_sed_replacement(text, groups, replacement, &mut result);
                last_end = end;
                made_substitution = true;
                assert(result@ + spliced(
                    text@,
                    lists,
                    k + 1,
                    last_end as int,
                    replacement@,
                    global,
                    nth,
                ) =~= done + rest);
            }
        }
        k = k + 1;
    }
    let ghost done = result@;
    let text_end: usize = text.as_bytes().len();
    result.append(cut(text, last_end, text_end));
    proof {
        assert(result@ =~= all);
        if !made_substitution {
            assert(done =~= Seq::empty());
            assert(result@ =~= text@);
        }
    }
    (result, made_substitution)
}

/// What a substitution makes of a text, if it replaces anything.
pub open spec fn substitution(
    pattern: PatternModel,
    text: Seq<char>,
    template: Seq<char>,
    global: bool,
    nth: Option<usize>,
) -> Option<Seq<char>> {
    substituted(text, pattern.spans(text), template, global, nth)
}

/// Apply a substitution. Returns the new text and whether any replacement was
/// made.
pub fn apply_substitution(
    pattern: &Pattern,
    text: &str,
    replacement: &str,
    global: bool,
    nth: Option<usize>,
) -> (r: (String, bool))
    ensures
        match substitution(pattern@, text@, replacement@, global, nth) {
            Some(new) => r.1 && r.0@ == new,
            None => !r.1 && r.0@ == text@,
        },
        r.1 ==> pattern@.finds(text@),
        nth is None ==> r.1 == pattern@.finds(text@),
{
    let matches = pattern.captures(text);
    replace_matches(text, &matches, replacement, global, nth)
}

// ---------------------------------------------------------------------------
// Laws
// ---------------------------------------------------------------------------

/// The replacement `&` puts each match back in its place: the text stays as it
/// was, whichever matches are replaced.
pub proof fn law_ampersand_keeps_the_text(
    text: Seq<char>,
    matches: Seq<Seq<Option<(usize, usize)>>>,
    global: bool,
    nth: Option<usize>,
)
    requires
        spans_fit(matches, text),
    ensures
        substituted(text, matches, seq!['&'], global, nth) matches Some(new) ==> new == text,
{
    lemma_slice_whole(text);
    lemma_ampersand_from(text, matches, 0, 0, global, nth);
}

proof fn lemma_ampersand_from(
    text: Seq<char>,
    matches: Seq<Seq<Option<(usize, usize)>>>,
    k: int,
    from: int,
    global: bool,
    nth: Option<usize>,
)
    requires
        spans_fit(matches, text),
        0 <= k <= matches.len(),
        0 <= from <= encode_utf8(text).len(),
        is_char_boundary(encode_utf8(text), from),
        forall|j: int| k <= j < matches.len() ==> from <= whole(#[trigger] matches[j]).0,
    ensures
        spliced(text, matches, k, from, seq!['&'], global, nth) == slice(
            text,
            from,
            encode_utf8(text).len() as int,
        ),
    decreases matches.len() - k,
{
    if k < matches.len() {
        let size = encode_utf8(text).len() as int;
        assert(match_fits(matches[k], text));
        let (start, end) = whole(matches[k]);
        assert(matches[k][0] == Some((start, end)));
        assert(span_fits((start, end), text));
        lemma_slice_whole(text);
        if is_replaced(k + 1, global, nth) {
            lemma_ampersand_from(text, matches, k + 1, end as int, global, nth);
            let groups = group_texts(text, matches[k]);
            assert(expand(seq!['&'], 0, groups) =~= slice(text, start as int, end as int)) by {
                assert(expand(seq!['&'], 1, groups) =~= Seq::<char>::empty());
            }
            lemma_slice_join(text, from, start as int, end as int);
            lemma_slice_join(text, from, end as int, size);
        } else {
            lemma_ampersand_from(text, matches, k + 1, from, global, nth);
        }
    }
}

/// A replacement without backslash and `&` stands for itself.
pub proof fn law_plain_replacement(template: Seq<char>, groups: Seq<Option<Seq<char>>>)
    requires
        forall|i: int|
            0 <= i < template.len() ==> #[trigger] template[i] != '\\' && template[i] != '&',
    ensures
        expand(template, 0, groups) == template,
{
    lemma_plain_from(template, 0, groups);
    assert(template.subrange(0, template.len() as int) =~= template);
}

proof fn lemma_plain_from(template: Seq<char>, i: int, groups: Seq<Option<Seq<char>>>)
    requires
        0 <= i <= template.len(),
        forall|k: int|
            0 <= k < template.len() ==> #[trigger] template[k] != '\\' && template[k] != '&',
    ensures
        expand(template, i, groups) == template.subrange(i, template.len() as int),
    decreases template.len() - i,
{
    if i < template.len() {
        lemma_plain_from(template, i + 1, groups);
        assert(template.subrange(i, template.len() as int) =~= seq![template[i]]
            + template.subrange(i + 1, template.len() as int));
    }
}

/// Without flags exactly the first match is replaced; with `g` every match;
/// with a number `n` above zero the `n`-th alone, and with `g` those after it
/// too.
pub proof fn law_flags(k: int, n: usize)
    requires
        k > 0,
    ensures
        is_replaced(k, false, None) <==> k == 1,
        is_replaced(k, true, None),
        is_replaced(k, false, Some(n)) <==> k == n,
        n > 0 ==> (is_replaced(k, true, Some(n)) <==> n <= k),
{
}

} // verus!
