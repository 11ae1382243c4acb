//! What a replacement stands for, and which matches it takes the place of.

use vstd::prelude::*;
use vstd::utf8::{
    decode_utf8_encode_utf8, encode_utf8, encode_utf8_valid_utf8, is_char_boundary,
    valid_utf8_split,
};

use crate::pattern::{match_fits, span_fits, spans_fit, whole};
use crate::substitute::{
    expand, group_texts, is_replaced, lemma_boundary_before, lemma_slice_join, lemma_slice_whole,
    slice, spliced, substituted,
};

verus! {

// ---------------------------------------------------------------------------
// Replacements
// ---------------------------------------------------------------------------

/// What a replacement is made of.
pub enum Piece {
    /// The whole match
    Whole,
    /// The capture group with this digit
    Group(char),
    /// This character
    Literal(char),
    /// A newline, as an escape
    Newline,
    /// A tab, as an escape
    Tab,
    /// A backslash and this character, which mean nothing together
    Kept(char),
}

/// Whether a piece can be written.
pub open spec fn is_piece(piece: Piece) -> bool {
    match piece {
        Piece::Group(d) => '0' <= d <= '9',
        Piece::Kept(c) => !('0' <= c <= '9') && c != 'n' && c != 't' && c != '\\' && c != '&',
        _ => true,
    }
}

/// How a piece is written in a replacement.
pub open spec fn piece_written(piece: Piece) -> Seq<char> {
    match piece {
        Piece::Whole => seq!['&'],
        Piece::Group(d) => seq!['\\', d],
        Piece::Literal(c) => if c == '&' || c == '\\' {
            seq!['\\', c]
        } else {
            seq![c]
        },
        Piece::Newline => seq!['\\', 'n'],
        Piece::Tab => seq!['\\', 't'],
        Piece::Kept(c) => seq!['\\', c],
    }
}

/// The text of a capture group that took part in the match; nothing of one that
/// did not, or that there is none of.
pub open spec fn group_or_nothing(groups: Seq<Option<Seq<char>>>, n: int) -> Seq<char> {
    if n < groups.len() {
        match groups[n] {
            Some(text) => text,
            None => Seq::empty(),
        }
    } else {
        Seq::empty()
    }
}

/// What a piece stands for, given the capture groups of the match.
pub open spec fn piece_meant(piece: Piece, groups: Seq<Option<Seq<char>>>) -> Seq<char> {
    match piece {
        Piece::Whole => group_or_nothing(groups, 0),
        Piece::Group(d) => group_or_nothing(groups, d as int - '0' as int),
        Piece::Literal(c) => seq![c],
        Piece::Newline => seq!['\n'],
        Piece::Tab => seq!['\t'],
        Piece::Kept(c) => seq!['\\', c],
    }
}

/// How pieces are written one after the other.
pub open spec fn pieces_written(pieces: Seq<Piece>) -> Seq<char>
    decreases pieces.len(),
{
    if pieces.len() == 0 {
        Seq::empty()
    } else {
        piece_written(pieces[0]) + pieces_written(pieces.drop_first())
    }
}

/// What pieces stand for one after the other.
pub open spec fn pieces_meant(pieces: Seq<Piece>, groups: Seq<Option<Seq<char>>>) -> Seq<char>
    decreases pieces.len(),
{
    if pieces.len() == 0 {
        Seq::empty()
    } else {
        piece_meant(pieces[0], groups) + pieces_meant(pieces.drop_first(), groups)
    }
}

/// A backslash and a digit stand for the text of the capture group with that
/// number, for every digit, and for nothing where the group took no part in the
/// match or there is none of that number.
pub proof fn law_group_reference(digit: char, groups: Seq<Option<Seq<char>>>)
    requires
        '0' <= digit <= '9',
    ensures
        ({
            let n = digit as int - '0' as int;
            let expanded = expand(seq!['\\', digit], 0, groups);
            &&& n < groups.len() && groups[n] is Some ==> Some(expanded) == groups[n]
            &&& n >= groups.len() || groups[n] is None ==> expanded == Seq::<char>::empty()
        }),
{
    let template = seq!['\\', digit];
    assert(expand(template, 2, groups) =~= Seq::empty());
    let n = digit as int - '0' as int;
    if n < groups.len() && groups[n] is Some {
        assert(expand(template, 0, groups) =~= groups[n]->0);
    }
}

proof fn lemma_expand_behind(a: Seq<char>, b: Seq<char>, i: int, groups: Seq<Option<Seq<char>>>)
    requires
        0 <= i <= b.len(),
    ensures
        expand(a + b, a.len() + i, groups) == expand(b, i, groups),
    decreases b.len() - i,
{
    if i < b.len() {
        lemma_expand_behind(a, b, i + 1, groups);
        assert((a + b)[a.len() + i] == b[i]);
        if i + 1 < b.len() {
            lemma_expand_behind(a, b, i + 2, groups);
            assert((a + b)[a.len() + i + 1] == b[i + 1]);
        }
    }
}

proof fn lemma_expand_front(a: Seq<char>, b: Seq<char>, i: int, groups: Seq<Option<Seq<char>>>)
    requires
        0 <= i <= a.len(),
        a.len() > 0 ==> a.last() != '\\',
    ensures
        expand(a + b, i, groups) == expand(a, i, groups) + expand(b, 0, groups),
    decreases a.len() - i,
{
    if i == a.len() {
        lemma_expand_behind(a, b, 0, groups);
        assert(expand(a, i, groups) + expand(b, 0, groups) =~= expand(b, 0, groups));
    } else {
        lemma_expand_front(a, b, i + 1, groups);
        assert((a + b)[i] == a[i]);
        if i + 1 < a.len() {
            lemma_expand_front(a, b, i + 2, groups);
            assert((a + b)[i + 1] == a[i + 1]);
        } else {
            assert(a[i] == a.last());
        }
        assert(expand(a + b, i, groups) =~= expand(a, i, groups) + expand(b, 0, groups));
    }
}

/// A replacement that is cut in two, anywhere but behind a backslash, stands for
/// what the first part and then what the second part stands for.
pub proof fn law_expansion_is_by_parts(
    a: Seq<char>,
    b: Seq<char>,
    groups: Seq<Option<Seq<char>>>,
)
    requires
        a.len() > 0 ==> a.last() != '\\',
    ensures
        expand(a + b, 0, groups) == expand(a, 0, groups) + expand(b, 0, groups),
{
    lemma_expand_front(a, b, 0, groups);
}

proof fn lemma_piece(all: Seq<char>, start: int, piece: Piece, groups: Seq<Option<Seq<char>>>)
    requires
        is_piece(piece),
        0 <= start,
        start + piece_written(piece).len() <= all.len(),
        all.subrange(start, start + piece_written(piece).len()) == piece_written(piece),
    ensures
        expand(all, start, groups) == piece_meant(piece, groups) + expand(
            all,
            start + piece_written(piece).len(),
            groups,
        ),
{
    let first = piece_written(piece);
    let there = all.subrange(start, start + first.len());
    assert(all[start] == there[0]);
    if first.len() > 1 {
        assert(all[start + 1] == there[1]);
    }
    if let Piece::Kept(c) = piece {
        let rest = expand(all, start + 2, groups);
        assert(expand(all, start + 1, groups) == seq![c] + rest);
        assert(expand(all, start, groups) =~= piece_meant(piece, groups) + rest);
    }
}

proof fn lemma_pieces_from(
    before: Seq<char>,
    pieces: Seq<Piece>,
    tail: Seq<char>,
    groups: Seq<Option<Seq<char>>>,
)
    requires
        forall|i: int| 0 <= i < pieces.len() ==> is_piece(#[trigger] pieces[i]),
        tail == Seq::<char>::empty() || tail == seq!['\\'],
    ensures
        expand(before + pieces_written(pieces) + tail, before.len() as int, groups)
            == pieces_meant(pieces, groups) + tail,
    decreases pieces.len(),
{
    let all = before + pieces_written(pieces) + tail;
    let start = before.len() as int;
    if pieces.len() == 0 {
        assert(all =~= before + tail);
        if tail.len() > 0 {
            assert(all[start] == '\\');
            assert(expand(all, start + 1, groups) =~= Seq::empty());
        }
        assert(expand(all, start, groups) =~= pieces_meant(pieces, groups) + tail);
    } else {
        let piece = pieces[0];
        let first = piece_written(piece);
        let rest = pieces.drop_first();
        assert forall|i: int| 0 <= i < rest.len() implies is_piece(#[trigger] rest[i]) by {
            assert(rest[i] == pieces[i + 1]);
        }
        lemma_pieces_from(before + first, rest, tail, groups);
        assert(all =~= (before + first) + pieces_written(rest) + tail);
        assert(all.subrange(start, start + first.len()) =~= first);
        lemma_piece(all, start, piece, groups);
        assert(expand(all, start, groups) =~= pieces_meant(pieces, groups) + tail);
    }
}

/// A replacement stands for what its pieces stand for one after the other: `&`
/// for the whole match, a backslash and a digit for a capture group, `\n` and `\t`
/// for newline and tab, `\\` and `\&` for the second character. Every other
/// character stands for itself, and so does a backslash in front of it, or at the
/// end.
pub proof fn law_replacement_stands_for_its_pieces(
    pieces: Seq<Piece>,
    groups: Seq<Option<Seq<char>>>,
)
    requires
        forall|i: int| 0 <= i < pieces.len() ==> is_piece(#[trigger] pieces[i]),
    ensures
        expand(pieces_written(pieces), 0, groups) == pieces_meant(pieces, groups),
        expand(pieces_written(pieces) + seq!['\\'], 0, groups) == pieces_meant(pieces, groups)
            + seq!['\\'],
{
    let none = Seq::<char>::empty();
    lemma_pieces_from(none, pieces, none, groups);
    lemma_pieces_from(none, pieces, seq!['\\'], groups);
    assert(none + pieces_written(pieces) + none =~= pieces_written(pieces));
    assert(none + pieces_written(pieces) + seq!['\\'] =~= pieces_written(pieces) + seq!['\\']);
    assert(pieces_meant(pieces, groups) + none =~= pieces_meant(pieces, groups));
}

// ---------------------------------------------------------------------------
// Matches
// ---------------------------------------------------------------------------

/// The text of a capture group has the bytes of the text between the offsets of
/// the group, and one that took no part in the match has no text.
pub proof fn law_group_texts(text: Seq<char>, groups: Seq<Option<(usize, usize)>>, g: int)
    requires
        match_fits(groups, text),
        0 <= g < groups.len(),
    ensures
        group_texts(text, groups).len() == groups.len(),
        groups[g] is None ==> group_texts(text, groups)[g] is None,
        groups[g] matches Some(span) ==> {
            &&& group_texts(text, groups)[g] is Some
            &&& encode_utf8(group_texts(text, groups)[g]->0) == encode_utf8(text).subrange(
                span.0 as int,
                span.1 as int,
            )
        },
{
    if let Some(span) = groups[g] {
        assert(span_fits(span, text));
        lemma_slice_bytes(text, span.0 as int, span.1 as int);
    }
}

proof fn lemma_slice_bytes(text: Seq<char>, start: int, end: int)
    requires
        0 <= start <= end <= encode_utf8(text).len(),
        is_char_boundary(encode_utf8(text), start),
        is_char_boundary(encode_utf8(text), end),
    ensures
        encode_utf8(slice(text, start, end)) == encode_utf8(text).subrange(start, end),
{
    let bytes = encode_utf8(text);
    encode_utf8_valid_utf8(text);
    let front = bytes.subrange(0, end);
    valid_utf8_split(bytes, end);
    lemma_boundary_before(bytes, start, end);
    valid_utf8_split(front, start);
    assert(front.subrange(start, front.len() as int) =~= bytes.subrange(start, end));
    decode_utf8_encode_utf8(bytes.subrange(start, end));
}

/// Whether match number `k`, counted from 1, is one that the flags ask for: the
/// first without flags, every one with `g`, the `n`-th with a number, and with both
/// the `n`-th and all after it. There is no match number 0.
pub open spec fn is_asked_for(k: int, global: bool, nth: Option<usize>) -> bool {
    match (global, nth) {
        (false, None) => k == 1,
        (true, None) => true,
        (false, Some(n)) => k == n,
        (true, Some(n)) => 1 <= n <= k,
    }
}

/// Where the text before match number `k`, counted from 0, starts.
pub open spec fn gap_start(matches: Seq<Seq<Option<(usize, usize)>>>, k: int) -> int {
    if k == 0 {
        0
    } else {
        whole(matches[k - 1]).1 as int
    }
}

/// Where the text before match number `k`, counted from 0, or behind the last
/// match, ends.
pub open spec fn gap_end(
    text: Seq<char>,
    matches: Seq<Seq<Option<(usize, usize)>>>,
    k: int,
) -> int {
    if k < matches.len() {
        whole(matches[k]).0 as int
    } else {
        encode_utf8(text).len() as int
    }
}

/// The new text in its parts: by turns what stands before a match, and what takes
/// its place, or the match itself where the flags do not ask for it. What stands
/// behind the last match comes last.
pub open spec fn new_parts(
    text: Seq<char>,
    matches: Seq<Seq<Option<(usize, usize)>>>,
    template: Seq<char>,
    global: bool,
    nth: Option<usize>,
) -> Seq<Seq<char>> {
    Seq::new(
        2 * matches.len() + 1,
        |j: int|
            if j % 2 == 0 {
                slice(text, gap_start(matches, j / 2), gap_end(text, matches, j / 2))
            } else if is_asked_for(j / 2 + 1, global, nth) {
                expand(template, 0, group_texts(text, matches[j / 2]))
            } else {
                slice(text, whole(matches[j / 2]).0 as int, whole(matches[j / 2]).1 as int)
            },
    )
}

proof fn lemma_slice_empty(text: Seq<char>, at: int)
    ensures
        0 <= at <= encode_utf8(text).len() ==> slice(text, at, at) == Seq::<char>::empty(),
{
    if 0 <= at <= encode_utf8(text).len() {
        assert(encode_utf8(text).subrange(at, at) =~= Seq::<u8>::empty());
        let none = Seq::<char>::empty();
        assert(encode_utf8(none) =~= Seq::<u8>::empty());
        vstd::utf8::encode_utf8_decode_utf8(none);
    }
}

proof fn lemma_parts_from(
    text: Seq<char>,
    matches: Seq<Seq<Option<(usize, usize)>>>,
    k: int,
    from: int,
    template: Seq<char>,
    global: bool,
    nth: Option<usize>,
)
    requires
        spans_fit(matches, text),
        0 <= k <= matches.len(),
        0 <= from <= gap_start(matches, k),
        is_char_boundary(encode_utf8(text), from),
    ensures
        spliced(text, matches, k, from, template, global, nth) == slice(
            text,
            from,
            gap_start(matches, k),
        ) + new_parts(text, matches, template, global, nth).skip(2 * k).flatten(),
    decreases matches.len() - k,
{
    let parts = new_parts(text, matches, template, global, nth);
    let here = gap_start(matches, k);
    let next = gap_end(text, matches, k);
    let size = encode_utf8(text).len() as int;
    lemma_slice_whole(text);
    if k > 0 {
        assert(match_fits(matches[k - 1], text));
        assert(matches[k - 1][0] == Some(whole(matches[k - 1])));
        assert(span_fits(whole(matches[k - 1]), text));
    }
    if k < matches.len() {
        assert(match_fits(matches[k], text));
        assert(matches[k][0] == Some(whole(matches[k])));
        assert(span_fits(whole(matches[k]), text));
        if k > 0 {
            assert(whole(matches[k - 1]).1 <= whole(matches[k]).0);
        }
    }
    let rest = parts.skip(2 * k);
    assert(rest[0] == slice(text, here, next));
    lemma_slice_join(text, from, here, next);
    if k == matches.len() {
        assert(rest.drop_first() =~= Seq::empty());
        assert(rest.drop_first().flatten() =~= Seq::empty());
        assert(rest.flatten() =~= slice(text, here, size));
    } else {
        let end = whole(matches[k]).1 as int;
        assert(rest.drop_first().drop_first() =~= parts.skip(2 * (k + 1)));
        assert(rest.drop_first()[0] == parts[2 * k + 1]);
        let tail = parts.skip(2 * (k + 1)).flatten();
        assert(rest.flatten() =~= rest[0] + (parts[2 * k + 1] + tail)) by {
            assert(rest.drop_first().flatten() == parts[2 * k + 1] + tail);
        }
        assert(is_replaced(k + 1, global, nth) == is_asked_for(k + 1, global, nth));
        if is_asked_for(k + 1, global, nth) {
            lemma_parts_from(text, matches, k + 1, end, template, global, nth);
            lemma_slice_empty(text, end);
            assert(spliced(text, matches, k, from, template, global, nth) =~= slice(
                text,
                from,
                here,
            ) + rest.flatten());
        } else {
            lemma_parts_from(text, matches, k + 1, from, template, global, nth);
            lemma_slice_join(text, from, next, end);
            assert(spliced(text, matches, k, from, template, global, nth) =~= slice(
                text,
                from,
                here,
            ) + rest.flatten());
        }
    }
}

/// A substitution is made exactly if there is a match that the flags ask for. The
/// new text is then the old one with each such match replaced; the other matches,
/// and all that stands between matches, stay as they are and where they are.
pub proof fn law_substitution(
    text: Seq<char>,
    matches: Seq<Seq<Option<(usize, usize)>>>,
    template: Seq<char>,
    global: bool,
    nth: Option<usize>,
)
    requires
        spans_fit(matches, text),
    ensures
        substituted(text, matches, template, global, nth) is Some <==> exists|k: int|
            1 <= k <= matches.len() && #[trigger] is_asked_for(k, global, nth),
        substituted(text, matches, template, global, nth) matches Some(new) ==> new == new_parts(
            text,
            matches,
            template,
            global,
            nth,
        ).flatten(),
{
    lemma_slice_whole(text);
    lemma_parts_from(text, matches, 0, 0, template, global, nth);
    lemma_slice_empty(text, 0);
    let parts = new_parts(text, matches, template, global, nth);
    assert(parts.skip(0) =~= parts);
    assert(Seq::<char>::empty() + parts.flatten() =~= parts.flatten());
    match nth {
        None => {
            if matches.len() > 0 {
                assert(is_asked_for(1, global, nth));
            }
        },
        Some(n) => {
            if 1 <= n <= matches.len() {
                assert(is_asked_for(n as int, global, nth));
            }
        },
    }
}

/// Where nothing is left of the text but one match, the new text is what the
/// replacement stands for; where it stands for the match again the text stays.
pub proof fn law_one_match_is_all(
    text: Seq<char>,
    groups: Seq<Option<(usize, usize)>>,
    template: Seq<char>,
    global: bool,
)
    requires
        match_fits(groups, text),
        groups[0] == Some((0usize, encode_utf8(text).len() as usize)),
        encode_utf8(text).len() <= usize::MAX,
    ensures
        substituted(text, seq![groups], template, global, None) == Some(
            expand(template, 0, group_texts(text, groups)),
        ),
{
    let matches = seq![groups];
    let size = encode_utf8(text).len() as int;
    law_substitution(text, matches, template, global, None);
    assert(is_asked_for(1, global, None));
    let parts = new_parts(text, matches, template, global, None);
    let expanded = expand(template, 0, group_texts(text, groups));
    lemma_slice_empty(text, 0);
    lemma_slice_empty(text, size);
    assert(parts =~= seq![Seq::empty(), expanded, Seq::empty()]);
    reveal_with_fuel(Seq::flatten, 4);
    assert(parts.flatten() =~= expanded);
}

} // verus!
