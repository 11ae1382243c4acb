//! Reading lines, one ahead, so that the last one is known when it is read.

use vstd::prelude::*;
use vstd::utf8::{
    decode_utf8, encode_scalar, encode_utf8, encode_utf8_decode_utf8,
    encode_utf8_first_scalar, encode_utf8_valid_utf8, has_width_1_encoding,
    is_leading_byte_width_1, length_of_first_scalar, valid_utf8,
};

use crate::error::{Error, Result};
use crate::machine::{lemma_lines_first, line, lines, Config, Source};
use crate::text::{char_vec, string_of};

verus! {

// ---------------------------------------------------------------------------
// What the standard library provides
// ---------------------------------------------------------------------------

/// `String::from_utf8` takes exactly the bytes that are UTF-8, and gives the
/// text that they encode.
#[verifier::external_body]
fn text_from_utf8(bytes: Vec<u8>) -> (r: Option<String>)
    ensures
        match r {
            Some(text) => valid_utf8(bytes@) && text@ == decode_utf8(bytes@),
            None => !valid_utf8(bytes@),
        },
{
    String::from_utf8(bytes).ok()
}

/// What `String::from_utf8_lossy` makes of bytes.
pub uninterp spec fn utf8_lossy(bytes: Seq<u8>) -> Seq<char>;

/// `String::from_utf8_lossy` depends on the bytes alone. Bytes that are UTF-8
/// give the text that they encode; in others, what is no part of a character is
/// replaced.
#[verifier::external_body]
pub(crate) fn text_from_utf8_lossy(bytes: &Vec<u8>) -> (r: String)
    ensures
        r@ == utf8_lossy(bytes@),
        valid_utf8(bytes@) ==> r@ == decode_utf8(bytes@),
{
    String::from_utf8_lossy(bytes).into_owned()
}

/// The text that bytes hold: the one that they encode or, where they are not
/// UTF-8, what is left when the rest of them is replaced.
pub open spec fn replaced_text(bytes: Seq<u8>) -> Seq<char> {
    if valid_utf8(bytes) {
        decode_utf8(bytes)
    } else {
        utf8_lossy(bytes)
    }
}

// ---------------------------------------------------------------------------
// Records
// ---------------------------------------------------------------------------

/// The byte that ends a record.
pub open spec fn delimiter(null_data: bool) -> u8 {
    if null_data {
        0
    } else {
        0x0A
    }
}

/// Say which byte ends a record.
pub fn record_delimiter(null_data: bool) -> (r: u8)
    ensures
        r == delimiter(null_data),
{
    if null_data {
        0
    } else {
        0x0A
    }
}

/// Where the record that starts at `i` ends: behind its delimiter, or at the
/// end of the data.
pub open spec fn record_end(data: Seq<u8>, i: int, null_data: bool) -> int
    decreases data.len() - i,
{
    if !(0 <= i < data.len()) {
        i
    } else if data[i] == delimiter(null_data) {
        i + 1
    } else {
        record_end(data, i + 1, null_data)
    }
}

pub proof fn lemma_record_end(data: Seq<u8>, i: int, null_data: bool)
    requires
        0 <= i <= data.len(),
    ensures
        i <= record_end(data, i, null_data) <= data.len(),
        i < data.len() ==> i < record_end(data, i, null_data),
        forall|k: int|
            i <= k < record_end(data, i, null_data) - 1 ==> #[trigger] data[k] != delimiter(
                null_data,
            ),
        record_end(data, i, null_data) < data.len() ==> data[record_end(data, i, null_data) - 1]
            == delimiter(null_data),
    decreases data.len() - i,
{
    if i < data.len() && data[i] != delimiter(null_data) {
        lemma_record_end(data, i + 1, null_data);
    }
}

/// Where the record number `n` starts, counted from zero.
pub open spec fn record_start(data: Seq<u8>, n: nat, null_data: bool) -> int
    decreases n,
{
    if n == 0 {
        0
    } else {
        record_end(data, record_start(data, (n - 1) as nat, null_data), null_data)
    }
}

pub proof fn lemma_record_start(data: Seq<u8>, n: nat, null_data: bool)
    ensures
        0 <= record_start(data, n, null_data) <= data.len(),
    decreases n,
{
    if n > 0 {
        lemma_record_start(data, (n - 1) as nat, null_data);
        lemma_record_end(data, record_start(data, (n - 1) as nat, null_data), null_data);
    }
}

/// The record number `n`, counted from zero, if there are so many.
pub open spec fn record_at(data: Seq<u8>, n: nat, null_data: bool) -> Option<Seq<u8>> {
    let start = record_start(data, n, null_data);
    if start < data.len() {
        Some(data.subrange(start, record_end(data, start, null_data)))
    } else {
        None
    }
}

/// The text without its line ending (LF or CRLF).
pub open spec fn chomped(text: Seq<char>) -> Seq<char> {
    if text.len() > 0 && text.last() == '\n' {
        let line = text.drop_last();
        if line.len() > 0 && line.last() == '\r' {
            line.drop_last()
        } else {
            line
        }
    } else {
        text
    }
}

/// The bytes without a NUL at their end.
pub open spec fn without_nul(bytes: Seq<u8>) -> Seq<u8> {
    if bytes.len() > 0 && bytes.last() == 0 {
        bytes.drop_last()
    } else {
        bytes
    }
}

/// The line that a record holds. One that ends in a newline has to be UTF-8; in
/// one that ends in NUL, what is not UTF-8 is replaced.
pub open spec fn record_text(record: Seq<u8>, null_data: bool) -> Option<Seq<char>> {
    if null_data {
        Some(replaced_text(without_nul(record)))
    } else if valid_utf8(record) {
        Some(chomped(decode_utf8(record)))
    } else {
        None
    }
}

/// The lines from `i` on, up to the first that is not UTF-8.
pub open spec fn lines_from(data: Seq<u8>, i: int, null_data: bool) -> Seq<Seq<char>>
    decreases data.len() - i,
{
    if !(0 <= i < data.len()) {
        Seq::empty()
    } else {
        let end = record_end(data, i, null_data);
        proof {
            lemma_record_end(data, i, null_data);
        }
        match record_text(data.subrange(i, end), null_data) {
            Some(text) => seq![text] + lines_from(data, end, null_data),
            None => Seq::empty(),
        }
    }
}

/// Whether a line from `i` on is not UTF-8.
pub open spec fn broken_from(data: Seq<u8>, i: int, null_data: bool) -> bool
    decreases data.len() - i,
{
    if !(0 <= i < data.len()) {
        false
    } else {
        let end = record_end(data, i, null_data);
        proof {
            lemma_record_end(data, i, null_data);
        }
        match record_text(data.subrange(i, end), null_data) {
            Some(_) => broken_from(data, end, null_data),
            None => true,
        }
    }
}

/// The lines of some data. Data whose first line is not UTF-8 reads as empty.
pub open spec fn source(data: Seq<u8>, null_data: bool) -> Source {
    let lines = lines_from(data, 0, null_data);
    Source { lines, broken: lines.len() > 0 && broken_from(data, 0, null_data) }
}

/// There are no more lines than bytes.
pub proof fn lemma_lines_from_len(data: Seq<u8>, i: int, null_data: bool)
    requires
        0 <= i <= data.len(),
    ensures
        lines_from(data, i, null_data).len() <= data.len() - i,
    decreases data.len() - i,
{
    if i < data.len() {
        let end = record_end(data, i, null_data);
        lemma_record_end(data, i, null_data);
        lemma_lines_from_len(data, end, null_data);
    }
}

/// Remove the line ending (LF or CRLF) from a line.
pub fn chomp(s: &str) -> (r: String)
    ensures
        r@ == chomped(s@),
{
    let chars = char_vec(s);
    let mut n: usize = chars.len();
    if n > 0 && chars[n - 1] == '\n' {
        n = n - 1;
        if n > 0 && chars[n - 1] == '\r' {
            n = n - 1;
        }
    }
    let r = string_of(&chars, 0, n);
    assert(r@ =~= chomped(s@));
    r
}

/// Read the line that a record holds, if it is text.
pub fn decode_record(record: Vec<u8>, null_data: bool) -> (r: Option<String>)
    ensures
        match r {
            Some(text) => record_text(record@, null_data) == Some(text@),
            None => record_text(record@, null_data) is None,
        },
{
    if null_data {
        let mut bytes = record;
        if bytes.len() > 0 && bytes[bytes.len() - 1] == 0 {
            bytes.pop();
        }
        assert(bytes@ =~= without_nul(record@));
        Some(text_from_utf8_lossy(&bytes))
    } else {
        match text_from_utf8(record) {
            Some(text) => Some(chomp(text.as_str())),
            None => None,
        }
    }
}

// ---------------------------------------------------------------------------
// Line reader with lookahead (to detect the last line for the $ address)
// ---------------------------------------------------------------------------

/// Holds back one line until it is known whether it is the last.
pub struct LineReader {
    pending: Option<String>,
    null_data: bool,
}

impl LineReader {
    /// The line that is held back.
    pub closed spec fn pending(self) -> Option<Seq<char>> {
        crate::text::text_of(self.pending)
    }

    /// Whether records end in NUL.
    pub closed spec fn null_data(self) -> bool {
        self.null_data
    }

    /// A reader that was given the first record. A first record that is not
    /// text counts as the end of the input.
    pub fn new(first: Option<Vec<u8>>, null_data: bool) -> (r: LineReader)
        ensures
            r.null_data() == null_data,
            r.pending() == (match first {
                Some(record) => record_text(record@, null_data),
                None => None,
            }),
    {
        let pending = match first {
            Some(record) => decode_record(record, null_data),
            None => None,
        };
        LineReader { pending, null_data }
    }

    /// Whether the next line is there. If it is, the reader asks for the record
    /// after it.
    pub fn has_line(&self) -> (r: bool)
        ensures
            r == (self.pending() is Some),
    {
        self.pending.is_some()
    }

    /// Give out the line that was held back, with whether it is the last, and
    /// hold back the next. Without a line there is nothing to give.
    pub fn read_line(&mut self, next: Option<Vec<u8>>) -> (r: Result<Option<(String, bool)>>)
        ensures
            final(self).null_data() == old(self).null_data(),
            match old(self).pending() {
                None => {
                    &&& r matches Ok(None)
                    &&& final(self).pending() is None
                },
                Some(line) => match next {
                    None => {
                        &&& r matches Ok(Some((text, true)))
                        &&& r->Ok_0->Some_0.0@ == line
                        &&& final(self).pending() is None
                    },
                    Some(record) => match record_text(record@, old(self).null_data()) {
                        Some(held) => {
                            &&& r matches Ok(Some((text, false)))
                            &&& r->Ok_0->Some_0.0@ == line
                            &&& final(self).pending() == Some(held)
                        },
                        None => {
                            &&& r == Err::<Option<(String, bool)>, _>(Error::InvalidUtf8)
                            &&& final(self).pending() is None
                        },
                    },
                },
            },
    {
        let current = match self.pending.take() {
            Some(line) => line,
            None => return Ok(None),
        };
        match next {
            None => Ok(Some((current, true))),
            Some(record) => match decode_record(record, self.null_data) {
                Some(text) => {
                    self.pending = Some(text);
                    Ok(Some((current, false)))
                },
                None => Err(Error::InvalidUtf8),
            },
        }
    }
}

// ---------------------------------------------------------------------------
// Lines of data in memory
// ---------------------------------------------------------------------------

/// Where in some data the lines are read.
pub struct Lines<'a> {
    data: &'a [u8],
    pos: usize,
    reader: LineReader,
}

impl<'a> Lines<'a> {
    /// The place is one in the data.
    pub closed spec fn wf(self) -> bool {
        self.pos <= self.data@.len()
    }

    /// What is left to read.
    pub closed spec fn source(self) -> Source {
        match self.reader.pending() {
            Some(line) => Source {
                lines: seq![line] + lines_from(
                    self.data@,
                    self.pos as int,
                    self.reader.null_data(),
                ),
                broken: broken_from(self.data@, self.pos as int, self.reader.null_data()),
            },
            None => Source { lines: Seq::empty(), broken: false },
        }
    }

    /// The lines of `data`.
    pub fn new(data: &'a [u8], null_data: bool) -> (r: Lines<'a>)
        ensures
            r.wf(),
            r.source() == source(data@, null_data),
            r.source().lines.len() <= usize::MAX,
    {
        let (first, pos) = next_record(data, 0, null_data);
        let reader = LineReader::new(first, null_data);
        let r = Lines { data, pos, reader };
        proof {
            lemma_lines_from_len(data@, 0, null_data);
        }
        assert(r.source() =~= source(data@, null_data));
        r
    }

    /// Read the next line, with whether it is the last.
    pub fn next(&mut self) -> (r: Result<Option<(String, bool)>>)
        requires
            old(self).wf(),
        ensures
            final(self).wf(),
            match r {
                Err(e) => old(self).source().fails() && e == Error::InvalidUtf8,
                Ok(None) => {
                    &&& !old(self).source().fails()
                    &&& old(self).source().next() is None
                    &&& final(self).source() == old(self).source().rest()
                },
                Ok(Some((text, is_last))) => {
                    &&& !old(self).source().fails()
                    &&& old(self).source().next() == Some((text@, is_last))
                    &&& final(self).source() == old(self).source().rest()
                },
            },
    {
        let ghost before = *self;
        if !self.reader.has_line() {
            return Ok(None);
        }
        let (record, pos) = next_record(self.data, self.pos, self.reader.null_data);
        let r = self.reader.read_line(record);
        self.pos = pos;
        proof {
            if r is Ok {
                assert(before.source().lines.drop_first() =~= lines_from(
                    before.data@,
                    before.pos as int,
                    before.reader.null_data(),
                ));
                assert(self.source() =~= before.source().rest());
            }
        }
        r
    }
}

/// The record that starts at `pos`, if there is one, and where the next starts.
fn next_record(data: &[u8], pos: usize, null_data: bool) -> (r: (Option<Vec<u8>>, usize))
    requires
        pos <= data@.len(),
    ensures
        r.1 == record_end(data@, pos as int, null_data),
        r.1 <= data@.len() <= usize::MAX,
        match r.0 {
            Some(record) => pos < data@.len() && record@ == data@.subrange(pos as int, r.1 as int),
            None => pos == data@.len(),
        },
{
    if pos == data.len() {
        return (None, pos);
    }
    let delim: u8 = record_delimiter(null_data);
    let mut record: Vec<u8> = Vec::new();
    let mut i: usize = pos;
    while i < data.len()
        invariant_except_break
            record_end(data@, i as int, null_data) == record_end(data@, pos as int, null_data),
        invariant
            pos <= i <= data@.len(),
            delim == delimiter(null_data),
            record@ == data@.subrange(pos as int, i as int),
        ensures
            i == record_end(data@, pos as int, null_data),
            i <= data@.len(),
            record@ == data@.subrange(pos as int, i as int),
        decreases data@.len() - i,
    {
        let b = data[i];
        record.push(b);
        i = i + 1;
        assert(record@ =~= data@.subrange(pos as int, i as int));
        if b == delim {
            break;
        }
    }
    (Some(record), i)
}

// ---------------------------------------------------------------------------
// Text as input
// ---------------------------------------------------------------------------

/// The character that ends a line.
pub open spec fn line_mark(null_data: bool) -> char {
    if null_data {
        '\0'
    } else {
        '\n'
    }
}

/// Where the line that starts at `i` ends: behind the character that ends it, or
/// at the end of the text.
pub open spec fn line_end(text: Seq<char>, i: int, null_data: bool) -> int
    decreases text.len() - i,
{
    if !(0 <= i < text.len()) {
        i
    } else if text[i] == line_mark(null_data) {
        i + 1
    } else {
        line_end(text, i + 1, null_data)
    }
}

pub proof fn lemma_line_end(text: Seq<char>, i: int, null_data: bool)
    requires
        0 <= i <= text.len(),
    ensures
        i <= line_end(text, i, null_data) <= text.len(),
        i < text.len() ==> i < line_end(text, i, null_data),
        line_end(text, i, null_data) < text.len() ==> text[line_end(text, i, null_data) - 1]
            == line_mark(null_data),
    decreases text.len() - i,
{
    if i < text.len() && text[i] != line_mark(null_data) {
        lemma_line_end(text, i + 1, null_data);
    }
}

/// The text without a NUL at its end.
pub open spec fn without_nul_mark(text: Seq<char>) -> Seq<char> {
    if text.len() > 0 && text.last() == '\0' {
        text.drop_last()
    } else {
        text
    }
}

/// A line without its ending: a NUL, or else LF or CRLF.
pub open spec fn line_text(text: Seq<char>, null_data: bool) -> Seq<char> {
    if null_data {
        without_nul_mark(text)
    } else {
        chomped(text)
    }
}

/// The lines of a text from `i` on, without their line endings.
pub open spec fn text_lines(text: Seq<char>, i: int, null_data: bool) -> Seq<Seq<char>>
    decreases text.len() - i,
{
    if !(0 <= i < text.len()) {
        Seq::empty()
    } else {
        let end = line_end(text, i, null_data);
        proof {
            lemma_line_end(text, i, null_data);
        }
        seq![line_text(text.subrange(i, end), null_data)] + text_lines(text, end, null_data)
    }
}

proof fn lemma_encode_add(a: Seq<char>, b: Seq<char>)
    ensures
        encode_utf8(a + b) == encode_utf8(a) + encode_utf8(b),
    decreases a.len(),
{
    if a.len() == 0 {
        assert(a + b =~= b);
        assert(encode_utf8(a) + encode_utf8(b) =~= encode_utf8(b));
    } else {
        lemma_encode_add(a.drop_first(), b);
        assert((a + b).drop_first() =~= a.drop_first() + b);
        assert((a + b)[0] == a[0]);
        assert(encode_utf8(a + b) =~= encode_utf8(a) + encode_utf8(b));
    }
}

/// Where the character number `i` starts in the bytes of a text.
spec fn offset(text: Seq<char>, i: int) -> int {
    encode_utf8(text.take(i)).len() as int
}

/// The bytes of the characters from `i` to `j` are the bytes between their
/// offsets.
proof fn lemma_offset(text: Seq<char>, i: int, j: int)
    requires
        0 <= i <= j <= text.len(),
    ensures
        0 <= offset(text, i) <= offset(text, j) <= encode_utf8(text).len(),
        encode_utf8(text).subrange(offset(text, i), offset(text, j)) == encode_utf8(
            text.subrange(i, j),
        ),
{
    let a = text.take(i);
    let b = text.subrange(i, j);
    let c = text.subrange(j, text.len() as int);
    assert(text.take(j) =~= a + b);
    assert(text =~= text.take(j) + c);
    lemma_encode_add(a, b);
    lemma_encode_add(text.take(j), c);
    assert(encode_utf8(text).subrange(offset(text, i), offset(text, j)) =~= encode_utf8(b));
}

/// The character that ends a line is one byte, and that byte is part of no other
/// character.
proof fn lemma_mark_byte(c: char, null_data: bool)
    ensures
        encode_utf8(seq![c]).len() > 0,
        c == line_mark(null_data) ==> encode_utf8(seq![c]) == seq![delimiter(null_data)],
        c != line_mark(null_data) ==> forall|k: int|
            0 <= k < encode_utf8(seq![c]).len() ==> #[trigger] encode_utf8(seq![c])[k]
                != delimiter(null_data),
{
    let one = seq![c];
    let bytes = encode_utf8(one);
    encode_utf8_first_scalar(one);
    assert(one.drop_first() =~= Seq::empty());
    assert(bytes =~= encode_scalar(c as u32)) by {
        assert(encode_utf8(one.drop_first()) =~= Seq::<u8>::empty());
    }
    assert(length_of_first_scalar(bytes) == bytes.len());
    if is_leading_byte_width_1(bytes[0]) {
        let b = bytes[0];
        assert((b & 0x7F) as u32 == b) by (bit_vector)
            requires
                b <= 0x7F,
        ;
        assert(c as u32 == b);
        if c == line_mark(null_data) {
            assert(bytes =~= seq![delimiter(null_data)]);
        }
    } else {
        assert(bytes.len() > 1);
        if c == line_mark(null_data) {
            assert(has_width_1_encoding(c as u32));
        }
    }
}

/// A record that starts with bytes other than the delimiter goes on after them.
proof fn lemma_record_end_skip(data: Seq<u8>, a: int, b: int, null_data: bool)
    requires
        0 <= a <= b <= data.len(),
        forall|k: int| a <= k < b ==> #[trigger] data[k] != delimiter(null_data),
    ensures
        record_end(data, a, null_data) == record_end(data, b, null_data),
    decreases b - a,
{
    if a < b {
        lemma_record_end_skip(data, a + 1, b, null_data);
    }
}

/// The records of a text are its lines.
proof fn lemma_record_is_line(text: Seq<char>, i: int, null_data: bool)
    requires
        0 <= i <= text.len(),
    ensures
        record_end(encode_utf8(text), offset(text, i), null_data) == offset(
            text,
            line_end(text, i, null_data),
        ),
    decreases text.len() - i,
{
    let data = encode_utf8(text);
    if i == text.len() {
        assert(text.take(i) =~= text);
    } else {
        let here = offset(text, i);
        let next = offset(text, i + 1);
        lemma_offset(text, i, i + 1);
        assert(text.subrange(i, i + 1) =~= seq![text[i]]);
        let bytes = encode_utf8(seq![text[i]]);
        lemma_mark_byte(text[i], null_data);
        assert(data.subrange(here, next) == bytes);
        assert(next == here + bytes.len());
        if text[i] == line_mark(null_data) {
            assert(data[here] == bytes[0]);
        } else {
            assert forall|k: int| here <= k < next implies #[trigger] data[k] != delimiter(
                null_data,
            ) by {
                assert(data[k] == bytes[k - here]);
            }
            lemma_record_end_skip(data, here, next, null_data);
            lemma_record_is_line(text, i + 1, null_data);
        }
    }
}

/// Without the NUL at its end, a text is encoded without the byte at its end.
proof fn lemma_without_nul(text: Seq<char>)
    ensures
        without_nul(encode_utf8(text)) == encode_utf8(without_nul_mark(text)),
{
    if text.len() > 0 {
        let front = text.drop_last();
        let last = seq![text.last()];
        assert(text =~= front + last);
        lemma_encode_add(front, last);
        lemma_mark_byte(text.last(), true);
        let bytes = encode_utf8(last);
        assert(encode_utf8(text).last() == bytes[bytes.len() - 1]);
        if text.last() == '\0' {
            assert(encode_utf8(text).drop_last() =~= encode_utf8(front));
        }
    }
}

proof fn lemma_text_from(text: Seq<char>, i: int, null_data: bool)
    requires
        0 <= i <= text.len(),
    ensures
        lines_from(encode_utf8(text), offset(text, i), null_data) == text_lines(
            text,
            i,
            null_data,
        ),
        !broken_from(encode_utf8(text), offset(text, i), null_data),
    decreases text.len() - i,
{
    let data = encode_utf8(text);
    if i == text.len() {
        assert(text.take(i) =~= text);
    } else {
        let end = line_end(text, i, null_data);
        lemma_line_end(text, i, null_data);
        lemma_record_is_line(text, i, null_data);
        lemma_offset(text, i, end);
        lemma_offset(text, i, i + 1);
        assert(text.subrange(i, i + 1) =~= seq![text[i]]);
        lemma_mark_byte(text[i], null_data);
        lemma_text_from(text, end, null_data);
        let line = text.subrange(i, end);
        encode_utf8_valid_utf8(line);
        encode_utf8_decode_utf8(line);
        lemma_without_nul(line);
        encode_utf8_valid_utf8(without_nul_mark(line));
        encode_utf8_decode_utf8(without_nul_mark(line));
    }
}

/// Text is read as its lines, or as its NUL-separated records, and none of them
/// is broken.
pub proof fn law_text_is_read_as_its_lines(text: Seq<char>, null_data: bool)
    ensures
        source(encode_utf8(text), null_data) == (Source {
            lines: text_lines(text, 0, null_data),
            broken: false,
        }),
{
    assert(text.take(0) =~= Seq::empty());
    lemma_text_from(text, 0, null_data);
}

/// No record that ends in NUL is broken.
pub proof fn law_records_with_nul_are_read(data: Seq<u8>, i: int)
    requires
        0 <= i <= data.len(),
    ensures
        !broken_from(data, i, true),
    decreases data.len() - i,
{
    if i < data.len() {
        lemma_record_end(data, i, true);
        law_records_with_nul_are_read(data, record_end(data, i, true));
    }
}

/// Whether a text is made of lines that each end in a NUL, or each in a newline
/// alone.
pub open spec fn has_plain_lines(text: Seq<char>, null_data: bool) -> bool {
    &&& text.len() > 0 ==> text.last() == line_mark(null_data)
    &&& !null_data ==> forall|i: int|
        0 < i < text.len() && #[trigger] text[i] == '\n' ==> text[i - 1] != '\r'
}

proof fn lemma_lines_from_text(config: Config, text: Seq<char>, i: int)
    requires
        has_plain_lines(text, config.null_data),
        0 <= i <= text.len(),
    ensures
        lines(config, text_lines(text, i, config.null_data)) == text.subrange(
            i,
            text.len() as int,
        ),
    decreases text.len() - i,
{
    if i < text.len() {
        let end = line_end(text, i, config.null_data);
        lemma_line_end(text, i, config.null_data);
        lemma_lines_from_text(config, text, end);
        let first = text.subrange(i, end);
        let kept = line_text(first, config.null_data);
        assert(first.last() == text[end - 1]);
        assert(text[end - 1] == line_mark(config.null_data));
        assert(kept =~= first.drop_last());
        assert(line(config, kept) =~= first);
        let all = text_lines(text, i, config.null_data);
        lemma_lines_first(config, all);
        assert(all.drop_first() =~= text_lines(text, end, config.null_data));
        assert(text.subrange(i, text.len() as int) =~= first + text.subrange(
            end,
            text.len() as int,
        ));
    } else {
        assert(text.subrange(i, text.len() as int) =~= Seq::empty());
    }
}

/// The lines of a text, printed one after the other, are the text again, if
/// each of its lines ends in a NUL, or each in a newline alone.
pub proof fn law_lines_make_up_the_text(config: Config, text: Seq<char>)
    requires
        has_plain_lines(text, config.null_data),
    ensures
        lines(config, text_lines(text, 0, config.null_data)) == text,
{
    lemma_lines_from_text(config, text, 0);
    assert(text.subrange(0, text.len() as int) =~= text);
}

/// Whether a text is one that can be read back as a line: it does not hold the
/// character that ends a line, and no carriage return before a newline.
pub open spec fn is_line(text: Seq<char>, null_data: bool) -> bool {
    &&& forall|i: int| 0 <= i < text.len() ==> #[trigger] text[i] != line_mark(null_data)
    &&& !null_data && text.len() > 0 ==> text.last() != '\r'
}

/// A line that starts with characters other than its end goes on after them.
proof fn lemma_line_end_skip(text: Seq<char>, a: int, b: int, null_data: bool)
    requires
        0 <= a <= b <= text.len(),
        forall|k: int| a <= k < b ==> #[trigger] text[k] != line_mark(null_data),
    ensures
        line_end(text, a, null_data) == line_end(text, b, null_data),
    decreases b - a,
{
    if a < b {
        lemma_line_end_skip(text, a + 1, b, null_data);
    }
}

proof fn lemma_lines_read_back(config: Config, before: Seq<char>, texts: Seq<Seq<char>>)
    requires
        forall|i: int| 0 <= i < texts.len() ==> is_line(#[trigger] texts[i], config.null_data),
    ensures
        text_lines(before + lines(config, texts), before.len() as int, config.null_data) == texts,
    decreases texts.len(),
{
    let null_data = config.null_data;
    let all = before + lines(config, texts);
    let start = before.len() as int;
    if texts.len() == 0 {
        assert(text_lines(all, start, null_data) =~= texts);
    } else {
        let first = texts[0];
        let printed = line(config, first);
        let rest = lines(config, texts.drop_first());
        lemma_lines_first(config, texts);
        assert(all =~= (before + printed) + rest);
        let end = start + first.len();
        assert forall|k: int| start <= k < end implies #[trigger] all[k] != line_mark(
            null_data,
        ) by {
            assert(all[k] == first[k - start]);
        }
        lemma_line_end_skip(all, start, end, null_data);
        assert(all[end] == line_mark(null_data));
        assert(line_end(all, start, null_data) == end + 1);
        assert(all.subrange(start, end + 1) =~= printed);
        assert(line_text(printed, null_data) =~= first) by {
            assert(printed.drop_last() =~= first);
        }
        assert forall|i: int| 0 <= i < texts.drop_first().len() implies is_line(
            #[trigger] texts.drop_first()[i],
            null_data,
        ) by {
            assert(texts.drop_first()[i] == texts[i + 1]);
        }
        lemma_lines_read_back(config, before + printed, texts.drop_first());
        assert(text_lines(all, start, null_data) =~= texts);
    }
}

/// Lines that were printed are read back as they were.
pub proof fn law_printed_lines_are_read_back(config: Config, texts: Seq<Seq<char>>)
    requires
        forall|i: int| 0 <= i < texts.len() ==> is_line(#[trigger] texts[i], config.null_data),
    ensures
        source(encode_utf8(lines(config, texts)), config.null_data) == (Source {
            lines: texts,
            broken: false,
        }),
{
    let none = Seq::<char>::empty();
    lemma_lines_read_back(config, none, texts);
    assert(none + lines(config, texts) =~= lines(config, texts));
    law_text_is_read_as_its_lines(lines(config, texts), config.null_data);
}

/// Lines with CRLF behind each.
pub open spec fn lines_with_crlf(texts: Seq<Seq<char>>) -> Seq<char>
    decreases texts.len(),
{
    if texts.len() == 0 {
        Seq::empty()
    } else {
        texts[0] + seq!['\r', '\n'] + lines_with_crlf(texts.drop_first())
    }
}

proof fn lemma_crlf_from(before: Seq<char>, texts: Seq<Seq<char>>)
    requires
        forall|i: int|
            0 <= i < texts.len() ==> forall|k: int|
                0 <= k < #[trigger] texts[i].len() ==> texts[i][k] != '\n',
    ensures
        text_lines(before + lines_with_crlf(texts), before.len() as int, false) == texts,
    decreases texts.len(),
{
    let all = before + lines_with_crlf(texts);
    let start = before.len() as int;
    if texts.len() == 0 {
        assert(text_lines(all, start, false) =~= texts);
    } else {
        let first = texts[0];
        let written = first + seq!['\r', '\n'];
        let rest = texts.drop_first();
        assert(all =~= (before + written) + lines_with_crlf(rest));
        assert(texts[0].len() >= 0);
        let end = start + first.len() + 1;
        assert forall|k: int| start <= k < end implies #[trigger] all[k] != line_mark(false) by {
            if k < start + first.len() {
                assert(all[k] == first[k - start]);
            } else {
                assert(all[k] == '\r');
            }
        }
        lemma_line_end_skip(all, start, end, false);
        assert(all[end] == '\n');
        assert(all.subrange(start, end + 1) =~= written);
        assert(line_text(written, false) =~= first) by {
            assert(written.drop_last() =~= first.push('\r'));
            assert(written.drop_last().drop_last() =~= first);
        }
        assert forall|i: int| 0 <= i < rest.len() implies forall|k: int|
            0 <= k < #[trigger] rest[i].len() ==> rest[i][k] != '\n' by {
            assert(rest[i] == texts[i + 1]);
            assert(texts[i + 1].len() >= 0);
        }
        lemma_crlf_from(before + written, rest);
        assert(text_lines(all, start, false) =~= texts);
    }
}

/// Lines that end in CRLF are read without it, whatever they hold but newlines.
pub proof fn law_crlf_lines_are_read(texts: Seq<Seq<char>>)
    requires
        forall|i: int|
            0 <= i < texts.len() ==> forall|k: int|
                0 <= k < #[trigger] texts[i].len() ==> texts[i][k] != '\n',
    ensures
        source(encode_utf8(lines_with_crlf(texts)), false) == (Source {
            lines: texts,
            broken: false,
        }),
{
    let none = Seq::<char>::empty();
    lemma_crlf_from(none, texts);
    assert(none + lines_with_crlf(texts) =~= lines_with_crlf(texts));
    law_text_is_read_as_its_lines(lines_with_crlf(texts), false);
}

proof fn lemma_lines_then(
    config: Config,
    before: Seq<char>,
    texts: Seq<Seq<char>>,
    last: Seq<char>,
)
    requires
        forall|i: int| 0 <= i < texts.len() ==> is_line(#[trigger] texts[i], config.null_data),
        last.len() > 0,
        forall|k: int| 0 <= k < last.len() ==> #[trigger] last[k] != line_mark(config.null_data),
    ensures
        text_lines(
            before + (lines(config, texts) + last),
            before.len() as int,
            config.null_data,
        ) == texts.push(last),
    decreases texts.len(),
{
    let null_data = config.null_data;
    let all = before + (lines(config, texts) + last);
    let start = before.len() as int;
    if texts.len() == 0 {
        assert(all =~= before + last);
        assert forall|k: int| start <= k < all.len() implies #[trigger] all[k] != line_mark(
            null_data,
        ) by {
            assert(all[k] == last[k - start]);
        }
        lemma_line_end_skip(all, start, all.len() as int, null_data);
        assert(all.subrange(start, all.len() as int) =~= last);
        assert(last.last() == last[last.len() - 1]);
        assert(line_text(last, null_data) =~= last);
        assert(text_lines(all, all.len() as int, null_data) =~= Seq::empty());
        assert(text_lines(all, start, null_data) =~= texts.push(last));
    } else {
        let first = texts[0];
        let printed = line(config, first);
        let rest = texts.drop_first();
        lemma_lines_first(config, texts);
        assert(all =~= (before + printed) + (lines(config, rest) + last));
        let end = start + first.len();
        assert forall|k: int| start <= k < end implies #[trigger] all[k] != line_mark(
            null_data,
        ) by {
            assert(all[k] == first[k - start]);
        }
        lemma_line_end_skip(all, start, end, null_data);
        assert(all[end] == line_mark(null_data));
        assert(all.subrange(start, end + 1) =~= printed);
        assert(line_text(printed, null_data) =~= first) by {
            assert(printed.drop_last() =~= first);
        }
        assert forall|i: int| 0 <= i < rest.len() implies is_line(
            #[trigger] rest[i],
            null_data,
        ) by {
            assert(rest[i] == texts[i + 1]);
        }
        lemma_lines_then(config, before + printed, rest, last);
        assert(rest.push(last) =~= texts.push(last).drop_first());
        assert(text_lines(all, start, null_data) =~= texts.push(last));
    }
}

/// A last line without a line end is a line as any other, and is read as it is.
pub proof fn law_last_line_needs_no_end(
    config: Config,
    texts: Seq<Seq<char>>,
    last: Seq<char>,
)
    requires
        forall|i: int| 0 <= i < texts.len() ==> is_line(#[trigger] texts[i], config.null_data),
        last.len() > 0,
        forall|k: int| 0 <= k < last.len() ==> #[trigger] last[k] != line_mark(config.null_data),
    ensures
        source(encode_utf8(lines(config, texts) + last), config.null_data) == (Source {
            lines: texts.push(last),
            broken: false,
        }),
{
    let none = Seq::<char>::empty();
    let text = lines(config, texts) + last;
    lemma_lines_then(config, none, texts, last);
    assert(none + text =~= text);
    law_text_is_read_as_its_lines(text, config.null_data);
}

proof fn lemma_record_end_within(data: Seq<u8>, i: int, front: Seq<u8>, null_data: bool)
    requires
        0 <= i < front.len() <= data.len(),
        data.take(front.len() as int) == front,
        front.last() == delimiter(null_data),
    ensures
        record_end(data, i, null_data) == record_end(front, i, null_data),
        i < record_end(front, i, null_data) <= front.len(),
    decreases front.len() - i,
{
    assert(front[i] == data.take(front.len() as int)[i]);
    if data[i] != delimiter(null_data) {
        assert(i + 1 < front.len());
        lemma_record_end_within(data, i + 1, front, null_data);
    }
}

proof fn lemma_broken_behind(data: Seq<u8>, i: int, front: Seq<u8>)
    requires
        0 <= i <= front.len() < data.len(),
        data.take(front.len() as int) == front,
        front.len() > 0 ==> front.last() == 0x0A,
        !broken_from(front, i, false),
        !valid_utf8(
            data.subrange(
                front.len() as int,
                record_end(data, front.len() as int, false),
            ),
        ),
    ensures
        lines_from(data, i, false) == lines_from(front, i, false),
        broken_from(data, i, false),
    decreases front.len() - i,
{
    if i < front.len() {
        lemma_record_end_within(data, i, front, false);
        let end = record_end(front, i, false);
        assert(data.subrange(i, end) =~= front.subrange(i, end)) by {
            assert(forall|k: int| 0 <= k < front.len() ==> front[k] == data.take(
                front.len() as int,
            )[k]);
        }
        lemma_broken_behind(data, end, front);
    } else {
        assert(lines_from(front, i, false) =~= Seq::empty());
        lemma_record_end(data, i, false);
    }
}

/// A line that is not UTF-8 is where the input breaks off: the lines before it are
/// read, and where there are none the input is empty.
pub proof fn law_broken_line_ends_the_input(
    config: Config,
    texts: Seq<Seq<char>>,
    bad: Seq<u8>,
)
    requires
        !config.null_data,
        forall|i: int| 0 <= i < texts.len() ==> is_line(#[trigger] texts[i], false),
        bad.len() > 0,
        forall|k: int| 0 <= k < bad.len() - 1 ==> #[trigger] bad[k] != 0x0A,
        !valid_utf8(bad),
    ensures
        source(encode_utf8(lines(config, texts)) + bad, false) == (Source {
            lines: texts,
            broken: texts.len() > 0,
        }),
{
    let text = lines(config, texts);
    let front = encode_utf8(text);
    let data = front + bad;
    let start = front.len() as int;
    law_printed_lines_are_read_back(config, texts);
    law_text_is_read_as_its_lines(text, false);
    assert(data.take(start) =~= front);
    if text.len() > 0 {
        assert(text =~= text.drop_last() + seq![text.last()]);
        lemma_encode_add(text.drop_last(), seq![text.last()]);
        assert(text.last() == '\n') by {
            assert(texts.len() > 0);
            assert(text.last() == line(config, texts.last()).last());
        }
        lemma_mark_byte('\n', false);
    }
    assert forall|k: int| start <= k < data.len() - 1 implies #[trigger] data[k] != delimiter(
        false,
    ) by {
        assert(data[k] == bad[k - start]);
    }
    lemma_record_end_skip(data, start, data.len() - 1, false);
    assert(record_end(data, data.len() as int, false) == data.len());
    assert(record_end(data, start, false) == data.len());
    assert(data.subrange(start, data.len() as int) =~= bad);
    assert(text.take(0) =~= Seq::empty());
    lemma_text_from(text, 0, false);
    assert(offset(text, 0) == 0);
    lemma_broken_behind(data, 0, front);
}

} // verus!
