//! Scripts one after the other.
//!
//! A script, a newline and another script say what the first says and then what
//! the second says. So several expressions on a command line run in their order.

use vstd::prelude::*;

use crate::blocks::law_flatten_append;
use crate::cli::joined;
use crate::grammar::{
    address, address_range, at, closing, command_head, commands, digits_value, filename_arg,
    following, is_kind, is_plain_command, is_separator, joined_lines, label_arg, lemma_address,
    lemma_address_range, lemma_closing, lemma_command_head, lemma_one_command,
    lemma_preceded_by_none, lemma_run_end, lemma_skip_blanks, lemma_text_end, number, one_command,
    optional_int, parse_script, plain_command, plain_delimiters, preceded, regex_text,
    replacement_text, rest_of_line, run_end, skip_blanks, skip_line, skip_spaces, substitute,
    substitute_flags, text_arg, text_end, text_start, transliterate, CharKind, Parsed,
};
use crate::machine::script_patterns;
use crate::program::lemma_first_rejection_add;
use crate::script::{CommandModel, SedCommandModel, SubstituteModel};
use crate::sed::accepted;

verus! {

// ---------------------------------------------------------------------------
// What stands behind other text
// ---------------------------------------------------------------------------

/// What was read, with the place where it ends moved by `m`.
pub open spec fn shifted<T>(r: Parsed<T>, m: int) -> Parsed<T> {
    match r {
        Ok((found, end)) => Ok((found, m + end)),
        Err(message) => Err(message),
    }
}

proof fn lemma_shift_at(p: Seq<char>, b: Seq<char>, i: int)
    requires
        0 <= i,
    ensures
        at(p + b, p.len() + i) == at(b, i),
{
}

proof fn lemma_shift_run(p: Seq<char>, b: Seq<char>, i: int, kind: CharKind)
    requires
        0 <= i,
    ensures
        run_end(p + b, p.len() + i, kind) == p.len() + run_end(b, i, kind),
    decreases b.len() - i,
{
    if i < b.len() {
        assert((p + b)[p.len() + i] == b[i]);
        lemma_shift_run(p, b, i + 1, kind);
    }
}

proof fn lemma_shift_skip_line(p: Seq<char>, b: Seq<char>, i: int)
    requires
        0 <= i,
    ensures
        skip_line(p + b, p.len() + i) == p.len() + skip_line(b, i),
{
    lemma_shift_run(p, b, i, CharKind::Line);
}

proof fn lemma_shift_skip_blanks(p: Seq<char>, b: Seq<char>, i: int)
    requires
        0 <= i <= b.len(),
    ensures
        skip_blanks(p + b, p.len() + i) == p.len() + skip_blanks(b, i),
    decreases b.len() - i,
{
    if i < b.len() {
        assert((p + b)[p.len() + i] == b[i]);
        if is_separator(b[i]) {
            lemma_shift_skip_blanks(p, b, i + 1);
        } else if b[i] == '#' {
            lemma_shift_skip_line(p, b, i);
            lemma_run_end(b, i, CharKind::Line);
            lemma_run_end(b, i + 1, CharKind::Line);
            lemma_shift_skip_blanks(p, b, skip_line(b, i));
        }
    }
}

proof fn lemma_shift_digits(p: Seq<char>, b: Seq<char>, i: int, end: int)
    requires
        0 <= i,
        end <= b.len(),
    ensures
        digits_value(p + b, p.len() + i, p.len() + end) == digits_value(b, i, end),
    decreases end - i,
{
    if i < end {
        lemma_shift_digits(p, b, i, end - 1);
        assert((p + b)[p.len() + end - 1] == b[end - 1]);
    }
}

proof fn lemma_shift_number(p: Seq<char>, b: Seq<char>, i: int)
    requires
        0 <= i <= b.len(),
    ensures
        number(p + b, p.len() + i) == (number(b, i).0, p.len() + number(b, i).1),
        i <= number(b, i).1 <= b.len(),
{
    lemma_shift_run(p, b, i, CharKind::Digit);
    lemma_run_end(b, i, CharKind::Digit);
    lemma_shift_digits(p, b, i, run_end(b, i, CharKind::Digit));
}

proof fn lemma_shift_closing(p: Seq<char>, b: Seq<char>, i: int, delim: char)
    requires
        0 <= i,
    ensures
        closing(p + b, p.len() + i, delim) == (match closing(b, i, delim) {
            Some(end) => Some(p.len() + end),
            None => None,
        }),
        closing(b, i, delim) matches Some(end) ==> i <= end < b.len(),
    decreases b.len() + 1 - i,
{
    lemma_closing(b, i, delim);
    if i < b.len() {
        assert((p + b)[p.len() + i] == b[i]);
        lemma_shift_closing(p, b, i + 1, delim);
        lemma_shift_closing(p, b, i + 2, delim);
    }
}

proof fn lemma_shift_delimiters(p: Seq<char>, b: Seq<char>, i: int, end: int, delim: char)
    requires
        0 <= i,
        end <= b.len(),
    ensures
        plain_delimiters(p + b, p.len() + i, p.len() + end, delim) == plain_delimiters(
            b,
            i,
            end,
            delim,
        ),
    decreases end - i,
{
    if i < end {
        assert((p + b)[p.len() + i] == b[i]);
        if i + 1 < end {
            assert((p + b)[p.len() + i + 1] == b[i + 1]);
            lemma_shift_delimiters(p, b, i + 2, end, delim);
        }
        lemma_shift_delimiters(p, b, i + 1, end, delim);
    }
}

proof fn lemma_shift_text(p: Seq<char>, b: Seq<char>, i: int, delim: char)
    requires
        0 <= i,
    ensures
        regex_text(p + b, p.len() + i, delim) == shifted(regex_text(b, i, delim), p.len() as int),
        replacement_text(p + b, p.len() + i, delim) == shifted(
            replacement_text(b, i, delim),
            p.len() as int,
        ),
        regex_text(b, i, delim) matches Ok((_, end)) ==> i < end <= b.len(),
        replacement_text(b, i, delim) matches Ok((_, end)) ==> i < end <= b.len(),
{
    lemma_shift_closing(p, b, i, delim);
    if let Some(end) = closing(b, i, delim) {
        assert((p + b).subrange(p.len() + i, p.len() + end) =~= b.subrange(i, end));
        lemma_shift_delimiters(p, b, i, end, delim);
    }
}

proof fn lemma_shift_address(p: Seq<char>, b: Seq<char>, i: int)
    requires
        0 <= i <= b.len(),
    ensures
        address(p + b, p.len() + i) == shifted(address(b, i), p.len() as int),
{
    lemma_shift_at(p, b, i);
    lemma_shift_at(p, b, i + 1);
    lemma_shift_number(p, b, i);
    let j = number(b, i).1;
    lemma_shift_at(p, b, j);
    if j < b.len() {
        lemma_shift_number(p, b, j + 1);
    }
    lemma_shift_text(p, b, i + 1, '/');
    if i + 1 < b.len() {
        lemma_shift_text(p, b, i + 2, b[i + 1]);
    }
}

proof fn lemma_shift_address_range(p: Seq<char>, b: Seq<char>, i: int)
    requires
        0 <= i <= b.len(),
    ensures
        address_range(p + b, p.len() + i) == shifted(address_range(b, i), p.len() as int),
{
    lemma_shift_address(p, b, i);
    lemma_address(b, i);
    if let Ok((found, j)) = address(b, i) {
        lemma_shift_at(p, b, j);
        lemma_shift_run(p, b, j, CharKind::Blank);
        lemma_run_end(b, j, CharKind::Blank);
        let k = skip_spaces(b, j);
        lemma_shift_at(p, b, k);
        if at(b, k) == Some(',') {
            lemma_shift_run(p, b, k + 1, CharKind::Blank);
            lemma_run_end(b, k + 1, CharKind::Blank);
            let l = skip_spaces(b, k + 1);
            lemma_shift_address(p, b, l);
            lemma_address(b, l);
            if let Ok((_, n)) = address(b, l) {
                lemma_shift_run(p, b, n, CharKind::Blank);
                lemma_run_end(b, n, CharKind::Blank);
                lemma_shift_at(p, b, skip_spaces(b, n));
            }
        }
    }
}

proof fn lemma_shift_text_end(p: Seq<char>, b: Seq<char>, start: int, i: int)
    requires
        0 <= start <= i,
    ensures
        text_end(p + b, p.len() + start, p.len() + i) == p.len() + text_end(b, start, i),
    decreases b.len() - i,
{
    if i < b.len() {
        assert((p + b)[p.len() + i] == b[i]);
        if i > start {
            assert((p + b)[p.len() + i - 1] == b[i - 1]);
        }
        lemma_shift_text_end(p, b, start, i + 1);
    }
}

proof fn lemma_shift_joined(p: Seq<char>, b: Seq<char>, start: int, end: int)
    requires
        0 <= start,
        end <= b.len(),
    ensures
        joined_lines(p + b, p.len() + start, p.len() + end) == joined_lines(b, start, end),
    decreases end - start,
{
    if start < end {
        assert((p + b)[p.len() + end - 1] == b[end - 1]);
        lemma_shift_joined(p, b, start, end - 1);
        if end - 1 > start {
            assert((p + b)[p.len() + end - 2] == b[end - 2]);
            lemma_shift_joined(p, b, start, end - 2);
        }
    }
}

/// An argument is the same behind other text.
proof fn lemma_shift_arguments(p: Seq<char>, b: Seq<char>, i: int)
    requires
        0 <= i <= b.len(),
    ensures
        ({
            let m = p.len() as int;
            let s = p + b;
            &&& optional_int(s, m + i) == (optional_int(b, i).0, m + optional_int(b, i).1)
            &&& text_arg(s, m + i) == (text_arg(b, i).0, m + text_arg(b, i).1)
            &&& label_arg(s, m + i) == (label_arg(b, i).0, m + label_arg(b, i).1)
            &&& filename_arg(s, m + i) == (filename_arg(b, i).0, m + filename_arg(b, i).1)
            &&& rest_of_line(s, m + i) == (rest_of_line(b, i).0, m + rest_of_line(b, i).1)
        }),
{
    let m = p.len() as int;
    let s = p + b;
    lemma_shift_run(p, b, i, CharKind::Blank);
    lemma_run_end(b, i, CharKind::Blank);
    let j = skip_spaces(b, i);
    lemma_shift_at(p, b, j);
    lemma_shift_number(p, b, j);
    lemma_shift_run(p, b, j, CharKind::Label);
    lemma_run_end(b, j, CharKind::Label);
    lemma_shift_run(p, b, j, CharKind::FileName);
    lemma_run_end(b, j, CharKind::FileName);
    lemma_shift_run(p, b, j, CharKind::Line);
    lemma_run_end(b, j, CharKind::Line);
    let label = run_end(b, j, CharKind::Label);
    assert(s.subrange(m + j, m + label) =~= b.subrange(j, label));
    let file = run_end(b, j, CharKind::FileName);
    assert(s.subrange(m + j, m + file) =~= b.subrange(j, file));
    let line = run_end(b, j, CharKind::Line);
    assert(s.subrange(m + j, m + line) =~= b.subrange(j, line));
    lemma_shift_at(p, b, i);
    lemma_shift_at(p, b, i + 1);
    let start = text_start(b, i);
    assert(text_start(s, m + i) == m + start);
    lemma_shift_text_end(p, b, start, start);
    lemma_text_end(b, start, start);
    lemma_shift_joined(p, b, start, text_end(b, start, start));
}

proof fn lemma_shift_flags(p: Seq<char>, b: Seq<char>, i: int, sub: SubstituteModel)
    requires
        0 <= i <= b.len(),
    ensures
        substitute_flags(p + b, p.len() + i, sub) == (
            substitute_flags(b, i, sub).0,
            p.len() + substitute_flags(b, i, sub).1,
        ),
    decreases b.len() - i,
{
    lemma_shift_at(p, b, i);
    if i < b.len() {
        let c = b[i];
        if c == 'g' {
            lemma_shift_flags(p, b, i + 1, SubstituteModel { global: true, ..sub });
        } else if c == 'p' {
            lemma_shift_flags(p, b, i + 1, SubstituteModel { print: true, ..sub });
        } else if c == 'i' || c == 'I' {
            lemma_shift_flags(p, b, i + 1, SubstituteModel { case_insensitive: true, ..sub });
        } else if c == 'w' {
            lemma_shift_arguments(p, b, i + 1);
        } else if is_kind(CharKind::Digit, c) {
            lemma_shift_number(p, b, i);
            lemma_run_end(b, i + 1, CharKind::Digit);
            let (n, end) = number(b, i);
            lemma_shift_flags(p, b, end, SubstituteModel { nth: Some(n), ..sub });
        }
    }
}

proof fn lemma_shift_substitute(p: Seq<char>, b: Seq<char>, i: int)
    requires
        0 <= i <= b.len(),
    ensures
        substitute(p + b, p.len() + i) == shifted(substitute(b, i), p.len() as int),
        transliterate(p + b, p.len() + i) == shifted(transliterate(b, i), p.len() as int),
{
    lemma_shift_at(p, b, i);
    if i < b.len() {
        let delim = b[i];
        lemma_shift_text(p, b, i + 1, delim);
        if let Ok((pattern, j)) = regex_text(b, i + 1, delim) {
            lemma_shift_text(p, b, j, delim);
            if let Ok((replacement, k)) = replacement_text(b, j, delim) {
                lemma_shift_flags(
                    p,
                    b,
                    k,
                    SubstituteModel {
                        pattern,
                        replacement,
                        global: false,
                        print: false,
                        nth: None,
                        case_insensitive: false,
                        write_file: None,
                    },
                );
            }
        }
    }
}

proof fn lemma_shift_plain(p: Seq<char>, b: Seq<char>, i: int, c: char)
    requires
        0 <= i <= b.len(),
    ensures
        plain_command(p + b, p.len() + i, c) == shifted(plain_command(b, i, c), p.len() as int),
{
    lemma_shift_substitute(p, b, i);
    lemma_shift_arguments(p, b, i);
    lemma_shift_skip_line(p, b, i);
}

proof fn lemma_shift_head(p: Seq<char>, b: Seq<char>, i: int)
    requires
        0 <= i <= b.len(),
    ensures
        command_head(p + b, p.len() + i) == shifted(command_head(b, i), p.len() as int),
{
    lemma_shift_address_range(p, b, i);
    lemma_address_range(b, i);
    if let Ok((_, j)) = address_range(b, i) {
        lemma_shift_run(p, b, j, CharKind::Blank);
        lemma_run_end(b, j, CharKind::Blank);
        lemma_shift_at(p, b, skip_spaces(b, j));
    }
}

proof fn lemma_shift_one(p: Seq<char>, b: Seq<char>, i: int)
    requires
        0 <= i <= b.len(),
    ensures
        one_command(p + b, p.len() + i) == shifted(one_command(b, i), p.len() as int),
    decreases b.len() - i, 0int,
{
    let j = skip_blanks(b, i);
    lemma_shift_skip_blanks(p, b, i);
    lemma_skip_blanks(b, i);
    if j < b.len() {
        lemma_shift_head(p, b, j);
        lemma_command_head(b, j);
        if let Ok(((_, Some(c)), k)) = command_head(b, j) {
            lemma_shift_commands(p, b, k, true);
            lemma_shift_one(p, b, k);
            lemma_shift_plain(p, b, k, c);
        }
    }
}

pub proof fn lemma_shift_commands(p: Seq<char>, b: Seq<char>, i: int, block: bool)
    requires
        0 <= i <= b.len(),
    ensures
        commands(p + b, p.len() + i, block) == shifted(commands(b, i, block), p.len() as int),
    decreases b.len() - i, 1int,
{
    let j = skip_blanks(b, i);
    lemma_shift_skip_blanks(p, b, i);
    lemma_skip_blanks(b, i);
    if j < b.len() {
        assert((p + b)[p.len() + j] == b[j]);
        if !(block && b[j] == '}') {
            lemma_shift_one(p, b, j);
            lemma_one_command(b, j);
            if let Ok((_, k)) = one_command(b, j) {
                lemma_shift_commands(p, b, k, block);
            }
        }
    }
}

// ---------------------------------------------------------------------------
// What stands before a newline and other text
// ---------------------------------------------------------------------------

/// Whether `s` is the script `a`, a newline and anything behind it.
spec fn extends(a: Seq<char>, s: Seq<char>) -> bool {
    &&& a.len() < s.len()
    &&& s[a.len() as int] == '\n'
    &&& forall|i: int| 0 <= i < a.len() ==> #[trigger] s[i] == a[i]
}

/// Whether two places stand for each other: they are the same, or the newline
/// alone lies between them.
spec fn is_near(a: Seq<char>, end: int, other: int) -> bool {
    other == end || (end == a.len() && other == end + 1)
}

proof fn lemma_front_at(a: Seq<char>, s: Seq<char>, i: int)
    requires
        extends(a, s),
        0 <= i <= a.len(),
    ensures
        i < a.len() ==> at(s, i) == at(a, i),
        i == a.len() ==> at(a, i) is None && at(s, i) == Some('\n'),
{
}

proof fn lemma_front_run(a: Seq<char>, s: Seq<char>, i: int, kind: CharKind)
    requires
        extends(a, s),
        0 <= i <= a.len(),
    ensures
        run_end(s, i, kind) == run_end(a, i, kind),
        i <= run_end(a, i, kind) <= a.len(),
    decreases a.len() - i,
{
    lemma_run_end(a, i, kind);
    assert(!is_kind(kind, '\n'));
    if i < a.len() {
        assert(s[i] == a[i]);
        lemma_front_run(a, s, i + 1, kind);
    }
}

proof fn lemma_front_skip_line(a: Seq<char>, s: Seq<char>, i: int)
    requires
        extends(a, s),
        0 <= i <= a.len(),
    ensures
        is_near(a, skip_line(a, i), skip_line(s, i)),
        i <= skip_line(a, i) <= a.len(),
{
    lemma_front_run(a, s, i, CharKind::Line);
}

proof fn lemma_front_skip_blanks(a: Seq<char>, s: Seq<char>, i: int)
    requires
        extends(a, s),
        0 <= i <= a.len(),
    ensures
        i <= skip_blanks(a, i) <= a.len(),
        skip_blanks(a, i) < a.len() ==> skip_blanks(s, i) == skip_blanks(a, i),
        skip_blanks(a, i) == a.len() ==> skip_blanks(s, i) == skip_blanks(s, (a.len() + 1) as int),
    decreases a.len() - i,
{
    lemma_skip_blanks(a, i);
    if i < a.len() {
        assert(s[i] == a[i]);
        if is_separator(a[i]) {
            lemma_front_skip_blanks(a, s, i + 1);
        } else if a[i] == '#' {
            lemma_front_skip_line(a, s, i);
            lemma_run_end(a, i + 1, CharKind::Line);
            let end = skip_line(a, i);
            lemma_front_skip_blanks(a, s, end);
            assert(skip_blanks(a, a.len() as int) == a.len());
        }
    }
}

proof fn lemma_front_digits(a: Seq<char>, s: Seq<char>, i: int, end: int)
    requires
        extends(a, s),
        0 <= i,
        end <= a.len(),
    ensures
        digits_value(s, i, end) == digits_value(a, i, end),
    decreases end - i,
{
    if i < end {
        lemma_front_digits(a, s, i, end - 1);
        assert(s[end - 1] == a[end - 1]);
    }
}

proof fn lemma_front_number(a: Seq<char>, s: Seq<char>, i: int)
    requires
        extends(a, s),
        0 <= i <= a.len(),
    ensures
        number(s, i) == number(a, i),
        i <= number(a, i).1 <= a.len(),
{
    lemma_front_run(a, s, i, CharKind::Digit);
    lemma_front_digits(a, s, i, run_end(a, i, CharKind::Digit));
}

proof fn lemma_front_closing(a: Seq<char>, s: Seq<char>, i: int, delim: char)
    requires
        extends(a, s),
        0 <= i,
    ensures
        closing(a, i, delim) matches Some(end) ==> closing(s, i, delim) == Some(end) && i <= end
            < a.len(),
    decreases a.len() + 1 - i,
{
    lemma_closing(a, i, delim);
    if i < a.len() {
        assert(s[i] == a[i]);
        lemma_front_closing(a, s, i + 1, delim);
        lemma_front_closing(a, s, i + 2, delim);
    }
}

proof fn lemma_front_delimiters(a: Seq<char>, s: Seq<char>, i: int, end: int, delim: char)
    requires
        extends(a, s),
        0 <= i,
        end <= a.len(),
    ensures
        plain_delimiters(s, i, end, delim) == plain_delimiters(a, i, end, delim),
    decreases end - i,
{
    if i < end {
        assert(s[i] == a[i]);
        if i + 1 < end {
            assert(s[i + 1] == a[i + 1]);
            lemma_front_delimiters(a, s, i + 2, end, delim);
        }
        lemma_front_delimiters(a, s, i + 1, end, delim);
    }
}

proof fn lemma_front_text(a: Seq<char>, s: Seq<char>, i: int, delim: char)
    requires
        extends(a, s),
        0 <= i,
    ensures
        regex_text(a, i, delim) matches Ok((_, end)) ==> regex_text(s, i, delim) == regex_text(
            a,
            i,
            delim,
        ) && i < end <= a.len(),
        replacement_text(a, i, delim) matches Ok((_, end)) ==> replacement_text(s, i, delim)
            == replacement_text(a, i, delim) && i < end <= a.len(),
{
    lemma_front_closing(a, s, i, delim);
    if let Some(end) = closing(a, i, delim) {
        assert(s.subrange(i, end) =~= a.subrange(i, end));
        lemma_front_delimiters(a, s, i, end, delim);
    }
}

proof fn lemma_front_address(a: Seq<char>, s: Seq<char>, i: int)
    requires
        extends(a, s),
        0 <= i <= a.len(),
    ensures
        address(a, i) is Ok ==> address(s, i) == address(a, i),
{
    lemma_front_at(a, s, i);
    if i < a.len() {
        lemma_front_at(a, s, i + 1);
        lemma_front_number(a, s, i);
        let j = number(a, i).1;
        lemma_front_at(a, s, j);
        if j < a.len() {
            lemma_front_number(a, s, j + 1);
        }
        lemma_front_text(a, s, i + 1, '/');
        if i + 1 < a.len() {
            lemma_front_text(a, s, i + 2, a[i + 1]);
        }
    }
}

proof fn lemma_front_address_range(a: Seq<char>, s: Seq<char>, i: int)
    requires
        extends(a, s),
        0 <= i <= a.len(),
    ensures
        address_range(a, i) is Ok ==> address_range(s, i) == address_range(a, i),
{
    lemma_front_address(a, s, i);
    lemma_address(a, i);
    if let Ok((found, j)) = address(a, i) {
        lemma_front_at(a, s, j);
        lemma_front_run(a, s, j, CharKind::Blank);
        let k = skip_spaces(a, j);
        lemma_front_at(a, s, k);
        if at(a, k) == Some(',') {
            lemma_front_run(a, s, k + 1, CharKind::Blank);
            let l = skip_spaces(a, k + 1);
            lemma_front_address(a, s, l);
            lemma_address(a, l);
            if let Ok((_, n)) = address(a, l) {
                lemma_front_run(a, s, n, CharKind::Blank);
                lemma_front_at(a, s, skip_spaces(a, n));
            }
        }
    }
}

proof fn lemma_front_arguments(a: Seq<char>, s: Seq<char>, i: int)
    requires
        extends(a, s),
        0 <= i <= a.len(),
    ensures
        optional_int(s, i) == optional_int(a, i),
        label_arg(s, i) == label_arg(a, i),
        filename_arg(s, i) == filename_arg(a, i),
        rest_of_line(s, i) == rest_of_line(a, i),
{
    lemma_front_run(a, s, i, CharKind::Blank);
    let j = skip_spaces(a, i);
    lemma_front_at(a, s, j);
    lemma_front_number(a, s, j);
    lemma_front_run(a, s, j, CharKind::Label);
    lemma_front_run(a, s, j, CharKind::FileName);
    lemma_front_run(a, s, j, CharKind::Line);
    let label = run_end(a, j, CharKind::Label);
    assert(s.subrange(j, label) =~= a.subrange(j, label));
    let file = run_end(a, j, CharKind::FileName);
    assert(s.subrange(j, file) =~= a.subrange(j, file));
    let line = run_end(a, j, CharKind::Line);
    assert(s.subrange(j, line) =~= a.subrange(j, line));
}

proof fn lemma_front_flags(a: Seq<char>, s: Seq<char>, i: int, sub: SubstituteModel)
    requires
        extends(a, s),
        0 <= i <= a.len(),
    ensures
        substitute_flags(s, i, sub) == substitute_flags(a, i, sub),
    decreases a.len() - i,
{
    lemma_front_at(a, s, i);
    if i < a.len() {
        let c = a[i];
        if c == 'g' {
            lemma_front_flags(a, s, i + 1, SubstituteModel { global: true, ..sub });
        } else if c == 'p' {
            lemma_front_flags(a, s, i + 1, SubstituteModel { print: true, ..sub });
        } else if c == 'i' || c == 'I' {
            lemma_front_flags(a, s, i + 1, SubstituteModel { case_insensitive: true, ..sub });
        } else if c == 'w' {
            lemma_front_arguments(a, s, i + 1);
        } else if is_kind(CharKind::Digit, c) {
            lemma_front_number(a, s, i);
            lemma_run_end(a, i + 1, CharKind::Digit);
            let (n, end) = number(a, i);
            lemma_front_flags(a, s, end, SubstituteModel { nth: Some(n), ..sub });
        }
    }
}

proof fn lemma_front_substitute(a: Seq<char>, s: Seq<char>, i: int)
    requires
        extends(a, s),
        0 <= i <= a.len(),
    ensures
        substitute(a, i) is Ok ==> substitute(s, i) == substitute(a, i),
        transliterate(a, i) is Ok ==> transliterate(s, i) == transliterate(a, i),
{
    lemma_front_at(a, s, i);
    if i < a.len() {
        let delim = a[i];
        lemma_front_text(a, s, i + 1, delim);
        if let Ok((pattern, j)) = regex_text(a, i + 1, delim) {
            lemma_front_text(a, s, j, delim);
            if let Ok((replacement, k)) = replacement_text(a, j, delim) {
                lemma_front_flags(
                    a,
                    s,
                    k,
                    SubstituteModel {
                        pattern,
                        replacement,
                        global: false,
                        print: false,
                        nth: None,
                        case_insensitive: false,
                        write_file: None,
                    },
                );
            }
        }
    }
}

/// Whether a command is no `a`, `i` or `c`, and holds none.
pub open spec fn has_no_text(command: CommandModel) -> bool
    decreases command,
{
    match command {
        CommandModel::Append(_) | CommandModel::Insert(_) | CommandModel::Change(_) => false,
        CommandModel::Block(block) => have_no_text(block),
        _ => true,
    }
}

/// Whether no command of a script, those in its blocks among them, is an `a`,
/// `i` or `c`.
pub open spec fn have_no_text(script: Seq<SedCommandModel>) -> bool
    decreases script,
{
    forall|i: int| 0 <= i < script.len() ==> has_no_text((#[trigger] script[i]).command)
}

proof fn lemma_front_plain(a: Seq<char>, s: Seq<char>, i: int, c: char)
    requires
        extends(a, s),
        0 <= i <= a.len(),
    ensures
        plain_command(a, i, c) matches Ok((command, end)) ==> has_no_text(command) ==> {
            &&& plain_command(s, i, c) matches Ok((same, other))
            &&& same == command
            &&& is_near(a, end, other)
        },
{
    lemma_front_substitute(a, s, i);
    lemma_front_arguments(a, s, i);
    lemma_front_skip_line(a, s, i);
}

proof fn lemma_front_head(a: Seq<char>, s: Seq<char>, i: int)
    requires
        extends(a, s),
        0 <= i <= a.len(),
    ensures
        command_head(a, i) matches Ok(((range, letter), end)) ==> {
            &&& letter is Some ==> command_head(s, i) == command_head(a, i)
            &&& letter is None ==> end == a.len() && command_head(s, i) == Ok::<_, Seq<char>>(
                ((range, Some('\n')), (a.len() + 1) as int),
            )
        },
{
    lemma_front_address_range(a, s, i);
    lemma_address_range(a, i);
    if let Ok((_, j)) = address_range(a, i) {
        lemma_front_run(a, s, j, CharKind::Blank);
        lemma_front_at(a, s, skip_spaces(a, j));
    }
}

proof fn lemma_front_one(a: Seq<char>, s: Seq<char>, i: int)
    requires
        extends(a, s),
        0 <= i <= a.len(),
    ensures
        one_command(a, i) matches Ok((found, end)) ==> (found matches Some(command) ==> has_no_text(
            command.command,
        )) ==> {
            ||| {
                &&& one_command(s, i) matches Ok((same, other))
                &&& same == found
                &&& is_near(a, end, other)
            }
            ||| {
                &&& found is None
                &&& end == a.len()
                &&& one_command(s, i) == one_command(s, (a.len() + 1) as int)
            }
        },
    decreases a.len() - i, 0int,
{
    let j = skip_blanks(a, i);
    lemma_front_skip_blanks(a, s, i);
    lemma_skip_blanks(s, i);
    if j < a.len() {
        lemma_front_head(a, s, j);
        lemma_command_head(a, j);
        if let Ok(((range, letter), k)) = command_head(a, j) {
            match letter {
                None => {
                    assert(!is_plain_command('\n'));
                },
                Some(c) => {
                    lemma_front_block(a, s, k);
                    lemma_front_one(a, s, k);
                    lemma_front_plain(a, s, k, c);
                },
            }
        }
    }
}

proof fn lemma_front_block(a: Seq<char>, s: Seq<char>, i: int)
    requires
        extends(a, s),
        0 <= i <= a.len(),
    ensures
        commands(a, i, true) matches Ok((list, end)) ==> have_no_text(list) ==> commands(s, i, true)
            == commands(a, i, true),
    decreases a.len() - i, 1int,
{
    let j = skip_blanks(a, i);
    lemma_front_skip_blanks(a, s, i);
    assert(j < a.len() ==> s[j] == a[j]);
    if j < a.len() && a[j] != '}' {
        lemma_skip_blanks(a, i);
        lemma_front_one(a, s, j);
        lemma_one_command(s, j);
        lemma_one_command(a, j);
        if let Ok((found, k)) = one_command(a, j) {
            assert(skip_blanks(a, a.len() as int) == a.len());
            if k < a.len() {
                lemma_front_block(a, s, k);
                if let Ok((rest, end)) = commands(a, k, true) {
                    lemma_following(found, rest);
                }
            }
        }
    }
}

/// Commands without text are made of commands without text.
proof fn lemma_following(found: Option<SedCommandModel>, rest: Seq<SedCommandModel>)
    ensures
        ({
            let list = match found {
                Some(command) => seq![command] + rest,
                None => rest,
            };
            have_no_text(list) ==> have_no_text(rest) && (found matches Some(command)
                ==> has_no_text(command.command))
        }),
{
    if let Some(command) = found {
        let list = seq![command] + rest;
        if have_no_text(list) {
            assert(list[0] == command);
            assert forall|i: int| 0 <= i < rest.len() implies has_no_text(
                (#[trigger] rest[i]).command,
            ) by {
                assert(list[i + 1] == rest[i]);
            }
        }
    }
}

proof fn lemma_front_script(a: Seq<char>, s: Seq<char>, i: int)
    requires
        extends(a, s),
        0 <= i <= a.len(),
    ensures
        commands(a, i, false) matches Ok((list, end)) ==> have_no_text(list) ==> commands(
            s,
            i,
            false,
        ) == preceded(list, commands(s, (a.len() + 1) as int, false)),
    decreases a.len() - i,
{
    let n = a.len() as int;
    let j = skip_blanks(a, i);
    let after = commands(s, n + 1, false);
    lemma_front_skip_blanks(a, s, i);
    lemma_skip_blanks(s, i);
    lemma_skip_blanks(s, n + 1);
    lemma_one_command(s, n + 1);
    lemma_preceded_by_none(after);
    if j < n {
        assert(s[j] == a[j]);
        lemma_skip_blanks(a, i);
        lemma_front_one(a, s, j);
        lemma_one_command(a, j);
        lemma_one_command(s, j);
        if let Ok((found, k)) = one_command(a, j) {
            lemma_front_script(a, s, k);
            if let Ok((rest, end)) = commands(a, k, false) {
                lemma_following(found, rest);
                let list = match found {
                    Some(command) => seq![command] + rest,
                    None => rest,
                };
                if have_no_text(list) {
                    lemma_front_script_step(a, s, i, found, k, rest);
                }
            }
        }
    }
}

proof fn lemma_front_script_step(
    a: Seq<char>,
    s: Seq<char>,
    i: int,
    found: Option<SedCommandModel>,
    k: int,
    rest: Seq<SedCommandModel>,
)
    requires
        extends(a, s),
        0 <= i <= a.len(),
        skip_blanks(a, i) < k <= a.len(),
        skip_blanks(a, i) < a.len(),
        one_command(a, skip_blanks(a, i)) == Ok::<_, Seq<char>>((found, k)),
        commands(a, k, false) matches Ok((list, _)) && list == rest,
        found matches Some(command) ==> has_no_text(command.command),
        commands(s, k, false) == preceded(rest, commands(s, (a.len() + 1) as int, false)),
    ensures
        commands(s, i, false) == preceded(
            match found {
                Some(command) => seq![command] + rest,
                None => rest,
            },
            commands(s, (a.len() + 1) as int, false),
        ),
{
    let n = a.len() as int;
    let j = skip_blanks(a, i);
    let after = commands(s, n + 1, false);
    lemma_front_skip_blanks(a, s, i);
    lemma_front_one(a, s, j);
    lemma_skip_blanks(s, i);
    lemma_skip_blanks(s, n);
    lemma_skip_blanks(s, n + 1);
    lemma_one_command(s, j);
    lemma_one_command(s, n + 1);
    assert(skip_blanks(s, n) == skip_blanks(s, n + 1));
    assert(commands(s, n, false) == after);
    if let Ok((more, end)) = after {
        if let Some(command) = found {
            assert(seq![command] + (rest + more) =~= (seq![command] + rest) + more);
        }
    }
    if k == n {
        assert(skip_blanks(a, n) == n);
        assert(rest =~= Seq::empty());
        if let Ok((more, end)) = after {
            assert(Seq::<SedCommandModel>::empty() + more =~= more);
        }
    }
    if one_command(s, j) is Ok && one_command(s, j)->Ok_0.0 == found && is_near(
        a,
        k,
        one_command(s, j)->Ok_0.1,
    ) {
        let other = one_command(s, j)->Ok_0.1;
        assert(commands(s, other, false) == preceded(rest, after)) by {
            if other != k {
                assert(other == n + 1);
            }
        }
        assert(commands(s, i, false) == following(found, commands(s, other, false)));
    } else {
        assert(found is None && k == n);
        assert(one_command(s, j) == one_command(s, n + 1));
        let q = skip_blanks(s, n + 1);
        assert(one_command(s, q) == one_command(s, n + 1));
        if q >= s.len() {
            assert(one_command(s, n + 1) == Ok::<_, Seq<char>>((None::<SedCommandModel>, q)));
            assert(commands(s, q, false) == Ok::<_, Seq<char>>(
                (Seq::<SedCommandModel>::empty(), q),
            ));
        }
    }
}

// ---------------------------------------------------------------------------
// Laws
// ---------------------------------------------------------------------------

/// A script, a newline and another script are read as the commands of the first
/// and then those of the second, if the first has no `a`, `i` or `c` command:
/// the text of one of these may go on behind the newline.
pub proof fn law_scripts_are_read_in_order(a: Seq<char>, b: Seq<char>)
    requires
        parse_script(a) is Ok,
        parse_script(b) is Ok,
        have_no_text(parse_script(a)->Ok_0),
    ensures
        parse_script(a.push('\n') + b) == Ok::<_, Seq<char>>(
            parse_script(a)->Ok_0 + parse_script(b)->Ok_0,
        ),
{
    let p = a.push('\n');
    let s = p + b;
    assert(extends(a, s));
    lemma_front_script(a, s, 0);
    lemma_shift_commands(p, b, 0, false);
}

/// Two expressions of a command line are accepted together if each is, and
/// their instructions run one after the other.
pub proof fn law_expressions_run_in_order(a: Seq<char>, b: Seq<char>)
    requires
        accepted(a) is Some,
        accepted(b) is Some,
        have_no_text(parse_script(a)->Ok_0),
    ensures
        joined(seq![a, b]) == a.push('\n') + b,
        accepted(joined(seq![a, b])) == Some(accepted(a)->0 + accepted(b)->0),
{
    let x = parse_script(a)->Ok_0;
    let y = parse_script(b)->Ok_0;
    let parts = seq![a, b];
    assert(parts.drop_last() =~= seq![a]);
    assert(joined(parts.drop_last()) == a);
    law_scripts_are_read_in_order(a, b);
    law_flatten_append(x, y);
    lemma_patterns_append(x, y);
    lemma_first_rejection_add(script_patterns(x), script_patterns(y));
}

proof fn lemma_patterns_append(a: Seq<SedCommandModel>, b: Seq<SedCommandModel>)
    ensures
        script_patterns(a + b) == script_patterns(a) + script_patterns(b),
    decreases b.len(),
{
    if b.len() == 0 {
        assert(a + b =~= a);
        assert(script_patterns(a) + script_patterns(b) =~= script_patterns(a));
    } else {
        lemma_patterns_append(a, b.drop_last());
        assert((a + b).drop_last() =~= a + b.drop_last());
        assert((a + b).last() == b.last());
        assert(script_patterns(a + b) =~= script_patterns(a) + script_patterns(b));
    }
}

} // verus!
