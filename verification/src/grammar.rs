//! The grammar of scripts.
//!
//! A script is a sequence of characters. The functions here say what stands at
//! a place `i` of it, and where it ends.

use vstd::prelude::*;

use crate::script::{
    AddressModel, CommandModel, RangeModel, SedCommandModel, SubstituteModel,
};
use crate::text::{
    decimal, is_decimal_digit, is_letter_or_number, is_white_space, without_trailing_space,
};

verus! {

/// What was read and where it ends, or the message of a syntax error.
pub type Parsed<T> = core::result::Result<(T, int), Seq<char>>;

/// The character at `i`, if the script is that long.
pub open spec fn at(s: Seq<char>, i: int) -> Option<char> {
    if 0 <= i < s.len() {
        Some(s[i])
    } else {
        None
    }
}

// ---------------------------------------------------------------------------
// Runs of characters
// ---------------------------------------------------------------------------

/// The kinds of characters that the grammar reads in runs.
#[derive(Clone, Copy)]
pub enum CharKind {
    /// Spaces and tabs
    Blank,
    /// Decimal digits
    Digit,
    /// What a label is made of
    Label,
    /// What a file name is made of
    FileName,
    /// Everything up to the end of the line
    Line,
}

/// Whether `c` is of the given kind.
pub open spec fn is_kind(kind: CharKind, c: char) -> bool {
    match kind {
        CharKind::Blank => c == ' ' || c == '\t',
        CharKind::Digit => is_decimal_digit(c),
        CharKind::Label => is_letter_or_number(c) || c == '_' || c == '.' || c == '-',
        CharKind::FileName => c != '\n' && c != ';',
        CharKind::Line => c != '\n',
    }
}

/// Where the longest run of characters of one kind that starts at `i` ends.
pub open spec fn run_end(s: Seq<char>, i: int, kind: CharKind) -> int
    decreases s.len() - i,
{
    if 0 <= i < s.len() && is_kind(kind, s[i]) {
        run_end(s, i + 1, kind)
    } else {
        i
    }
}

pub proof fn lemma_run_end(s: Seq<char>, i: int, kind: CharKind)
    requires
        0 <= i <= s.len(),
    ensures
        i <= run_end(s, i, kind) <= s.len(),
        run_end(s, i, kind) < s.len() ==> !is_kind(kind, s[run_end(s, i, kind)]),
        forall|k: int| i <= k < run_end(s, i, kind) ==> is_kind(kind, #[trigger] s[k]),
    decreases s.len() - i,
{
    if i < s.len() && is_kind(kind, s[i]) {
        lemma_run_end(s, i + 1, kind);
    }
}

/// The place after the spaces and tabs at `i`.
pub open spec fn skip_spaces(s: Seq<char>, i: int) -> int {
    run_end(s, i, CharKind::Blank)
}

/// The start of the line after the one that `i` is on, or the end of the
/// script.
pub open spec fn skip_line(s: Seq<char>, i: int) -> int {
    let end = run_end(s, i, CharKind::Line);
    if end < s.len() {
        end + 1
    } else {
        end
    }
}

/// Whether `c` may stand between two commands.
pub open spec fn is_separator(c: char) -> bool {
    c == ' ' || c == '\t' || c == '\n' || c == '\r' || c == ';'
}

/// The place after the separators and comments at `i`.
pub open spec fn skip_blanks(s: Seq<char>, i: int) -> int
    decreases s.len() - i,
{
    if !(0 <= i < s.len()) {
        i
    } else if is_separator(s[i]) {
        skip_blanks(s, i + 1)
    } else if s[i] == '#' {
        proof {
            lemma_run_end(s, i, CharKind::Line);
            lemma_run_end(s, i + 1, CharKind::Line);
        }
        skip_blanks(s, skip_line(s, i))
    } else {
        i
    }
}

pub proof fn lemma_skip_blanks(s: Seq<char>, i: int)
    requires
        0 <= i <= s.len(),
    ensures
        i <= skip_blanks(s, i) <= s.len(),
        skip_blanks(s, i) < s.len() ==> !is_separator(s[skip_blanks(s, i)])
            && s[skip_blanks(s, i)] != '#',
        skip_blanks(s, skip_blanks(s, i)) == skip_blanks(s, i),
    decreases s.len() - i,
{
    if i < s.len() {
        if is_separator(s[i]) {
            lemma_skip_blanks(s, i + 1);
        } else if s[i] == '#' {
            lemma_run_end(s, i, CharKind::Line);
            lemma_run_end(s, i + 1, CharKind::Line);
            lemma_skip_blanks(s, skip_line(s, i));
        }
    }
}

// ---------------------------------------------------------------------------
// Numbers
// ---------------------------------------------------------------------------

/// The value of the decimal digits `s[i..end]`.
pub open spec fn digits_value(s: Seq<char>, i: int, end: int) -> nat
    decreases end - i,
{
    if end <= i {
        0
    } else {
        digits_value(s, i, end - 1) * 10 + (s[end - 1] as nat - '0' as nat) as nat
    }
}

/// The number at `i`, or the largest `usize` where it is larger still.
pub open spec fn number(s: Seq<char>, i: int) -> (usize, int) {
    let end = run_end(s, i, CharKind::Digit);
    let value = digits_value(s, i, end);
    (if value <= usize::MAX { value as usize } else { usize::MAX }, end)
}

/// The exit status at `i`, if there is one.
pub open spec fn optional_int(s: Seq<char>, i: int) -> (Option<i32>, int) {
    let j = skip_spaces(s, i);
    if at(s, j) matches Some(c) && is_decimal_digit(c) {
        let (n, end) = number(s, j);
        (Some(n as i32), end)
    } else {
        (None, j)
    }
}

// ---------------------------------------------------------------------------
// Delimited text
// ---------------------------------------------------------------------------

/// The first delimiter at or after `i` with no backslash before it that
/// escapes it.
pub open spec fn closing(s: Seq<char>, i: int, delim: char) -> Option<int>
    decreases s.len() + 1 - i,
{
    if !(0 <= i < s.len()) {
        None
    } else if s[i] == delim {
        Some(i)
    } else if s[i] == '\\' {
        closing(s, i + 2, delim)
    } else {
        closing(s, i + 1, delim)
    }
}

pub proof fn lemma_closing(s: Seq<char>, i: int, delim: char)
    requires
        0 <= i,
    ensures
        closing(s, i, delim) matches Some(end) ==> i <= end < s.len() && s[end] == delim,
    decreases s.len() + 1 - i,
{
    if i < s.len() && s[i] != delim {
        lemma_closing(s, i + 1, delim);
        lemma_closing(s, i + 2, delim);
    }
}

/// The pattern at `i`: the characters before the closing delimiter, with their
/// escapes.
pub open spec fn regex_text(s: Seq<char>, i: int, delim: char) -> Parsed<Seq<char>> {
    match closing(s, i, delim) {
        Some(end) => Ok((s.subrange(i, end), end + 1)),
        None => Err("unterminated regex (expected closing '"@.push(delim) + "')"@),
    }
}

/// `s[i..end]` with the backslash taken away from each escaped delimiter.
pub open spec fn plain_delimiters(s: Seq<char>, i: int, end: int, delim: char) -> Seq<char>
    decreases end - i,
{
    if i >= end {
        Seq::empty()
    } else if s[i] == '\\' && i + 1 < end {
        (if s[i + 1] == delim {
            seq![delim]
        } else {
            seq!['\\', s[i + 1]]
        }) + plain_delimiters(s, i + 2, end, delim)
    } else {
        seq![s[i]] + plain_delimiters(s, i + 1, end, delim)
    }
}

/// The replacement at `i`: the characters before the closing delimiter, with
/// every escape but that of the delimiter.
pub open spec fn replacement_text(s: Seq<char>, i: int, delim: char) -> Parsed<Seq<char>> {
    match closing(s, i, delim) {
        Some(end) => Ok((plain_delimiters(s, i, end, delim), end + 1)),
        None => Err("unterminated replacement (expected closing '"@.push(delim) + "')"@),
    }
}

// ---------------------------------------------------------------------------
// Addresses
// ---------------------------------------------------------------------------

/// The address at `i`, if there is one.
pub open spec fn address(s: Seq<char>, i: int) -> Parsed<Option<AddressModel>> {
    match at(s, i) {
        Some(c) => if is_decimal_digit(c) {
            let (first, j) = number(s, i);
            if at(s, j) == Some('~') {
                let (step, end) = number(s, j + 1);
                Ok((Some(AddressModel::Step { first, step }), end))
            } else {
                Ok((Some(AddressModel::Line(first)), j))
            }
        } else if c == '$' {
            Ok((Some(AddressModel::Last), i + 1))
        } else if c == '/' {
            regex_address(s, i + 1, '/')
        } else if c == '\\' {
            match at(s, i + 1) {
                Some(delim) => regex_address(s, i + 2, delim),
                None => Err("expected delimiter after '\\'"@),
            }
        } else {
            Ok((None, i))
        },
        None => Ok((None, i)),
    }
}

/// The pattern of an address, which starts at `i`.
pub open spec fn regex_address(s: Seq<char>, i: int, delim: char) -> Parsed<Option<AddressModel>> {
    match regex_text(s, i, delim) {
        Ok((pattern, end)) => Ok((Some(AddressModel::Regex(pattern)), end)),
        Err(message) => Err(message),
    }
}

/// Whether the address before `i` is negated, and the place after that.
pub open spec fn negation(s: Seq<char>, i: int) -> (bool, int) {
    if at(s, i) == Some('!') {
        (true, i + 1)
    } else {
        (false, i)
    }
}

/// The addresses of the command at `i`.
pub open spec fn address_range(s: Seq<char>, i: int) -> Parsed<RangeModel> {
    match address(s, i) {
        Err(message) => Err(message),
        Ok((None, j)) => if at(s, j) == Some('!') {
            Err("'!' without preceding address"@)
        } else {
            Ok((RangeModel::Every, j))
        },
        Ok((Some(first), j)) => {
            let k = skip_spaces(s, j);
            if at(s, k) == Some(',') {
                match address(s, skip_spaces(s, k + 1)) {
                    Err(message) => Err(message),
                    Ok((None, _)) => Err("expected address after ','"@),
                    Ok((Some(second), l)) => {
                        let (negated, end) = negation(s, skip_spaces(s, l));
                        Ok((RangeModel::Range { start: first, end: second, negated }, end))
                    },
                }
            } else {
                let (negated, end) = negation(s, k);
                Ok((RangeModel::Single { addr: first, negated }, end))
            }
        },
    }
}

pub proof fn lemma_address(s: Seq<char>, i: int)
    requires
        0 <= i <= s.len(),
    ensures
        address(s, i) matches Ok((found, end)) ==> {
            &&& i <= end <= s.len()
            &&& found is Some ==> i < end
            &&& found is None ==> i == end
        },
{
    lemma_run_end(s, i, CharKind::Digit);
    let j = run_end(s, i, CharKind::Digit);
    if j < s.len() {
        lemma_run_end(s, j + 1, CharKind::Digit);
    }
    lemma_closing(s, i + 1, '/');
    if i + 1 < s.len() {
        lemma_closing(s, i + 2, s[i + 1]);
        lemma_run_end(s, i + 1, CharKind::Digit);
    }
}

pub proof fn lemma_address_range(s: Seq<char>, i: int)
    requires
        0 <= i <= s.len(),
    ensures
        address_range(s, i) matches Ok((range, end)) ==> {
            &&& i <= end <= s.len()
            &&& range !is Every ==> i < end
            &&& range is Every ==> i == end
        },
{
    lemma_address(s, i);
    if let Ok((Some(first), j)) = address(s, i) {
        lemma_run_end(s, j, CharKind::Blank);
        let k = skip_spaces(s, j);
        if at(s, k) == Some(',') {
            lemma_run_end(s, k + 1, CharKind::Blank);
            lemma_address(s, skip_spaces(s, k + 1));
            if let Ok((Some(second), l)) = address(s, skip_spaces(s, k + 1)) {
                lemma_run_end(s, l, CharKind::Blank);
            }
        }
    }
}

// ---------------------------------------------------------------------------
// Arguments
// ---------------------------------------------------------------------------

/// Where the text of `a`, `i` or `c` starts: after an optional backslash and
/// one space, tab or newline.
pub open spec fn text_start(s: Seq<char>, i: int) -> int {
    let j = if at(s, i) == Some('\\') {
        i + 1
    } else {
        i
    };
    match at(s, j) {
        Some(c) => if c == '\n' || c == ' ' || c == '\t' {
            j + 1
        } else {
            j
        },
        None => j,
    }
}

/// Where a text that starts at `start` ends: at the first newline from `i` on
/// that no backslash of the text continues.
pub open spec fn text_end(s: Seq<char>, start: int, i: int) -> int
    decreases s.len() - i,
{
    if !(0 <= i < s.len()) {
        i
    } else if s[i] == '\n' && !(i > start && s[i - 1] == '\\') {
        i
    } else {
        text_end(s, start, i + 1)
    }
}

/// `s[start..end]` without the backslashes that continue a line.
pub open spec fn joined_lines(s: Seq<char>, start: int, end: int) -> Seq<char>
    decreases end - start,
{
    if end <= start {
        Seq::empty()
    } else if s[end - 1] == '\n' && end - 1 > start && s[end - 2] == '\\' {
        joined_lines(s, start, end - 2).push('\n')
    } else {
        joined_lines(s, start, end - 1).push(s[end - 1])
    }
}

/// The text of an `a`, `i` or `c` command.
pub open spec fn text_arg(s: Seq<char>, i: int) -> (Seq<char>, int) {
    let start = text_start(s, i);
    let end = text_end(s, start, start);
    (joined_lines(s, start, end), end)
}

/// A label, or none.
pub open spec fn label_arg(s: Seq<char>, i: int) -> (Option<Seq<char>>, int) {
    let start = skip_spaces(s, i);
    let end = run_end(s, start, CharKind::Label);
    (if start == end { None } else { Some(s.subrange(start, end)) }, end)
}

/// A file name: what stands up to the end of the line or a semicolon.
pub open spec fn filename_arg(s: Seq<char>, i: int) -> (Seq<char>, int) {
    let start = skip_spaces(s, i);
    let end = run_end(s, start, CharKind::FileName);
    (without_trailing_space(s.subrange(start, end)), end)
}

/// What stands up to the end of the line.
pub open spec fn rest_of_line(s: Seq<char>, i: int) -> (Seq<char>, int) {
    let start = skip_spaces(s, i);
    let end = run_end(s, start, CharKind::Line);
    (without_trailing_space(s.subrange(start, end)), end)
}

// ---------------------------------------------------------------------------
// Substitution and transliteration
// ---------------------------------------------------------------------------

/// The flags at `i`, added to those of `sub`.
pub open spec fn substitute_flags(s: Seq<char>, i: int, sub: SubstituteModel) -> (
    SubstituteModel,
    int,
)
    decreases s.len() - i,
{
    match at(s, i) {
        None => (sub, i),
        Some(c) => if c == 'g' {
            substitute_flags(s, i + 1, SubstituteModel { global: true, ..sub })
        } else if c == 'p' {
            substitute_flags(s, i + 1, SubstituteModel { print: true, ..sub })
        } else if c == 'i' || c == 'I' {
            substitute_flags(s, i + 1, SubstituteModel { case_insensitive: true, ..sub })
        } else if c == 'w' {
            let (file, end) = filename_arg(s, i + 1);
            (SubstituteModel { write_file: Some(file), ..sub }, end)
        } else if is_decimal_digit(c) {
            proof {
                lemma_run_end(s, i + 1, CharKind::Digit);
            }
            let (n, end) = number(s, i);
            substitute_flags(s, end, SubstituteModel { nth: Some(n), ..sub })
        } else {
            (sub, i)
        },
    }
}

/// The rest of an `s` command.
pub open spec fn substitute(s: Seq<char>, i: int) -> Parsed<CommandModel> {
    match at(s, i) {
        None => Err("missing delimiter for s command"@),
        Some(delim) => match regex_text(s, i + 1, delim) {
            Err(message) => Err(message),
            Ok((pattern, j)) => match replacement_text(s, j, delim) {
                Err(message) => Err(message),
                Ok((replacement, k)) => {
                    let (sub, end) = substitute_flags(
                        s,
                        k,
                        SubstituteModel {
                            pattern,
                            replacement,
                            global: false,
                            print: false,
                            nth: None,
                            case_insensitive: false,
                            write_file: None,
                        },
                    );
                    Ok((CommandModel::Substitute(sub), end))
                },
            },
        },
    }
}

/// The message on a `y` command whose two lists differ in length.
pub open spec fn unpaired_message(from: nat, to: nat) -> Seq<char> {
    "y command: 'from' and 'to' must be same length ("@ + decimal(from) + " vs "@ + decimal(to)
        + ")"@
}

/// The rest of a `y` command.
pub open spec fn transliterate(s: Seq<char>, i: int) -> Parsed<CommandModel> {
    match at(s, i) {
        None => Err("missing delimiter for y command"@),
        Some(delim) => match regex_text(s, i + 1, delim) {
            Err(message) => Err(message),
            Ok((from, j)) => match regex_text(s, j, delim) {
                Err(message) => Err(message),
                Ok((to, end)) => if from.len() == to.len() {
                    Ok((CommandModel::Transliterate { from, to }, end))
                } else {
                    Err(unpaired_message(from.len(), to.len()))
                },
            },
        },
    }
}

pub proof fn lemma_substitute_flags(s: Seq<char>, i: int, sub: SubstituteModel)
    requires
        0 <= i <= s.len(),
    ensures
        i <= substitute_flags(s, i, sub).1 <= s.len(),
    decreases s.len() - i,
{
    if i < s.len() {
        lemma_run_end(s, i + 1, CharKind::Blank);
        lemma_run_end(s, skip_spaces(s, i + 1), CharKind::FileName);
        lemma_run_end(s, i, CharKind::Digit);
        lemma_run_end(s, i + 1, CharKind::Digit);
        let c = s[i];
        if c == 'g' {
            lemma_substitute_flags(s, i + 1, SubstituteModel { global: true, ..sub });
        } else if c == 'p' {
            lemma_substitute_flags(s, i + 1, SubstituteModel { print: true, ..sub });
        } else if c == 'i' || c == 'I' {
            lemma_substitute_flags(s, i + 1, SubstituteModel { case_insensitive: true, ..sub });
        } else if c == 'w' {
        } else if is_decimal_digit(c) {
            let (n, end) = number(s, i);
            lemma_substitute_flags(s, end, SubstituteModel { nth: Some(n), ..sub });
        }
    }
}

pub proof fn lemma_substitute(s: Seq<char>, i: int)
    requires
        0 <= i <= s.len(),
    ensures
        substitute(s, i) matches Ok((_, end)) ==> i < end <= s.len(),
{
    if i < s.len() {
        let delim = s[i];
        lemma_closing(s, i + 1, delim);
        if let Ok((pattern, j)) = regex_text(s, i + 1, delim) {
            lemma_closing(s, j, delim);
            if let Ok((replacement, k)) = replacement_text(s, j, delim) {
                lemma_substitute_flags(
                    s,
                    k,
                    SubstituteModel {
                        pattern,
                        replacement,
                        global: false,
                        print: false,
                        nth: None,
                        case_insensitive: false,
                        write_file: None,
                    },
                );
            }
        }
    }
}

pub proof fn lemma_transliterate(s: Seq<char>, i: int)
    requires
        0 <= i <= s.len(),
    ensures
        transliterate(s, i) matches Ok((_, end)) ==> i < end <= s.len(),
{
    if i < s.len() {
        let delim = s[i];
        lemma_closing(s, i + 1, delim);
        if let Ok((from, j)) = regex_text(s, i + 1, delim) {
            lemma_closing(s, j, delim);
        }
    }
}

pub proof fn lemma_text_end(s: Seq<char>, start: int, i: int)
    requires
        0 <= i <= s.len(),
    ensures
        i <= text_end(s, start, i) <= s.len(),
    decreases s.len() - i,
{
    if i < s.len() && !(s[i] == '\n' && !(i > start && s[i - 1] == '\\')) {
        lemma_text_end(s, start, i + 1);
    }
}

/// No argument is read past the end of the script.
pub proof fn lemma_arguments(s: Seq<char>, i: int)
    requires
        0 <= i <= s.len(),
    ensures
        i <= optional_int(s, i).1 <= s.len(),
        i <= text_arg(s, i).1 <= s.len(),
        i <= label_arg(s, i).1 <= s.len(),
        i <= filename_arg(s, i).1 <= s.len(),
        i <= rest_of_line(s, i).1 <= s.len(),
        i <= skip_line(s, i) <= s.len(),
{
    lemma_run_end(s, i, CharKind::Blank);
    let start = skip_spaces(s, i);
    lemma_run_end(s, start, CharKind::Digit);
    lemma_run_end(s, start, CharKind::Label);
    lemma_run_end(s, start, CharKind::FileName);
    lemma_run_end(s, start, CharKind::Line);
    lemma_run_end(s, i, CharKind::Line);
    lemma_text_end(s, text_start(s, i), text_start(s, i));
}

// ---------------------------------------------------------------------------
// Commands
// ---------------------------------------------------------------------------

/// The commands that are a single letter.
pub open spec fn bare_command(c: char) -> Option<CommandModel> {
    if c == 'd' {
        Some(CommandModel::Delete)
    } else if c == 'D' {
        Some(CommandModel::DeleteFirstLine)
    } else if c == 'p' {
        Some(CommandModel::Print)
    } else if c == 'P' {
        Some(CommandModel::PrintFirstLine)
    } else if c == '=' {
        Some(CommandModel::PrintLineNumber)
    } else if c == 'l' {
        Some(CommandModel::List)
    } else if c == 'h' {
        Some(CommandModel::HoldReplace)
    } else if c == 'H' {
        Some(CommandModel::HoldAppend)
    } else if c == 'g' {
        Some(CommandModel::GetReplace)
    } else if c == 'G' {
        Some(CommandModel::GetAppend)
    } else if c == 'x' {
        Some(CommandModel::Exchange)
    } else if c == 'n' {
        Some(CommandModel::Next)
    } else if c == 'N' {
        Some(CommandModel::NextAppend)
    } else if c == 'z' {
        Some(CommandModel::ClearPattern)
    } else if c == 'F' {
        Some(CommandModel::PrintFileName)
    } else {
        None
    }
}

/// The commands that take an argument which any script has: one that may be
/// empty. The argument starts at `i`.
pub open spec fn argument_command(s: Seq<char>, i: int, c: char) -> Option<(CommandModel, int)> {
    if c == 'q' {
        let (code, end) = optional_int(s, i);
        Some((CommandModel::Quit(code), end))
    } else if c == 'Q' {
        let (code, end) = optional_int(s, i);
        Some((CommandModel::QuitNoprint(code), end))
    } else if c == 'a' {
        let (text, end) = text_arg(s, i);
        Some((CommandModel::Append(text), end))
    } else if c == 'i' {
        let (text, end) = text_arg(s, i);
        Some((CommandModel::Insert(text), end))
    } else if c == 'c' {
        let (text, end) = text_arg(s, i);
        Some((CommandModel::Change(text), end))
    } else if c == 'r' {
        let (file, end) = filename_arg(s, i);
        Some((CommandModel::ReadFile(file), end))
    } else if c == 'w' {
        let (file, end) = filename_arg(s, i);
        Some((CommandModel::WriteFile(file), end))
    } else if c == 'W' {
        let (file, end) = filename_arg(s, i);
        Some((CommandModel::WriteFirstLine(file), end))
    } else if c == 'R' {
        let (file, end) = filename_arg(s, i);
        Some((CommandModel::ReadLine(file), end))
    } else if c == 'e' {
        let (arg, end) = rest_of_line(s, i);
        Some((CommandModel::Execute(if arg.len() == 0 { None } else { Some(arg) }), end))
    } else if c == 'v' {
        Some((CommandModel::Noop, label_arg(s, i).1))
    } else if c == 'b' {
        let (label, end) = label_arg(s, i);
        Some((CommandModel::Branch(label), end))
    } else if c == 't' {
        let (label, end) = label_arg(s, i);
        Some((CommandModel::BranchIfSub(label), end))
    } else if c == 'T' {
        let (label, end) = label_arg(s, i);
        Some((CommandModel::BranchIfNotSub(label), end))
    } else if c == ':' {
        let (label, end) = label_arg(s, i);
        Some((CommandModel::Label(match label { Some(l) => l, None => Seq::empty() }), end))
    } else if c == '#' {
        Some((CommandModel::Noop, skip_line(s, i)))
    } else {
        None
    }
}

/// The command with the letter `c` whose rest starts at `i`, where it is none
/// that holds other commands.
pub open spec fn plain_command(s: Seq<char>, i: int, c: char) -> Parsed<CommandModel> {
    if c == 's' {
        substitute(s, i)
    } else if c == 'y' {
        transliterate(s, i)
    } else if bare_command(c) is Some {
        Ok((bare_command(c)->0, i))
    } else if argument_command(s, i, c) is Some {
        Ok(argument_command(s, i, c)->0)
    } else {
        Err("unknown command: '"@.push(c) + "'"@)
    }
}

/// Whether `c` is the letter of a command that [`plain_command`] knows.
pub open spec fn is_plain_command(c: char) -> bool {
    ||| c == 's'
    ||| c == 'y'
    ||| bare_command(c) is Some
    ||| argument_command(Seq::empty(), 0, c) is Some
}

pub proof fn lemma_plain_command(s: Seq<char>, i: int, c: char)
    requires
        0 <= i <= s.len(),
    ensures
        plain_command(s, i, c) matches Ok((_, end)) ==> i <= end <= s.len(),
{
    lemma_substitute(s, i);
    lemma_transliterate(s, i);
    lemma_arguments(s, i);
}

/// The letter of the command at `i`, with its addresses, and the place after
/// it; no letter where the script ends before it.
pub open spec fn command_head(s: Seq<char>, i: int) -> Parsed<(RangeModel, Option<char>)> {
    match address_range(s, i) {
        Err(message) => Err(message),
        Ok((range, j)) => {
            let k = skip_spaces(s, j);
            match at(s, k) {
                None => Ok(((range, None), k)),
                Some(c) => Ok(((range, Some(c)), k + 1)),
            }
        },
    }
}

pub proof fn lemma_command_head(s: Seq<char>, i: int)
    requires
        0 <= i < s.len(),
    ensures
        command_head(s, i) matches Ok((_, end)) ==> i < end <= s.len(),
{
    lemma_address_range(s, i);
    if let Ok((range, j)) = address_range(s, i) {
        lemma_run_end(s, j, CharKind::Blank);
    }
}

/// The command at `i`, after separators and comments. There is none at the end
/// of the script, at a stray `}`, or where addresses stand with no command
/// behind them. A white space in place of the letter drops the addresses.
pub open spec fn one_command(s: Seq<char>, i: int) -> Parsed<Option<SedCommandModel>>
    decreases s.len() - i, 0int,
    when 0 <= i <= s.len()
{
    let j = skip_blanks(s, i);
    proof {
        lemma_skip_blanks(s, i);
        if j < s.len() {
            lemma_command_head(s, j);
        }
    }
    if j >= s.len() {
        Ok((None, j))
    } else {
        match command_head(s, j) {
            Err(message) => Err(message),
            Ok(((range, None), end)) => Ok((None, end)),
            Ok(((range, Some(c)), k)) => if c == '{' {
                match commands(s, k, true) {
                    Err(message) => Err(message),
                    Ok((block, end)) => Ok(
                        (
                            Some(
                                SedCommandModel {
                                    address: range,
                                    command: CommandModel::Block(block),
                                },
                            ),
                            end,
                        ),
                    ),
                }
            } else if c == '}' {
                Ok((None, k))
            } else if !is_plain_command(c) && is_white_space(c) {
                one_command(s, k)
            } else {
                match plain_command(s, k, c) {
                    Err(message) => Err(message),
                    Ok((command, end)) => Ok(
                        (Some(SedCommandModel { address: range, command }), end),
                    ),
                }
            },
        }
    }
}

/// The commands from `i` on: up to the closing brace where they are those of a
/// block, else up to the end of the script.
pub open spec fn commands(s: Seq<char>, i: int, block: bool) -> Parsed<Seq<SedCommandModel>>
    decreases s.len() - i, 1int,
    when 0 <= i <= s.len()
{
    let j = skip_blanks(s, i);
    proof {
        lemma_skip_blanks(s, i);
    }
    if j >= s.len() {
        if block {
            Err("unterminated block (missing '}')"@)
        } else {
            Ok((Seq::empty(), j))
        }
    } else if block && s[j] == '}' {
        Ok((Seq::empty(), j + 1))
    } else {
        match one_command(s, j) {
            Err(message) => Err(message),
            Ok((command, k)) => if j < k <= s.len() {
                following(command, commands(s, k, block))
            } else {
                Ok((Seq::empty(), j))
            },
        }
    }
}

/// A command, if there is one, and the commands that follow it.
pub open spec fn following(
    command: Option<SedCommandModel>,
    rest: Parsed<Seq<SedCommandModel>>,
) -> Parsed<Seq<SedCommandModel>> {
    match rest {
        Err(message) => Err(message),
        Ok((list, end)) => Ok(
            (
                match command {
                    Some(c) => seq![c] + list,
                    None => list,
                },
                end,
            ),
        ),
    }
}

/// The commands `list` and those that were read after them.
pub open spec fn preceded(
    list: Seq<SedCommandModel>,
    rest: Parsed<Seq<SedCommandModel>>,
) -> Parsed<Seq<SedCommandModel>> {
    match rest {
        Ok((more, end)) => Ok((list + more, end)),
        Err(message) => Err(message),
    }
}

pub proof fn lemma_preceded_by_none(rest: Parsed<Seq<SedCommandModel>>)
    ensures
        preceded(Seq::empty(), rest) == rest,
{
    if let Ok((more, end)) = rest {
        assert(Seq::<SedCommandModel>::empty() + more =~= more);
    }
}

/// Reading a command moves on, and not past the end of the script.
pub proof fn lemma_one_command(s: Seq<char>, i: int)
    requires
        0 <= i <= s.len(),
    ensures
        one_command(s, i) matches Ok((_, end)) ==> {
            &&& i <= end <= s.len()
            &&& skip_blanks(s, i) < s.len() ==> skip_blanks(s, i) < end
        },
    decreases s.len() - i, 0int,
{
    let j = skip_blanks(s, i);
    lemma_skip_blanks(s, i);
    if j < s.len() {
        lemma_command_head(s, j);
        if let Ok(((range, Some(c)), k)) = command_head(s, j) {
            lemma_plain_command(s, k, c);
            lemma_commands(s, k, true);
            lemma_one_command(s, k);
        }
    }
}

/// Reading commands does not go past the end of the script.
pub proof fn lemma_commands(s: Seq<char>, i: int, block: bool)
    requires
        0 <= i <= s.len(),
    ensures
        commands(s, i, block) matches Ok((_, end)) ==> i <= end <= s.len(),
    decreases s.len() - i, 1int,
{
    let j = skip_blanks(s, i);
    lemma_skip_blanks(s, i);
    if j < s.len() && !(block && s[j] == '}') {
        lemma_one_command(s, j);
        if let Ok((command, k)) = one_command(s, j) {
            if j < k <= s.len() {
                lemma_commands(s, k, block);
            }
        }
    }
}

/// What the script `s` says, or the message of its first syntax error.
pub open spec fn parse_script(s: Seq<char>) -> core::result::Result<
    Seq<SedCommandModel>,
    Seq<char>,
> {
    match commands(s, 0, false) {
        Ok((list, _)) => Ok(list),
        Err(message) => Err(message),
    }
}

} // verus!
