//! What stands between commands, and scripts that are refused.

use vstd::prelude::*;

use crate::grammar::{
    address, address_range, closing, command_head, commands, digits_value, is_plain_command,
    lemma_one_command, lemma_skip_blanks, number, one_command, parse_script, plain_command,
    regex_text, replacement_text, run_end, skip_blanks, skip_line, skip_spaces, substitute,
    transliterate, CharKind,
};
use crate::joining::lemma_shift_commands;
use crate::script::{AddressModel, CommandModel, RangeModel, SedCommandModel};
use crate::text::{decimal, is_white_space};
use crate::writing::{
    address_written, is_address, is_delimited, law_pattern_is_read, lemma_address_read,
    lemma_address_start, lemma_stands_char, lemma_stands_parts, mark_written, stands_at,
    transliteration_written,
};

verus! {

// ---------------------------------------------------------------------------
// Blanks and comments
// ---------------------------------------------------------------------------

/// Whether a text is made of what may stand between commands: spaces, tabs, line
/// ends and semicolons.
pub open spec fn is_blank(text: Seq<char>) -> bool {
    forall|i: int|
        0 <= i < text.len() ==> (#[trigger] text[i] == ' ' || text[i] == '\t' || text[i] == '\n'
            || text[i] == '\r' || text[i] == ';')
}

proof fn lemma_blank(s: Seq<char>, i: int, text: Seq<char>)
    requires
        is_blank(text),
        stands_at(s, i, text),
    ensures
        skip_blanks(s, i) == skip_blanks(s, i + text.len()),
    decreases text.len(),
{
    if text.len() > 0 {
        let rest = text.drop_first();
        lemma_stands_char(s, i, text, 0);
        assert(text =~= seq![text[0]] + rest);
        lemma_stands_parts(s, i, seq![text[0]], rest);
        assert forall|k: int| 0 <= k < rest.len() implies (#[trigger] rest[k] == ' ' || rest[k]
            == '\t' || rest[k] == '\n' || rest[k] == '\r' || rest[k] == ';') by {
            assert(rest[k] == text[k + 1]);
        }
        lemma_blank(s, i + 1, rest);
    }
}

/// What may stand between commands may stand before them too, any number of times,
/// and makes no difference.
pub proof fn law_blanks_are_skipped(text: Seq<char>, script: Seq<char>)
    requires
        is_blank(text),
    ensures
        parse_script(text + script) == parse_script(script),
{
    let s = text + script;
    assert(s.subrange(0, text.len() as int) =~= text);
    lemma_blank(s, 0, text);
    lemma_skip_blanks(s, 0);
    lemma_skip_blanks(s, text.len() as int);
    assert(commands(s, 0, false) == commands(s, text.len() as int, false));
    lemma_shift_commands(text, script, 0, false);
}

proof fn lemma_line_run(s: Seq<char>, i: int, text: Seq<char>)
    requires
        stands_at(s, i, text),
        forall|k: int| 0 <= k < text.len() ==> #[trigger] text[k] != '\n',
        i + text.len() < s.len() ==> s[i + text.len()] == '\n',
    ensures
        run_end(s, i, CharKind::Line) == i + text.len(),
    decreases text.len(),
{
    if text.len() > 0 {
        let rest = text.drop_first();
        lemma_stands_char(s, i, text, 0);
        assert(text =~= seq![text[0]] + rest);
        lemma_stands_parts(s, i, seq![text[0]], rest);
        assert forall|k: int| 0 <= k < rest.len() implies #[trigger] rest[k] != '\n' by {
            assert(rest[k] == text[k + 1]);
        }
        lemma_line_run(s, i + 1, rest);
    }
}

/// A comment goes from `#` to the end of the line, and makes no difference.
pub proof fn law_comments_are_skipped(comment: Seq<char>, script: Seq<char>)
    requires
        forall|k: int| 0 <= k < comment.len() ==> #[trigger] comment[k] != '\n',
    ensures
        parse_script(seq!['#'] + comment + seq!['\n'] + script) == parse_script(script),
        parse_script(seq!['#'] + comment) == Ok::<_, Seq<char>>(Seq::<SedCommandModel>::empty()),
{
    let front = seq!['#'] + comment;
    assert forall|k: int| 0 <= k < front.len() implies #[trigger] front[k] != '\n' by {
        if k > 0 {
            assert(front[k] == comment[k - 1]);
        }
    }
    let p = front + seq!['\n'];
    let s = p + script;
    assert(s.subrange(0, front.len() as int) =~= front);
    lemma_line_run(s, 0, front);
    assert(skip_blanks(s, 0) == skip_blanks(s, p.len() as int));
    lemma_skip_blanks(s, 0);
    lemma_skip_blanks(s, p.len() as int);
    assert(commands(s, 0, false) == commands(s, p.len() as int, false));
    lemma_shift_commands(p, script, 0, false);
    assert(front.subrange(0, front.len() as int) =~= front);
    lemma_line_run(front, 0, front);
    lemma_skip_blanks(front, 0);
    assert(front[0] == '#');
    assert(skip_line(front, 0) == front.len());
    assert(skip_blanks(front, front.len() as int) == front.len());
    assert(skip_blanks(front, 0) == front.len());
}

/// An address with a line end behind it, in place of the letter of a command, is
/// dropped: the script is what comes behind the line end.
pub proof fn law_address_without_a_command_is_dropped(
    addr: AddressModel,
    negated: bool,
    delim: char,
    c: char,
    script: Seq<char>,
)
    requires
        is_address(addr, delim),
        c == '\n' || c == '\r',
    ensures
        parse_script(
            address_written(addr, delim) + mark_written(negated) + seq![c] + script,
        ) == parse_script(script),
{
    let a = address_written(addr, delim);
    let mark = mark_written(negated);
    let p = a + mark + seq![c];
    let s = p + script;
    let n = a.len() as int;
    let k = p.len() as int;
    assert(s.subrange(0, n) =~= a);
    assert(s[k - 1] == c);
    if negated {
        assert(s[n] == '!');
    }
    lemma_address_read(s, 0, addr, delim);
    lemma_address_start(s, 0, addr, delim);
    lemma_skip_blanks(s, 0);
    assert(skip_blanks(s, 0) == 0);
    assert(skip_spaces(s, n) == n);
    assert(skip_spaces(s, k - 1) == k - 1);
    assert(command_head(s, 0) == Ok::<_, Seq<char>>(
        ((RangeModel::Single { addr, negated }, Some(c)), k),
    ));
    assert(is_white_space(c));
    assert(!is_plain_command(c));
    assert(one_command(s, 0) == one_command(s, k));
    lemma_skip_blanks(s, k);
    lemma_one_command(s, k);
    let j = skip_blanks(s, k);
    if j < s.len() {
        assert(one_command(s, j) == one_command(s, k));
    } else {
        assert(skip_blanks(s, j) == j);
        assert(commands(s, j, false) == Ok::<_, Seq<char>>(
            (Seq::<SedCommandModel>::empty(), j),
        ));
    }
    assert(commands(s, 0, false) == commands(s, k, false));
    lemma_shift_commands(p, script, 0, false);
}

/// A closing brace that closes no block makes no difference.
pub proof fn law_stray_braces_are_skipped(script: Seq<char>)
    ensures
        parse_script(seq!['}'] + script) == parse_script(script),
{
    let p = seq!['}'];
    let s = p + script;
    assert(s[0] == '}');
    lemma_head(s, '}');
    assert(one_command(s, 0) == Ok::<_, Seq<char>>((None::<SedCommandModel>, 1int)));
    lemma_shift_commands(p, script, 0, false);
}

// ---------------------------------------------------------------------------
// Refusals
// ---------------------------------------------------------------------------

/// Whether a character is the letter of a command, or stands for something else
/// where a command may start.
pub open spec fn is_known(c: char) -> bool {
    ||| '0' <= c <= '9'
    ||| seq![
        '$', '/', '\\', '!', '#', ';', '{', '}', ':', '=', 'a', 'b', 'c', 'd', 'D', 'e', 'F', 'g',
        'G', 'h', 'H', 'i', 'l', 'n', 'N', 'p', 'P', 'q', 'Q', 'r', 'R', 's', 't', 'T', 'v', 'w',
        'W', 'x', 'y', 'z',
    ].contains(c)
    ||| is_white_space(c)
}

/// A character that starts no address is taken for the letter of a command.
proof fn lemma_head(s: Seq<char>, c: char)
    requires
        s.len() > 0,
        s[0] == c,
        !('0' <= c <= '9'),
        c != '$' && c != '/' && c != '\\' && c != '!' && c != '#' && c != ';',
        !is_white_space(c),
    ensures
        skip_blanks(s, 0) == 0,
        command_head(s, 0) == Ok::<_, Seq<char>>(((RangeModel::Every, Some(c)), 1int)),
{
    lemma_skip_blanks(s, 0);
    assert(address(s, 0) == Ok::<_, Seq<char>>((None::<AddressModel>, 0int)));
    assert(skip_spaces(s, 0) == 0);
}

/// A script that starts with a character that means nothing there is refused, and
/// the message names the character.
pub proof fn law_unknown_command(c: char, rest: Seq<char>)
    requires
        !is_known(c),
    ensures
        parse_script(seq![c] + rest) == Err::<Seq<SedCommandModel>, _>(
            "unknown command: '"@ + seq![c] + "'"@,
        ),
{
    let s = seq![c] + rest;
    let known = seq![
        '$', '/', '\\', '!', '#', ';', '{', '}', ':', '=', 'a', 'b', 'c', 'd', 'D', 'e', 'F', 'g',
        'G', 'h', 'H', 'i', 'l', 'n', 'N', 'p', 'P', 'q', 'Q', 'r', 'R', 's', 't', 'T', 'v', 'w',
        'W', 'x', 'y', 'z',
    ];
    assert forall|k: int| 0 <= k < known.len() implies c != #[trigger] known[k] by {
        assert(!known.contains(c));
    }
    assert(c != known[0] && c != known[1] && c != known[2] && c != known[3] && c != known[4] && c
        != known[5] && c != known[6] && c != known[7] && c != known[8] && c != known[9]);
    assert(c != known[10] && c != known[11] && c != known[12] && c != known[13] && c != known[14]
        && c != known[15] && c != known[16] && c != known[17] && c != known[18] && c != known[19]);
    assert(c != known[20] && c != known[21] && c != known[22] && c != known[23] && c != known[24]
        && c != known[25] && c != known[26] && c != known[27] && c != known[28] && c != known[29]);
    assert(c != known[30] && c != known[31] && c != known[32] && c != known[33] && c != known[34]
        && c != known[35] && c != known[36] && c != known[37] && c != known[38] && c != known[39]);
    assert(s[0] == c);
    lemma_head(s, c);
    assert(plain_command(s, 1, c) is Err);
    assert(one_command(s, 0) is Err);
    assert("unknown command: '"@.push(c) + "'"@ =~= "unknown command: '"@ + seq![c] + "'"@);
}

proof fn lemma_not_closed(s: Seq<char>, i: int, delim: char)
    requires
        0 <= i,
        forall|k: int| i <= k < s.len() ==> #[trigger] s[k] != delim,
    ensures
        closing(s, i, delim) is None,
    decreases s.len() + 1 - i,
{
    if i < s.len() {
        assert(s[i] != delim);
        lemma_not_closed(s, i + 1, delim);
        lemma_not_closed(s, i + 2, delim);
    }
}

/// A pattern or a replacement without a delimiter behind it is refused.
pub proof fn law_unterminated(s: Seq<char>, i: int, delim: char)
    requires
        0 <= i,
        forall|k: int| i <= k < s.len() ==> #[trigger] s[k] != delim,
    ensures
        regex_text(s, i, delim) == Err::<(Seq<char>, int), _>(
            "unterminated regex (expected closing '"@ + seq![delim] + "')"@,
        ),
        replacement_text(s, i, delim) == Err::<(Seq<char>, int), _>(
            "unterminated replacement (expected closing '"@ + seq![delim] + "')"@,
        ),
{
    lemma_not_closed(s, i, delim);
    assert("unterminated regex (expected closing '"@.push(delim) + "')"@
        =~= "unterminated regex (expected closing '"@ + seq![delim] + "')"@);
    assert("unterminated replacement (expected closing '"@.push(delim) + "')"@
        =~= "unterminated replacement (expected closing '"@ + seq![delim] + "')"@);
}

proof fn lemma_not_closed_behind(s: Seq<char>, i: int, text: Seq<char>, k: int, delim: char)
    requires
        stands_at(s, i, text),
        i + text.len() == s.len(),
        0 <= k <= text.len(),
        is_delimited(text, k, delim),
    ensures
        closing(s, i + k, delim) is None,
    decreases text.len() - k,
{
    if k < text.len() {
        lemma_stands_char(s, i, text, k);
        if text[k] == '\\' {
            lemma_not_closed_behind(s, i, text, k + 2, delim);
        } else {
            lemma_not_closed_behind(s, i, text, k + 1, delim);
        }
    }
}

/// A delimiter behind a backslash closes nothing: a pattern or a replacement in which
/// every delimiter has one is refused where the script ends behind it.
pub proof fn law_escaped_delimiters_close_nothing(
    s: Seq<char>,
    i: int,
    text: Seq<char>,
    delim: char,
)
    requires
        is_delimited(text, 0, delim),
        stands_at(s, i, text),
        i + text.len() == s.len(),
    ensures
        regex_text(s, i, delim) is Err,
        replacement_text(s, i, delim) is Err,
{
    lemma_not_closed_behind(s, i, text, 0, delim);
}

/// Behind an address and a comma there has to be another address.
pub proof fn law_second_address_is_needed(addr: AddressModel, delim: char, c: char, rest: Seq<char>)
    requires
        is_address(addr, delim),
        !('0' <= c <= '9'),
        c != '$' && c != '/' && c != '\\' && c != ' ' && c != '\t',
    ensures
        parse_script(address_written(addr, delim) + seq![',', c] + rest) == Err::<
            Seq<SedCommandModel>,
            _,
        >("expected address after ','"@),
{
    let a = address_written(addr, delim);
    let s = a + seq![',', c] + rest;
    let n = a.len() as int;
    assert(s.subrange(0, n) =~= a);
    assert(s[n] == ',' && s[n + 1] == c);
    lemma_address_read(s, 0, addr, delim);
    lemma_address_start(s, 0, addr, delim);
    lemma_skip_blanks(s, 0);
    assert(skip_blanks(s, 0) == 0);
    assert(skip_spaces(s, n) == n);
    assert(skip_spaces(s, n + 1) == n + 1);
    assert(address(s, n + 1) == Ok::<_, Seq<char>>((None::<AddressModel>, n + 1)));
    assert(address_range(s, 0) is Err);
    assert(one_command(s, 0) is Err);
}

/// `s` and `y` at the end of a script are refused, and so is an `s` command whose
/// pattern or replacement is not closed.
pub proof fn law_incomplete_commands(s: Seq<char>, i: int)
    requires
        0 <= i,
    ensures
        i >= s.len() ==> substitute(s, i) == Err::<(CommandModel, int), _>(
            "missing delimiter for s command"@,
        ),
        i >= s.len() ==> transliterate(s, i) == Err::<(CommandModel, int), _>(
            "missing delimiter for y command"@,
        ),
        i < s.len() && (forall|k: int| i < k < s.len() ==> #[trigger] s[k] != s[i]) ==> substitute(
            s,
            i,
        ) is Err && transliterate(s, i) is Err,
{
    if i < s.len() && (forall|k: int| i < k < s.len() ==> #[trigger] s[k] != s[i]) {
        law_unterminated(s, i + 1, s[i]);
    }
}

/// The two lists of a `y` command have to be of the same length; the message says
/// how long they are.
pub proof fn law_unpaired_lists(
    s: Seq<char>,
    i: int,
    from: Seq<char>,
    to: Seq<char>,
    delim: char,
)
    requires
        from.len() != to.len(),
        is_delimited(from, 0, delim),
        is_delimited(to, 0, delim),
        stands_at(s, i, transliteration_written(from, to, delim)),
    ensures
        transliterate(s, i) == Err::<(CommandModel, int), _>(
            "y command: 'from' and 'to' must be same length ("@ + decimal(from.len()) + " vs "@
                + decimal(to.len()) + ")"@,
        ),
{
    let a = from + seq![delim];
    let b = to + seq![delim];
    lemma_stands_parts(s, i, seq![delim], a + b);
    lemma_stands_parts(s, i + 1, a, b);
    lemma_stands_char(s, i, seq![delim], 0);
    law_pattern_is_read(s, i + 1, from, delim);
    law_pattern_is_read(s, i + 1 + a.len(), to, delim);
}

/// `!` needs an address before it.
pub proof fn law_negation_needs_an_address(rest: Seq<char>)
    ensures
        parse_script(seq!['!'] + rest) == Err::<Seq<SedCommandModel>, _>(
            "'!' without preceding address"@,
        ),
{
    let s = seq!['!'] + rest;
    assert(s[0] == '!');
    lemma_skip_blanks(s, 0);
    assert(skip_blanks(s, 0) == 0);
    assert(address(s, 0) == Ok::<_, Seq<char>>((None::<AddressModel>, 0int)));
    assert(address_range(s, 0) is Err);
    assert(one_command(s, 0) is Err);
}

/// A block has to be closed: `{`, and then nothing but blanks and the end of the
/// script, is refused.
pub proof fn law_block_has_to_be_closed(text: Seq<char>)
    requires
        is_blank(text),
    ensures
        parse_script(seq!['{'] + text) == Err::<Seq<SedCommandModel>, _>(
            "unterminated block (missing '}')"@,
        ),
{
    let s = seq!['{'] + text;
    assert(s[0] == '{');
    assert(s.subrange(1, 1 + text.len() as int) =~= text);
    lemma_blank(s, 1, text);
    lemma_head(s, '{');
    lemma_skip_blanks(s, 1);
    assert(skip_blanks(s, s.len() as int) == s.len());
    assert(commands(s, 1, true) is Err);
    assert(one_command(s, 0) is Err);
}

/// A number that is too large is read as the largest there is.
pub proof fn law_large_numbers(s: Seq<char>, i: int)
    requires
        0 <= i <= s.len(),
        digits_value(s, i, run_end(s, i, CharKind::Digit)) > usize::MAX,
    ensures
        number(s, i).0 == usize::MAX,
{
}

} // verus!
