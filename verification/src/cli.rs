//! The command line.

use vstd::prelude::*;

use crate::engine::Engine;
use crate::error::{Error, Result};
use crate::machine::Config;
use crate::sed::{accepted, compile, refused};
use crate::text::{char_vec, lemma_texts_push, same_text, string_of, texts};

verus! {

broadcast use lemma_texts_push;

/// The options of the command line.
#[derive(Debug)]
pub struct Options {
    /// Suppress automatic printing of pattern space
    pub quiet: bool,
    /// Add the script to the commands to be executed
    pub expressions: Vec<String>,
    /// Add the contents of script-file to the commands to be executed
    pub script_files: Vec<String>,
    /// Edit files in place (makes backup if SUFFIX supplied).
    /// Use --in-place=SUFFIX or -iSUFFIX (no space) for backups.
    pub in_place: Option<String>,
    /// Use extended regular expressions (accepted for compatibility; always enabled)
    pub extended_regexp: bool,
    /// Consider files as separate rather than as a single continuous stream
    pub separate: bool,
    /// Separate lines by NUL characters
    pub null_data: bool,
    /// [SCRIPT] [INPUT-FILE...]
    pub args: Vec<String>,
}

impl Default for Options {
    /// Nothing given on the command line.
    fn default() -> (r: Options)
        ensures
            !r.quiet,
            r.expressions@.len() == 0,
            r.script_files@.len() == 0,
            r.in_place is None,
            !r.extended_regexp,
            !r.separate,
            !r.null_data,
            r.args@.len() == 0,
    {
        Options {
            quiet: false,
            expressions: Vec::new(),
            script_files: Vec::new(),
            in_place: None,
            extended_regexp: false,
            separate: false,
            null_data: false,
            args: Vec::new(),
        }
    }
}

// ---------------------------------------------------------------------------
// The script and the input files
// ---------------------------------------------------------------------------

/// Texts with a newline between each two.
pub open spec fn joined(parts: Seq<Seq<char>>) -> Seq<char>
    decreases parts.len(),
{
    if parts.len() == 0 {
        Seq::empty()
    } else if parts.len() == 1 {
        parts[0]
    } else {
        joined(parts.drop_last()).push('\n') + parts.last()
    }
}

/// What a script file was found to hold, or why it could not be read.
pub type Content = core::result::Result<String, String>;

/// The number of the first script file, from number `i` on, that could not be
/// read.
pub open spec fn unreadable(contents: Seq<Content>, i: int) -> Option<int>
    decreases contents.len() - i,
{
    if !(0 <= i < contents.len()) {
        None
    } else if contents[i] is Err {
        Some(i)
    } else {
        unreadable(contents, i + 1)
    }
}

/// What the script files hold.
pub open spec fn content_texts(contents: Seq<Content>) -> Seq<Seq<char>> {
    contents.map_values(|content: Content| content->Ok_0@)
}

/// The message for a script file that could not be read.
pub open spec fn unreadable_message(path: Seq<char>, reason: Seq<char>) -> Seq<char> {
    "couldn't read script file '"@ + path + "': "@ + reason
}

/// The message for a command line without a script.
pub open spec fn no_script_message() -> Seq<char> {
    "no script provided. Usage: sed [OPTIONS] SCRIPT [FILE...]"@
}

/// The script and the input files of a command line, if it has a script.
///
/// With expressions or script files, these are the script, in that order, and
/// every argument is an input file. Without, the first argument is the script.
pub open spec fn script_of(scripts: Seq<Seq<char>>, args: Seq<Seq<char>>) -> Option<
    (Seq<char>, Seq<Seq<char>>),
> {
    if scripts.len() > 0 {
        Some((joined(scripts), args))
    } else if args.len() > 0 {
        Some((args[0], args.drop_first()))
    } else {
        None
    }
}

/// Scripts are joined in their order with one newline between each two, and a single
/// one stays as it is.
pub proof fn law_joined(first: Seq<char>, rest: Seq<Seq<char>>)
    ensures
        rest.len() == 0 ==> joined(seq![first] + rest) == first,
        rest.len() > 0 ==> joined(seq![first] + rest) == first + seq!['\n'] + joined(rest),
    decreases rest.len(),
{
    let all = seq![first] + rest;
    if rest.len() == 0 {
        assert(all =~= seq![first]);
    } else {
        law_joined(first, rest.drop_last());
        assert(all.drop_last() =~= seq![first] + rest.drop_last());
        assert(all.last() == rest.last());
        if rest.len() == 1 {
            assert(rest.drop_last() =~= Seq::empty());
            assert(joined(all) =~= first + seq!['\n'] + joined(rest));
        } else {
            assert(joined(all) =~= first + seq!['\n'] + joined(rest));
        }
    }
}

/// With expressions or script files all arguments are input files; without, the
/// first is the script and the others are files; and without any there is no script.
pub proof fn law_script_and_files(scripts: Seq<Seq<char>>, args: Seq<Seq<char>>)
    ensures
        scripts.len() > 0 ==> script_of(scripts, args) == Some((joined(scripts), args)),
        scripts.len() == 0 && args.len() > 0 ==> {
            &&& script_of(scripts, args) matches Some((script, files))
            &&& seq![script] + files == args
        },
        scripts.len() == 0 && args.len() == 0 ==> script_of(scripts, args) is None,
{
    if args.len() > 0 {
        assert(seq![args[0]] + args.drop_first() =~= args);
    }
}

/// The texts of the script files are what they hold, in the order of the files.
pub proof fn law_contents(contents: Seq<Content>, i: int)
    requires
        0 <= i < contents.len(),
    ensures
        content_texts(contents).len() == contents.len(),
        contents[i] matches Ok(text) ==> content_texts(contents)[i] == text@,
{
}

/// What is complained of is said in these words.
pub proof fn law_messages(path: Seq<char>, reason: Seq<char>)
    ensures
        unreadable_message(path, reason) == "couldn't read script file '"@ + path + "': "@ + reason,
        no_script_message() == "no script provided. Usage: sed [OPTIONS] SCRIPT [FILE...]"@,
        empty_script_message() == "empty script"@,
        no_file_message() == "-i/--in-place requires at least one file argument"@,
{
}

/// The script file that is complained of is the first that could not be read.
pub proof fn law_unreadable(contents: Seq<Content>, i: int)
    requires
        0 <= i <= contents.len(),
    ensures
        match unreadable(contents, i) {
            Some(k) => {
                &&& i <= k < contents.len()
                &&& contents[k] is Err
                &&& forall|j: int| i <= j < k ==> #[trigger] contents[j] is Ok
            },
            None => forall|j: int| i <= j < contents.len() ==> #[trigger] contents[j] is Ok,
        },
    decreases contents.len() - i,
{
    if i < contents.len() && contents[i] is Ok {
        law_unreadable(contents, i + 1);
    }
}

/// A copy of the texts from number `from` on.
fn copy_texts(list: &Vec<String>, from: usize) -> (r: Vec<String>)
    requires
        from <= list@.len(),
    ensures
        texts(r@) == texts(list@).subrange(from as int, list@.len() as int),
{
    let mut out: Vec<String> = Vec::new();
    let mut i: usize = from;
    while i < list.len()
        invariant
            from <= i <= list@.len(),
            texts(out@) == texts(list@).subrange(from as int, i as int),
        decreases list@.len() - i,
    {
        out.push(list[i].clone());
        i = i + 1;
        assert(texts(out@) =~= texts(list@).subrange(from as int, i as int));
    }
    out
}

/// Join texts with a newline between each two.
fn join_lines(parts: &Vec<String>) -> (r: String)
    ensures
        r@ == joined(texts(parts@)),
{
    let mut out = String::new();
    let mut i: usize = 0;
    while i < parts.len()
        invariant
            i <= parts@.len(),
            out@ == joined(texts(parts@).take(i as int)),
        decreases parts@.len() - i,
    {
        let ghost longer = texts(parts@).take(i + 1);
        assert(longer.drop_last() =~= texts(parts@).take(i as int));
        assert(longer.last() == parts@[i as int]@);
        if i > 0 {
            out.push('\n');
        }
        out.append(parts[i].as_str());
        assert(out@ =~= joined(longer));
        i = i + 1;
    }
    assert(texts(parts@).take(i as int) =~= texts(parts@));
    out
}

impl Options {
    /// Extract the sed script and input file paths from the parsed options.
    /// What each script file holds is given in `contents`.
    ///
    /// If -e or -f was used, all positional args are files.
    /// Otherwise, the first positional arg is the script and the rest are files.
    pub fn script_and_files(&self, contents: &Vec<Content>) -> (r: Result<(String, Vec<String>)>)
        requires
            contents@.len() == self.script_files@.len(),
        ensures
            match unreadable(contents@, 0) {
                Some(i) => r matches Err(Error::Parse(message)) && message@ == unreadable_message(
                    self.script_files@[i]@,
                    contents@[i]->Err_0@,
                ),
                None => match script_of(
                    texts(self.expressions@) + content_texts(contents@),
                    texts(self.args@),
                ) {
                    Some((script, files)) => r matches Ok((s, f)) && s@ == script && texts(f@)
                        == files,
                    None => r matches Err(Error::Parse(message)) && message@
                        == no_script_message(),
                },
            },
    {
        let ghost expressions = texts(self.expressions@);
        let mut scripts = copy_texts(&self.expressions, 0);
        assert(texts(scripts@) =~= expressions + content_texts(contents@).take(0));
        let mut i: usize = 0;
        while i < contents.len()
            invariant
                i <= contents@.len(),
                contents@.len() == self.script_files@.len(),
                expressions == texts(self.expressions@),
                unreadable(contents@, i as int) == unreadable(contents@, 0),
                texts(scripts@) == expressions + content_texts(contents@).take(i as int),
            decreases contents@.len() - i,
        {
            match &contents[i] {
                Ok(text) => scripts.push(text.clone()),
                Err(reason) => {
                    let mut message = "couldn't read script file '".to_string();
                    message.append(self.script_files[i].as_str());
                    message.append("': ");
                    message.append(reason.as_str());
                    return Err(Error::Parse(message));
                },
            }
            assert(texts(scripts@) =~= expressions + content_texts(contents@).take(i + 1));
            i = i + 1;
        }
        assert(content_texts(contents@).take(i as int) =~= content_texts(contents@));
        if scripts.len() == 0 {
            // First positional arg is the script, rest are files
            if self.args.len() == 0 {
                return Err(
                    Error::Parse(
                        "no script provided. Usage: sed [OPTIONS] SCRIPT [FILE...]".to_string(),
                    ),
                );
            }
            let files = copy_texts(&self.args, 1);
            assert(texts(files@) =~= texts(self.args@).drop_first());
            Ok((self.args[0].clone(), files))
        } else {
            let files = copy_texts(&self.args, 0);
            assert(texts(files@) =~= texts(self.args@));
            Ok((join_lines(&scripts), files))
        }
    }
}

// ---------------------------------------------------------------------------
// Raw arguments
// ---------------------------------------------------------------------------

/// What stands for an argument: `-i` becomes `--in-place`, and `-iSUFFIX`
/// becomes `--in-place=SUFFIX`.
pub open spec fn rewritten(arg: Seq<char>) -> Seq<char> {
    if arg.len() == 2 && arg[0] == '-' && arg[1] == 'i' {
        "--in-place"@
    } else if arg.len() > 2 && arg[0] == '-' && arg[1] == 'i' {
        "--in-place="@ + arg.subrange(2, arg.len() as int)
    } else {
        arg
    }
}

/// Whether one of the first `n` arguments is `--`.
pub open spec fn options_ended(raw: Seq<Seq<char>>, n: int) -> bool {
    exists|j: int| 0 <= j < n && #[trigger] raw[j] == "--"@
}

/// The arguments with those before `--` rewritten.
pub open spec fn preprocessed(raw: Seq<Seq<char>>) -> Seq<Seq<char>> {
    Seq::new(
        raw.len(),
        |i: int|
            if options_ended(raw, i) {
                raw[i]
            } else {
                rewritten(raw[i])
            },
    )
}

/// Pre-process raw CLI arguments to handle GNU sed's `-i[SUFFIX]` syntax.
///
/// Transforms:
///   -i        → --in-place
///   -i.bak    → --in-place=.bak
///   -iSUFFIX  → --in-place=SUFFIX
///
/// This is for option parsers that have no optional short-flag values that
/// must be attached (no space) like GNU sed's -i. Arguments from `--` on are
/// left as they are.
pub fn preprocess_args(raw: Vec<String>) -> (r: Vec<String>)
    ensures
        texts(r@) == preprocessed(texts(raw@)),
{
    let ghost all = texts(raw@);
    let mut result: Vec<String> = Vec::new();
    let mut saw_double_dash = false;
    let mut i: usize = 0;
    while i < raw.len()
        invariant
            i <= raw@.len(),
            all == texts(raw@),
            saw_double_dash == options_ended(all, i as int),
            texts(result@) == preprocessed(all).take(i as int),
        decreases raw@.len() - i,
    {
        let arg = &raw[i];
        assert(all[i as int] == arg@);
        if saw_double_dash {
            result.push(arg.clone());
        } else {
            result.push(rewrite_arg(arg.as_str()));
            if same_text(arg.as_str(), "--") {
                saw_double_dash = true;
            }
        }
        assert(texts(result@) =~= preprocessed(all).take(i + 1));
        i = i + 1;
    }
    assert(preprocessed(all).take(i as int) =~= preprocessed(all));
    result
}

/// Rewrite one argument.
fn rewrite_arg(arg: &str) -> (r: String)
    ensures
        r@ == rewritten(arg@),
{
    let chars = char_vec(arg);
    if chars.len() < 2 || chars[0] != '-' || chars[1] != 'i' {
        arg.to_string()
    } else if chars.len() == 2 {
        "--in-place".to_string()
    } else {
        let mut out = "--in-place=".to_string();
        out.append(string_of(&chars, 2, chars.len()).as_str());
        out
    }
}

/// The arguments from `--` on stay as they are, and so does each that does not
/// start with `-i`.
pub proof fn law_other_arguments_stay(raw: Seq<Seq<char>>, i: int)
    requires
        0 <= i < raw.len(),
    ensures
        preprocessed(raw).len() == raw.len(),
        options_ended(raw, i + 1) ==> preprocessed(raw)[i] == raw[i],
        !(raw[i].len() >= 2 && raw[i][0] == '-' && raw[i][1] == 'i') ==> preprocessed(raw)[i]
            == raw[i],
{
    if options_ended(raw, i + 1) && !options_ended(raw, i) {
        reveal_strlit("--");
        assert(raw[i] == "--"@);
    }
}

/// Before `--` the argument `-i` becomes `--in-place`, and with a suffix behind it
/// `--in-place=` and the suffix.
pub proof fn law_in_place_arguments(raw: Seq<Seq<char>>, i: int, suffix: Seq<char>)
    requires
        0 <= i < raw.len(),
        raw[i] == seq!['-', 'i'] + suffix,
        forall|j: int| 0 <= j < i ==> #[trigger] raw[j] != "--"@,
    ensures
        suffix.len() == 0 ==> preprocessed(raw)[i] == "--in-place"@,
        suffix.len() > 0 ==> preprocessed(raw)[i] == "--in-place="@ + suffix,
{
    assert(raw[i][0] == '-' && raw[i][1] == 'i');
    assert(raw[i].subrange(2, raw[i].len() as int) =~= suffix);
}

/// Arguments that were rewritten once are not rewritten again.
pub proof fn law_second_pass_changes_nothing(raw: Seq<Seq<char>>)
    ensures
        preprocessed(preprocessed(raw)) == preprocessed(raw),
{
    let once = preprocessed(raw);
    let marker = "--"@;
    reveal_strlit("--");
    reveal_strlit("--in-place");
    reveal_strlit("--in-place=");
    assert forall|i: int| 0 <= i < raw.len() implies (#[trigger] once[i] == marker) == (raw[i]
        == marker) && rewritten(rewritten(raw[i])) == rewritten(raw[i]) by {
        assert(rewritten(raw[i]).len() >= 2 ==> rewritten(raw[i])[1] != 'i' || rewritten(raw[i])
            == raw[i]);
        assert("--in-place="@.len() == 11);
    }
    assert forall|i: int| 0 <= i < raw.len() implies options_ended(once, i) == options_ended(
        raw,
        i,
    ) by {
        if options_ended(raw, i) {
            let j = choose|j: int| 0 <= j < i && #[trigger] raw[j] == "--"@;
            assert(once[j] == marker);
        }
        if options_ended(once, i) {
            let j = choose|j: int| 0 <= j < i && #[trigger] once[j] == "--"@;
            assert(raw[j] == marker);
        }
    }
    assert(preprocessed(once) =~= once);
}

// ---------------------------------------------------------------------------
// What a command line asks for
// ---------------------------------------------------------------------------

/// The message for a script without a character in it.
pub open spec fn empty_script_message() -> Seq<char> {
    "empty script"@
}

/// The message for editing in place without a file.
pub open spec fn no_file_message() -> Seq<char> {
    "-i/--in-place requires at least one file argument"@
}

/// Compile the script of a command line, and check that there is a file if files
/// are to be edited in place.
pub fn prepare(options: &Options, script: &str, files: &Vec<String>) -> (r: Result<Engine>)
    ensures
        if script@.len() == 0 {
            r matches Err(Error::Parse(message)) && message@ == empty_script_message()
        } else {
            match accepted(script@) {
                None => r matches Err(e) && refused(script@, e),
                Some(program) => if options.in_place is Some && files@.len() == 0 {
                    r matches Err(Error::Parse(message)) && message@ == no_file_message()
                } else {
                    r matches Ok(engine) && engine.program() == program && engine.config() == (
                    Config { quiet: options.quiet, null_data: options.null_data })
                },
            }
        },
{
    if script.is_empty() {
        return Err(Error::Parse("empty script".to_string()));
    }
    match compile(script, options) {
        Ok(engine) => if options.in_place.is_some() && files.len() == 0 {
            Err(
                Error::Parse("-i/--in-place requires at least one file argument".to_string()),
            )
        } else {
            Ok(engine)
        },
        Err(e) => Err(e),
    }
}

// ---------------------------------------------------------------------------
// Files
// ---------------------------------------------------------------------------

/// Which files form one stream: each its own, or all of them one. A stream is
/// given by the number of its first file and the one behind its last.
pub open spec fn streams_of(count: nat, separate: bool) -> Seq<(usize, usize)> {
    if separate {
        Seq::new(count, |i: int| (i as usize, (i + 1) as usize))
    } else if count > 0 {
        seq![(0, count as usize)]
    } else {
        Seq::empty()
    }
}

/// Say which of `count` files form one stream. Files that are edited in place
/// are always separate.
pub fn streams(count: usize, separate: bool) -> (r: Vec<(usize, usize)>)
    ensures
        r@ == streams_of(count as nat, separate),
{
    let mut list: Vec<(usize, usize)> = Vec::new();
    if !separate {
        if count > 0 {
            list.push((0, count));
        }
        assert(list@ =~= streams_of(count as nat, separate));
        return list;
    }
    let mut i: usize = 0;
    while i < count
        invariant
            i <= count,
            list@ == streams_of(i as nat, true),
        decreases count - i,
    {
        list.push((i, i + 1));
        i = i + 1;
        assert(list@ =~= streams_of(i as nat, true));
    }
    list
}

/// Each file is in exactly one stream, and the streams keep the order of the
/// files. They are streams of one file each if they are separate, and one stream of
/// all files otherwise.
pub proof fn law_streams_cover_the_files(count: usize, separate: bool)
    ensures
        ({
            let list = streams_of(count as nat, separate);
            &&& list.len() > 0 <==> count > 0
            &&& list.len() > 0 ==> list[0].0 == 0 && list.last().1 == count
            &&& list.len() == (if separate {
                count as int
            } else if count > 0 {
                1
            } else {
                0
            })
            &&& separate ==> forall|k: int|
                0 <= k < list.len() ==> (#[trigger] list[k]).1 == list[k].0 + 1
            &&& forall|k: int| 0 <= k < list.len() ==> (#[trigger] list[k]).0 < list[k].1
            &&& forall|k: int|
                0 < k < list.len() ==> list[k - 1].1 == (#[trigger] list[k]).0
        }),
{
}

/// The name of the backup of a file that is edited in place, if one is kept.
pub fn backup_path(path: &str, suffix: &str) -> (r: Option<String>)
    ensures
        match r {
            Some(backup) => suffix@.len() > 0 && backup@ == path@ + suffix@,
            None => suffix@.len() == 0,
        },
{
    if suffix.is_empty() {
        None
    } else {
        let mut backup = path.to_string();
        backup.append(suffix);
        Some(backup)
    }
}

} // verus!
