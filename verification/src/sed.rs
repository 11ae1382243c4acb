//! The convenient way in.

use vstd::prelude::*;
use vstd::utf8::encode_utf8;

use crate::cli::Options;
use crate::command::parse;
use crate::engine::{ends_in, Engine};
use crate::error::{Error, Result};
use crate::grammar::{is_separator, parse_script, skip_blanks};
use crate::input::{
    has_plain_lines, law_lines_make_up_the_text, law_text_is_read_as_its_lines, source,
};
use crate::laws::{law_empty_input, law_empty_script, law_whole_input_is_read};
use crate::machine::{
    ending, flatten, outcome, script_patterns, Config, Ending, InstructionModel, Snapshot,
};
use crate::program::{compiled, first_rejection};

verus! {

/// The instructions of a script that is well-formed and whose patterns can be
/// compiled.
pub open spec fn accepted(script: Seq<char>) -> Option<Seq<InstructionModel>> {
    match parse_script(script) {
        Ok(list) => match first_rejection(script_patterns(list)) {
            None => Some(flatten(list)),
            Some(_) => None,
        },
        Err(_) => None,
    }
}

/// Whether a script that is not accepted is refused with this error: the first
/// syntax error in it or, without one, the first pattern that cannot be
/// compiled.
pub open spec fn refused(script: Seq<char>, e: Error) -> bool {
    match parse_script(script) {
        Ok(list) => match first_rejection(script_patterns(list)) {
            None => false,
            Some(reason) => e == Error::Regex(reason),
        },
        Err(reason) => e matches Error::Parse(message) && message@ == reason,
    }
}

/// How a script that was accepted runs on some input in memory.
pub open spec fn run_of(config: Config, program: Seq<InstructionModel>, input: Seq<u8>) -> Ending {
    outcome(config, program, source(input, config.null_data))
}

/// Parse and compile a script.
pub fn compile(script: &str, options: &Options) -> (r: Result<Engine>)
    ensures
        match r {
            Ok(engine) => {
                &&& accepted(script@) == Some(engine.program())
                &&& engine.config() == (Config {
                    quiet: options.quiet,
                    null_data: options.null_data,
                })
            },
            Err(e) => accepted(script@) is None && refused(script@, e),
        },
{
    match parse(script) {
        Ok(list) => Engine::new(list, options),
        Err(e) => Err(e),
    }
}

/// A configured sed instance that can process text.
///
/// This is the recommended entry point for library usage. It wraps the
/// lower-level [`crate::command::parse`] and [`Engine`] with a builder-style
/// API.
pub struct Sed {
    options: Options,
    script: String,
}

impl Sed {
    /// The script was found well-formed when the instance was made.
    #[verifier::type_invariant]
    spec fn wf(self) -> bool {
        accepted(self.script@) is Some
    }

    /// The script.
    pub closed spec fn script(self) -> Seq<char> {
        self.script@
    }

    /// How the script prints.
    pub closed spec fn config(self) -> Config {
        Config { quiet: self.options.quiet, null_data: self.options.null_data }
    }

    /// Create a new `Sed` instance from a sed script string.
    ///
    /// The script is validated (parsed and regex-compiled) eagerly; an
    /// error is returned immediately if the script is malformed.
    pub fn new(script: &str) -> (r: Result<Sed>)
        ensures
            match r {
                Ok(sed) => {
                    &&& accepted(script@) is Some
                    &&& sed.script() == script@
                    &&& sed.config() == (Config { quiet: false, null_data: false })
                },
                Err(e) => accepted(script@) is None && refused(script@, e),
            },
    {
        let options = Options::default();
        match compile(script, &options) {
            Ok(_) => Ok(Sed { options, script: script.to_string() }),
            Err(e) => Err(e),
        }
    }

    /// Suppress automatic printing of the pattern space (equivalent to
    /// the `-n` / `--quiet` flag).
    pub fn quiet(&mut self, yes: bool) -> (r: &mut Sed)
        ensures
            r.script() == old(self).script(),
            r.config() == (Config { quiet: yes, ..old(self).config() }),
            *final(self) == *final(r),
    {
        proof {
            use_type_invariant(&*self);
        }
        self.options.quiet = yes;
        self
    }

    /// Use NUL (`\0`) as the line delimiter instead of newline
    /// (equivalent to `-z` / `--null-data`).
    pub fn null_data(&mut self, yes: bool) -> (r: &mut Sed)
        ensures
            r.script() == old(self).script(),
            r.config() == (Config { null_data: yes, ..old(self).config() }),
            *final(self) == *final(r),
    {
        proof {
            use_type_invariant(&*self);
        }
        self.options.null_data = yes;
        self
    }

    /// The engine that runs the script, for input that is not in memory.
    pub fn engine(&self) -> (r: Result<Engine>)
        ensures
            r matches Ok(engine) && accepted(self.script()) == Some(engine.program())
                && engine.config() == self.config(),
    {
        proof {
            use_type_invariant(self);
        }
        compile(self.script.as_str(), &self.options)
    }

    /// Evaluate the script against the given input string and return
    /// the output as a `String`.
    pub fn eval(&self, input: &str) -> (r: Result<String>)
        ensures
            accepted(self.script()) matches Some(program) && ends_in(
                run_of(self.config(), program, encode_utf8(input@)),
                r,
            ),
            r matches Err(e) ==> e is Exit || e is External,
    {
        proof {
            use_type_invariant(self);
            lemma_text_is_whole(
                self.config(),
                accepted(self.script())->0,
                input@,
            );
        }
        self.eval_bytes(input.as_bytes())
    }

    /// Evaluate the script against raw bytes and return the output as
    /// a `String`.
    pub fn eval_bytes(&self, input: &[u8]) -> (r: Result<String>)
        ensures
            accepted(self.script()) matches Some(program) && ends_in(
                run_of(self.config(), program, input@),
                r,
            ),
            r matches Err(e) ==> !(e is Parse) && !(e is Regex),
    {
        match self.engine() {
            Ok(engine) => engine.process_stream(input),
            Err(e) => Err(e),
        }
    }
}

/// Evaluate a sed script against an input string and return the result.
///
/// This is the simplest way to use the library. For repeated use with
/// the same script, prefer [`Sed::new`].
pub fn eval(script: &str, input: &str) -> (r: Result<String>)
    ensures
        match accepted(script@) {
            Some(program) => ends_in(
                run_of(
                    Config { quiet: false, null_data: false },
                    program,
                    encode_utf8(input@),
                ),
                r,
            ),
            None => r matches Err(e) && refused(script@, e),
        },
{
    match Sed::new(script) {
        Ok(sed) => sed.eval(input),
        Err(e) => Err(e),
    }
}

/// No line of a text is broken.
proof fn lemma_text_is_whole(config: Config, program: Seq<InstructionModel>, text: Seq<char>)
    ensures
        !(run_of(config, program, encode_utf8(text)) is Broken),
{
    law_text_is_read_as_its_lines(text, config.null_data);
    let all = source(encode_utf8(text), config.null_data);
    let start = Snapshot::initial(program);
    let steps = choose|n: nat| !(#[trigger] ending(config, program, all, start, n) is Unfinished);
    law_whole_input_is_read(config, program, all, start, steps);
}

/// A script of separators alone has no commands.
pub proof fn law_blank_script(script: Seq<char>)
    requires
        forall|i: int| 0 <= i < script.len() ==> is_separator(#[trigger] script[i]),
    ensures
        accepted(script) == Some(Seq::<InstructionModel>::empty()),
{
    lemma_blank_from(script, 0);
}

proof fn lemma_blank_from(script: Seq<char>, i: int)
    requires
        0 <= i <= script.len(),
        forall|k: int| 0 <= k < script.len() ==> is_separator(#[trigger] script[k]),
    ensures
        skip_blanks(script, i) == script.len(),
    decreases script.len() - i,
{
    if i < script.len() {
        lemma_blank_from(script, i + 1);
    }
}

/// A script without commands gives text back as it is, if each line of the text
/// ends in a newline alone, or in a NUL where that ends lines; and nothing of any
/// text if it is quiet.
pub proof fn law_no_commands(script: Seq<char>, config: Config, text: Seq<char>)
    requires
        accepted(script) == Some(Seq::<InstructionModel>::empty()),
        config.quiet || has_plain_lines(text, config.null_data),
    ensures
        run_of(config, accepted(script)->0, encode_utf8(text)) == Ending::Finished(
            0,
            if config.quiet {
                Seq::empty()
            } else {
                text
            },
        ),
{
    law_text_is_read_as_its_lines(text, config.null_data);
    law_empty_script(config, source(encode_utf8(text), config.null_data));
    if !config.quiet {
        law_lines_make_up_the_text(config, text);
    }
}

/// Every script that is accepted gives nothing for the empty text.
pub proof fn law_empty_text(script: Seq<char>, config: Config)
    requires
        accepted(script) is Some,
    ensures
        run_of(config, accepted(script)->0, encode_utf8(Seq::empty())) == Ending::Finished(
            0,
            Seq::empty(),
        ),
{
    law_empty_input(
        config,
        accepted(script)->0,
        source(encode_utf8(Seq::empty()), config.null_data),
    );
}

} // verus!
