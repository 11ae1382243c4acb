//! The commands of a script.

use vstd::prelude::*;

use crate::error::{Error, Result};
use crate::grammar;
use crate::grammar::CharKind;
use crate::script::{
    command_paired, transliterations_paired, AddressModel, CommandModel, RangeModel,
    SedCommandModel, SubstituteModel,
};
use crate::text::{around, char_vec, copy_text, string_of, text_of, trim_end, write_decimal};

verus! {

// ---------------------------------------------------------------------------
// Types
// ---------------------------------------------------------------------------

/// What selects a line.
#[derive(Debug)]
pub enum Address {
    /// A specific line number (the first line is 1)
    Line(usize),
    /// The last line of input
    Last,
    /// Lines matching a regex pattern
    Regex(String),
    /// GNU extension: first~step (every step-th line starting at first)
    Step { first: usize, step: usize },
}

/// The lines that a command applies to.
#[derive(Debug)]
pub enum AddressRange {
    /// No address: every line
    Every,
    /// A single address, optionally negated
    Single { addr: Address, negated: bool },
    /// A range of two addresses (inclusive), optionally negated
    Range { start: Address, end: Address, negated: bool },
}

/// The parts of an `s` command.
#[derive(Debug)]
pub struct SubstituteCmd {
    pub pattern: String,
    pub replacement: String,
    pub global: bool,
    pub print: bool,
    pub nth: Option<usize>,
    pub case_insensitive: bool,
    pub write_file: Option<String>,
}

/// A command without its address.
#[derive(Debug)]
pub enum Command {
    // -- Substitution and transliteration --
    Substitute(SubstituteCmd),
    Transliterate { from: Vec<char>, to: Vec<char> },
    // -- Output --
    Print,
    PrintFirstLine,
    PrintLineNumber,
    List,
    // -- Deletion --
    Delete,
    DeleteFirstLine,
    // -- Input --
    Next,
    NextAppend,
    // -- Hold space --
    HoldReplace,
    HoldAppend,
    GetReplace,
    GetAppend,
    Exchange,
    // -- Text insertion --
    Append(String),
    Insert(String),
    Change(String),
    // -- Branching --
    Label(String),
    Branch(Option<String>),
    BranchIfSub(Option<String>),
    BranchIfNotSub(Option<String>),
    // -- Files and the shell --
    ReadFile(String),
    /// GNU extension: read one line per cycle from a file (`R`)
    ReadLine(String),
    WriteFile(String),
    WriteFirstLine(String),
    /// GNU extension: print the current input file name (`F`)
    PrintFileName,
    /// GNU extension: execute a shell command (`e`).
    /// `None` runs the pattern space and replaces it with the output;
    /// `Some(cmd)` runs `cmd` and sends its output to the stream.
    Execute(Option<String>),
    // -- Control --
    Quit(Option<i32>),
    QuitNoprint(Option<i32>),
    ClearPattern,
    Noop,
    // -- Grouping --
    Block(Vec<SedCommand>),
}

/// A command with the lines it applies to.
#[derive(Debug)]
pub struct SedCommand {
    pub address: AddressRange,
    pub command: Command,
}

// ---------------------------------------------------------------------------
// Models
// ---------------------------------------------------------------------------

impl View for Address {
    type V = AddressModel;

    open spec fn view(&self) -> AddressModel {
        match *self {
            Address::Line(n) => AddressModel::Line(n),
            Address::Last => AddressModel::Last,
            Address::Regex(pattern) => AddressModel::Regex(pattern@),
            Address::Step { first, step } => AddressModel::Step { first, step },
        }
    }
}

impl View for AddressRange {
    type V = RangeModel;

    open spec fn view(&self) -> RangeModel {
        match *self {
            AddressRange::Every => RangeModel::Every,
            AddressRange::Single { addr, negated } => RangeModel::Single { addr: addr@, negated },
            AddressRange::Range { start, end, negated } => RangeModel::Range {
                start: start@,
                end: end@,
                negated,
            },
        }
    }
}

impl View for SubstituteCmd {
    type V = SubstituteModel;

    open spec fn view(&self) -> SubstituteModel {
        SubstituteModel {
            pattern: self.pattern@,
            replacement: self.replacement@,
            global: self.global,
            print: self.print,
            nth: self.nth,
            case_insensitive: self.case_insensitive,
            write_file: text_of(self.write_file),
        }
    }
}

/// The model of a command.
pub open spec fn command_model(command: Command) -> CommandModel
    decreases command,
{
    match command {
        Command::Substitute(sub) => CommandModel::Substitute(sub@),
        Command::Transliterate { from, to } => CommandModel::Transliterate { from: from@, to: to@ },
        Command::Print => CommandModel::Print,
        Command::PrintFirstLine => CommandModel::PrintFirstLine,
        Command::PrintLineNumber => CommandModel::PrintLineNumber,
        Command::List => CommandModel::List,
        Command::Delete => CommandModel::Delete,
        Command::DeleteFirstLine => CommandModel::DeleteFirstLine,
        Command::Next => CommandModel::Next,
        Command::NextAppend => CommandModel::NextAppend,
        Command::HoldReplace => CommandModel::HoldReplace,
        Command::HoldAppend => CommandModel::HoldAppend,
        Command::GetReplace => CommandModel::GetReplace,
        Command::GetAppend => CommandModel::GetAppend,
        Command::Exchange => CommandModel::Exchange,
        Command::Append(t) => CommandModel::Append(t@),
        Command::Insert(t) => CommandModel::Insert(t@),
        Command::Change(t) => CommandModel::Change(t@),
        Command::Label(l) => CommandModel::Label(l@),
        Command::Branch(l) => CommandModel::Branch(text_of(l)),
        Command::BranchIfSub(l) => CommandModel::BranchIfSub(text_of(l)),
        Command::BranchIfNotSub(l) => CommandModel::BranchIfNotSub(text_of(l)),
        Command::ReadFile(f) => CommandModel::ReadFile(f@),
        Command::ReadLine(f) => CommandModel::ReadLine(f@),
        Command::WriteFile(f) => CommandModel::WriteFile(f@),
        Command::WriteFirstLine(f) => CommandModel::WriteFirstLine(f@),
        Command::PrintFileName => CommandModel::PrintFileName,
        Command::Execute(c) => CommandModel::Execute(text_of(c)),
        Command::Quit(code) => CommandModel::Quit(code),
        Command::QuitNoprint(code) => CommandModel::QuitNoprint(code),
        Command::ClearPattern => CommandModel::ClearPattern,
        Command::Noop => CommandModel::Noop,
        Command::Block(block) => CommandModel::Block(script_model(block@)),
    }
}

/// The model of a list of commands.
pub open spec fn script_model(commands: Seq<SedCommand>) -> Seq<SedCommandModel>
    decreases commands,
{
    if commands.len() == 0 {
        Seq::empty()
    } else {
        let last = commands.last();
        script_model(commands.drop_last()).push(
            SedCommandModel { address: last.address@, command: command_model(last.command) },
        )
    }
}

impl View for SedCommand {
    type V = SedCommandModel;

    open spec fn view(&self) -> SedCommandModel {
        SedCommandModel { address: self.address@, command: command_model(self.command) }
    }
}

/// The model of a longer list is the model of the shorter one and one command
/// more.
pub proof fn lemma_script_model_push(commands: Seq<SedCommand>, command: SedCommand)
    ensures
        script_model(commands.push(command)) == script_model(commands).push(command@),
{
    assert(commands.push(command).drop_last() =~= commands);
}

/// A script has as many commands as its model, and in the same places.
pub proof fn lemma_script_model_index(commands: Seq<SedCommand>)
    ensures
        script_model(commands).len() == commands.len(),
        forall|i: int|
            0 <= i < commands.len() ==> script_model(commands)[i] == (#[trigger] commands[i])@,
    decreases commands.len(),
{
    if commands.len() > 0 {
        lemma_script_model_index(commands.drop_last());
        assert forall|i: int| 0 <= i < commands.len() implies script_model(commands)[i] == (
        #[trigger] commands[i])@ by {
            if i < commands.len() - 1 {
                assert(commands.drop_last()[i] == commands[i]);
            }
        }
    }
}

// ---------------------------------------------------------------------------
// Copies
// ---------------------------------------------------------------------------

impl Clone for Address {
    fn clone(&self) -> (r: Address)
        ensures
            r@ == self@,
    {
        match self {
            Address::Line(n) => Address::Line(*n),
            Address::Last => Address::Last,
            Address::Regex(pattern) => Address::Regex(pattern.clone()),
            Address::Step { first, step } => Address::Step { first: *first, step: *step },
        }
    }
}

impl Clone for AddressRange {
    fn clone(&self) -> (r: AddressRange)
        ensures
            r@ == self@,
    {
        match self {
            AddressRange::Every => AddressRange::Every,
            AddressRange::Single { addr, negated } => AddressRange::Single {
                addr: addr.clone(),
                negated: *negated,
            },
            AddressRange::Range { start, end, negated } => AddressRange::Range {
                start: start.clone(),
                end: end.clone(),
                negated: *negated,
            },
        }
    }
}

impl Clone for SubstituteCmd {
    fn clone(&self) -> (r: SubstituteCmd)
        ensures
            r@ == self@,
    {
        SubstituteCmd {
            pattern: self.pattern.clone(),
            replacement: self.replacement.clone(),
            global: self.global,
            print: self.print,
            nth: self.nth,
            case_insensitive: self.case_insensitive,
            write_file: copy_text(&self.write_file),
        }
    }
}

impl Clone for Command {
    fn clone(&self) -> (r: Command)
        ensures
            command_model(r) == command_model(*self),
    {
        copy_command(self)
    }
}

impl Clone for SedCommand {
    fn clone(&self) -> (r: SedCommand)
        ensures
            r@ == self@,
    {
        SedCommand { address: self.address.clone(), command: copy_command(&self.command) }
    }
}

fn copy_command(command: &Command) -> (r: Command)
    ensures
        command_model(r) == command_model(*command),
    decreases command,
{
    match command {
        Command::Substitute(sub) => Command::Substitute(sub.clone()),
        Command::Transliterate { from, to } => Command::Transliterate {
            from: from.clone(),
            to: to.clone(),
        },
        Command::Print => Command::Print,
        Command::PrintFirstLine => Command::PrintFirstLine,
        Command::PrintLineNumber => Command::PrintLineNumber,
        Command::List => Command::List,
        Command::Delete => Command::Delete,
        Command::DeleteFirstLine => Command::DeleteFirstLine,
        Command::Next => Command::Next,
        Command::NextAppend => Command::NextAppend,
        Command::HoldReplace => Command::HoldReplace,
        Command::HoldAppend => Command::HoldAppend,
        Command::GetReplace => Command::GetReplace,
        Command::GetAppend => Command::GetAppend,
        Command::Exchange => Command::Exchange,
        Command::Append(text) => Command::Append(text.clone()),
        Command::Insert(text) => Command::Insert(text.clone()),
        Command::Change(text) => Command::Change(text.clone()),
        Command::Label(name) => Command::Label(name.clone()),
        Command::Branch(label) => Command::Branch(copy_text(label)),
        Command::BranchIfSub(label) => Command::BranchIfSub(copy_text(label)),
        Command::BranchIfNotSub(label) => Command::BranchIfNotSub(copy_text(label)),
        Command::ReadFile(path) => Command::ReadFile(path.clone()),
        Command::ReadLine(path) => Command::ReadLine(path.clone()),
        Command::WriteFile(path) => Command::WriteFile(path.clone()),
        Command::WriteFirstLine(path) => Command::WriteFirstLine(path.clone()),
        Command::PrintFileName => Command::PrintFileName,
        Command::Execute(shell) => Command::Execute(copy_text(shell)),
        Command::Quit(code) => Command::Quit(*code),
        Command::QuitNoprint(code) => Command::QuitNoprint(*code),
        Command::ClearPattern => Command::ClearPattern,
        Command::Noop => Command::Noop,
        Command::Block(block) => Command::Block(copy_block(block)),
    }
}

fn copy_block(block: &Vec<SedCommand>) -> (r: Vec<SedCommand>)
    ensures
        script_model(r@) == script_model(block@),
    decreases block,
{
    let mut out: Vec<SedCommand> = Vec::new();
    let mut i: usize = 0;
    while i < block.len()
        invariant
            i <= block@.len(),
            script_model(out@) == script_model(block@.take(i as int)),
        decreases block@.len() - i,
    {
        let command = &block[i];
        let copy = SedCommand {
            address: command.address.clone(),
            command: copy_command(&command.command),
        };
        proof {
            lemma_script_model_push(out@, copy);
            lemma_script_model_push(block@.take(i as int), block@[i as int]);
            assert(block@.take(i as int).push(block@[i as int]) =~= block@.take(i + 1));
        }
        out.push(copy);
        i = i + 1;
    }
    assert(block@.take(i as int) =~= block@);
    out
}

// ---------------------------------------------------------------------------
// Parser
// ---------------------------------------------------------------------------

/// Parse a script into its commands.
pub fn parse(script: &str) -> (r: Result<Vec<SedCommand>>)
    ensures
        match r {
            Ok(list) => grammar::parse_script(script@) == Ok::<_, Seq<char>>(script_model(list@)),
            Err(Error::Parse(message)) => grammar::parse_script(script@) == Err::<
                Seq<SedCommandModel>,
                _,
            >(message@),
            Err(_) => false,
        },
        r matches Ok(list) ==> transliterations_paired(script_model(list@)),
{
    let mut parser = Parser::new(script);
    match parser.parse_commands(false) {
        Ok(list) => {
            proof {
                lemma_commands_paired(script@, 0, false);
            }
            Ok(list)
        },
        Err(message) => Err(Error::Parse(message)),
    }
}

/// A script and the place up to which it has been read.
struct Parser {
    chars: Vec<char>,
    pos: usize,
}

impl Parser {
    spec fn wf(self) -> bool {
        self.pos <= self.chars.len()
    }

    /// Reading went from `before` to `after` and up to `end`.
    spec fn moved(before: Self, after: Self, end: int) -> bool {
        &&& after.chars@ == before.chars@
        &&& after.wf()
        &&& after.pos == end
    }

    fn new(input: &str) -> (r: Self)
        ensures
            r.wf(),
            r.chars@ == input@,
            r.pos == 0,
    {
        Parser { chars: char_vec(input), pos: 0 }
    }

    fn peek(&self) -> (r: Option<char>)
        requires
            self.wf(),
        ensures
            r == grammar::at(self.chars@, self.pos as int),
    {
        if self.pos < self.chars.len() {
            Some(self.chars[self.pos])
        } else {
            None
        }
    }

    fn advance(&mut self) -> (r: Option<char>)
        requires
            old(self).wf(),
        ensures
            r == grammar::at(old(self).chars@, old(self).pos as int),
            Parser::moved(
                *old(self),
                *final(self),
                if r is Some { old(self).pos + 1 } else { old(self).pos as int },
            ),
    {
        let c = self.peek();
        if c.is_some() {
            self.pos = self.pos + 1;
        }
        c
    }

    fn is_at_end(&self) -> (r: bool)
        requires
            self.wf(),
        ensures
            r == (self.pos >= self.chars@.len()),
    {
        self.pos >= self.chars.len()
    }

    /// Consume the next character if it is `c`; say whether it was.
    fn consume_if(&mut self, c: char) -> (r: bool)
        requires
            old(self).wf(),
        ensures
            r == (grammar::at(old(self).chars@, old(self).pos as int) == Some(c)),
            Parser::moved(
                *old(self),
                *final(self),
                if r { old(self).pos + 1 } else { old(self).pos as int },
            ),
    {
        match self.peek() {
            Some(next) => if next == c {
                self.pos = self.pos + 1;
                true
            } else {
                false
            },
            None => false,
        }
    }

    /// Skip the longest run of characters of one kind.
    fn skip_run(&mut self, kind: CharKind)
        requires
            old(self).wf(),
        ensures
            Parser::moved(
                *old(self),
                *final(self),
                grammar::run_end(old(self).chars@, old(self).pos as int, kind),
            ),
    {
        while self.pos < self.chars.len() && has_kind(kind, self.chars[self.pos])
            invariant
                self.wf(),
                self.chars@ == old(self).chars@,
                grammar::run_end(self.chars@, self.pos as int, kind) == grammar::run_end(
                    old(self).chars@,
                    old(self).pos as int,
                    kind,
                ),
            decreases self.chars@.len() - self.pos,
        {
            self.pos = self.pos + 1;
        }
    }

    /// Skip spaces and tabs, but no newlines.
    fn skip_spaces(&mut self)
        requires
            old(self).wf(),
        ensures
            Parser::moved(
                *old(self),
                *final(self),
                grammar::skip_spaces(old(self).chars@, old(self).pos as int),
            ),
    {
        self.skip_run(CharKind::Blank);
    }

    /// Skip white space, semicolons and comments.
    fn skip_blanks(&mut self)
        requires
            old(self).wf(),
        ensures
            Parser::moved(
                *old(self),
                *final(self),
                grammar::skip_blanks(old(self).chars@, old(self).pos as int),
            ),
    {
        loop
            invariant
                self.wf(),
                self.chars@ == old(self).chars@,
                grammar::skip_blanks(self.chars@, self.pos as int) == grammar::skip_blanks(
                    old(self).chars@,
                    old(self).pos as int,
                ),
            ensures
                self.pos == grammar::skip_blanks(old(self).chars@, old(self).pos as int),
            decreases self.chars@.len() - self.pos,
        {
            match self.peek() {
                None => break,
                Some(c) => {
                    if c == ' ' || c == '\t' || c == '\n' || c == '\r' || c == ';' {
                        self.pos = self.pos + 1;
                    } else if c == '#' {
                        proof {
                            grammar::lemma_run_end(
                                self.chars@,
                                self.pos + 1,
                                CharKind::Line,
                            );
                        }
                        self.skip_line();
                    } else {
                        break;
                    }
                },
            }
        }
    }

    /// Skip to the end of the current line and past it.
    fn skip_line(&mut self)
        requires
            old(self).wf(),
        ensures
            Parser::moved(
                *old(self),
                *final(self),
                grammar::skip_line(old(self).chars@, old(self).pos as int),
            ),
    {
        self.skip_run(CharKind::Line);
        if self.pos < self.chars.len() {
            self.pos = self.pos + 1;
        }
    }

    // -- Addresses --

    fn parse_address_range(&mut self) -> (r: core::result::Result<AddressRange, String>)
        requires
            old(self).wf(),
        ensures
            final(self).wf(),
            match r {
                Ok(range) => {
                    &&& final(self).chars@ == old(self).chars@
                    &&& grammar::address_range(old(self).chars@, old(self).pos as int) == Ok::<
                        _,
                        Seq<char>,
                    >((range@, final(self).pos as int))
                },
                Err(message) => grammar::address_range(
                    old(self).chars@,
                    old(self).pos as int,
                ) == Err::<(RangeModel, int), _>(message@),
            },
    {
        let addr1 = match self.parse_address() {
            Err(message) => return Err(message),
            Ok(None) => {
                if self.consume_if('!') {
                    return Err("'!' without preceding address".to_string());
                }
                return Ok(AddressRange::Every);
            },
            Ok(Some(addr)) => addr,
        };
        self.skip_spaces();
        if self.consume_if(',') {
            self.skip_spaces();
            let addr2 = match self.parse_address() {
                Err(message) => return Err(message),
                Ok(None) => return Err("expected address after ','".to_string()),
                Ok(Some(addr)) => addr,
            };
            self.skip_spaces();
            let negated = self.consume_if('!');
            Ok(AddressRange::Range { start: addr1, end: addr2, negated })
        } else {
            let negated = self.consume_if('!');
            Ok(AddressRange::Single { addr: addr1, negated })
        }
    }

    fn parse_address(&mut self) -> (r: core::result::Result<Option<Address>, String>)
        requires
            old(self).wf(),
        ensures
            final(self).wf(),
            match r {
                Ok(found) => {
                    &&& final(self).chars@ == old(self).chars@
                    &&& grammar::address(old(self).chars@, old(self).pos as int) == Ok::<
                        _,
                        Seq<char>,
                    >((address_model(found), final(self).pos as int))
                },
                Err(message) => grammar::address(
                    old(self).chars@,
                    old(self).pos as int,
                ) == Err::<(Option<AddressModel>, int), _>(message@),
            },
    {
        let c = match self.peek() {
            None => return Ok(None),
            Some(c) => c,
        };
        if has_kind(CharKind::Digit, c) {
            let n = self.parse_number();
            if self.consume_if('~') {
                let step = self.parse_number();
                Ok(Some(Address::Step { first: n, step }))
            } else {
                Ok(Some(Address::Line(n)))
            }
        } else if c == '$' {
            self.advance();
            Ok(Some(Address::Last))
        } else if c == '/' {
            self.advance();
            match self.parse_regex_delimited('/') {
                Ok(pattern) => Ok(Some(Address::Regex(pattern))),
                Err(message) => Err(message),
            }
        } else if c == '\\' {
            self.advance();
            match self.advance() {
                None => Err("expected delimiter after '\\'".to_string()),
                Some(delim) => match self.parse_regex_delimited(delim) {
                    Ok(pattern) => Ok(Some(Address::Regex(pattern))),
                    Err(message) => Err(message),
                },
            }
        } else {
            Ok(None)
        }
    }

    fn parse_number(&mut self) -> (r: usize)
        requires
            old(self).wf(),
        ensures
            r == grammar::number(old(self).chars@, old(self).pos as int).0,
            Parser::moved(
                *old(self),
                *final(self),
                grammar::number(old(self).chars@, old(self).pos as int).1,
            ),
    {
        let ghost start = self.pos as int;
        let mut n: usize = 0;
        while self.pos < self.chars.len() && has_kind(CharKind::Digit, self.chars[self.pos])
            invariant
                self.wf(),
                self.chars@ == old(self).chars@,
                start == old(self).pos,
                start <= self.pos,
                grammar::run_end(self.chars@, self.pos as int, CharKind::Digit)
                    == grammar::run_end(self.chars@, start, CharKind::Digit),
                n == usize::MAX && grammar::digits_value(self.chars@, start, self.pos as int)
                    >= usize::MAX || n == grammar::digits_value(
                    self.chars@,
                    start,
                    self.pos as int,
                ),
            decreases self.chars@.len() - self.pos,
        {
            let digit: usize = (self.chars[self.pos] as u32 - '0' as u32) as usize;
            n = if n > (usize::MAX - digit) / 10 {
                usize::MAX
            } else {
                n * 10 + digit
            };
            self.pos = self.pos + 1;
        }
        n
    }

    fn parse_optional_int(&mut self) -> (r: Option<i32>)
        requires
            old(self).wf(),
        ensures
            r == grammar::optional_int(old(self).chars@, old(self).pos as int).0,
            Parser::moved(
                *old(self),
                *final(self),
                grammar::optional_int(old(self).chars@, old(self).pos as int).1,
            ),
    {
        self.skip_spaces();
        match self.peek() {
            Some(c) => if has_kind(CharKind::Digit, c) {
                Some(self.parse_number() as i32)
            } else {
                None
            },
            None => None,
        }
    }

    // -- Delimited text --

    /// Move to the closing delimiter. Without one, stop at the end of the
    /// script.
    fn seek_closing(&mut self, delim: char) -> (r: Option<usize>)
        requires
            old(self).wf(),
        ensures
            match r {
                Some(end) => {
                    &&& grammar::closing(old(self).chars@, old(self).pos as int, delim) == Some(
                        end as int,
                    )
                    &&& old(self).pos <= end < old(self).chars@.len()
                    &&& Parser::moved(*old(self), *final(self), end as int)
                },
                None => {
                    &&& grammar::closing(old(self).chars@, old(self).pos as int, delim) is None
                    &&& Parser::moved(*old(self), *final(self), old(self).chars@.len() as int)
                },
            },
    {
        while self.pos < self.chars.len()
            invariant
                self.wf(),
                self.chars@ == old(self).chars@,
                old(self).pos <= self.pos,
                grammar::closing(self.chars@, self.pos as int, delim) == grammar::closing(
                    old(self).chars@,
                    old(self).pos as int,
                    delim,
                ),
            decreases self.chars@.len() - self.pos,
        {
            let c = self.chars[self.pos];
            if c == delim {
                return Some(self.pos);
            }
            if c == '\\' && self.pos + 1 < self.chars.len() {
                self.pos = self.pos + 2;
            } else {
                assert(c == '\\' ==> grammar::closing(self.chars@, self.pos + 2, delim) is None);
                self.pos = self.pos + 1;
            }
        }
        None
    }

    /// Parse a pattern up to its closing delimiter, escapes and all.
    fn parse_regex_delimited(&mut self, delim: char) -> (r: core::result::Result<String, String>)
        requires
            old(self).wf(),
        ensures
            final(self).wf(),
            match r {
                Ok(pattern) => {
                    &&& final(self).chars@ == old(self).chars@
                    &&& grammar::regex_text(old(self).chars@, old(self).pos as int, delim) == Ok::<
                        _,
                        Seq<char>,
                    >((pattern@, final(self).pos as int))
                },
                Err(message) => grammar::regex_text(
                    old(self).chars@,
                    old(self).pos as int,
                    delim,
                ) == Err::<(Seq<char>, int), _>(message@),
            },
    {
        let start = self.pos;
        match self.seek_closing(delim) {
            Some(end) => {
                self.pos = end + 1;
                Ok(string_of(&self.chars, start, end))
            },
            None => Err(around("unterminated regex (expected closing '", delim, "')")),
        }
    }

    /// Parse the replacement of an `s` command up to its closing delimiter.
    /// Only the escape of the delimiter is resolved.
    fn parse_replacement_delimited(&mut self, delim: char) -> (r: core::result::Result<
        String,
        String,
    >)
        requires
            old(self).wf(),
        ensures
            final(self).wf(),
            match r {
                Ok(replacement) => {
                    &&& final(self).chars@ == old(self).chars@
                    &&& grammar::replacement_text(old(self).chars@, old(self).pos as int, delim)
                        == Ok::<_, Seq<char>>((replacement@, final(self).pos as int))
                },
                Err(message) => grammar::replacement_text(
                    old(self).chars@,
                    old(self).pos as int,
                    delim,
                ) == Err::<(Seq<char>, int), _>(message@),
            },
    {
        let start = self.pos;
        match self.seek_closing(delim) {
            Some(end) => {
                self.pos = end + 1;
                let mut out = String::new();
                let mut i: usize = start;
                assert(out@ + grammar::plain_delimiters(
                    self.chars@,
                    i as int,
                    end as int,
                    delim,
                ) =~= grammar::plain_delimiters(self.chars@, start as int, end as int, delim));
                while i < end
                    invariant
                        start <= i <= end < self.chars@.len(),
                        self.chars@ == old(self).chars@,
                        out@ + grammar::plain_delimiters(
                            self.chars@,
                            i as int,
                            end as int,
                            delim,
                        ) == grammar::plain_delimiters(
                            self.chars@,
                            start as int,
                            end as int,
                            delim,
                        ),
                    decreases end - i,
                {
                    let ghost before = out@;
                    let ghost rest = grammar::plain_delimiters(
                        self.chars@,
                        i as int,
                        end as int,
                        delim,
                    );
                    let c = self.chars[i];
                    if c == '\\' && i + 1 < end {
                        let next = self.chars[i + 1];
                        if next != delim {
                            out.push('\\');
                        }
                        out.push(next);
                        i += 2;
                    } else {
                        out.push(c);
                        i += 1;
                    }
                    assert(out@ + grammar::plain_delimiters(
                        self.chars@,
                        i as int,
                        end as int,
                        delim,
                    ) =~= before + rest);
                }
                Ok(out)
            },
            None => Err(around("unterminated replacement (expected closing '", delim, "')")),
        }
    }

    // -- Substitution and transliteration --

    fn parse_substitute(&mut self) -> (r: core::result::Result<Command, String>)
        requires
            old(self).wf(),
        ensures
            final(self).wf(),
            match r {
                Ok(command) => {
                    &&& final(self).chars@ == old(self).chars@
                    &&& grammar::substitute(old(self).chars@, old(self).pos as int) == Ok::<
                        _,
                        Seq<char>,
                    >((command_model(command), final(self).pos as int))
                },
                Err(message) => grammar::substitute(
                    old(self).chars@,
                    old(self).pos as int,
                ) == Err::<(CommandModel, int), _>(message@),
            },
    {
        let delim = match self.advance() {
            Some(delim) => delim,
            None => return Err("missing delimiter for s command".to_string()),
        };
        let pattern = match self.parse_regex_delimited(delim) {
            Ok(pattern) => pattern,
            Err(message) => return Err(message),
        };
        let replacement = match self.parse_replacement_delimited(delim) {
            Ok(replacement) => replacement,
            Err(message) => return Err(message),
        };
        let mut sub = SubstituteCmd {
            pattern,
            replacement,
            global: false,
            print: false,
            nth: None,
            case_insensitive: false,
            write_file: None,
        };
        let ghost flags = grammar::substitute_flags(self.chars@, self.pos as int, sub@);
        loop
            invariant_except_break
                grammar::substitute_flags(self.chars@, self.pos as int, sub@) == flags,
            invariant
                self.wf(),
                self.chars@ == old(self).chars@,
            ensures
                self.wf(),
                self.chars@ == old(self).chars@,
                (sub@, self.pos as int) == flags,
            decreases self.chars@.len() - self.pos,
        {
            let c = match self.peek() {
                Some(c) => c,
                None => break,
            };
            if c == 'g' {
                self.advance();
                sub.global = true;
            } else if c == 'p' {
                self.advance();
                sub.print = true;
            } else if c == 'i' || c == 'I' {
                self.advance();
                sub.case_insensitive = true;
            } else if c == 'w' {
                self.advance();
                sub.write_file = Some(self.parse_filename_arg());
                break;
            } else if has_kind(CharKind::Digit, c) {
                proof {
                    grammar::lemma_run_end(self.chars@, self.pos + 1, CharKind::Digit);
                }
                sub.nth = Some(self.parse_number());
            } else {
                break;
            }
        }
        Ok(Command::Substitute(sub))
    }

    fn parse_transliterate(&mut self) -> (r: core::result::Result<Command, String>)
        requires
            old(self).wf(),
        ensures
            final(self).wf(),
            match r {
                Ok(command) => {
                    &&& final(self).chars@ == old(self).chars@
                    &&& grammar::transliterate(old(self).chars@, old(self).pos as int) == Ok::<
                        _,
                        Seq<char>,
                    >((command_model(command), final(self).pos as int))
                },
                Err(message) => grammar::transliterate(
                    old(self).chars@,
                    old(self).pos as int,
                ) == Err::<(CommandModel, int), _>(message@),
            },
    {
        let delim = match self.advance() {
            Some(delim) => delim,
            None => return Err("missing delimiter for y command".to_string()),
        };
        let from_str = match self.parse_regex_delimited(delim) {
            Ok(text) => text,
            Err(message) => return Err(message),
        };
        let to_str = match self.parse_regex_delimited(delim) {
            Ok(text) => text,
            Err(message) => return Err(message),
        };
        let from = char_vec(from_str.as_str());
        let to = char_vec(to_str.as_str());
        if from.len() != to.len() {
            let mut message = "y command: 'from' and 'to' must be same length (".to_string();
            message.append(write_decimal(from.len()).as_str());
            message.append(" vs ");
            message.append(write_decimal(to.len()).as_str());
            message.append(")");
            return Err(message);
        }
        Ok(Command::Transliterate { from, to })
    }

    // -- Arguments --

    /// Parse the text of an `a`, `i` or `c` command.
    ///
    /// Handles:
    ///   a text       (GNU extension: text on the same line)
    ///   a\ text      (text after the backslash)
    ///   a\           (text on the next line, with backslash continuation)
    fn parse_text_arg(&mut self) -> (r: String)
        requires
            old(self).wf(),
        ensures
            r@ == grammar::text_arg(old(self).chars@, old(self).pos as int).0,
            Parser::moved(
                *old(self),
                *final(self),
                grammar::text_arg(old(self).chars@, old(self).pos as int).1,
            ),
    {
        self.consume_if('\\');
        match self.peek() {
            Some(c) => if c == '\n' || c == ' ' || c == '\t' {
                self.pos = self.pos + 1;
            },
            None => {},
        }
        let start = self.pos;
        let mut text: Vec<char> = Vec::new();
        while self.pos < self.chars.len()
            invariant
                self.wf(),
                self.chars@ == old(self).chars@,
                start == grammar::text_start(old(self).chars@, old(self).pos as int),
                start <= self.pos,
                grammar::text_end(self.chars@, start as int, self.pos as int)
                    == grammar::text_end(self.chars@, start as int, start as int),
                text@ == grammar::joined_lines(self.chars@, start as int, self.pos as int),
            ensures
                self.wf(),
                self.chars@ == old(self).chars@,
                self.pos == grammar::text_end(self.chars@, start as int, start as int),
                text@ == grammar::joined_lines(self.chars@, start as int, self.pos as int),
            decreases self.chars@.len() - self.pos,
        {
            let c = self.chars[self.pos];
            if c == '\n' {
                if self.pos > start && self.chars[self.pos - 1] == '\\' {
                    // The backslash was taken for text; the newline replaces it.
                    let ghost joined = grammar::joined_lines(
                        self.chars@,
                        start as int,
                        self.pos - 1,
                    );
                    text.pop();
                    assert(text@ =~= joined);
                } else {
                    break;
                }
            }
            text.push(c);
            self.pos = self.pos + 1;
        }
        let n = text.len();
        let out = string_of(&text, 0, n);
        assert(out@ =~= text@);
        out
    }

    /// Parse a label name (for `b`, `t`, `T` and `:`).
    fn parse_label_arg(&mut self) -> (r: Option<String>)
        requires
            old(self).wf(),
        ensures
            text_of(r) == grammar::label_arg(old(self).chars@, old(self).pos as int).0,
            Parser::moved(
                *old(self),
                *final(self),
                grammar::label_arg(old(self).chars@, old(self).pos as int).1,
            ),
    {
        self.skip_spaces();
        let start = self.pos;
        proof {
            grammar::lemma_run_end(self.chars@, start as int, CharKind::Label);
        }
        self.skip_run(CharKind::Label);
        if self.pos == start {
            None
        } else {
            Some(string_of(&self.chars, start, self.pos))
        }
    }

    /// Parse a file name (for `r`, `R`, `w` and `W`).
    fn parse_filename_arg(&mut self) -> (r: String)
        requires
            old(self).wf(),
        ensures
            r@ == grammar::filename_arg(old(self).chars@, old(self).pos as int).0,
            Parser::moved(
                *old(self),
                *final(self),
                grammar::filename_arg(old(self).chars@, old(self).pos as int).1,
            ),
    {
        self.skip_spaces();
        let start = self.pos;
        proof {
            grammar::lemma_run_end(self.chars@, start as int, CharKind::FileName);
        }
        self.skip_run(CharKind::FileName);
        trim_end(string_of(&self.chars, start, self.pos).as_str())
    }

    /// Parse the rest of the line as a single argument (for `e`). A semicolon
    /// does not end it.
    fn parse_rest_of_line(&mut self) -> (r: String)
        requires
            old(self).wf(),
        ensures
            r@ == grammar::rest_of_line(old(self).chars@, old(self).pos as int).0,
            Parser::moved(
                *old(self),
                *final(self),
                grammar::rest_of_line(old(self).chars@, old(self).pos as int).1,
            ),
    {
        self.skip_spaces();
        let start = self.pos;
        proof {
            grammar::lemma_run_end(self.chars@, start as int, CharKind::Line);
        }
        self.skip_run(CharKind::Line);
        trim_end(string_of(&self.chars, start, self.pos).as_str())
    }

    // -- Commands --

    /// Parse the rest of the command with the letter `c`, where it is none that
    /// holds other commands. `None` says that there is no such letter.
    fn parse_plain_command(&mut self, c: char) -> (r: core::result::Result<Option<Command>, String>)
        requires
            old(self).wf(),
        ensures
            final(self).wf(),
            match r {
                Ok(Some(command)) => {
                    &&& grammar::is_plain_command(c)
                    &&& final(self).chars@ == old(self).chars@
                    &&& grammar::plain_command(old(self).chars@, old(self).pos as int, c) == Ok::<
                        _,
                        Seq<char>,
                    >((command_model(command), final(self).pos as int))
                },
                Ok(None) => {
                    &&& !grammar::is_plain_command(c)
                    &&& *final(self) == *old(self)
                },
                Err(message) => {
                    &&& grammar::is_plain_command(c)
                    &&& grammar::plain_command(old(self).chars@, old(self).pos as int, c) == Err::<
                        (CommandModel, int),
                        _,
                    >(message@)
                },
            },
    {
        let command = match c {
            's' => return match self.parse_substitute() {
                Ok(command) => Ok(Some(command)),
                Err(message) => Err(message),
            },
            'y' => return match self.parse_transliterate() {
                Ok(command) => Ok(Some(command)),
                Err(message) => Err(message),
            },
            'd' => Command::Delete,
            'D' => Command::DeleteFirstLine,
            'p' => Command::Print,
            'P' => Command::PrintFirstLine,
            '=' => Command::PrintLineNumber,
            'l' => Command::List,
            'q' => Command::Quit(self.parse_optional_int()),
            'Q' => Command::QuitNoprint(self.parse_optional_int()),
            'h' => Command::HoldReplace,
            'H' => Command::HoldAppend,
            'g' => Command::GetReplace,
            'G' => Command::GetAppend,
            'x' => Command::Exchange,
            'n' => Command::Next,
            'N' => Command::NextAppend,
            'z' => Command::ClearPattern,
            'a' => Command::Append(self.parse_text_arg()),
            'i' => Command::Insert(self.parse_text_arg()),
            'c' => Command::Change(self.parse_text_arg()),
            'r' => Command::ReadFile(self.parse_filename_arg()),
            'w' => Command::WriteFile(self.parse_filename_arg()),
            'W' => Command::WriteFirstLine(self.parse_filename_arg()),
            'R' => Command::ReadLine(self.parse_filename_arg()),
            'F' => Command::PrintFileName,
            'e' => {
                let arg = self.parse_rest_of_line();
                Command::Execute(if arg.as_str().is_empty() { None } else { Some(arg) })
            },
            // GNU `v [version]` asserts a minimum version and enables the GNU
            // extensions. They are always on here, so it does nothing.
            'v' => {
                let _ = self.parse_label_arg();
                Command::Noop
            },
            'b' => Command::Branch(self.parse_label_arg()),
            't' => Command::BranchIfSub(self.parse_label_arg()),
            'T' => Command::BranchIfNotSub(self.parse_label_arg()),
            ':' => Command::Label(
                match self.parse_label_arg() {
                    Some(label) => label,
                    None => String::new(),
                },
            ),
            '#' => {
                self.skip_line();
                Command::Noop
            },
            _ => return Ok(None),
        };
        Ok(Some(command))
    }

    /// Parse the next command, if there is one.
    fn parse_one_command(&mut self) -> (r: core::result::Result<Option<SedCommand>, String>)
        requires
            old(self).wf(),
        ensures
            final(self).wf(),
            match r {
                Ok(found) => {
                    &&& final(self).chars@ == old(self).chars@
                    &&& grammar::one_command(old(self).chars@, old(self).pos as int) == Ok::<
                        _,
                        Seq<char>,
                    >((sed_command_model(found), final(self).pos as int))
                },
                Err(message) => grammar::one_command(
                    old(self).chars@,
                    old(self).pos as int,
                ) == Err::<(Option<SedCommandModel>, int), _>(message@),
            },
        decreases old(self).chars@.len() - old(self).pos, 0int,
    {
        let ghost start = self.pos as int;
        self.skip_blanks();
        proof {
            grammar::lemma_skip_blanks(self.chars@, start);
        }
        if self.is_at_end() {
            return Ok(None);
        }
        proof {
            grammar::lemma_command_head(self.chars@, self.pos as int);
        }
        let address = match self.parse_address_range() {
            Ok(address) => address,
            Err(message) => return Err(message),
        };
        self.skip_spaces();
        let c = match self.advance() {
            Some(c) => c,
            None => return Ok(None),
        };
        if c == '{' {
            return match self.parse_commands(true) {
                Ok(block) => Ok(Some(SedCommand { address, command: Command::Block(block) })),
                Err(message) => Err(message),
            };
        }
        if c == '}' {
            return Ok(None);
        }
        match self.parse_plain_command(c) {
            Err(message) => Err(message),
            Ok(Some(command)) => Ok(Some(SedCommand { address, command })),
            Ok(None) => if c.is_whitespace() {
                self.parse_one_command()
            } else {
                Err(around("unknown command: '", c, "'"))
            },
        }
    }

    /// Parse commands up to the end of the script, or up to the closing brace
    /// where they are those of a block.
    fn parse_commands(&mut self, block: bool) -> (r: core::result::Result<Vec<SedCommand>, String>)
        requires
            old(self).wf(),
        ensures
            final(self).wf(),
            match r {
                Ok(list) => {
                    &&& final(self).chars@ == old(self).chars@
                    &&& grammar::commands(old(self).chars@, old(self).pos as int, block) == Ok::<
                        _,
                        Seq<char>,
                    >((script_model(list@), final(self).pos as int))
                },
                Err(message) => grammar::commands(
                    old(self).chars@,
                    old(self).pos as int,
                    block,
                ) == Err::<(Seq<SedCommandModel>, int), _>(message@),
            },
        decreases old(self).chars@.len() - old(self).pos, 1int,
    {
        let ghost s = self.chars@;
        let ghost start = self.pos as int;
        let mut list: Vec<SedCommand> = Vec::new();
        assert(grammar::preceded(script_model(list@), grammar::commands(s, start, block))
            == grammar::commands(s, start, block)) by {
            grammar::lemma_preceded_by_none(grammar::commands(s, start, block));
        }
        loop
            invariant
                self.wf(),
                self.chars@ == s,
                s == old(self).chars@,
                start == old(self).pos,
                start <= self.pos,
                grammar::preceded(script_model(list@), grammar::commands(s, self.pos as int, block))
                    == grammar::commands(s, start, block),
            decreases s.len() - self.pos,
        {
            let ghost i = self.pos as int;
            self.skip_blanks();
            proof {
                grammar::lemma_skip_blanks(s, i);
            }
            if self.is_at_end() {
                if block {
                    return Err("unterminated block (missing '}')".to_string());
                }
                assert(script_model(list@) + Seq::<SedCommandModel>::empty() =~= script_model(
                    list@,
                ));
                return Ok(list);
            }
            if block && self.consume_if('}') {
                assert(script_model(list@) + Seq::<SedCommandModel>::empty() =~= script_model(
                    list@,
                ));
                return Ok(list);
            }
            let ghost j = self.pos as int;
            proof {
                grammar::lemma_one_command(s, j);
            }
            match self.parse_one_command() {
                Err(message) => return Err(message),
                Ok(found) => {
                    let ghost before = script_model(list@);
                    let ghost rest = grammar::commands(s, self.pos as int, block);
                    proof {
                        lemma_preceded(before, sed_command_model(found), rest);
                    }
                    match found {
                        Some(command) => {
                            proof {
                                lemma_script_model_push(list@, command);
                            }
                            list.push(command);
                        },
                        None => {},
                    }
                },
            }
        }
    }
}

/// The model of an address that may be absent.
spec fn address_model(found: Option<Address>) -> Option<AddressModel> {
    match found {
        Some(addr) => Some(addr@),
        None => None,
    }
}

/// The model of a command that may be absent.
spec fn sed_command_model(found: Option<SedCommand>) -> Option<SedCommandModel> {
    match found {
        Some(command) => Some(command@),
        None => None,
    }
}

/// Whether `c` is of the given kind.
fn has_kind(kind: CharKind, c: char) -> (r: bool)
    ensures
        r == grammar::is_kind(kind, c),
{
    match kind {
        CharKind::Blank => c == ' ' || c == '\t',
        CharKind::Digit => '0' <= c && c <= '9',
        CharKind::Label => c.is_alphanumeric() || c == '_' || c == '.' || c == '-',
        CharKind::FileName => c != '\n' && c != ';',
        CharKind::Line => c != '\n',
    }
}

proof fn lemma_preceded(
    list: Seq<SedCommandModel>,
    found: Option<SedCommandModel>,
    rest: grammar::Parsed<Seq<SedCommandModel>>,
)
    ensures
        grammar::preceded(list, grammar::following(found, rest)) == grammar::preceded(
            match found {
                Some(command) => list.push(command),
                None => list,
            },
            rest,
        ),
{
    if let Ok((more, end)) = rest {
        if let Some(command) = found {
            assert(list + (seq![command] + more) =~= list.push(command) + more);
        }
    }
}

/// The transliterations of a block that was read are paired.
proof fn lemma_commands_paired(s: Seq<char>, i: int, block: bool)
    requires
        0 <= i <= s.len(),
    ensures
        grammar::commands(s, i, block) matches Ok((list, _)) ==> transliterations_paired(list),
    decreases s.len() - i, 1int,
{
    let j = grammar::skip_blanks(s, i);
    grammar::lemma_skip_blanks(s, i);
    if j < s.len() && !(block && s[j] == '}') {
        lemma_one_command_paired(s, j);
        if let Ok((found, k)) = grammar::one_command(s, j) {
            if j < k <= s.len() {
                lemma_commands_paired(s, k, block);
                if let Ok((rest, _)) = grammar::commands(s, k, block) {
                    if let Some(command) = found {
                        lemma_paired_prepend(command, rest);
                    }
                }
            }
        }
    }
}

/// The transliterations of a command that was read are paired.
proof fn lemma_one_command_paired(s: Seq<char>, i: int)
    requires
        0 <= i <= s.len(),
    ensures
        grammar::one_command(s, i) matches Ok((Some(command), _)) ==> command_paired(
            command.command,
        ),
    decreases s.len() - i, 0int,
{
    let j = grammar::skip_blanks(s, i);
    grammar::lemma_skip_blanks(s, i);
    if j < s.len() {
        grammar::lemma_command_head(s, j);
        if let Ok(((range, Some(c)), k)) = grammar::command_head(s, j) {
            lemma_commands_paired(s, k, true);
            lemma_one_command_paired(s, k);
        }
    }
}

proof fn lemma_paired_prepend(command: SedCommandModel, rest: Seq<SedCommandModel>)
    requires
        command_paired(command.command),
        transliterations_paired(rest),
    ensures
        transliterations_paired(seq![command] + rest),
    decreases rest.len(),
{
    let all = seq![command] + rest;
    if rest.len() == 0 {
        assert(all.drop_last() =~= rest);
    } else {
        assert(all.last() == rest.last());
        lemma_paired_prepend(command, rest.drop_last());
        assert(all.drop_last() =~= seq![command] + rest.drop_last());
    }
}

} // verus!
