//! Runs on input that comes record by record.
//!
//! A [`Session`] never takes more of the input than it needs: one record beyond
//! the current line, to know whether that line is the last.

use vstd::prelude::*;

use crate::engine::{Engine, State, Status};
use crate::error::{Error, Result};
use crate::input::{
    broken_from, lemma_record_end, lemma_record_start, lines_from, record_at, record_start,
    record_text, replaced_text, source, LineReader,
};
use crate::laws::{
    emptied, law_output_can_be_taken_at_any_time, law_step_keeps_the_line, lemma_ended,
    preceded_by,
};
use crate::machine::{
    ending, outcome, step, with_file, with_file_line, with_line, with_shell_output, Config, Ending,
    InstructionModel, Snapshot, Source, StatusModel,
};
use crate::text::text_of;

verus! {

// ---------------------------------------------------------------------------
// Model
// ---------------------------------------------------------------------------

/// A state, the line that is held back for it, and how many records of the input
/// have been taken.
#[verifier::ext_equal]
pub struct SessionModel {
    pub state: Snapshot,
    pub held: Option<Seq<char>>,
    pub taken: nat,
}

/// How many records were given.
pub open spec fn count(record: Option<Seq<u8>>) -> nat {
    if record is Some {
        1
    } else {
        0
    }
}

/// The session that was given the first record, if there is one. A first record
/// that is not text counts as the end of the input.
pub open spec fn opened(
    config: Config,
    program: Seq<InstructionModel>,
    first: Option<Seq<u8>>,
) -> SessionModel {
    SessionModel {
        state: Snapshot::initial(program),
        held: match first {
            Some(record) => record_text(record, config.null_data),
            None => None,
        },
        taken: count(first),
    }
}

/// The session after its state has made a step.
pub open spec fn stepped(
    config: Config,
    program: Seq<InstructionModel>,
    m: SessionModel,
) -> SessionModel {
    SessionModel { state: step(config, program, m.state), ..m }
}

/// The session after the line that was held back has gone to the state, and the
/// next record was taken in its place; nothing where that record is not text.
pub open spec fn fed(config: Config, m: SessionModel, next: Option<Seq<u8>>) -> Option<
    SessionModel,
> {
    match m.held {
        None => Some(SessionModel { state: with_line(config, m.state, None), ..m }),
        Some(line) => match next {
            None => Some(
                SessionModel {
                    state: with_line(config, m.state, Some((line, true))),
                    held: None,
                    ..m
                },
            ),
            Some(record) => match record_text(record, config.null_data) {
                Some(held) => Some(
                    SessionModel {
                        state: with_line(config, m.state, Some((line, false))),
                        held: Some(held),
                        taken: m.taken + 1,
                    },
                ),
                None => None,
            },
        },
    }
}

/// Whether no record has been taken beyond the one after the current line.
pub open spec fn looks_one_ahead(m: SessionModel) -> bool {
    m.taken <= m.state.line_number + 1
}

// ---------------------------------------------------------------------------
// Sessions
// ---------------------------------------------------------------------------

/// A run on input that comes record by record.
pub struct Session<'a> {
    engine: &'a Engine,
    state: State,
    lines: LineReader,
    taken: Ghost<nat>,
}

impl<'a> View for Session<'a> {
    type V = SessionModel;

    closed spec fn view(&self) -> SessionModel {
        SessionModel { state: self.state@, held: self.lines.pending(), taken: self.taken@ }
    }
}

impl<'a> Session<'a> {
    /// How the script prints.
    pub closed spec fn config(self) -> Config {
        self.engine.config()
    }

    /// The instructions of the script.
    pub closed spec fn program(self) -> Seq<InstructionModel> {
        self.engine.program()
    }

    /// Lines are read as the script expects them, and one ahead at most.
    pub closed spec fn wf(self) -> bool {
        &&& self.lines.null_data() == self.config().null_data
        &&& looks_one_ahead(self@)
    }

    /// Whether it is the same script.
    pub open spec fn same_script(self, other: Session<'a>) -> bool {
        self.config() == other.config() && self.program() == other.program()
    }

    /// Start a run with the first record of the input, if there is one.
    pub fn new(engine: &'a Engine, first: Option<Vec<u8>>) -> (r: Session<'a>)
        ensures
            r.wf(),
            r.config() == engine.config(),
            r.program() == engine.program(),
            r@ == opened(
                engine.config(),
                engine.program(),
                match first {
                    Some(record) => Some(record@),
                    None => None,
                },
            ),
            looks_one_ahead(r@),
    {
        let taken: Ghost<nat> = Ghost(
            if first is Some {
                1
            } else {
                0
            },
        );
        let lines = LineReader::new(first, engine.null_data());
        Session { engine, state: engine.start(), lines, taken }
    }

    /// What the run is about to do, or waits for.
    pub fn status(&self) -> (r: &Status)
        ensures
            r@ == self@.state.status,
    {
        self.state.status()
    }

    /// The number of the current line.
    pub fn line_number(&self) -> (r: usize)
        ensures
            r == self@.state.line_number,
    {
        self.state.line_number()
    }

    /// Whether the next line comes with the record after it. If not, the input
    /// has ended.
    pub fn wants_record(&self) -> (r: bool)
        ensures
            r == (self@.held is Some),
    {
        self.lines.has_line()
    }

    /// Carry out the next instruction, or end the cycle.
    pub fn step(&mut self)
        requires
            old(self).wf(),
            old(self)@.state.status is Ready,
        ensures
            final(self).wf(),
            final(self).same_script(*old(self)),
            final(self)@ == stepped(old(self).config(), old(self).program(), old(self)@),
            looks_one_ahead(final(self)@),
    {
        proof {
            law_step_keeps_the_line(self.config(), self.program(), self@.state);
        }
        self.engine.step(&mut self.state);
    }

    /// Give the run its next line, and take the record after that line.
    pub fn feed(&mut self, next: Option<Vec<u8>>) -> (r: Result<()>)
        requires
            old(self).wf(),
            old(self)@.state.status is AwaitLine,
            old(self)@.held is Some ==> old(self)@.state.line_number < usize::MAX,
        ensures
            final(self).same_script(*old(self)),
            match fed(
                old(self).config(),
                old(self)@,
                match next {
                    Some(record) => Some(record@),
                    None => None,
                },
            ) {
                Some(m) => {
                    &&& r is Ok
                    &&& final(self).wf()
                    &&& final(self)@ == m
                    &&& looks_one_ahead(m)
                },
                None => r == Err::<(), _>(Error::InvalidUtf8),
            },
    {
        let ghost more = self.lines.pending() is Some && next is Some;
        let line = match self.lines.read_line(next) {
            Ok(line) => line,
            Err(e) => return Err(e),
        };
        self.engine.supply_line(&mut self.state, line);
        proof {
            if more {
                self.taken@ = self.taken@ + 1;
            }
        }
        Ok(())
    }

    /// Say which file the current line comes from.
    pub fn set_file_name(&mut self, name: &str)
        requires
            old(self).wf(),
        ensures
            final(self).wf(),
            final(self).same_script(*old(self)),
            final(self)@ == (SessionModel {
                state: Snapshot { file_name: name@, ..old(self)@.state },
                ..old(self)@
            }),
    {
        self.state.set_file_name(name);
    }

    /// Take what was printed.
    pub fn take_output(&mut self) -> (r: String)
        requires
            old(self).wf(),
        ensures
            final(self).wf(),
            final(self).same_script(*old(self)),
            r@ == old(self)@.state.out,
            final(self)@ == (SessionModel {
                state: Snapshot { out: Seq::empty(), ..old(self)@.state },
                ..old(self)@
            }),
    {
        self.state.take_output()
    }

    /// Give the run the content of the file that it waits for, if it can be
    /// read.
    pub fn supply_file(&mut self, content: Option<String>)
        requires
            old(self).wf(),
            old(self)@.state.status is AwaitFile,
        ensures
            final(self).wf(),
            final(self).same_script(*old(self)),
            final(self)@ == (SessionModel {
                state: with_file(old(self)@.state, text_of(content)),
                ..old(self)@
            }),
    {
        self.state.supply_file(content);
    }

    /// Give the run the line of a file that it waits for, if there is one.
    pub fn supply_file_line(&mut self, content: Option<String>)
        requires
            old(self).wf(),
            old(self)@.state.status is AwaitFileLine,
        ensures
            final(self).wf(),
            final(self).same_script(*old(self)),
            final(self)@ == (SessionModel {
                state: with_file_line(old(self)@.state, text_of(content)),
                ..old(self)@
            }),
    {
        self.state.supply_file_line(content);
    }

    /// Give the run what the shell command that it waits for has written.
    pub fn supply_shell_bytes(&mut self, output: &Vec<u8>)
        requires
            old(self).wf(),
            old(self)@.state.status is AwaitShell,
        ensures
            final(self).wf(),
            final(self).same_script(*old(self)),
            final(self)@ == (SessionModel {
                state: with_shell_output(old(self)@.state, replaced_text(output@)),
                ..old(self)@
            }),
    {
        self.state.supply_shell_bytes(output);
    }

    /// Tell the run that the text was appended to the file.
    pub fn appended(&mut self)
        requires
            old(self).wf(),
            old(self)@.state.status is AwaitAppend,
        ensures
            final(self).wf(),
            final(self).same_script(*old(self)),
            final(self)@ == (SessionModel {
                state: old(self)@.state.with(StatusModel::Ready),
                ..old(self)@
            }),
    {
        self.state.appended();
    }
}

// ---------------------------------------------------------------------------
// Laws
// ---------------------------------------------------------------------------

/// Whether one session comes after another: by a step, by the next line, or by
/// anything that leaves the current line and the input alone, such as the output
/// taken or a file supplied.
pub open spec fn comes_after(
    config: Config,
    program: Seq<InstructionModel>,
    m: SessionModel,
    n: SessionModel,
) -> bool {
    ||| m.state.status is Ready && n == stepped(config, program, m)
    ||| m.state.status is AwaitLine && exists|next: Option<Seq<u8>>|
        #[trigger] fed(config, m, next) == Some(n)
    ||| {
        &&& n.taken == m.taken
        &&& n.held == m.held
        &&& n.state.line_number == m.state.line_number
    }
}

/// Whatever a session prints while line `k` is the current one, it prints when
/// no record after number `k + 1` has been taken from the input.
pub proof fn law_one_record_of_look_ahead(
    config: Config,
    program: Seq<InstructionModel>,
    first: Option<Seq<u8>>,
    run: Seq<SessionModel>,
    i: int,
)
    requires
        0 <= i < run.len(),
        run[0] == opened(config, program, first),
        forall|k: int|
            0 <= k < run.len() - 1 ==> comes_after(config, program, #[trigger] run[k], run[k + 1]),
    ensures
        looks_one_ahead(run[i]),
    decreases i,
{
    if i > 0 {
        law_one_record_of_look_ahead(config, program, first, run, i - 1);
        let m = run[i - 1];
        assert(comes_after(config, program, m, run[i - 1 + 1]));
        law_step_keeps_the_line(config, program, m.state);
    }
}

/// Whether a session holds back the next line of what is left of the input.
pub open spec fn is_at(m: SessionModel, source: Source) -> bool {
    m.held == (if source.lines.len() > 0 {
        Some(source.lines[0])
    } else {
        None
    })
}

/// Whether a record is the one after the next line of what is left of the input.
pub open spec fn is_next(config: Config, source: Source, next: Option<Seq<u8>>) -> bool {
    if source.lines.len() > 1 {
        next matches Some(record) && record_text(record, config.null_data) == Some(source.lines[1])
    } else if source.fails() {
        next matches Some(record) && record_text(record, config.null_data) is None
    } else {
        next is None
    }
}

/// A session that is given the next record of an input comes to the state of a
/// run on that input in memory that is given the next line.
pub proof fn law_session_is_a_run(
    config: Config,
    m: SessionModel,
    source: Source,
    next: Option<Seq<u8>>,
)
    requires
        m.state.status is AwaitLine,
        is_at(m, source),
        is_next(config, source, next),
    ensures
        match fed(config, m, next) {
            Some(n) => {
                &&& !source.fails()
                &&& n.state == with_line(config, m.state, source.next())
                &&& is_at(n, source.rest())
            },
            None => source.fails(),
        },
{
}

/// Whether a session goes on from one state to the next as a host makes it go on
/// that gives it the records of some data in their order: by a step, by the next
/// record, or by taking what was printed, which is then the piece.
pub open spec fn goes_on(
    config: Config,
    program: Seq<InstructionModel>,
    data: Seq<u8>,
    m: SessionModel,
    n: SessionModel,
    piece: Seq<char>,
) -> bool {
    ||| {
        &&& m.state.status is Ready
        &&& n == stepped(config, program, m)
        &&& piece == Seq::<char>::empty()
    }
    ||| {
        &&& m.state.status is AwaitLine
        &&& fed(config, m, record_at(data, m.taken, config.null_data)) == Some(n)
        &&& piece == Seq::<char>::empty()
    }
    ||| {
        &&& n == (SessionModel { state: emptied(m.state), ..m })
        &&& piece == m.state.out
    }
}

/// Whether these are the states of a session that is given the records of some
/// data in their order, with the pieces of output that were taken between them.
pub open spec fn is_session(
    config: Config,
    program: Seq<InstructionModel>,
    data: Seq<u8>,
    run: Seq<SessionModel>,
    pieces: Seq<Seq<char>>,
) -> bool {
    &&& run.len() == pieces.len() + 1
    &&& run[0] == opened(config, program, record_at(data, 0, config.null_data))
    &&& forall|k: int|
        0 <= k < pieces.len() ==> goes_on(
            config,
            program,
            data,
            run[k],
            run[k + 1],
            #[trigger] pieces[k],
        )
}

/// What is left of the data for a session.
spec fn left_for(config: Config, data: Seq<u8>, m: SessionModel) -> Source {
    let next = record_start(data, m.taken, config.null_data);
    match m.held {
        Some(line) => Source {
            lines: seq![line] + lines_from(data, next, config.null_data),
            broken: broken_from(data, next, config.null_data),
        },
        None => Source { lines: Seq::empty(), broken: false },
    }
}

/// The state of a session with all that it has printed so far.
spec fn whole(m: SessionModel, pieces: Seq<Seq<char>>) -> Snapshot {
    preceded_by(pieces.flatten_alt(), m.state)
}

proof fn lemma_opened(config: Config, program: Seq<InstructionModel>, data: Seq<u8>)
    ensures
        ({
            let m = opened(config, program, record_at(data, 0, config.null_data));
            &&& left_for(config, data, m) == source(data, config.null_data)
            &&& whole(m, Seq::empty()) == Snapshot::initial(program)
        }),
{
    let m = opened(config, program, record_at(data, 0, config.null_data));
    reveal_with_fuel(record_start, 2);
    lemma_record_end(data, 0, config.null_data);
    assert(left_for(config, data, m) =~= source(data, config.null_data));
    assert(whole(m, Seq::empty()) =~= Snapshot::initial(program));
}

/// What was printed before makes no difference to the next state.
proof fn lemma_preceded(
    config: Config,
    program: Seq<InstructionModel>,
    before: Seq<char>,
    s: Snapshot,
    next: Option<(Seq<char>, bool)>,
)
    ensures
        step(config, program, preceded_by(before, s)) == preceded_by(
            before,
            step(config, program, s),
        ),
        with_line(config, preceded_by(before, s), next) == preceded_by(
            before,
            with_line(config, s, next),
        ),
{
    let t = preceded_by(before, s);
    law_output_can_be_taken_at_any_time(config, program, s, next);
    law_output_can_be_taken_at_any_time(config, program, t, next);
    assert(emptied(t) =~= emptied(s));
    assert(step(config, program, t) =~= preceded_by(before, step(config, program, s)));
    assert(with_line(config, t, next) =~= preceded_by(before, with_line(config, s, next)));
}

/// The record after the current line leads to the next line of what is left.
proof fn lemma_fed(config: Config, data: Seq<u8>, m: SessionModel)
    ensures
        ({
            let left = left_for(config, data, m);
            match fed(config, m, record_at(data, m.taken, config.null_data)) {
                Some(n) => {
                    &&& !left.fails()
                    &&& n.state == with_line(config, m.state, left.next())
                    &&& left_for(config, data, n) == left.rest()
                },
                None => left.fails(),
            }
        }),
{
    let left = left_for(config, data, m);
    let next = record_start(data, m.taken, config.null_data);
    lemma_record_start(data, m.taken, config.null_data);
    lemma_record_end(data, next, config.null_data);
    if let Some(n) = fed(config, m, record_at(data, m.taken, config.null_data)) {
        if m.held is Some {
            assert(left.lines.drop_first() =~= lines_from(data, next, config.null_data));
        }
        assert(left_for(config, data, n) =~= left.rest());
    }
}

/// A session so far, with what it has printed, is a run in memory after some
/// number of steps.
proof fn lemma_session_so_far(
    config: Config,
    program: Seq<InstructionModel>,
    data: Seq<u8>,
    run: Seq<SessionModel>,
    pieces: Seq<Seq<char>>,
    k: int,
) -> (made: nat)
    requires
        is_session(config, program, data, run, pieces),
        0 <= k <= pieces.len(),
    ensures
        forall|more: nat|
            #[trigger] ending(
                config,
                program,
                left_for(config, data, run[k]),
                whole(run[k], pieces.take(k)),
                more,
            ) == ending(
                config,
                program,
                source(data, config.null_data),
                Snapshot::initial(program),
                made + more,
            ),
    decreases k,
{
    if k == 0 {
        assert(pieces.take(0) =~= Seq::empty());
        lemma_opened(config, program, data);
        0
    } else {
        let made = lemma_session_so_far(config, program, data, run, pieces, k - 1);
        let m = run[k - 1];
        let n = run[k];
        let piece = pieces[k - 1];
        let before = pieces.take(k - 1);
        let printed = before.flatten_alt();
        let left = left_for(config, data, m);
        assert(goes_on(config, program, data, m, run[k - 1 + 1], piece));
        assert(pieces.take(k).drop_last() =~= before);
        assert(pieces.take(k).flatten_alt() == printed + piece);
        lemma_preceded(config, program, printed, m.state, left.next());
        lemma_fed(config, data, m);
        if m.state.status is Ready && n == stepped(config, program, m) && piece
            == Seq::<char>::empty() {
            assert(printed + piece =~= printed);
            assert(whole(n, pieces.take(k)) == step(config, program, whole(m, before)));
            assert forall|more: nat|
                #[trigger] ending(
                    config,
                    program,
                    left_for(config, data, n),
                    whole(n, pieces.take(k)),
                    more,
                ) == ending(
                    config,
                    program,
                    source(data, config.null_data),
                    Snapshot::initial(program),
                    made + 1 + more,
                ) by {
                assert(ending(config, program, left, whole(m, before), more + 1) == ending(
                    config,
                    program,
                    source(data, config.null_data),
                    Snapshot::initial(program),
                    made + (more + 1),
                ));
            }
            made + 1
        } else if m.state.status is AwaitLine && fed(
            config,
            m,
            record_at(data, m.taken, config.null_data),
        ) == Some(n) && piece == Seq::<char>::empty() {
            assert(printed + piece =~= printed);
            assert(whole(n, pieces.take(k)) == with_line(config, whole(m, before), left.next()));
            assert forall|more: nat|
                #[trigger] ending(
                    config,
                    program,
                    left_for(config, data, n),
                    whole(n, pieces.take(k)),
                    more,
                ) == ending(
                    config,
                    program,
                    source(data, config.null_data),
                    Snapshot::initial(program),
                    made + 1 + more,
                ) by {
                assert(ending(config, program, left, whole(m, before), more + 1) == ending(
                    config,
                    program,
                    source(data, config.null_data),
                    Snapshot::initial(program),
                    made + (more + 1),
                ));
            }
            made + 1
        } else {
            assert(whole(n, pieces.take(k)) =~= whole(m, before));
            made
        }
    }
}

/// A session that is given the records of some data one by one ends as the run on
/// that data in memory does, and the pieces of output that were taken on the way,
/// with what is there at the end, are the whole output of that run.
pub proof fn law_whole_session_is_a_run(
    config: Config,
    program: Seq<InstructionModel>,
    data: Seq<u8>,
    run: Seq<SessionModel>,
    pieces: Seq<Seq<char>>,
)
    requires
        is_session(config, program, data, run, pieces),
    ensures
        ({
            let m = run.last();
            let end = outcome(config, program, source(data, config.null_data));
            match m.state.status {
                StatusModel::Finished(code) => end == Ending::Finished(
                    code,
                    pieces.flatten_alt() + m.state.out,
                ),
                StatusModel::AwaitFile(name)
                | StatusModel::AwaitFileLine(name)
                | StatusModel::AwaitShell { command: name, .. }
                | StatusModel::AwaitAppend { path: name, .. } => end == Ending::External(name),
                StatusModel::AwaitLine(_) => fed(
                    config,
                    m,
                    record_at(data, m.taken, config.null_data),
                ) is None ==> end == Ending::Broken,
                StatusModel::Ready => true,
            }
        }),
{
    let k = pieces.len() as int;
    let m = run.last();
    let made = lemma_session_so_far(config, program, data, run, pieces, k);
    assert(pieces.take(k) =~= pieces);
    lemma_fed(config, data, m);
    lemma_ended(
        config,
        program,
        source(data, config.null_data),
        made,
        left_for(config, data, m),
        whole(m, pieces),
    );
}

/// Where the run on some data in memory finishes, there is a session that is
/// given the records of the data one by one and finishes too.
pub proof fn law_session_comes_to_the_end(
    config: Config,
    program: Seq<InstructionModel>,
    data: Seq<u8>,
) -> (r: (Seq<SessionModel>, Seq<Seq<char>>))
    requires
        outcome(config, program, source(data, config.null_data)) is Finished,
    ensures
        is_session(config, program, data, r.0, r.1),
        r.0.last().state.status is Finished,
{
    let all = source(data, config.null_data);
    let start = Snapshot::initial(program);
    let steps = choose|n: nat| !(#[trigger] ending(config, program, all, start, n) is Unfinished);
    lemma_opened(config, program, data);
    let first = opened(config, program, record_at(data, 0, config.null_data));
    lemma_session_goes_on(config, program, data, seq![first], Seq::empty(), steps)
}

proof fn lemma_session_goes_on(
    config: Config,
    program: Seq<InstructionModel>,
    data: Seq<u8>,
    run: Seq<SessionModel>,
    pieces: Seq<Seq<char>>,
    steps: nat,
) -> (r: (Seq<SessionModel>, Seq<Seq<char>>))
    requires
        is_session(config, program, data, run, pieces),
        ending(
            config,
            program,
            left_for(config, data, run.last()),
            whole(run.last(), pieces),
            steps,
        ) is Finished,
    ensures
        is_session(config, program, data, r.0, r.1),
        r.0.last().state.status is Finished,
    decreases steps,
{
    let m = run.last();
    let left = left_for(config, data, m);
    if m.state.status is Finished {
        (run, pieces)
    } else {
        lemma_fed(config, data, m);
        lemma_preceded(config, program, pieces.flatten_alt(), m.state, left.next());
        let n = if m.state.status is Ready {
            stepped(config, program, m)
        } else {
            fed(config, m, record_at(data, m.taken, config.null_data))->0
        };
        let none = Seq::<char>::empty();
        let longer = run.push(n);
        let taken = pieces.push(none);
        assert(goes_on(config, program, data, m, n, none));
        assert forall|k: int| 0 <= k < taken.len() implies goes_on(
            config,
            program,
            data,
            longer[k],
            longer[k + 1],
            #[trigger] taken[k],
        ) by {
            if k < pieces.len() {
                assert(goes_on(config, program, data, run[k], run[k + 1], pieces[k]));
            }
        }
        assert(taken.drop_last() =~= pieces);
        assert(taken.flatten_alt() =~= pieces.flatten_alt());
        lemma_session_goes_on(config, program, data, longer, taken, (steps - 1) as nat)
    }
}

} // verus!
