//! What the instructions of a script are, and which scripts are accepted.

use vstd::prelude::*;

use regex::Error as RegexError;

use crate::engine::ends_in;
use crate::error::{Error, Result};
use crate::grammar::parse_script;
use crate::machine::{
    address_patterns, command_patterns, flatten, lower, range_patterns, script_patterns, Ending,
    InstructionModel, OpModel,
};
use crate::pattern::{regex_build, PatternModel};
use crate::program::{compiled, first_rejection, lemma_first_rejection_add};
use crate::script::{AddressModel, CommandModel, RangeModel, SedCommandModel};
use crate::sed::{accepted, refused};

verus! {

// ---------------------------------------------------------------------------
// Instructions
// ---------------------------------------------------------------------------

/// A command that holds no others is one instruction, with the addresses that it
/// has: but a label stands on every line, and `W` writes as `w` does. A block is the
/// instructions of its commands between one that enters it, with the addresses of
/// the block, and one that leaves it.
pub proof fn law_instructions(address: RangeModel, command: CommandModel)
    ensures
        ({
            let program = flatten(seq![SedCommandModel { address, command }]);
            match command {
                CommandModel::Block(block) => {
                    let size = flatten(block).len() as int;
                    &&& program.len() == size + 2
                    &&& program[0] == InstructionModel { address, op: OpModel::ScopeStart }
                    &&& program.subrange(1, size + 1) == flatten(block)
                    &&& program[size + 1] == InstructionModel {
                        address: RangeModel::Every,
                        op: OpModel::ScopeEnd,
                    }
                },
                CommandModel::Label(_) => program == seq![
                    InstructionModel { address: RangeModel::Every, op: OpModel::Do(command) },
                ],
                CommandModel::WriteFirstLine(name) => program == seq![
                    InstructionModel { address, op: OpModel::Do(CommandModel::WriteFile(name)) },
                ],
                _ => program == seq![InstructionModel { address, op: OpModel::Do(command) }],
            }
        }),
        flatten(Seq::empty()) == Seq::<InstructionModel>::empty(),
{
    let script = seq![SedCommandModel { address, command }];
    let program = flatten(script);
    assert(script.drop_last() =~= Seq::empty());
    assert(flatten(script.drop_last()) =~= Seq::<InstructionModel>::empty());
    assert(script.last() == SedCommandModel { address, command });
    assert(program =~= lower(address, command));
    if let CommandModel::Block(block) = command {
        let size = flatten(block).len() as int;
        assert(program.subrange(1, size + 1) =~= flatten(block));
    }
}

// ---------------------------------------------------------------------------
// Patterns
// ---------------------------------------------------------------------------

/// Whether the pattern of an address, if it has one, can be compiled; case counts in
/// it.
pub open spec fn address_compiles(addr: AddressModel) -> bool {
    addr matches AddressModel::Regex(source) ==> regex_build(source, false) is Ok
}

/// Whether the patterns of an instruction can be compiled: those of its addresses,
/// and that of an `s` command, in which case counts unless its flag says otherwise.
pub open spec fn instruction_compiles(instruction: InstructionModel) -> bool {
    &&& match instruction.address {
        RangeModel::Every => true,
        RangeModel::Single { addr, .. } => address_compiles(addr),
        RangeModel::Range { start, end, .. } => address_compiles(start) && address_compiles(end),
    }
    &&& instruction.op matches OpModel::Do(CommandModel::Substitute(sub)) ==> regex_build(
        sub.pattern,
        sub.case_insensitive,
    ) is Ok
}

/// Whether all the instructions of a program can be compiled.
pub open spec fn all_compile(program: Seq<InstructionModel>) -> bool {
    forall|i: int| 0 <= i < program.len() ==> instruction_compiles(#[trigger] program[i])
}

proof fn lemma_all_compile_add(a: Seq<InstructionModel>, b: Seq<InstructionModel>)
    ensures
        all_compile(a + b) == (all_compile(a) && all_compile(b)),
{
    let all = a + b;
    if all_compile(all) {
        assert forall|i: int| 0 <= i < a.len() implies instruction_compiles(#[trigger] a[i]) by {
            assert(all[i] == a[i]);
        }
        assert forall|i: int| 0 <= i < b.len() implies instruction_compiles(#[trigger] b[i]) by {
            assert(all[a.len() + i] == b[i]);
        }
    }
    if all_compile(a) && all_compile(b) {
        assert forall|i: int| 0 <= i < all.len() implies instruction_compiles(
            #[trigger] all[i],
        ) by {
            if i < a.len() {
                assert(all[i] == a[i]);
            } else {
                assert(all[i] == b[i - a.len()]);
            }
        }
    }
}

proof fn lemma_one_rejection(pattern: PatternModel)
    ensures
        first_rejection(seq![pattern]) is None <==> pattern.build() is Ok,
        first_rejection(Seq::<PatternModel>::empty()) is None,
{
    assert(seq![pattern].drop_last() =~= Seq::empty());
    assert(first_rejection(seq![pattern].drop_last()) is None);
}

proof fn lemma_range_compiles(range: RangeModel)
    ensures
        first_rejection(range_patterns(range)) is None <==> instruction_compiles(
            InstructionModel { address: range, op: OpModel::ScopeStart },
        ),
{
    let none = PatternModel { source: Seq::empty(), case_insensitive: false };
    lemma_one_rejection(none);
    match range {
        RangeModel::Every => {},
        RangeModel::Single { addr, .. } => {
            lemma_address_compiles(addr);
        },
        RangeModel::Range { start, end, .. } => {
            lemma_address_compiles(start);
            lemma_address_compiles(end);
            lemma_first_rejection_add(address_patterns(start), address_patterns(end));
        },
    }
}

proof fn lemma_address_compiles(addr: AddressModel)
    ensures
        first_rejection(address_patterns(addr)) is None <==> address_compiles(addr),
{
    let none = PatternModel { source: Seq::empty(), case_insensitive: false };
    lemma_one_rejection(none);
    if let AddressModel::Regex(source) = addr {
        lemma_one_rejection(PatternModel { source, case_insensitive: false });
    }
}

proof fn lemma_command_compiles(address: RangeModel, command: CommandModel)
    ensures
        first_rejection(command_patterns(address, command)) is None <==> all_compile(
            lower(address, command),
        ),
    decreases command, 1int,
{
    let program = lower(address, command);
    let none = PatternModel { source: Seq::empty(), case_insensitive: false };
    lemma_one_rejection(none);
    lemma_range_compiles(address);
    lemma_first_rejection_add(range_patterns(address), Seq::empty());
    match command {
        CommandModel::Block(block) => {
            let first = seq![InstructionModel { address, op: OpModel::ScopeStart }];
            let last = seq![
                InstructionModel { address: RangeModel::Every, op: OpModel::ScopeEnd },
            ];
            lemma_script_compiles(block);
            lemma_first_rejection_add(range_patterns(address), script_patterns(block));
            lemma_all_compile_add(first + flatten(block), last);
            lemma_all_compile_add(first, flatten(block));
            assert(all_compile(first) == instruction_compiles(first[0])) by {
                if all_compile(first) {
                    assert(instruction_compiles(first[0]));
                }
            }
            assert(all_compile(last)) by {
                assert(instruction_compiles(last[0]));
            }
        },
        CommandModel::Label(_) => {
            assert(instruction_compiles(program[0]));
        },
        CommandModel::Substitute(sub) => {
            let pattern = PatternModel {
                source: sub.pattern,
                case_insensitive: sub.case_insensitive,
            };
            lemma_one_rejection(pattern);
            lemma_first_rejection_add(range_patterns(address), seq![pattern]);
            assert(range_patterns(address).push(pattern) =~= range_patterns(address)
                + seq![pattern]);
            if all_compile(program) {
                assert(instruction_compiles(program[0]));
            }
        },
        _ => {
            if all_compile(program) {
                assert(instruction_compiles(program[0]));
            }
        },
    }
}

proof fn lemma_script_compiles(script: Seq<SedCommandModel>)
    ensures
        first_rejection(script_patterns(script)) is None <==> all_compile(flatten(script)),
    decreases script, 0int,
{
    if script.len() == 0 {
        let none = PatternModel { source: Seq::empty(), case_insensitive: false };
        lemma_one_rejection(none);
    } else {
        let last = script.last();
        lemma_script_compiles(script.drop_last());
        assert(decreases_to!(script => script[script.len() - 1]));
        assert(decreases_to!(last => last.command));
        lemma_command_compiles(last.address, last.command);
        lemma_first_rejection_add(
            script_patterns(script.drop_last()),
            command_patterns(last.address, last.command),
        );
        lemma_all_compile_add(flatten(script.drop_last()), lower(last.address, last.command));
    }
}

/// A script is accepted exactly if it is well-formed and every pattern in its
/// instructions can be compiled; its instructions are then those of its commands.
pub proof fn law_accepted_scripts(script: Seq<char>)
    ensures
        accepted(script) is Some <==> parse_script(script) is Ok && all_compile(
            flatten(parse_script(script)->Ok_0),
        ),
        accepted(script) matches Some(program) ==> program == flatten(parse_script(script)->Ok_0),
{
    if let Ok(list) = parse_script(script) {
        lemma_script_compiles(list);
    }
}

/// Compiling gives the instructions of the script if and only if all their patterns
/// can be compiled.
pub proof fn law_compiled(script: Seq<SedCommandModel>, r: Result<Seq<InstructionModel>>)
    requires
        compiled(script, r),
    ensures
        r is Ok <==> all_compile(flatten(script)),
        r matches Ok(program) ==> program == flatten(script),
        r matches Err(e) ==> e is Regex,
{
    lemma_script_compiles(script);
}

/// A script that is not accepted is refused for its first syntax error, or else for
/// the first of its patterns that cannot be compiled; one that is accepted is not
/// refused.
pub proof fn law_refused_scripts(script: Seq<char>, e: Error)
    requires
        refused(script, e),
    ensures
        accepted(script) is None,
        match parse_script(script) {
            Err(message) => e matches Error::Parse(text) && text@ == message,
            Ok(list) => {
                let patterns = script_patterns(list);
                &&& e is Regex
                &&& exists|k: int|
                    0 <= k < patterns.len() && (#[trigger] patterns[k]).build() == Err::<
                        regex::Regex,
                        RegexError,
                    >(e->Regex_0) && (forall|j: int|
                        0 <= j < k ==> (#[trigger] patterns[j]).build() is Ok)
            },
        },
{
    if let Ok(list) = parse_script(script) {
        lemma_first_rejected(script_patterns(list));
    }
}

proof fn lemma_first_rejected(patterns: Seq<PatternModel>)
    ensures
        match first_rejection(patterns) {
            Some(e) => exists|k: int|
                0 <= k < patterns.len() && (#[trigger] patterns[k]).build() == Err::<
                    regex::Regex,
                    RegexError,
                >(e) && (forall|j: int| 0 <= j < k ==> (#[trigger] patterns[j]).build() is Ok),
            None => forall|j: int|
                0 <= j < patterns.len() ==> (#[trigger] patterns[j]).build() is Ok,
        },
    decreases patterns.len(),
{
    if patterns.len() > 0 {
        let front = patterns.drop_last();
        let last = patterns.len() - 1;
        lemma_first_rejected(front);
        match first_rejection(front) {
            Some(e) => {
                let k = choose|k: int|
                    0 <= k < front.len() && (#[trigger] front[k]).build() == Err::<
                        regex::Regex,
                        RegexError,
                    >(e) && (forall|j: int| 0 <= j < k ==> (#[trigger] front[j]).build() is Ok);
                assert(patterns[k] == front[k]);
                assert forall|j: int| 0 <= j < k implies (#[trigger] patterns[j]).build() is Ok by {
                    assert(front[j].build() is Ok);
                }
            },
            None => {
                assert forall|j: int| 0 <= j < last implies (
                #[trigger] patterns[j]).build() is Ok by {
                    assert(front[j].build() is Ok);
                }
                if first_rejection(patterns) is Some {
                    assert(patterns[last].build() == Err::<regex::Regex, RegexError>(
                        first_rejection(patterns)->0,
                    ));
                }
            },
        }
    }
}

// ---------------------------------------------------------------------------
// Results
// ---------------------------------------------------------------------------

/// A run that finishes with status zero gives what it has printed, and all of it; one
/// that finishes with another status gives the status; one that stops at a line that
/// is not UTF-8, or at a command that needs a file or the shell, gives an error that
/// says so.
pub proof fn law_results(ending: Ending, r: Result<String>)
    requires
        ends_in(ending, r),
    ensures
        r matches Ok(text) ==> ending == Ending::Finished(0, text@),
        r matches Err(e) ==> match e {
            Error::Exit(code) => code != 0 && (ending matches Ending::Finished(c, _) && c == code),
            Error::InvalidUtf8 => ending is Broken,
            Error::External(name) => ending == Ending::External(name@),
            _ => false,
        },
{
}

} // verus!
