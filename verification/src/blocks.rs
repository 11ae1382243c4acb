//! Blocks: how a run goes over one that it does not enter.

use vstd::prelude::*;

use crate::laws::{law_more_steps_change_nothing, law_outcome_is_the_ending};
use crate::machine::{
    after_block, ending, flatten, is_active, label_index, looked, lower, outcome, perform, selects,
    step, with_line, Config, InstructionModel, OpModel, Snapshot, Source, StatusModel,
};
use crate::script::{CommandModel, RangeModel, SedCommandModel};

verus! {

// ---------------------------------------------------------------------------
// One step over a block
// ---------------------------------------------------------------------------

/// Skipping goes over whole scripts, at any depth.
proof fn lemma_skip_script(
    before: Seq<InstructionModel>,
    script: Seq<SedCommandModel>,
    after: Seq<InstructionModel>,
    depth: nat,
)
    ensures
        after_block(before + flatten(script) + after, before.len() as int, depth) == after_block(
            before + flatten(script) + after,
            (before.len() + flatten(script).len()) as int,
            depth,
        ),
    decreases script,
{
    if script.len() > 0 {
        let last = script.last();
        let rest = lower(last.address, last.command);
        let front = flatten(script.drop_last());
        lemma_skip_script(before, script.drop_last(), rest + after, depth);
        assert(before + front + (rest + after) =~= before + flatten(script) + after);
        lemma_skip_command(before + front, last.address, last.command, after, depth);
        assert((before + front) + rest + after =~= before + flatten(script) + after);
    }
}

/// Skipping goes over whole commands, at any depth.
proof fn lemma_skip_command(
    before: Seq<InstructionModel>,
    address: RangeModel,
    command: CommandModel,
    after: Seq<InstructionModel>,
    depth: nat,
)
    ensures
        after_block(before + lower(address, command) + after, before.len() as int, depth)
            == after_block(
            before + lower(address, command) + after,
            (before.len() + lower(address, command).len()) as int,
            depth,
        ),
    decreases command,
{
    let all = before + lower(address, command) + after;
    let n = before.len() as int;
    match command {
        CommandModel::Block(block) => {
            let open = seq![InstructionModel { address, op: OpModel::ScopeStart }];
            let close = seq![
                InstructionModel { address: RangeModel::Every, op: OpModel::ScopeEnd },
            ];
            let inner = flatten(block);
            lemma_skip_script(before + open, block, close + after, depth + 1);
            assert((before + open) + inner + (close + after) =~= all);
            assert(all[n].op == OpModel::ScopeStart);
            assert(all[n + 1 + inner.len()] == close[0]);
            assert(after_block(all, n, depth) == after_block(all, n + 1, depth + 1));
            assert(after_block(all, (n + 1 + inner.len()) as int, depth + 1) == after_block(
                all,
                (n + 2 + inner.len()) as int,
                depth,
            ));
        },
        _ => {
            assert(all[n] == lower(address, command)[0]);
            assert(after_block(all, n, depth) == after_block(all, n + 1, depth));
        },
    }
}

/// A block whose address does not select the line is skipped as a whole: the
/// command after it comes next.
pub proof fn law_block_is_skipped(
    config: Config,
    before: Seq<SedCommandModel>,
    address: RangeModel,
    block: Seq<SedCommandModel>,
    after: Seq<SedCommandModel>,
    s: Snapshot,
)
    requires
        s.pc == flatten(before).len(),
        !selects(address, s),
    ensures
        ({
            let lowered = lower(address, CommandModel::Block(block));
            let program = flatten(before) + lowered + flatten(after);
            step(config, program, s) == looked(address, s).go(
                (flatten(before).len() + lowered.len()) as int,
            )
        }),
{
    let front = flatten(before);
    let open = seq![InstructionModel { address, op: OpModel::ScopeStart }];
    let close = seq![InstructionModel { address: RangeModel::Every, op: OpModel::ScopeEnd }];
    let inner = flatten(block);
    let program = front + lower(address, CommandModel::Block(block)) + flatten(after);
    assert((front + open) + inner + (close + flatten(after)) =~= program);
    lemma_skip_script(front + open, block, close + flatten(after), 0);
    assert(program[s.pc] == open[0]);
    assert(program[(s.pc + 1 + inner.len()) as int] == close[0]);
}

/// The instructions of two scripts, one after the other, are those of the first
/// and then those of the second.
pub proof fn law_flatten_append(a: Seq<SedCommandModel>, b: Seq<SedCommandModel>)
    ensures
        flatten(a + b) == flatten(a) + flatten(b),
    decreases b.len(),
{
    if b.len() == 0 {
        assert(a + b =~= a);
        assert(flatten(a) + flatten(b) =~= flatten(a));
    } else {
        law_flatten_append(a, b.drop_last());
        assert((a + b).drop_last() =~= a + b.drop_last());
        assert((a + b).last() == b.last());
        assert(flatten(a + b) =~= flatten(a) + flatten(b));
    }
}

// ---------------------------------------------------------------------------
// Whole runs without a block
// ---------------------------------------------------------------------------

/// The program with a block in its place.
pub open spec fn with_block(
    front: Seq<InstructionModel>,
    address: RangeModel,
    block: Seq<SedCommandModel>,
    back: Seq<InstructionModel>,
) -> Seq<InstructionModel> {
    front + lower(address, CommandModel::Block(block)) + back
}

/// Whether a place of the program lies inside the `size` instructions at
/// `start`, behind the first of them.
pub open spec fn is_inside(start: int, size: int, pc: int) -> bool {
    start < pc < start + size
}

/// The place without the `size` instructions at `start`.
pub open spec fn place_without(start: int, size: int, pc: int) -> int {
    if pc <= start {
        pc
    } else {
        pc - size
    }
}

/// The state without the `size` instructions at `start`: at the place that
/// stands for its own, and without their ranges.
pub open spec fn state_without(start: int, size: int, s: Snapshot) -> Snapshot {
    Snapshot {
        pc: place_without(start, size, s.pc),
        range_active: s.range_active.take(start) + s.range_active.skip(start + size),
        ..s
    }
}

/// The label that an instruction may branch to.
pub open spec fn branch_label(op: OpModel) -> Option<Seq<char>> {
    match op {
        OpModel::Do(CommandModel::Branch(label))
        | OpModel::Do(CommandModel::BranchIfSub(label))
        | OpModel::Do(CommandModel::BranchIfNotSub(label)) => label,
        _ => None,
    }
}

/// Whether no instruction outside the `size` instructions at `start` branches
/// to a label inside them.
pub open spec fn no_branch_into(program: Seq<InstructionModel>, start: int, size: int) -> bool {
    forall|i: int|
        0 <= i < program.len() && !(start <= i < start + size) ==> {
            branch_label((#[trigger] program[i]).op) matches Some(name) ==> {
                label_index(program, name, program.len() as int) matches Some(target)
                    ==> !is_inside(start, size, target)
            }
        }
}

/// Whether the address of the block at `start` selects the line at no time when
/// the run comes to the block, within so many steps.
pub open spec fn passes_by(
    config: Config,
    program: Seq<InstructionModel>,
    source: Source,
    s: Snapshot,
    steps: nat,
    start: int,
) -> bool
    decreases steps,
{
    match s.status {
        StatusModel::AwaitLine(_) => steps > 0 && !source.fails() ==> passes_by(
            config,
            program,
            source.rest(),
            with_line(config, s, source.next()),
            (steps - 1) as nat,
            start,
        ),
        StatusModel::Ready => steps > 0 ==> {
            &&& s.pc == start ==> !selects(program[start].address, s)
            &&& passes_by(
                config,
                program,
                source,
                step(config, program, s),
                (steps - 1) as nat,
                start,
            )
        },
        _ => true,
    }
}

/// Skipping ends at the same place with the block and without it.
proof fn lemma_after_block_without(
    front: Seq<InstructionModel>,
    address: RangeModel,
    block: Seq<SedCommandModel>,
    back: Seq<InstructionModel>,
    i: int,
    depth: nat,
)
    requires
        ({
            let start = front.len() as int;
            let size = lower(address, CommandModel::Block(block)).len() as int;
            &&& 0 <= i <= front.len() + size + back.len()
            &&& i <= start || start + size <= i
        }),
    ensures
        ({
            let start = front.len() as int;
            let size = lower(address, CommandModel::Block(block)).len() as int;
            let full = with_block(front, address, block, back);
            let end = after_block(full, i, depth);
            &&& i <= end <= full.len()
            &&& end <= start || start + size <= end
            &&& after_block(front + back, place_without(start, size, i), depth) == place_without(
                start,
                size,
                end,
            )
        }),
    decreases front.len() + lower(address, CommandModel::Block(block)).len() + back.len() - i,
{
    let start = front.len() as int;
    let lowered = lower(address, CommandModel::Block(block));
    let size = lowered.len() as int;
    let full = with_block(front, address, block, back);
    let short = front + back;
    if i == start {
        lemma_skip_command(front, address, CommandModel::Block(block), back, depth);
        lemma_after_block_without(front, address, block, back, start + size, depth);
    } else if i < full.len() {
        let j = place_without(start, size, i);
        assert(short[j] == full[i]);
        if i + 1 <= start || start + size <= i + 1 {
            lemma_after_block_without(front, address, block, back, i + 1, depth);
            lemma_after_block_without(front, address, block, back, i + 1, depth + 1);
            if depth > 0 {
                lemma_after_block_without(front, address, block, back, i + 1, (depth - 1) as nat);
            }
        }
        assert(place_without(start, size, i + 1) == j + 1);
    }
}

/// A label outside the block is found at the place that stands for its own.
proof fn lemma_label_without(
    front: Seq<InstructionModel>,
    address: RangeModel,
    block: Seq<SedCommandModel>,
    back: Seq<InstructionModel>,
    name: Seq<char>,
)
    requires
        ({
            let start = front.len() as int;
            let size = lower(address, CommandModel::Block(block)).len() as int;
            let full = with_block(front, address, block, back);
            label_index(full, name, full.len() as int) matches Some(target) ==> !is_inside(
                start,
                size,
                target,
            )
        }),
    ensures
        ({
            let start = front.len() as int;
            let size = lower(address, CommandModel::Block(block)).len() as int;
            let full = with_block(front, address, block, back);
            let short = front + back;
            &&& label_index(full, name, full.len() as int) matches Some(target) ==> 0 <= target
                < full.len()
            &&& label_index(short, name, short.len() as int) == (match label_index(
                full,
                name,
                full.len() as int,
            ) {
                Some(target) => Some(place_without(start, size, target)),
                None => None,
            })
        }),
{
    let start = front.len() as int;
    let lowered = lower(address, CommandModel::Block(block));
    let size = lowered.len() as int;
    let full = with_block(front, address, block, back);
    let short = front + back;
    lemma_label_tail(full, short, name, start + size, start, full.len() as int);
    if label_index(full, name, full.len() as int) == label_index(full, name, start + size) {
        lemma_label_head(full, name, start, start + size);
        assert(full[start].op == OpModel::ScopeStart) by {
            assert(full[start] == lowered[0]);
        }
        lemma_label_head(full, name, start + 1, start + size);
        lemma_label_equal(full, short, name, start);
    }
}

/// The first `n` instructions alone decide about a label among them.
proof fn lemma_label_equal(
    a: Seq<InstructionModel>,
    b: Seq<InstructionModel>,
    name: Seq<char>,
    n: int,
)
    requires
        0 <= n <= a.len(),
        n <= b.len(),
        forall|i: int| 0 <= i < n ==> a[i] == b[i],
    ensures
        label_index(a, name, n) == label_index(b, name, n),
        label_index(a, name, n) matches Some(i) ==> 0 <= i < n,
    decreases n,
{
    if n > 0 {
        lemma_label_equal(a, b, name, n - 1);
    }
}

/// The last of the first `m` instructions that is the label is found among the
/// first `n` or behind them.
proof fn lemma_label_head(a: Seq<InstructionModel>, name: Seq<char>, n: int, m: int)
    requires
        0 <= n <= m <= a.len(),
    ensures
        label_index(a, name, m) == label_index(a, name, n) || (label_index(a, name, m) matches Some(
            i,
        ) && n <= i < m),
        label_index(a, name, n) matches Some(i) ==> 0 <= i < n,
        label_index(a, name, m) matches Some(i) ==> 0 <= i < m,
    decreases m,
{
    if n < m {
        lemma_label_head(a, name, n, m - 1);
    } else if m > 0 {
        lemma_label_head(a, name, n - 1, m - 1);
    }
}

/// Where two programs end alike, a label in that end is found in both.
proof fn lemma_label_tail(
    a: Seq<InstructionModel>,
    b: Seq<InstructionModel>,
    name: Seq<char>,
    n: int,
    m: int,
    end: int,
)
    requires
        0 <= n <= end <= a.len(),
        0 <= m <= b.len(),
        end - n <= b.len() - m,
        forall|i: int| n <= i < end ==> a[i] == b[i - n + m],
    ensures
        label_index(a, name, end) == label_index(a, name, n) && label_index(b, name, end - n + m)
            == label_index(b, name, m) || (label_index(a, name, end) matches Some(i) && n <= i
            < end && label_index(b, name, end - n + m) == Some(i - n + m)),
    decreases end - n,
{
    if n < end {
        lemma_label_tail(a, b, name, n, m, end - 1);
    }
}

/// A command does the same without the block.
proof fn lemma_perform_without(
    config: Config,
    front: Seq<InstructionModel>,
    address: RangeModel,
    block: Seq<SedCommandModel>,
    back: Seq<InstructionModel>,
    command: CommandModel,
    s: Snapshot,
)
    requires
        ({
            let start = front.len() as int;
            let size = lower(address, CommandModel::Block(block)).len() as int;
            let full = with_block(front, address, block, back);
            &&& 0 <= s.pc < full.len()
            &&& s.pc < start || start + size <= s.pc
            &&& branch_label(OpModel::Do(command)) matches Some(name) ==> {
                label_index(full, name, full.len() as int) matches Some(target) ==> !is_inside(
                    start,
                    size,
                    target,
                )
            }
        }),
    ensures
        ({
            let start = front.len() as int;
            let size = lower(address, CommandModel::Block(block)).len() as int;
            let full = with_block(front, address, block, back);
            let r = perform(config, full, command, s);
            &&& 0 <= r.pc <= full.len()
            &&& !is_inside(start, size, r.pc)
            &&& r.range_active == s.range_active
            &&& state_without(start, size, r) == perform(
                config,
                front + back,
                command,
                state_without(start, size, s),
            )
        }),
{
    let start = front.len() as int;
    let size = lower(address, CommandModel::Block(block)).len() as int;
    let full = with_block(front, address, block, back);
    let short = front + back;
    if let Some(name) = branch_label(OpModel::Do(command)) {
        lemma_label_without(front, address, block, back, name);
    }
    let r = perform(config, full, command, s);
    assert(state_without(start, size, r) =~= perform(
        config,
        short,
        command,
        state_without(start, size, s),
    ));
}

/// A step of a run outside a block is the same step without the block; a step
/// that finds the block not selected is none.
pub proof fn law_step_without_block(
    config: Config,
    front: Seq<InstructionModel>,
    address: RangeModel,
    block: Seq<SedCommandModel>,
    back: Seq<InstructionModel>,
    s: Snapshot,
)
    requires
        ({
            let start = front.len() as int;
            let size = lower(address, CommandModel::Block(block)).len() as int;
            let full = with_block(front, address, block, back);
            &&& 0 <= s.pc <= full.len()
            &&& s.range_active.len() == full.len()
            &&& !is_inside(start, size, s.pc)
            &&& s.pc == start ==> !selects(address, s)
            &&& no_branch_into(full, start, size)
        }),
    ensures
        ({
            let start = front.len() as int;
            let size = lower(address, CommandModel::Block(block)).len() as int;
            let full = with_block(front, address, block, back);
            let next = step(config, full, s);
            &&& 0 <= next.pc <= full.len()
            &&& next.range_active.len() == full.len()
            &&& !is_inside(start, size, next.pc)
            &&& state_without(start, size, next) == (if s.pc == start {
                state_without(start, size, s)
            } else {
                step(config, front + back, state_without(start, size, s))
            })
        }),
{
    let start = front.len() as int;
    let lowered = lower(address, CommandModel::Block(block));
    let size = lowered.len() as int;
    let full = with_block(front, address, block, back);
    let short = front + back;
    let next = step(config, full, s);
    let t = state_without(start, size, s);
    if s.pc == start {
        assert(full[start] == lowered[0]);
        let inner = flatten(block);
        let open = seq![InstructionModel { address, op: OpModel::ScopeStart }];
        let close = seq![InstructionModel { address: RangeModel::Every, op: OpModel::ScopeEnd }];
        assert((front + open) + inner + (close + back) =~= full);
        lemma_skip_script(front + open, block, close + back, 0);
        assert(full[(start + 1 + inner.len()) as int] == close[0]);
        assert(next.pc == start + size);
        assert(state_without(start, size, next) =~= t);
    } else if s.pc < full.len() {
        let instruction = full[s.pc];
        assert(short[t.pc] == instruction);
        let seen = looked(instruction.address, s);
        assert(is_active(t) == is_active(s));
        assert(selects(instruction.address, t) == selects(instruction.address, s));
        assert(looked(instruction.address, t) =~= state_without(start, size, seen));
        match instruction.op {
            OpModel::ScopeStart => {
                lemma_after_block_without(front, address, block, back, s.pc + 1, 0);
                assert(state_without(start, size, next) =~= step(config, short, t));
            },
            OpModel::ScopeEnd => {
                assert(state_without(start, size, next) =~= step(config, short, t));
            },
            OpModel::Do(command) => {
                assert(branch_label(instruction.op) == branch_label(OpModel::Do(command)));
                lemma_perform_without(config, front, address, block, back, command, seen);
                assert(state_without(start, size, next) =~= step(config, short, t));
            },
        }
    } else {
        assert(state_without(start, size, next) =~= step(config, short, t));
    }
}

proof fn lemma_ending_without_block(
    config: Config,
    front: Seq<InstructionModel>,
    address: RangeModel,
    block: Seq<SedCommandModel>,
    back: Seq<InstructionModel>,
    source: Source,
    s: Snapshot,
    steps: nat,
)
    requires
        ({
            let start = front.len() as int;
            let size = lower(address, CommandModel::Block(block)).len() as int;
            let full = with_block(front, address, block, back);
            &&& 0 <= s.pc <= full.len()
            &&& s.range_active.len() == full.len()
            &&& !is_inside(start, size, s.pc)
            &&& no_branch_into(full, start, size)
            &&& passes_by(config, full, source, s, steps, start)
            &&& !(ending(config, full, source, s, steps) is Unfinished)
        }),
    ensures
        ({
            let start = front.len() as int;
            let size = lower(address, CommandModel::Block(block)).len() as int;
            let full = with_block(front, address, block, back);
            ending(config, front + back, source, state_without(start, size, s), steps) == ending(
                config,
                full,
                source,
                s,
                steps,
            )
        }),
    decreases steps,
{
    let start = front.len() as int;
    let lowered = lower(address, CommandModel::Block(block));
    let size = lowered.len() as int;
    let full = with_block(front, address, block, back);
    let short = front + back;
    let t = state_without(start, size, s);
    if steps > 0 {
        match s.status {
            StatusModel::AwaitLine(_) => {
                if !source.fails() {
                    let read = with_line(config, s, source.next());
                    assert(state_without(start, size, read) =~= with_line(
                        config,
                        t,
                        source.next(),
                    ));
                    lemma_ending_without_block(
                        config,
                        front,
                        address,
                        block,
                        back,
                        source.rest(),
                        read,
                        (steps - 1) as nat,
                    );
                }
            },
            StatusModel::Ready => {
                assert(full[start] == lowered[0]);
                law_step_without_block(config, front, address, block, back, s);
                lemma_ending_without_block(
                    config,
                    front,
                    address,
                    block,
                    back,
                    source,
                    step(config, full, s),
                    (steps - 1) as nat,
                );
                if s.pc == start {
                    law_more_steps_change_nothing(
                        config,
                        short,
                        source,
                        t,
                        (steps - 1) as nat,
                        steps,
                    );
                }
            },
            _ => {},
        }
    }
}

/// A block into which no branch leads, and which the run comes to only on lines
/// that its address does not select, makes no difference: the run without it
/// ends the same way and prints the same.
pub proof fn law_run_without_block(
    config: Config,
    front: Seq<InstructionModel>,
    address: RangeModel,
    block: Seq<SedCommandModel>,
    back: Seq<InstructionModel>,
    source: Source,
    steps: nat,
)
    requires
        ({
            let start = front.len() as int;
            let size = lower(address, CommandModel::Block(block)).len() as int;
            let full = with_block(front, address, block, back);
            &&& no_branch_into(full, start, size)
            &&& passes_by(config, full, source, Snapshot::initial(full), steps, start)
            &&& !(ending(config, full, source, Snapshot::initial(full), steps) is Unfinished)
        }),
    ensures
        outcome(config, front + back, source) == outcome(
            config,
            with_block(front, address, block, back),
            source,
        ),
{
    let start = front.len() as int;
    let size = lower(address, CommandModel::Block(block)).len() as int;
    let full = with_block(front, address, block, back);
    lemma_ending_without_block(
        config,
        front,
        address,
        block,
        back,
        source,
        Snapshot::initial(full),
        steps,
    );
    assert(state_without(start, size, Snapshot::initial(full)) =~= Snapshot::initial(
        front + back,
    ));
    law_outcome_is_the_ending(config, full, source, steps);
    law_outcome_is_the_ending(config, front + back, source, steps);
}

/// The same of scripts: the script without the block ends the same way and
/// prints the same.
pub proof fn law_script_without_block(
    config: Config,
    before: Seq<SedCommandModel>,
    address: RangeModel,
    block: Seq<SedCommandModel>,
    after: Seq<SedCommandModel>,
    source: Source,
    steps: nat,
)
    requires
        ({
            let command = SedCommandModel { address, command: CommandModel::Block(block) };
            let full = flatten(before + seq![command] + after);
            let start = flatten(before).len() as int;
            let size = lower(address, CommandModel::Block(block)).len() as int;
            &&& no_branch_into(full, start, size)
            &&& passes_by(config, full, source, Snapshot::initial(full), steps, start)
            &&& !(ending(config, full, source, Snapshot::initial(full), steps) is Unfinished)
        }),
    ensures
        ({
            let command = SedCommandModel { address, command: CommandModel::Block(block) };
            outcome(config, flatten(before + after), source) == outcome(
                config,
                flatten(before + seq![command] + after),
                source,
            )
        }),
{
    let command = SedCommandModel { address, command: CommandModel::Block(block) };
    let one = seq![command];
    law_flatten_append(before + one, after);
    law_flatten_append(before, one);
    law_flatten_append(before, after);
    assert(one.drop_last() =~= Seq::empty());
    assert(flatten(one) =~= lower(address, CommandModel::Block(block))) by {
        assert(flatten(one.drop_last()) =~= Seq::<InstructionModel>::empty());
        assert(one.last() == command);
    }
    law_run_without_block(
        config,
        flatten(before),
        address,
        block,
        flatten(after),
        source,
        steps,
    );
}

} // verus!
