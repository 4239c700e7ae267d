//! A filesystem as a walk sees it, and what a whole walk over it hands out.

use crate::dirutils::{
    admitted, after_step, expansion, merged, records_of, start, step_of, FileSize, Kind, Listed,
    PathBit, Record, Status, StepView, WalkState,
};
use vstd::multiset::Multiset;
use vstd::prelude::*;

verus! {

/// A filesystem as a walk sees it: the listing that each directory path
/// gives, and a rank on paths that says how far a path stands from the
/// bottom of the tree.
pub struct FsModel {
    pub listing: spec_fn(String) -> Result<Vec<Listed>, std::io::Error>,
    pub rank: spec_fn(String) -> nat,
}

/// What expanding `dir`, at its depth, contributes on `fs`.
pub open spec fn listed_bits(fs: FsModel, dir: (String, u32)) -> Seq<PathBit> {
    expansion(dir.0, dir.1, (fs.listing)(dir.0))
}

/// Every directory that a walk bounded by `max_depth` enters from a directory
/// ranks below it, as in a finite tree.
pub open spec fn ranked(fs: FsModel, max_depth: Option<u32>) -> bool {
    forall|dir: (String, u32), k: int|
        0 <= k < admitted(listed_bits(fs, dir), max_depth).len() ==> (fs.rank)(
            #[trigger] admitted(listed_bits(fs, dir), max_depth)[k].0,
        ) < (fs.rank)(dir.0)
}

/// The files among `records`.
pub open spec fn sizes_of(records: Seq<Record>) -> Multiset<FileSize>
    decreases records.len(),
{
    if records.len() == 0 {
        Multiset::empty()
    } else {
        sizes_of(records.drop_last()).add(
            match records.last() {
                Ok(file) => Multiset::singleton(file),
                Err(_) => Multiset::empty(),
            },
        )
    }
}

/// The files that a walk finds by expanding `dir` and every directory it
/// enters below it.
pub open spec fn files_below(fs: FsModel, max_depth: Option<u32>, dir: (String, u32)) -> Multiset<
    FileSize,
>
    decreases (fs.rank)(dir.0), 1nat, 0nat,
{
    let bits = listed_bits(fs, dir);
    sizes_of(records_of(bits)).add(
        files_below_each(fs, max_depth, (fs.rank)(dir.0), admitted(bits, max_depth)),
    )
}

/// The files below each of `dirs` that ranks under `bound`.
pub open spec fn files_below_each(
    fs: FsModel,
    max_depth: Option<u32>,
    bound: nat,
    dirs: Seq<(String, u32)>,
) -> Multiset<FileSize>
    decreases bound, 0nat, dirs.len(),
{
    if dirs.len() == 0 {
        Multiset::empty()
    } else {
        files_below_each(fs, max_depth, bound, dirs.drop_last()).add(
            if (fs.rank)(dirs.last().0) < bound {
                files_below(fs, max_depth, dirs.last())
            } else {
                Multiset::empty()
            },
        )
    }
}

/// The files below each of the waiting directories `dirs`.
pub open spec fn files_queued(fs: FsModel, max_depth: Option<u32>, dirs: Seq<(String, u32)>) -> Multiset<
    FileSize,
>
    decreases dirs.len(),
{
    if dirs.len() == 0 {
        Multiset::empty()
    } else {
        files_queued(fs, max_depth, dirs.drop_last()).add(files_below(fs, max_depth, dirs.last()))
    }
}

/// The files that a walk from `root`, whose status is `status`, finds on `fs`:
/// the root itself where it is a file, the files below it where it is a
/// directory, and none otherwise.
pub open spec fn files_from(fs: FsModel, root: String, status: Status, max_depth: Option<u32>) -> Multiset<
    FileSize,
> {
    match status {
        Ok(Kind::File(size)) => Multiset::singleton(FileSize { path: root, size }),
        Ok(Kind::Dir) => files_below(fs, max_depth, (root, 0u32)),
        _ => Multiset::empty(),
    }
}

/// What the directories of a round contribute on `fs`, in the round's order.
pub open spec fn answers(fs: FsModel, batch: Seq<(String, u32)>) -> Seq<PathBit>
    decreases batch.len(),
{
    if batch.len() == 0 {
        seq![]
    } else {
        answers(fs, batch.drop_last()) + listed_bits(fs, batch.last())
    }
}

/// The state after a step from `s`, a round being expanded on `fs`; a walk
/// that has ended stays as it is.
pub open spec fn walk_next(fs: FsModel, s: WalkState) -> WalkState {
    match step_of(s) {
        StepView::Yield(_) => after_step(s),
        StepView::Expand(batch) => merged(after_step(s), answers(fs, batch)),
        StepView::Done => s,
    }
}

/// `next` is the state after a step from `s`, which has not ended, a round
/// being expanded on `fs`.
pub open spec fn walk_step(fs: FsModel, s: WalkState, next: WalkState) -> bool {
    &&& step_of(s) != StepView::Done
    &&& next == walk_next(fs, s)
}

/// The state `n` steps after `s`.
pub open spec fn walk_after(fs: FsModel, s: WalkState, n: nat) -> WalkState
    decreases n,
{
    if n == 0 {
        s
    } else {
        walk_after(fs, walk_next(fs, s), (n - 1) as nat)
    }
}

/// The states of the first `n` steps from `s`, `s` included.
pub open spec fn walk_states(fs: FsModel, s: WalkState, n: nat) -> Seq<WalkState> {
    Seq::new(n + 1, |i: int| walk_after(fs, s, i as nat))
}

/// `states` are the states of a walk on `fs`, one step apart.
pub open spec fn is_run(fs: FsModel, states: Seq<WalkState>) -> bool {
    &&& states.len() > 0
    &&& forall|i: int| 0 <= i < states.len() - 1 ==> walk_step(fs, #[trigger] states[i], states[i + 1])
}

/// The file that a step from `s` hands out, if any.
pub open spec fn handed_in_step(s: WalkState) -> Multiset<FileSize> {
    match step_of(s) {
        StepView::Yield(Ok(file)) => Multiset::singleton(file),
        _ => Multiset::empty(),
    }
}

/// The files handed out in the first `n` steps of `states`.
pub open spec fn handed(states: Seq<WalkState>, n: nat) -> Multiset<FileSize>
    decreases n,
{
    if n == 0 {
        Multiset::empty()
    } else {
        handed(states, (n - 1) as nat).add(handed_in_step(states[n - 1]))
    }
}

/// The files that a walk in state `s` has yet to hand out.
pub open spec fn pending(fs: FsModel, s: WalkState) -> Multiset<FileSize> {
    sizes_of(s.results).add(files_queued(fs, s.max_depth, s.dirs))
}

proof fn lemma_records_concat(a: Seq<PathBit>, b: Seq<PathBit>, max_depth: Option<u32>)
    ensures
        records_of(a + b) == records_of(a) + records_of(b),
        admitted(a + b, max_depth) == admitted(a, max_depth) + admitted(b, max_depth),
    decreases b.len(),
{
    if b.len() == 0 {
        assert(a + b =~= a);
        assert(records_of(a) + records_of(b) =~= records_of(a));
        assert(admitted(a, max_depth) + admitted(b, max_depth) =~= admitted(a, max_depth));
    } else {
        lemma_records_concat(a, b.drop_last(), max_depth);
        assert((a + b).drop_last() =~= a + b.drop_last());
        assert((a + b).last() == b.last());
        assert(records_of(a + b) =~= records_of(a) + records_of(b));
        assert(admitted(a + b, max_depth) =~= admitted(a, max_depth) + admitted(b, max_depth));
    }
}

proof fn lemma_sizes_concat(a: Seq<Record>, b: Seq<Record>)
    ensures
        sizes_of(a + b) =~= sizes_of(a).add(sizes_of(b)),
    decreases b.len(),
{
    if b.len() == 0 {
        assert(a + b =~= a);
    } else {
        lemma_sizes_concat(a, b.drop_last());
        assert((a + b).drop_last() =~= a + b.drop_last());
        assert((a + b).last() == b.last());
    }
}

proof fn lemma_queued_concat(
    fs: FsModel,
    max_depth: Option<u32>,
    a: Seq<(String, u32)>,
    b: Seq<(String, u32)>,
)
    ensures
        files_queued(fs, max_depth, a + b) =~= files_queued(fs, max_depth, a).add(
            files_queued(fs, max_depth, b),
        ),
    decreases b.len(),
{
    if b.len() == 0 {
        assert(a + b =~= a);
    } else {
        lemma_queued_concat(fs, max_depth, a, b.drop_last());
        assert((a + b).drop_last() =~= a + b.drop_last());
        assert((a + b).last() == b.last());
    }
}

proof fn lemma_below_ranked(
    fs: FsModel,
    max_depth: Option<u32>,
    bound: nat,
    dirs: Seq<(String, u32)>,
)
    requires
        forall|k: int| 0 <= k < dirs.len() ==> (fs.rank)(#[trigger] dirs[k].0) < bound,
    ensures
        files_below_each(fs, max_depth, bound, dirs) == files_queued(fs, max_depth, dirs),
    decreases dirs.len(),
{
    if dirs.len() > 0 {
        lemma_below_ranked(fs, max_depth, bound, dirs.drop_last());
        assert((fs.rank)(dirs[dirs.len() - 1].0) < bound);
    }
}

/// Depth bound, per directory: the files that a walk finds by expanding a
/// directory are all the files it holds, however deep it stands, and those
/// below each directory that the bound admits from it (see `lemma_depth_gate`
/// for which those are), and no others.
pub proof fn lemma_files_below(fs: FsModel, max_depth: Option<u32>, dir: (String, u32))
    requires
        ranked(fs, max_depth),
    ensures
        files_below(fs, max_depth, dir) == sizes_of(records_of(listed_bits(fs, dir))).add(
            files_queued(fs, max_depth, admitted(listed_bits(fs, dir), max_depth)),
        ),
{
    let dirs = admitted(listed_bits(fs, dir), max_depth);
    assert forall|k: int| 0 <= k < dirs.len() implies (fs.rank)(#[trigger] dirs[k].0) < (fs.rank)(
        dir.0,
    ) by {
        assert((fs.rank)(admitted(listed_bits(fs, dir), max_depth)[k].0) < (fs.rank)(dir.0));
    }
    lemma_below_ranked(fs, max_depth, (fs.rank)(dir.0), dirs);
}

/// A round expanded on `fs` turns the files below its directories into
/// records and waiting directories, losing and adding none.
proof fn lemma_round_files(fs: FsModel, max_depth: Option<u32>, batch: Seq<(String, u32)>)
    requires
        ranked(fs, max_depth),
    ensures
        sizes_of(records_of(answers(fs, batch))).add(
            files_queued(fs, max_depth, admitted(answers(fs, batch), max_depth)),
        ) =~= files_queued(fs, max_depth, batch),
    decreases batch.len(),
{
    if batch.len() > 0 {
        let init = batch.drop_last();
        let last = batch.last();
        lemma_round_files(fs, max_depth, init);
        lemma_records_concat(answers(fs, init), listed_bits(fs, last), max_depth);
        lemma_sizes_concat(records_of(answers(fs, init)), records_of(listed_bits(fs, last)));
        lemma_queued_concat(
            fs,
            max_depth,
            admitted(answers(fs, init), max_depth),
            admitted(listed_bits(fs, last), max_depth),
        );
        lemma_files_below(fs, max_depth, last);
    } else {
        assert(records_of(answers(fs, batch)) =~= seq![]);
        assert(admitted(answers(fs, batch), max_depth) =~= seq![]);
    }
}

/// A step hands out one of the files still to come, or turns the files below
/// a round of directories into records and waiting directories; either way no
/// file is lost or added.
proof fn lemma_step_keeps_files(fs: FsModel, s: WalkState, next: WalkState)
    requires
        ranked(fs, s.max_depth),
        walk_step(fs, s, next),
    ensures
        pending(fs, s) =~= pending(fs, next).add(handed_in_step(s)),
        next.max_depth == s.max_depth,
{
    match step_of(s) {
        StepView::Yield(record) => {
            let rest = s.results.drop_first();
            assert(s.results =~= seq![record] + rest);
            lemma_sizes_concat(seq![record], rest);
            assert(seq![record].drop_last() =~= Seq::<Record>::empty());
            assert(sizes_of(seq![record].drop_last()) == Multiset::<FileSize>::empty());
            assert(sizes_of(s.results) =~= sizes_of(rest).add(handed_in_step(s)));
        },
        StepView::Expand(batch) => {
            let n = batch.len() as int;
            let rest = s.dirs.skip(n);
            let bits = answers(fs, batch);
            assert(s.dirs =~= batch + rest);
            lemma_queued_concat(fs, s.max_depth, batch, rest);
            lemma_queued_concat(fs, s.max_depth, rest, admitted(bits, s.max_depth));
            lemma_round_files(fs, s.max_depth, batch);
            assert(s.results + records_of(bits) =~= records_of(bits));
        },
        StepView::Done => {},
    }
}

proof fn lemma_run_keeps_files(fs: FsModel, states: Seq<WalkState>, i: int)
    requires
        ranked(fs, states[0].max_depth),
        is_run(fs, states),
        0 <= i < states.len(),
    ensures
        pending(fs, states[0]) =~= pending(fs, states[i]).add(handed(states, i as nat)),
        states[i].max_depth == states[0].max_depth,
    decreases i,
{
    if i > 0 {
        lemma_run_keeps_files(fs, states, i - 1);
        assert(walk_step(fs, states[i - 1], states[i]));
        lemma_step_keeps_files(fs, states[i - 1], states[i]);
    }
}

/// A walk on a filesystem model, from its start until it ends, hands out each
/// file within the depth bound exactly once, and no other file: the root where
/// it is a file, else every file of every directory it enters.
pub proof fn lemma_walk_finds_every_file(
    fs: FsModel,
    root: String,
    status: Status,
    max_depth: Option<u32>,
    max_parallel: Option<u32>,
    states: Seq<WalkState>,
)
    requires
        ranked(fs, max_depth),
        is_run(fs, states),
        states[0] == start(root, status, max_depth, max_parallel),
        step_of(states.last()) == StepView::Done,
    ensures
        handed(states, (states.len() - 1) as nat) == files_from(fs, root, status, max_depth),
{
    let last = states.len() - 1;
    lemma_run_keeps_files(fs, states, last);
    let s0 = states[0];
    assert(sizes_of(Seq::<Record>::empty()) == Multiset::<FileSize>::empty());
    assert(files_queued(fs, max_depth, Seq::empty()) == Multiset::<FileSize>::empty());
    match status {
        Ok(Kind::Dir) => {
            assert(s0.results =~= Seq::<Record>::empty());
            assert(s0.dirs.drop_last() =~= Seq::<(String, u32)>::empty());
        },
        Ok(Kind::File(size)) => {
            assert(s0.dirs =~= Seq::<(String, u32)>::empty());
            assert(s0.results.drop_last() =~= Seq::<Record>::empty());
        },
        Ok(Kind::Other) => {
            assert(s0.dirs =~= Seq::<(String, u32)>::empty());
            assert(s0.results =~= Seq::<Record>::empty());
        },
        Err(e) => {
            assert(s0.dirs =~= Seq::<(String, u32)>::empty());
            assert(s0.results.drop_last() =~= Seq::<Record>::empty());
        },
    }
    assert(pending(fs, s0) =~= files_from(fs, root, status, max_depth));
    assert(pending(fs, states[last]) =~= Multiset::empty());
}

/// Walks from the same root on the same filesystem model hand out the same
/// files, whatever bound each puts on the size of its rounds.
pub proof fn lemma_walks_agree(
    fs: FsModel,
    root: String,
    status: Status,
    max_depth: Option<u32>,
    max_parallel: Option<u32>,
    states: Seq<WalkState>,
    other_max_parallel: Option<u32>,
    other_states: Seq<WalkState>,
)
    requires
        ranked(fs, max_depth),
        is_run(fs, states),
        states[0] == start(root, status, max_depth, max_parallel),
        step_of(states.last()) == StepView::Done,
        is_run(fs, other_states),
        other_states[0] == start(root, status, max_depth, other_max_parallel),
        step_of(other_states.last()) == StepView::Done,
    ensures
        handed(states, (states.len() - 1) as nat) == handed(
            other_states,
            (other_states.len() - 1) as nat,
        ),
{
    lemma_walk_finds_every_file(fs, root, status, max_depth, max_parallel, states);
    lemma_walk_finds_every_file(fs, root, status, max_depth, other_max_parallel, other_states);
}

/// The steps that expanding `dir` and every directory entered below it take:
/// one for `dir`'s share of a round, one for each record it gives, and those
/// of the directories it leads to.
pub open spec fn work_below(fs: FsModel, max_depth: Option<u32>, dir: (String, u32)) -> nat
    decreases (fs.rank)(dir.0), 1nat, 0nat,
{
    let bits = listed_bits(fs, dir);
    1 + records_of(bits).len() + work_below_each(
        fs,
        max_depth,
        (fs.rank)(dir.0),
        admitted(bits, max_depth),
    )
}

/// The steps below each of `dirs` that ranks under `bound`.
pub open spec fn work_below_each(
    fs: FsModel,
    max_depth: Option<u32>,
    bound: nat,
    dirs: Seq<(String, u32)>,
) -> nat
    decreases bound, 0nat, dirs.len(),
{
    if dirs.len() == 0 {
        0
    } else {
        work_below_each(fs, max_depth, bound, dirs.drop_last()) + if (fs.rank)(dirs.last().0)
            < bound {
            work_below(fs, max_depth, dirs.last())
        } else {
            0
        }
    }
}

/// The steps below each of the waiting directories `dirs`.
pub open spec fn work_queued(fs: FsModel, max_depth: Option<u32>, dirs: Seq<(String, u32)>) -> nat
    decreases dirs.len(),
{
    if dirs.len() == 0 {
        0
    } else {
        work_queued(fs, max_depth, dirs.drop_last()) + work_below(fs, max_depth, dirs.last())
    }
}

/// An upper bound on the steps that a walk in state `s` has left.
pub open spec fn work_left(fs: FsModel, s: WalkState) -> nat {
    s.results.len() + work_queued(fs, s.max_depth, s.dirs)
}

proof fn lemma_work_concat(
    fs: FsModel,
    max_depth: Option<u32>,
    a: Seq<(String, u32)>,
    b: Seq<(String, u32)>,
)
    ensures
        work_queued(fs, max_depth, a + b) == work_queued(fs, max_depth, a) + work_queued(
            fs,
            max_depth,
            b,
        ),
    decreases b.len(),
{
    if b.len() == 0 {
        assert(a + b =~= a);
    } else {
        lemma_work_concat(fs, max_depth, a, b.drop_last());
        assert((a + b).drop_last() =~= a + b.drop_last());
        assert((a + b).last() == b.last());
    }
}

proof fn lemma_work_ranked(
    fs: FsModel,
    max_depth: Option<u32>,
    bound: nat,
    dirs: Seq<(String, u32)>,
)
    requires
        forall|k: int| 0 <= k < dirs.len() ==> (fs.rank)(#[trigger] dirs[k].0) < bound,
    ensures
        work_below_each(fs, max_depth, bound, dirs) == work_queued(fs, max_depth, dirs),
    decreases dirs.len(),
{
    if dirs.len() > 0 {
        lemma_work_ranked(fs, max_depth, bound, dirs.drop_last());
        assert((fs.rank)(dirs[dirs.len() - 1].0) < bound);
    }
}

/// The steps below a round's directories: one for each directory, one for
/// each record the round gives, and those below the directories it admits.
proof fn lemma_round_work(fs: FsModel, max_depth: Option<u32>, batch: Seq<(String, u32)>)
    requires
        ranked(fs, max_depth),
    ensures
        batch.len() + records_of(answers(fs, batch)).len() + work_queued(
            fs,
            max_depth,
            admitted(answers(fs, batch), max_depth),
        ) == work_queued(fs, max_depth, batch),
    decreases batch.len(),
{
    if batch.len() > 0 {
        let init = batch.drop_last();
        let last = batch.last();
        lemma_round_work(fs, max_depth, init);
        lemma_records_concat(answers(fs, init), listed_bits(fs, last), max_depth);
        lemma_work_concat(
            fs,
            max_depth,
            admitted(answers(fs, init), max_depth),
            admitted(listed_bits(fs, last), max_depth),
        );
        let dirs = admitted(listed_bits(fs, last), max_depth);
        assert forall|k: int| 0 <= k < dirs.len() implies (fs.rank)(#[trigger] dirs[k].0) < (
        fs.rank)(last.0) by {
            assert((fs.rank)(admitted(listed_bits(fs, last), max_depth)[k].0) < (fs.rank)(last.0));
        }
        lemma_work_ranked(fs, max_depth, (fs.rank)(last.0), dirs);
    } else {
        assert(records_of(answers(fs, batch)) =~= seq![]);
        assert(admitted(answers(fs, batch), max_depth) =~= seq![]);
    }
}

/// Each step of a walk that has not ended uses up at least one step of
/// `work_left`.
proof fn lemma_step_uses_work(fs: FsModel, s: WalkState)
    requires
        ranked(fs, s.max_depth),
        s.max_parallel > 0,
        step_of(s) != StepView::Done,
    ensures
        work_left(fs, walk_next(fs, s)) < work_left(fs, s),
        walk_next(fs, s).max_depth == s.max_depth,
        walk_next(fs, s).max_parallel == s.max_parallel,
{
    match step_of(s) {
        StepView::Expand(batch) => {
            let rest = s.dirs.skip(batch.len() as int);
            let bits = answers(fs, batch);
            assert(s.dirs =~= batch + rest);
            lemma_work_concat(fs, s.max_depth, batch, rest);
            lemma_work_concat(fs, s.max_depth, rest, admitted(bits, s.max_depth));
            lemma_round_work(fs, s.max_depth, batch);
            assert(s.results + records_of(bits) =~= records_of(bits));
        },
        _ => {},
    }
}

proof fn lemma_runs_to_end(fs: FsModel, s: WalkState) -> (n: nat)
    requires
        ranked(fs, s.max_depth),
        s.max_parallel > 0,
    ensures
        n <= work_left(fs, s),
        is_run(fs, walk_states(fs, s, n)),
        step_of(walk_states(fs, s, n).last()) == StepView::Done,
    decreases work_left(fs, s),
{
    if step_of(s) == StepView::Done {
        0
    } else {
        let t = walk_next(fs, s);
        lemma_step_uses_work(fs, s);
        let m = lemma_runs_to_end(fs, t);
        let states = walk_states(fs, s, m + 1);
        let rest = walk_states(fs, t, m);
        assert forall|i: int| 0 <= i < rest.len() implies #[trigger] states[i + 1] == rest[i] by {
            assert(walk_after(fs, s, (i + 1) as nat) == walk_after(fs, t, i as nat));
        }
        assert forall|i: int| 0 <= i < states.len() - 1 implies walk_step(
            fs,
            #[trigger] states[i],
            states[i + 1],
        ) by {
            if i > 0 {
                assert(states[i] == rest[i - 1]);
                assert(walk_step(fs, rest[i - 1], rest[i]));
            } else {
                assert(states[0] == s);
                assert(states[1] == rest[0]);
            }
        }
        assert(states.last() == rest.last());
        m + 1
    }
}

/// A walk from `root` on a model of a finite tree ends: within `work_left`
/// steps of its start it reaches its end, and by then it has handed out
/// exactly the files of `files_from`.
pub proof fn lemma_walk_ends(
    fs: FsModel,
    root: String,
    status: Status,
    max_depth: Option<u32>,
    max_parallel: Option<u32>,
)
    requires
        ranked(fs, max_depth),
        max_parallel != Some(0u32),
    ensures
        exists|n: nat|
            {
                &&& n <= work_left(fs, start(root, status, max_depth, max_parallel))
                &&& is_run(fs, #[trigger] walk_states(fs, start(root, status, max_depth, max_parallel), n))
                &&& step_of(walk_states(fs, start(root, status, max_depth, max_parallel), n).last())
                    == StepView::Done
                &&& handed(walk_states(fs, start(root, status, max_depth, max_parallel), n), n)
                    == files_from(fs, root, status, max_depth)
            },
{
    let s = start(root, status, max_depth, max_parallel);
    let n = lemma_runs_to_end(fs, s);
    let states = walk_states(fs, s, n);
    lemma_walk_finds_every_file(fs, root, status, max_depth, max_parallel, states);
    assert(states.len() - 1 == n);
}

/// Every listing on `fs` succeeds, and so does every listed entry and its
/// status lookup.
pub open spec fn without_failures(fs: FsModel) -> bool {
    &&& forall|dir: String| #[trigger] (fs.listing)(dir) is Ok
    &&& forall|dir: String, k: int|
        0 <= k < (fs.listing)(dir)->Ok_0@.len() ==> {
            let entry = #[trigger] (fs.listing)(dir)->Ok_0@[k];
            &&& entry is Ok
            &&& entry->Ok_0.1 is Ok
        }
}

/// No record among `records` is a failure.
pub open spec fn all_found(records: Seq<Record>) -> bool {
    forall|k: int| 0 <= k < records.len() ==> #[trigger] records[k] is Ok
}

proof fn lemma_entries_found(dir: String, depth: u32, entries: Seq<Listed>)
    requires
        forall|k: int|
            0 <= k < entries.len() ==> (#[trigger] entries[k] is Ok && entries[k]->Ok_0.1 is Ok),
    ensures
        all_found(records_of(crate::dirutils::entries_bits(dir, depth, entries))),
    decreases entries.len(),
{
    if entries.len() > 0 {
        let init = entries.drop_last();
        lemma_entries_found(dir, depth, init);
        let head = crate::dirutils::entries_bits(dir, depth, init);
        let tail = crate::dirutils::entry_bits(dir, depth, entries.last());
        lemma_records_concat(head, tail, None);
        assert(entries.last() == entries[entries.len() - 1]);
        let (path, status) = entries.last()->Ok_0;
        assert(status is Ok);
        if tail.len() == 1 {
            assert(tail.drop_last() =~= Seq::<PathBit>::empty());
            assert(records_of(tail.drop_last()) =~= Seq::<Record>::empty());
            assert(!(tail[0] matches PathBit::Result(Err(_))));
            assert(all_found(records_of(tail)));
        } else {
            assert(tail =~= Seq::<PathBit>::empty());
            assert(records_of(tail) =~= Seq::<Record>::empty());
        }
    } else {
        assert(crate::dirutils::entries_bits(dir, depth, entries) =~= Seq::<PathBit>::empty());
    }
}

proof fn lemma_round_found(fs: FsModel, batch: Seq<(String, u32)>)
    requires
        without_failures(fs),
    ensures
        all_found(records_of(answers(fs, batch))),
    decreases batch.len(),
{
    if batch.len() > 0 {
        let init = batch.drop_last();
        let last = batch.last();
        lemma_round_found(fs, init);
        lemma_records_concat(answers(fs, init), listed_bits(fs, last), None);
        assert((fs.listing)(last.0) is Ok);
        let entries = (fs.listing)(last.0)->Ok_0@;
        assert forall|k: int| 0 <= k < entries.len() implies (#[trigger] entries[k] is Ok
            && entries[k]->Ok_0.1 is Ok) by {
            assert((fs.listing)(last.0)->Ok_0@[k] is Ok);
        }
        lemma_entries_found(last.0, last.1, entries);
    } else {
        assert(records_of(answers(fs, batch)) =~= Seq::<Record>::empty());
    }
}

proof fn lemma_run_found(fs: FsModel, states: Seq<WalkState>, i: int)
    requires
        without_failures(fs),
        is_run(fs, states),
        all_found(states[0].results),
        0 <= i < states.len(),
    ensures
        all_found(states[i].results),
    decreases i,
{
    if i > 0 {
        lemma_run_found(fs, states, i - 1);
        let s = states[i - 1];
        assert(walk_step(fs, s, states[i]));
        match step_of(s) {
            StepView::Expand(batch) => {
                lemma_round_found(fs, batch);
                assert(s.results + records_of(answers(fs, batch)) =~= records_of(
                    answers(fs, batch),
                ));
            },
            StepView::Yield(_) => {
                assert forall|k: int| 0 <= k < states[i].results.len() implies #[trigger] states[i].results[k] is Ok by {
                    assert(states[i].results[k] == s.results[k + 1]);
                }
            },
            StepView::Done => {},
        }
    }
}

/// Where every lookup and listing succeeds, from the root's on, a walk hands
/// out no failure.
pub proof fn lemma_no_failure_without_cause(
    fs: FsModel,
    root: String,
    kind: Kind,
    max_depth: Option<u32>,
    max_parallel: Option<u32>,
    states: Seq<WalkState>,
)
    requires
        without_failures(fs),
        is_run(fs, states),
        states[0] == start(root, Ok(kind), max_depth, max_parallel),
    ensures
        forall|i: int| 0 <= i < states.len() ==> !(#[trigger] step_of(states[i]) matches StepView::Yield(Err(_))),
{
    assert(all_found(states[0].results)) by {
        match kind {
            Kind::File(size) => {},
            _ => {
                assert(states[0].results =~= Seq::<Record>::empty());
            },
        }
    }
    assert forall|i: int| 0 <= i < states.len() implies !(#[trigger] step_of(states[i]) matches StepView::Yield(Err(_))) by {
        lemma_run_found(fs, states, i);
        if states[i].results.len() > 0 {
            assert(states[i].results[0] is Ok);
        }
    }
}

proof fn lemma_entries_one_deeper(dir: String, depth: u32, entries: Seq<Listed>)
    requires
        depth < u32::MAX,
    ensures
        forall|k: int|
            0 <= k < crate::dirutils::entries_bits(dir, depth, entries).len() && (
            #[trigger] crate::dirutils::entries_bits(dir, depth, entries)[k] is Dir) ==> crate::dirutils::entries_bits(
                dir,
                depth,
                entries,
            )[k]->Dir_0.1 == depth + 1,
    decreases entries.len(),
{
    if entries.len() > 0 {
        lemma_entries_one_deeper(dir, depth, entries.drop_last());
    }
}

proof fn lemma_none_admitted(bits: Seq<PathBit>)
    requires
        forall|k: int| 0 <= k < bits.len() && (#[trigger] bits[k] is Dir) ==> bits[k]->Dir_0.1 >= 1,
    ensures
        admitted(bits, Some(0u32)) =~= Seq::<(String, u32)>::empty(),
    decreases bits.len(),
{
    if bits.len() > 0 {
        lemma_none_admitted(bits.drop_last());
        assert(bits.last() == bits[bits.len() - 1]);
    }
}

/// With a depth bound of 0, a walk from a directory finds exactly the files
/// that the directory itself holds.
pub proof fn lemma_depth_zero(fs: FsModel, root: String)
    ensures
        files_from(fs, root, Ok(Kind::Dir), Some(0u32)) == sizes_of(
            records_of(listed_bits(fs, (root, 0u32))),
        ),
{
    let bits = listed_bits(fs, (root, 0u32));
    match (fs.listing)(root) {
        Ok(entries) => {
            lemma_entries_one_deeper(root, 0, entries@);
        },
        Err(_) => {
            assert(bits.len() == 1);
        },
    }
    lemma_none_admitted(bits);
    assert(files_below_each(fs, Some(0u32), (fs.rank)(root), admitted(bits, Some(0u32)))
        == Multiset::<FileSize>::empty());
    assert(sizes_of(records_of(bits)).add(Multiset::empty()) =~= sizes_of(records_of(bits)));
}

} // verus!
