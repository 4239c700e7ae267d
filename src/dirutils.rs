//! A walk over a directory tree, held as a state machine. The caller looks
//! paths up and lists directories; the walk decides what to expand next, how
//! deep to go, and in what order records are handed out.

use std::collections::VecDeque;
use vstd::multiset::Multiset;
use vstd::prelude::*;
use vstd::seq_lib::group_to_multiset_ensures;

verus! {

/// std's `io::Error`, carried unopened as the cause of a failure: no property
/// of it is relied on.
#[verifier::external_type_specification]
#[verifier::external_body]
pub struct ExIoError(std::io::Error);

/// What a status lookup that does not follow symbolic links tells of a path.
pub enum Kind {
    /// A regular file of this many bytes.
    File(u64),
    Dir,
    /// A symbolic link, a device node, a socket or a pipe.
    Other,
}

/// The outcome of a status lookup on one path.
pub type Status = Result<Kind, std::io::Error>;

/// A regular file and its size in bytes.
#[derive(Debug, PartialEq, PartialOrd, Ord, Eq, Clone)]
pub struct FileSize {
    pub path: String,
    pub size: u64,
}

impl FileSize {
    pub fn new(path: String, size: u64) -> (r: Self)
        ensures
            r.path == path,
            r.size == size,
    {
        Self { path, size }
    }
}

impl<'a> From<(&'a str, u64)> for FileSize {
    fn from(entry: (&'a str, u64)) -> (r: Self)
        ensures
            r.path@ == entry.0@,
            r.size == entry.1,
    {
        FileSize::new(entry.0.to_owned(), entry.1)
    }
}

impl<'a> vstd::std_specs::convert::FromSpecImpl<(&'a str, u64)> for FileSize {
    /// Only the path's characters are known of the result, not the `String`
    /// itself, so `from`'s own `ensures` states what it returns.
    open spec fn obeys_from_spec() -> bool {
        false
    }

    open spec fn from_spec(entry: (&'a str, u64)) -> Self {
        choose|r: FileSize| r.path@ == entry.0@ && r.size == entry.1
    }
}

/// A path that could not be read, and why.
#[derive(Debug)]
pub struct Error {
    pub path: String,
    pub io_error: std::io::Error,
}

impl Error {
    pub fn new(path: String, io_error: std::io::Error) -> (r: Self)
        ensures
            r.path == path,
            r.io_error == io_error,
    {
        Self { path, io_error }
    }
}

/// One terminal outcome of the walk: a file and its size, or a failure.
pub type Record = Result<FileSize, Error>;

/// What reading one path contributes: a record, or a directory to expand at
/// the given depth.
pub enum PathBit {
    Result(Record),
    Dir((String, u32)),
}

/// How reading `path`, found at `depth`, turns out, given its status: a file
/// gives its size, a directory becomes a candidate one level deeper, a failed
/// lookup gives a failure on the path, and anything else is passed over.
pub open spec fn classify(path: String, depth: u32, status: Status) -> Option<PathBit> {
    match status {
        Ok(Kind::File(size)) => Some(PathBit::Result(Ok(FileSize { path, size }))),
        Ok(Kind::Dir) => Some(PathBit::Dir((path, (depth + 1) as u32))),
        Ok(Kind::Other) => None,
        Err(io_error) => Some(PathBit::Result(Err(Error { path, io_error }))),
    }
}

/// Reads `path`, found at `depth`, from the outcome of its status lookup.
pub fn read_path(path: String, depth: u32, status: Status) -> (r: Option<PathBit>)
    requires
        depth < u32::MAX,
    ensures
        r == classify(path, depth, status),
{
    match status {
        Ok(Kind::File(size)) => Some(PathBit::Result(Ok(FileSize::new(path, size)))),
        Ok(Kind::Dir) => Some(PathBit::Dir((path, depth + 1))),
        Ok(Kind::Other) => None,
        Err(io_error) => Some(PathBit::Result(Err(Error::new(path, io_error)))),
    }
}

/// One entry of a directory listing: the entry's path and its status, or the
/// error met while reading the entry.
pub type Listed = Result<(String, Status), std::io::Error>;

/// What one listed entry of the directory `dir`, which stands at `depth`,
/// contributes. An entry that could not be read is a failure on `dir`.
pub open spec fn entry_bits(dir: String, depth: u32, entry: Listed) -> Seq<PathBit> {
    match entry {
        Ok((path, status)) => match classify(path, depth, status) {
            Some(bit) => seq![bit],
            None => seq![],
        },
        Err(io_error) => seq![PathBit::Result(Err(Error { path: dir, io_error }))],
    }
}

/// What the listed entries of `dir` contribute, in the order of the listing.
pub open spec fn entries_bits(dir: String, depth: u32, entries: Seq<Listed>) -> Seq<PathBit>
    decreases entries.len(),
{
    if entries.len() == 0 {
        seq![]
    } else {
        entries_bits(dir, depth, entries.drop_last()) + entry_bits(dir, depth, entries.last())
    }
}

/// What expanding `dir` contributes: a single failure on `dir` where it could
/// not be listed, else what its entries contribute.
pub open spec fn expansion(
    dir: String,
    depth: u32,
    listing: Result<Vec<Listed>, std::io::Error>,
) -> Seq<PathBit> {
    match listing {
        Ok(entries) => entries_bits(dir, depth, entries@),
        Err(io_error) => seq![PathBit::Result(Err(Error { path: dir, io_error }))],
    }
}

/// Expands the directory `dir_path`, which stands at `depth`, from the outcome
/// of listing it. A failure on one entry does not stop its siblings.
pub fn read_dir(
    dir_path: &String,
    depth: u32,
    listing: Result<Vec<Listed>, std::io::Error>,
) -> (r: Vec<PathBit>)
    requires
        depth < u32::MAX,
    ensures
        r@ == expansion(*dir_path, depth, listing),
{
    match listing {
        Err(io_error) => {
            let mut bits: Vec<PathBit> = Vec::new();
            bits.push(PathBit::Result(Err(Error::new(dir_path.clone(), io_error))));
            assert(bits@ =~= expansion(*dir_path, depth, listing));
            bits
        },
        Ok(entries) => {
            let ghost all = entries@;
            let mut bits: Vec<PathBit> = Vec::new();
            for entry in it: entries.into_iter()
                invariant
                    depth < u32::MAX,
                    it.seq() == all,
                    bits@ == entries_bits(*dir_path, depth, all.take(it.index() as int)),
            {
                let ghost before = bits@;
                let ghost i = it.index() as int;
                match entry {
                    Ok((path, status)) => {
                        match read_path(path, depth, status) {
                            Some(bit) => bits.push(bit),
                            None => {},
                        }
                    },
                    Err(io_error) => {
                        bits.push(PathBit::Result(Err(Error::new(dir_path.clone(), io_error))));
                    },
                }
                assert(all.take(i + 1).drop_last() =~= all.take(i));
                assert(bits@ =~= before + entry_bits(*dir_path, depth, all[i]));
            }
            assert(all.take(all.len() as int) =~= all);
            bits
        },
    }
}

/// How many directories a round expands at most, where the caller sets no bound.
pub const MAX_PARALLEL_PATHS: u32 = 1000;

/// Whether a directory found at `depth` is admitted for expansion: within
/// `max_depth` where one is set. Depths count in `u32`, so the deepest level
/// that can be entered is `u32::MAX - 1`.
pub open spec fn admits(max_depth: Option<u32>, depth: u32) -> bool {
    &&& depth < u32::MAX
    &&& match max_depth {
        Some(m) => depth <= m,
        None => true,
    }
}

/// The state of a walk: directories waiting to be expanded with their depths,
/// records waiting to be handed out, and the walk's two bounds.
pub struct WalkState {
    pub dirs: Seq<(String, u32)>,
    pub results: Seq<Record>,
    pub max_depth: Option<u32>,
    pub max_parallel: nat,
}

impl WalkState {
    pub open spec fn wf(self) -> bool {
        &&& self.max_parallel > 0
        &&& forall|i: int| 0 <= i < self.dirs.len() ==> #[trigger] self.dirs[i].1 < u32::MAX
    }
}

/// The state in which a walk from `root` begins, given the root's status: a
/// directory waits at depth 0, a file or a failed lookup waits as its one
/// record, and anything else leaves nothing to do.
pub open spec fn start(
    root: String,
    status: Status,
    max_depth: Option<u32>,
    max_parallel: Option<u32>,
) -> WalkState {
    let dirs = match status {
        Ok(Kind::Dir) => seq![(root, 0u32)],
        _ => seq![],
    };
    let results = match classify(root, 0, status) {
        Some(PathBit::Result(record)) => seq![record],
        _ => seq![],
    };
    WalkState {
        dirs,
        results,
        max_depth,
        max_parallel: match max_parallel {
            Some(n) => n as nat,
            None => MAX_PARALLEL_PATHS as nat,
        },
    }
}

/// What a step of the walk does.
pub enum Step {
    /// Hands out the next record.
    Yield(Record),
    /// Asks for these directories, with their depths, to be expanded, and for
    /// what they contribute to be merged back.
    Expand(Vec<(String, u32)>),
    /// The walk is over.
    Done,
}

/// A step as a mathematical value.
pub enum StepView {
    Yield(Record),
    Expand(Seq<(String, u32)>),
    Done,
}

impl View for Step {
    type V = StepView;

    open spec fn view(&self) -> StepView {
        match self {
            Step::Yield(record) => StepView::Yield(*record),
            Step::Expand(batch) => StepView::Expand(batch@),
            Step::Done => StepView::Done,
        }
    }
}

/// How many directories the next round takes from the front of the queue.
pub open spec fn round_len(s: WalkState) -> nat {
    if s.dirs.len() < s.max_parallel {
        s.dirs.len()
    } else {
        s.max_parallel
    }
}

/// What the next step of the walk in state `s` does: hand out the oldest
/// record while there is one; else expand a round of the oldest directories
/// while there are some; else end.
pub open spec fn step_of(s: WalkState) -> StepView {
    if s.results.len() > 0 {
        StepView::Yield(s.results[0])
    } else if s.dirs.len() > 0 {
        StepView::Expand(s.dirs.take(round_len(s) as int))
    } else {
        StepView::Done
    }
}

/// The state after the next step of the walk in state `s`.
pub open spec fn after_step(s: WalkState) -> WalkState {
    if s.results.len() > 0 {
        WalkState { results: s.results.drop_first(), ..s }
    } else if s.dirs.len() > 0 {
        WalkState { dirs: s.dirs.skip(round_len(s) as int), ..s }
    } else {
        s
    }
}

/// The records among what a round contributes, in order.
pub open spec fn records_of(bits: Seq<PathBit>) -> Seq<Record>
    decreases bits.len(),
{
    if bits.len() == 0 {
        seq![]
    } else {
        records_of(bits.drop_last()) + match bits.last() {
            PathBit::Result(record) => seq![record],
            PathBit::Dir(_) => seq![],
        }
    }
}

/// The directories among what a round contributes that `max_depth` admits, in
/// order.
pub open spec fn admitted(bits: Seq<PathBit>, max_depth: Option<u32>) -> Seq<(String, u32)>
    decreases bits.len(),
{
    if bits.len() == 0 {
        seq![]
    } else {
        admitted(bits.drop_last(), max_depth) + match bits.last() {
            PathBit::Dir(dir) => if admits(max_depth, dir.1) {
                seq![dir]
            } else {
                seq![]
            },
            PathBit::Result(_) => seq![],
        }
    }
}

/// The state after what a round contributed, `bits`, is merged into `s`: every
/// record joins the records, and every directory that the depth bound admits
/// joins the directories.
pub open spec fn merged(s: WalkState, bits: Seq<PathBit>) -> WalkState {
    WalkState {
        dirs: s.dirs + admitted(bits, s.max_depth),
        results: s.results + records_of(bits),
        ..s
    }
}

/// A walk over a directory tree, driven one step at a time.
pub struct Traversal {
    dir_queue: VecDeque<(String, u32)>,
    result_queue: VecDeque<Record>,
    max_depth: Option<u32>,
    max_parallel: usize,
}

impl View for Traversal {
    type V = WalkState;

    closed spec fn view(&self) -> WalkState {
        WalkState {
            dirs: self.dir_queue@,
            results: self.result_queue@,
            max_depth: self.max_depth,
            max_parallel: self.max_parallel as nat,
        }
    }
}

/// Begins a walk from `root`, given the outcome of its status lookup. Rounds
/// expand at most `max_parallel` directories (1000 where it is not set), and
/// directories deeper than `max_depth` are not entered.
pub fn visit(root: String, status: Status, max_depth: Option<u32>, max_parallel: Option<u32>) -> (r:
    Traversal)
    requires
        max_parallel != Some(0u32),
    ensures
        r@ == start(root, status, max_depth, max_parallel),
        r@.wf(),
{
    let ghost start_state = start(root, status, max_depth, max_parallel);
    let max_parallel: usize = match max_parallel {
        Some(n) => n as usize,
        None => MAX_PARALLEL_PATHS as usize,
    };
    let mut result_queue: VecDeque<Record> = VecDeque::new();
    let mut dir_queue: VecDeque<(String, u32)> = VecDeque::new();
    match read_path(root, 0, status) {
        Some(PathBit::Dir((path, _))) => dir_queue.push_back((path, 0)),
        Some(PathBit::Result(record)) => result_queue.push_back(record),
        None => {},
    }
    let r = Traversal { dir_queue, result_queue, max_depth, max_parallel };
    assert(r@.dirs =~= start_state.dirs);
    assert(r@.results =~= start_state.results);
    r
}

impl Traversal {
    /// Takes the next step of the walk: hands out the oldest waiting record;
    /// where none waits, takes the next round of directories, oldest first, to
    /// be expanded and merged back with `merge`; where none waits either, ends.
    pub fn next(&mut self) -> (r: Step)
        requires
            old(self)@.wf(),
        ensures
            r@ == step_of(old(self)@),
            final(self)@ == after_step(old(self)@),
            final(self)@.wf(),
    {
        if self.result_queue.len() > 0 {
            match self.result_queue.pop_front() {
                Some(record) => Step::Yield(record),
                None => Step::Done,
            }
        } else if self.dir_queue.len() > 0 {
            let n: usize = if self.dir_queue.len() < self.max_parallel {
                self.dir_queue.len()
            } else {
                self.max_parallel
            };
            let ghost dirs = self.dir_queue@;
            let mut batch: Vec<(String, u32)> = Vec::new();
            let mut i: usize = 0;
            while i < n
                invariant
                    n == round_len(old(self)@),
                    n <= dirs.len(),
                    dirs == old(self)@.dirs,
                    i <= n,
                    batch@ == dirs.take(i as int),
                    self.dir_queue@ == dirs.skip(i as int),
                    self.result_queue@ == old(self)@.results,
                    self.max_depth == old(self).max_depth,
                    self.max_parallel == old(self).max_parallel,
                decreases n - i,
            {
                match self.dir_queue.pop_front() {
                    Some(dir) => batch.push(dir),
                    None => {},
                }
                i = i + 1;
                assert(batch@ =~= dirs.take(i as int));
                assert(self.dir_queue@ =~= dirs.skip(i as int));
            }
            Step::Expand(batch)
        } else {
            Step::Done
        }
    }

    /// Merges what a round contributed: every record joins the waiting
    /// records, and every directory within the depth bound joins the waiting
    /// directories, both in the order given.
    pub fn merge(&mut self, bits: Vec<PathBit>)
        requires
            old(self)@.wf(),
        ensures
            final(self)@ == merged(old(self)@, bits@),
            final(self)@.wf(),
    {
        let ghost all = bits@;
        for bit in it: bits.into_iter()
            invariant
                it.seq() == all,
                self@ == merged(old(self)@, all.take(it.index() as int)),
                self@.wf(),
        {
            let ghost i = it.index() as int;
            let ghost before = self@;
            match bit {
                PathBit::Result(record) => self.result_queue.push_back(record),
                PathBit::Dir((path, depth)) => {
                    let admit_dir = depth < u32::MAX && match self.max_depth {
                        Some(m) => depth <= m,
                        None => true,
                    };
                    if admit_dir {
                        self.dir_queue.push_back((path, depth));
                    }
                },
            }
            assert forall|k: int| 0 <= k < self@.dirs.len() implies #[trigger] self@.dirs[k].1
                < u32::MAX by {
                if k < before.dirs.len() {
                    assert(self@.dirs[k] == before.dirs[k]);
                }
            }
            assert(all.take(i + 1).drop_last() =~= all.take(i));
            assert(self@.dirs =~= merged(old(self)@, all.take(i + 1)).dirs);
            assert(self@.results =~= merged(old(self)@, all.take(i + 1)).results);
        }
        assert(all.take(all.len() as int) =~= all);
    }
}

/// A round loses and repeats no record: each record occurs among the records
/// merged as many times as it occurs among what the round contributed.
pub proof fn lemma_round_keeps_records(bits: Seq<PathBit>)
    ensures
        forall|record: Record|
            #[trigger] records_of(bits).to_multiset().count(record) == bits.to_multiset().count(
                PathBit::Result(record),
            ),
    decreases bits.len(),
{
    broadcast use group_to_multiset_ensures;

    if bits.len() > 0 {
        let init = bits.drop_last();
        lemma_round_keeps_records(init);
        assert(bits =~= init.push(bits.last()));
        match bits.last() {
            PathBit::Result(last) => {
                assert(records_of(bits) =~= records_of(init).push(last));
            },
            PathBit::Dir(_) => {
                assert(records_of(bits) =~= records_of(init));
            },
        }
    } else {
        assert(records_of(bits).to_multiset() =~= Multiset::empty());
        assert(bits.to_multiset() =~= Multiset::empty());
    }
}

/// Depth bound: a directory that a round found joins the directories to be
/// expanded exactly when the bound admits its depth, once for each time it was
/// found; no other directory joins them.
pub proof fn lemma_depth_gate(bits: Seq<PathBit>, max_depth: Option<u32>)
    ensures
        forall|dir: (String, u32)|
            #[trigger] admitted(bits, max_depth).to_multiset().count(dir) == if admits(
                max_depth,
                dir.1,
            ) {
                bits.to_multiset().count(PathBit::Dir(dir))
            } else {
                0
            },
    decreases bits.len(),
{
    broadcast use group_to_multiset_ensures;

    if bits.len() > 0 {
        let init = bits.drop_last();
        lemma_depth_gate(init, max_depth);
        assert(bits =~= init.push(bits.last()));
        match bits.last() {
            PathBit::Dir(last) => {
                if admits(max_depth, last.1) {
                    assert(admitted(bits, max_depth) =~= admitted(init, max_depth).push(last));
                } else {
                    assert(admitted(bits, max_depth) =~= admitted(init, max_depth));
                }
            },
            PathBit::Result(_) => {
                assert(admitted(bits, max_depth) =~= admitted(init, max_depth));
            },
        }
    } else {
        assert(admitted(bits, max_depth).to_multiset() =~= Multiset::empty());
        assert(bits.to_multiset() =~= Multiset::empty());
    }
}

/// A root that is a regular file is handed out as one record of its size,
/// with no directory expanded, and the walk then ends.
pub proof fn lemma_root_file(
    root: String,
    size: u64,
    max_depth: Option<u32>,
    max_parallel: Option<u32>,
)
    ensures
        ({
            let s = start(root, Ok(Kind::File(size)), max_depth, max_parallel);
            &&& step_of(s) == StepView::Yield(Ok(FileSize { path: root, size }))
            &&& step_of(after_step(s)) == StepView::Done
        }),
{
}

/// A root whose status lookup fails, as a path that does not exist does, is
/// handed out as one failure on that path, and the walk then ends.
pub proof fn lemma_root_failure(
    root: String,
    io_error: std::io::Error,
    max_depth: Option<u32>,
    max_parallel: Option<u32>,
)
    ensures
        ({
            let s = start(root, Err(io_error), max_depth, max_parallel);
            &&& step_of(s) == StepView::Yield(Err(Error { path: root, io_error }))
            &&& step_of(after_step(s)) == StepView::Done
        }),
{
}

} // verus!
