//! The index state tracker: what the store already holds of each file, and
//! what an incremental run has to do for each file it finds.
//!
//! The state is computed afresh from the stored chunks for every run. A
//! file's watermark is the latest creation time among its chunks. A file
//! without a watermark is new; one modified after its watermark is replaced
//! whole, its old chunks deleted before the new ones are written; any other
//! file is skipped.

use vstd::prelude::*;

verus! {

/// What the tracker reads of one stored chunk.
#[derive(Debug, Clone, PartialEq, Eq)]
pub struct ChunkStamp {
    pub agent_id: String,
    pub source_path: String,
    /// Creation time, in seconds since the epoch.
    pub created_at: i64,
}

/// Whether a stored chunk is one of `agent`'s chunks of the file `path`.
pub open spec fn belongs(chunk: ChunkStamp, agent: Seq<char>, path: Seq<char>) -> bool {
    chunk.agent_id@ == agent && chunk.source_path@ == path
}

/// The later of two times.
pub open spec fn later(a: i64, b: i64) -> i64 {
    if a >= b {
        a
    } else {
        b
    }
}

/// The watermark of `path`: the latest creation time among `agent`'s chunks
/// of that file, if there are any.
pub open spec fn watermark(chunks: Seq<ChunkStamp>, agent: Seq<char>, path: Seq<char>) -> Option<
    i64,
>
    decreases chunks.len(),
{
    if chunks.len() == 0 {
        None
    } else {
        let earlier = watermark(chunks.drop_last(), agent, path);
        if !belongs(chunks.last(), agent, path) {
            earlier
        } else {
            match earlier {
                Some(w) => Some(later(w, chunks.last().created_at)),
                None => Some(chunks.last().created_at),
            }
        }
    }
}

/// How many chunks of the file `path` the store holds for `agent`.
pub open spec fn chunk_count(chunks: Seq<ChunkStamp>, agent: Seq<char>, path: Seq<char>) -> nat
    decreases chunks.len(),
{
    if chunks.len() == 0 {
        0
    } else if belongs(chunks.last(), agent, path) {
        chunk_count(chunks.drop_last(), agent, path) + 1
    } else {
        chunk_count(chunks.drop_last(), agent, path)
    }
}

/// The index state of a store: for each path of which `agent` has chunks,
/// its watermark and the number of its chunks.
pub open spec fn index_of(chunks: Seq<ChunkStamp>, agent: Seq<char>) -> Map<Seq<char>, (i64, nat)> {
    Map::new(
        |path: Seq<char>| watermark(chunks, agent, path) is Some,
        |path: Seq<char>| (watermark(chunks, agent, path).unwrap(), chunk_count(chunks, agent, path)),
    )
}

/// The entry of a path once one more of its chunks, created at `created_at`,
/// is counted in.
pub open spec fn counted_in(state: Map<Seq<char>, (i64, nat)>, path: Seq<char>, created_at: i64) -> (
    i64,
    nat,
) {
    if state.dom().contains(path) {
        (later(state[path].0, created_at), state[path].1 + 1)
    } else {
        (created_at, 1)
    }
}

/// One path of the index state.
#[derive(Debug, Clone, PartialEq, Eq)]
pub struct PathMark {
    pub path: String,
    pub watermark: i64,
    pub chunks: usize,
}

/// The map that a list of marks stands for; of two marks of one path the
/// later one counts.
pub open spec fn marks_map(marks: Seq<PathMark>) -> Map<Seq<char>, (i64, nat)>
    decreases marks.len(),
{
    if marks.len() == 0 {
        Map::empty()
    } else {
        marks_map(marks.drop_last()).insert(
            marks.last().path@,
            (marks.last().watermark, marks.last().chunks as nat),
        )
    }
}

/// The index state of one run: from path to watermark and chunk count.
#[derive(Debug, Clone)]
pub struct IndexState {
    marks: Vec<PathMark>,
}

impl View for IndexState {
    type V = Map<Seq<char>, (i64, nat)>;

    closed spec fn view(&self) -> Map<Seq<char>, (i64, nat)> {
        marks_map(self.marks@)
    }
}

proof fn lemma_last_mark(marks: Seq<PathMark>, i: int, path: Seq<char>)
    requires
        0 <= i < marks.len(),
        marks[i].path@ == path,
        forall|j: int| i < j < marks.len() ==> marks[j].path@ != path,
    ensures
        marks_map(marks).dom().contains(path),
        marks_map(marks)[path] == (marks[i].watermark, marks[i].chunks as nat),
    decreases marks.len(),
{
    if i < marks.len() - 1 {
        lemma_last_mark(marks.drop_last(), i, path);
    }
}

proof fn lemma_no_mark(marks: Seq<PathMark>, path: Seq<char>)
    requires
        forall|j: int| 0 <= j < marks.len() ==> marks[j].path@ != path,
    ensures
        !marks_map(marks).dom().contains(path),
    decreases marks.len(),
{
    if marks.len() > 0 {
        lemma_no_mark(marks.drop_last(), path);
    }
}

proof fn lemma_replace_mark(marks: Seq<PathMark>, i: int, mark: PathMark)
    requires
        0 <= i < marks.len(),
        marks[i].path@ == mark.path@,
        forall|j: int| i < j < marks.len() ==> marks[j].path@ != mark.path@,
    ensures
        marks_map(marks.update(i, mark)) == marks_map(marks).insert(
            mark.path@,
            (mark.watermark, mark.chunks as nat),
        ),
    decreases marks.len(),
{
    let changed = marks.update(i, mark);
    if i < marks.len() - 1 {
        lemma_replace_mark(marks.drop_last(), i, mark);
        assert(changed.drop_last() =~= marks.drop_last().update(i, mark));
    } else {
        assert(changed.drop_last() =~= marks.drop_last());
    }
    assert(marks_map(changed) =~= marks_map(marks).insert(
        mark.path@,
        (mark.watermark, mark.chunks as nat),
    ));
}

/// Counting one more stored chunk into the index state.
pub proof fn lemma_index_step(chunks: Seq<ChunkStamp>, agent: Seq<char>, k: int)
    requires
        0 <= k < chunks.len(),
    ensures
        index_of(chunks.take(k + 1), agent) == if chunks[k].agent_id@ == agent {
            index_of(chunks.take(k), agent).insert(
                chunks[k].source_path@,
                counted_in(index_of(chunks.take(k), agent), chunks[k].source_path@, chunks[k].created_at),
            )
        } else {
            index_of(chunks.take(k), agent)
        },
{
    assert(chunks.take(k + 1).drop_last() =~= chunks.take(k));
    assert(chunks.take(k + 1).last() == chunks[k]);
    let before = index_of(chunks.take(k), agent);
    let after = index_of(chunks.take(k + 1), agent);
    if chunks[k].agent_id@ == agent {
        let p = chunks[k].source_path@;
        lemma_watermark_is_latest(chunks.take(k), agent, p);
        assert(after =~= before.insert(p, counted_in(before, p, chunks[k].created_at)));
    } else {
        assert(after =~= before);
    }
}

/// A path has no more chunks than the store holds.
pub proof fn lemma_count_bound(chunks: Seq<ChunkStamp>, agent: Seq<char>, path: Seq<char>)
    ensures
        chunk_count(chunks, agent, path) <= chunks.len(),
    decreases chunks.len(),
{
    if chunks.len() > 0 {
        lemma_count_bound(chunks.drop_last(), agent, path);
    }
}

/// The watermark of a path is the latest creation time among its chunks: a
/// path has a watermark exactly if it has a chunk, no chunk of the path is
/// later than the watermark, and one of them was created at it.
pub proof fn lemma_watermark_is_latest(chunks: Seq<ChunkStamp>, agent: Seq<char>, path: Seq<char>)
    ensures
        watermark(chunks, agent, path) is Some <==> exists|i: int|
            0 <= i < chunks.len() && belongs(#[trigger] chunks[i], agent, path),
        watermark(chunks, agent, path) is Some <==> chunk_count(chunks, agent, path) > 0,
        watermark(chunks, agent, path) matches Some(w) ==> {
            &&& forall|i: int|
                0 <= i < chunks.len() && belongs(#[trigger] chunks[i], agent, path)
                    ==> chunks[i].created_at <= w
            &&& exists|i: int|
                0 <= i < chunks.len() && belongs(#[trigger] chunks[i], agent, path)
                    && chunks[i].created_at == w
        },
    decreases chunks.len(),
{
    if chunks.len() > 0 {
        let head = chunks.drop_last();
        let last = chunks.len() - 1;
        lemma_watermark_is_latest(head, agent, path);
        assert forall|i: int| 0 <= i < head.len() implies head[i] == chunks[i] by {}
        if belongs(chunks.last(), agent, path) {
            assert(belongs(chunks[last], agent, path));
            match watermark(head, agent, path) {
                Some(w) => {
                    if w >= chunks.last().created_at {
                        let i = choose|i: int|
                            0 <= i < head.len() && belongs(#[trigger] head[i], agent, path)
                                && head[i].created_at == w;
                        assert(belongs(chunks[i], agent, path) && chunks[i].created_at == w);
                    }
                },
                None => {},
            }
        } else {
            if watermark(head, agent, path) is Some {
                let i = choose|i: int|
                    0 <= i < head.len() && belongs(#[trigger] head[i], agent, path)
                        && head[i].created_at == watermark(head, agent, path).unwrap();
                assert(belongs(chunks[i], agent, path));
            }
            if exists|i: int| 0 <= i < chunks.len() && belongs(#[trigger] chunks[i], agent, path) {
                let i = choose|i: int|
                    0 <= i < chunks.len() && belongs(#[trigger] chunks[i], agent, path);
                assert(belongs(head[i], agent, path));
            }
        }
    }
}

impl IndexState {
    /// The state of an empty store.
    pub fn new() -> (state: Self)
        ensures
            state@ == Map::<Seq<char>, (i64, nat)>::empty(),
    {
        IndexState { marks: Vec::new() }
    }

    /// The watermark of `path`, if the store holds chunks of it.
    pub open spec fn watermark_of(&self, path: Seq<char>) -> Option<i64> {
        if self@.dom().contains(path) {
            Some(self@[path].0)
        } else {
            None
        }
    }

    /// Where the mark of `path` stands, if there is one.
    fn position(&self, path: &str) -> (found: Option<usize>)
        ensures
            match found {
                Some(i) => {
                    &&& i < self.marks.len()
                    &&& self.marks[i as int].path@ == path@
                    &&& forall|j: int| i < j < self.marks.len() ==> self.marks[j].path@ != path@
                    &&& self@.dom().contains(path@)
                    &&& self@[path@] == (self.marks[i as int].watermark, self.marks[i as int].chunks as nat)
                },
                None => !self@.dom().contains(path@),
            },
    {
        let wanted = path.to_owned();
        let mut i: usize = self.marks.len();
        while i > 0
            invariant
                i <= self.marks.len(),
                wanted@ == path@,
                forall|j: int| i <= j < self.marks.len() ==> self.marks[j].path@ != path@,
            decreases i,
        {
            i -= 1;
            if self.marks[i].path == wanted {
                proof {
                    lemma_last_mark(self.marks@, i as int, path@);
                }
                return Some(i);
            }
        }
        proof {
            lemma_no_mark(self.marks@, path@);
        }
        None
    }

    /// The watermark and the chunk count of `path`, if the store holds
    /// chunks of it.
    pub fn get(&self, path: &str) -> (found: Option<(i64, usize)>)
        ensures
            match found {
                Some((w, n)) => self@.dom().contains(path@) && self@[path@] == (w, n as nat),
                None => !self@.dom().contains(path@),
            },
    {
        match self.position(path) {
            Some(i) => Some((self.marks[i].watermark, self.marks[i].chunks)),
            None => None,
        }
    }

    /// Counts one more chunk of `path`, created at `created_at`.
    fn count_in(&mut self, path: &str, created_at: i64)
        requires
            old(self)@.dom().contains(path@) ==> old(self)@[path@].1 < usize::MAX,
        ensures
            final(self)@ == old(self)@.insert(path@, counted_in(old(self)@, path@, created_at)),
    {
        match self.position(path) {
            Some(i) => {
                let seen = self.marks[i].watermark;
                let mark = PathMark {
                    path: path.to_owned(),
                    watermark: if seen >= created_at {
                        seen
                    } else {
                        created_at
                    },
                    chunks: self.marks[i].chunks + 1,
                };
                proof {
                    lemma_replace_mark(self.marks@, i as int, mark);
                }
                self.marks.set(i, mark);
            },
            None => {
                self.marks.push(PathMark { path: path.to_owned(), watermark: created_at, chunks: 1 });
                assert(self.marks@.drop_last() =~= old(self).marks@);
            },
        }
    }

    /// The index state of a store, scoped to `agent_id`: for each path among
    /// that agent's chunks, the latest creation time and the number of its
    /// chunks.
    pub fn from_chunks(chunks: &Vec<ChunkStamp>, agent_id: &str) -> (state: Self)
        ensures
            state@ == index_of(chunks@, agent_id@),
    {
        let agent = agent_id.to_owned();
        let mut state = IndexState::new();
        let mut k: usize = 0;
        assert(index_of(chunks@.take(0), agent_id@) =~= Map::<Seq<char>, (i64, nat)>::empty());
        while k < chunks.len()
            invariant
                k <= chunks.len(),
                agent@ == agent_id@,
                state@ == index_of(chunks@.take(k as int), agent_id@),
            decreases chunks.len() - k,
        {
            proof {
                lemma_index_step(chunks@, agent_id@, k as int);
                lemma_count_bound(chunks@.take(k as int), agent_id@, chunks[k as int].source_path@);
            }
            if chunks[k].agent_id == agent {
                state.count_in(chunks[k].source_path.as_str(), chunks[k].created_at);
            }
            k += 1;
        }
        assert(chunks@.take(k as int) =~= chunks@);
        state
    }
}

/// The kind of a source file, which decides how it is read.
#[derive(Clone, Copy, Debug, PartialEq, Eq, Structural)]
pub enum FileKind {
    /// Notes, chunked as they are.
    Markdown,
    /// A conversation, one JSON record per line.
    Transcript,
}

/// A file that a run has found.
#[derive(Debug, Clone, PartialEq, Eq)]
pub struct FileRef {
    pub path: String,
    pub kind: FileKind,
    /// The label that chunks of this file carry as their source.
    pub label: String,
    /// When the file was last modified, in seconds since the epoch; `None`
    /// if that could not be read.
    pub mtime: Option<i64>,
}

/// What a run does for one file.
#[derive(Debug, Clone, PartialEq, Eq)]
pub enum IndexAction {
    /// Nothing: the file has not changed since it was indexed.
    Skip(String),
    /// Index a file that the store has no chunks of.
    New(String),
    /// Delete the file's chunks, of which the store holds the given number,
    /// and index it again.
    Update(String, usize),
}

/// An `IndexAction` with its path as text.
pub enum Action {
    Skip(Seq<char>),
    New(Seq<char>),
    Update(Seq<char>, nat),
}

impl View for IndexAction {
    type V = Action;

    open spec fn view(&self) -> Action {
        match self {
            IndexAction::Skip(path) => Action::Skip(path@),
            IndexAction::New(path) => Action::New(path@),
            IndexAction::Update(path, old_chunks) => Action::Update(path@, *old_chunks as nat),
        }
    }
}

/// The action for a file at `path` last modified at `mtime`, against the
/// index state `state`:
/// - no watermark: the file is new;
/// - a watermark, and a modification time that could not be read or is not
///   later than it: skip;
/// - a modification time later than the watermark: update.
pub open spec fn planned(path: Seq<char>, mtime: Option<i64>, state: Map<Seq<char>, (i64, nat)>) -> Action {
    if !state.dom().contains(path) {
        Action::New(path)
    } else {
        match mtime {
            Some(t) if t > state[path].0 => Action::Update(path, state[path].1),
            _ => Action::Skip(path),
        }
    }
}

/// Decides what to do for one file.
pub fn plan_file(file: &FileRef, state: &IndexState) -> (action: IndexAction)
    ensures
        action@ == planned(file.path@, file.mtime, state@),
{
    match state.get(file.path.as_str()) {
        None => IndexAction::New(file.path.clone()),
        Some((mark, old_chunks)) => match file.mtime {
            Some(t) => if t > mark {
                IndexAction::Update(file.path.clone(), old_chunks)
            } else {
                IndexAction::Skip(file.path.clone())
            },
            None => IndexAction::Skip(file.path.clone()),
        },
    }
}

/// Decides, file by file and in the order given, what an incremental run has
/// to do to bring the store in line with the files found.
pub fn plan_incremental_index(current_files: &Vec<FileRef>, state: &IndexState) -> (actions: Vec<
    IndexAction,
>)
    ensures
        actions.len() == current_files.len(),
        forall|i: int|
            0 <= i < actions.len() ==> (#[trigger] actions[i])@ == planned(
                current_files[i].path@,
                current_files[i].mtime,
                state@,
            ),
{
    let mut actions: Vec<IndexAction> = Vec::new();
    let mut i: usize = 0;
    while i < current_files.len()
        invariant
            i <= current_files.len(),
            actions.len() == i,
            forall|j: int|
                0 <= j < i ==> (#[trigger] actions[j])@ == planned(
                    current_files[j].path@,
                    current_files[j].mtime,
                    state@,
                ),
        decreases current_files.len() - i,
    {
        actions.push(plan_file(&current_files[i], state));
        i += 1;
    }
    actions
}

/// The stored chunks that are left once `agent`'s chunks of `path` are
/// deleted.
pub open spec fn without_path(chunks: Seq<ChunkStamp>, agent: Seq<char>, path: Seq<char>) -> Seq<
    ChunkStamp,
> {
    chunks.filter(|c: ChunkStamp| !belongs(c, agent, path))
}

/// The store once `action` has been carried out and the chunks `fresh` of
/// the file have been written: nothing changes on a skip; a new file's
/// chunks are added; on an update the file's old chunks are all deleted
/// first.
pub open spec fn store_after(
    chunks: Seq<ChunkStamp>,
    agent: Seq<char>,
    action: Action,
    fresh: Seq<ChunkStamp>,
) -> Seq<ChunkStamp> {
    match action {
        Action::Skip(_) => chunks,
        Action::New(_) => chunks + fresh,
        Action::Update(path, _) => without_path(chunks, agent, path) + fresh,
    }
}

/// Indexing a file and then indexing it again, its modification time
/// unchanged, adds and deletes nothing the second time.
///
/// `fresh` stands for the chunks that indexing the file writes, `again` for
/// those that a second reading of the same file would give: as many. Each
/// chunk is the agent's and the file's, and no chunk was written before the
/// file was last modified. Then, after the first run, the plan for the file
/// is to skip it, unless the file gives no chunks at all, in which case it is
/// taken for new once more and nothing is written; either way the store
/// after the second run is the store after the first.
pub proof fn lemma_reindex_changes_nothing(
    chunks: Seq<ChunkStamp>,
    agent: Seq<char>,
    path: Seq<char>,
    mtime: Option<i64>,
    fresh: Seq<ChunkStamp>,
    again: Seq<ChunkStamp>,
)
    requires
        again.len() == fresh.len(),
        forall|i: int| 0 <= i < fresh.len() ==> belongs(#[trigger] fresh[i], agent, path),
        forall|i: int|
            0 <= i < fresh.len() ==> (mtime matches Some(t) ==> (#[trigger] fresh[i]).created_at
                >= t),
    ensures
        ({
            let first = planned(path, mtime, index_of(chunks, agent));
            let stored = store_after(chunks, agent, first, fresh);
            let second = planned(path, mtime, index_of(stored, agent));
            &&& fresh.len() > 0 || first is Skip ==> second == Action::Skip(path)
            &&& second is Skip || second is New
            &&& store_after(stored, agent, second, again) == stored
        }),
{
    let first = planned(path, mtime, index_of(chunks, agent));
    let stored = store_after(chunks, agent, first, fresh);
    let second = planned(path, mtime, index_of(stored, agent));
    let pred = |c: ChunkStamp| !belongs(c, agent, path);
    lemma_watermark_is_latest(chunks, agent, path);
    lemma_watermark_is_latest(stored, agent, path);
    if first is Skip {
        assert(stored == chunks);
    } else {
        let kept = if first is New {
            chunks
        } else {
            without_path(chunks, agent, path)
        };
        assert(stored == kept + fresh);
        assert forall|i: int| 0 <= i < kept.len() implies !belongs(#[trigger] kept[i], agent, path) by {
            if first is New {
            } else {
                chunks.lemma_filter_pred(pred, i);
            }
        }
        if fresh.len() > 0 {
            assert(stored[kept.len() as int] == fresh[0]);
            assert(belongs(stored[kept.len() as int], agent, path));
        } else {
            assert(stored =~= kept);
            assert(again =~= Seq::<ChunkStamp>::empty());
            assert(stored + again =~= stored);
        }
    }
}

/// What a run has done so far.
#[derive(Clone, Copy, Debug, PartialEq, Eq, Structural)]
pub struct IndexSummary {
    pub new_files: usize,
    pub updated_files: usize,
    pub chunks_added: usize,
    pub chunks_deleted: usize,
}

impl IndexSummary {
    /// The summary of a run that has done nothing yet.
    pub fn new() -> (summary: Self)
        ensures
            summary == (IndexSummary {
                new_files: 0,
                updated_files: 0,
                chunks_added: 0,
                chunks_deleted: 0,
            }),
    {
        IndexSummary { new_files: 0, updated_files: 0, chunks_added: 0, chunks_deleted: 0 }
    }

    /// The summary once `action` has been carried out, with `deleted` chunks
    /// deleted and `added` chunks written: a skip counts for nothing; an
    /// update counts as one updated file with all its chunks; a new file
    /// counts only if it gave a chunk.
    pub open spec fn with(self, action: Action, deleted: usize, added: usize) -> (int, int, int, int) {
        match action {
            Action::Skip(_) => (
                self.new_files as int,
                self.updated_files as int,
                self.chunks_added as int,
                self.chunks_deleted as int,
            ),
            Action::Update(_, _) => (
                self.new_files as int,
                self.updated_files + 1,
                self.chunks_added + added,
                self.chunks_deleted + deleted,
            ),
            Action::New(_) => if added > 0 {
                (
                    self.new_files + 1,
                    self.updated_files as int,
                    self.chunks_added + added,
                    self.chunks_deleted as int,
                )
            } else {
                (
                    self.new_files as int,
                    self.updated_files as int,
                    self.chunks_added as int,
                    self.chunks_deleted as int,
                )
            },
        }
    }

    /// The four counts of a summary.
    pub open spec fn counts(self) -> (int, int, int, int) {
        (
            self.new_files as int,
            self.updated_files as int,
            self.chunks_added as int,
            self.chunks_deleted as int,
        )
    }

    /// Counts in what was done for one file. The counts have to fit the
    /// machine's integers.
    pub fn record(&mut self, action: &IndexAction, deleted: usize, added: usize)
        requires
            old(self).new_files < usize::MAX,
            old(self).updated_files < usize::MAX,
            old(self).chunks_added + added <= usize::MAX,
            old(self).chunks_deleted + deleted <= usize::MAX,
        ensures
            final(self).counts() == old(self).with(action@, deleted, added),
    {
        match action {
            IndexAction::Skip(_) => {},
            IndexAction::Update(_, _) => {
                self.chunks_deleted = self.chunks_deleted + deleted;
                self.chunks_added = self.chunks_added + added;
                self.updated_files = self.updated_files + 1;
            },
            IndexAction::New(_) => {
                if added > 0 {
                    self.chunks_added = self.chunks_added + added;
                    self.new_files = self.new_files + 1;
                }
            },
        }
    }

    /// Whether the run found nothing to index: no new file and no updated
    /// one.
    pub fn is_idle(&self) -> (idle: bool)
        ensures
            idle == (self.new_files == 0 && self.updated_files == 0),
    {
        self.new_files == 0 && self.updated_files == 0
    }
}

} // verus!
