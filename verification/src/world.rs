//! The decisions of a whole-world run: what each file goes through, what
//! its result is, and the order in which entries are renamed.
use vstd::prelude::*;
use crate::content::FileContentSwapResult;

verus! {

/// Why one way of processing a file failed.
#[derive(Debug, Clone, PartialEq, Eq)]
pub enum FileProcessError {
    McaError(String),
    NbtError(String),
    ContentError(String),
    RenameError(String),
}

/// The result of processing one file or directory entry.
#[derive(Debug, Clone, PartialEq, Eq)]
pub enum TaskResult {
    Success,
    NoChange,
    Unsupported(Vec<FileProcessError>),
    Error(Vec<FileProcessError>),
}

/// A finished task: the entry's path relative to the processed directory,
/// and its result.
#[derive(Debug, Clone)]
pub struct FinishTaskData {
    pub path: String,
    pub result: TaskResult,
}

/// Progress reported to whoever runs the processing.
#[derive(Debug, Clone)]
pub enum ProgressEvent {
    /// The scan is over and the number of tasks is known.
    SetTotal(usize),
    /// A phase begins: 0 swaps file contents, 1 renames entries.
    StartPhase(usize),
    /// Work on an entry (relative path) begins.
    StartTask(String),
    /// Work on an entry is over.
    FinishTask(FinishTaskData),
}

/// What happened to a file's contents so far.
pub enum TaskEvent {
    /// Work on the file begins.
    Start,
    /// Treating the file as a region (`.mca`) file succeeded or failed.
    McaDone(Result<(), String>),
    /// Treating the file as an NBT or SNBT file succeeded or failed.
    NbtDone(Result<(), String>),
    /// Swapping UUIDs in the file as text succeeded or failed.
    ContentDone(Result<FileContentSwapResult, String>),
}

/// What to do next with a file's contents.
#[derive(Debug)]
pub enum TaskAction {
    /// Treat the file as a region file.
    TryMca,
    /// Treat the file as an NBT or SNBT file.
    TryNbt,
    /// Swap UUIDs in the file as text.
    TrySwapContent,
    /// The file is done with this result.
    Finish(TaskResult),
}

/// The kind of a step's outcome.
#[derive(Debug, Clone, Copy, PartialEq, Eq)]
pub enum StepKind {
    TryMca,
    TryNbt,
    TrySwapContent,
    Success,
    NoChange,
    Unsupported,
    Error,
}

/// The content phase for one file: region file first, then NBT, then text;
/// the first that succeeds ends the task. `errors` holds the failures so
/// far. Gives the kind of the next action and the failures afterwards.
pub open spec fn task_transition(errors: Seq<FileProcessError>, event: TaskEvent) -> (StepKind, Seq<FileProcessError>) {
    match event {
        TaskEvent::Start => (StepKind::TryMca, errors),
        TaskEvent::McaDone(Ok(())) => (StepKind::Success, errors),
        TaskEvent::McaDone(Err(e)) => (StepKind::TryNbt, errors.push(FileProcessError::McaError(e))),
        TaskEvent::NbtDone(Ok(())) => (StepKind::Success, errors),
        TaskEvent::NbtDone(Err(e)) => (StepKind::TrySwapContent, errors.push(FileProcessError::NbtError(e))),
        TaskEvent::ContentDone(Ok(FileContentSwapResult::Changed)) => (StepKind::Success, errors),
        TaskEvent::ContentDone(Ok(FileContentSwapResult::NoChange)) => (StepKind::NoChange, errors),
        TaskEvent::ContentDone(Ok(FileContentSwapResult::IsBinary)) => (StepKind::Unsupported, errors),
        TaskEvent::ContentDone(Err(e)) => (StepKind::Error, errors.push(FileProcessError::ContentError(e))),
    }
}

/// `a` is the action of kind `k`; a finishing result that reports failures
/// reports exactly `es`.
pub open spec fn action_matches(a: TaskAction, k: StepKind, es: Seq<FileProcessError>) -> bool {
    match a {
        TaskAction::TryMca => k == StepKind::TryMca,
        TaskAction::TryNbt => k == StepKind::TryNbt,
        TaskAction::TrySwapContent => k == StepKind::TrySwapContent,
        TaskAction::Finish(TaskResult::Success) => k == StepKind::Success,
        TaskAction::Finish(TaskResult::NoChange) => k == StepKind::NoChange,
        TaskAction::Finish(TaskResult::Unsupported(v)) => k == StepKind::Unsupported && v@ == es,
        TaskAction::Finish(TaskResult::Error(v)) => k == StepKind::Error && v@ == es,
    }
}

/// Whether a step of this kind ends the file's content phase.
pub open spec fn is_final(k: StepKind) -> bool {
    !(k == StepKind::TryMca || k == StepKind::TryNbt || k == StepKind::TrySwapContent)
}

/// One step of the content phase of a file; see [`task_transition`]. The
/// failures are kept in `errors` while the file is tried further, and
/// handed over (leaving `errors` empty) when it finishes.
pub fn task_step(errors: &mut Vec<FileProcessError>, event: TaskEvent) -> (r: TaskAction)
    ensures
        ({
            let (k, es) = task_transition(old(errors)@, event);
            &&& action_matches(r, k, es)
            &&& !is_final(k) ==> final(errors)@ == es
            &&& is_final(k) ==> final(errors)@.len() == 0
        }),
{
    match event {
        TaskEvent::Start => TaskAction::TryMca,
        TaskEvent::McaDone(Ok(())) => {
            errors.clear();
            TaskAction::Finish(TaskResult::Success)
        },
        TaskEvent::McaDone(Err(e)) => {
            errors.push(FileProcessError::McaError(e));
            TaskAction::TryNbt
        },
        TaskEvent::NbtDone(Ok(())) => {
            errors.clear();
            TaskAction::Finish(TaskResult::Success)
        },
        TaskEvent::NbtDone(Err(e)) => {
            errors.push(FileProcessError::NbtError(e));
            TaskAction::TrySwapContent
        },
        TaskEvent::ContentDone(Ok(FileContentSwapResult::Changed)) => {
            errors.clear();
            TaskAction::Finish(TaskResult::Success)
        },
        TaskEvent::ContentDone(Ok(FileContentSwapResult::NoChange)) => {
            errors.clear();
            TaskAction::Finish(TaskResult::NoChange)
        },
        TaskEvent::ContentDone(Ok(FileContentSwapResult::IsBinary)) => {
            let mut all: Vec<FileProcessError> = Vec::new();
            std::mem::swap(&mut all, errors);
            TaskAction::Finish(TaskResult::Unsupported(all))
        },
        TaskEvent::ContentDone(Err(e)) => {
            errors.push(FileProcessError::ContentError(e));
            let mut all: Vec<FileProcessError> = Vec::new();
            std::mem::swap(&mut all, errors);
            TaskAction::Finish(TaskResult::Error(all))
        },
    }
}

/// Each file is swapped by one route only: when the region route or the
/// NBT route succeeds, whatever failed before, the content phase ends at
/// once with `Success` and no further route is tried. A failed route hands
/// the file to the next one (region, then NBT, then text), so no route is
/// tried twice.
pub proof fn lemma_one_route_swaps(errors: Seq<FileProcessError>, e: String, a: TaskAction, es: Seq<FileProcessError>)
    ensures
        action_matches(a, task_transition(errors, TaskEvent::McaDone(Ok(()))).0, es) ==> a matches TaskAction::Finish(
            TaskResult::Success,
        ),
        action_matches(a, task_transition(errors, TaskEvent::NbtDone(Ok(()))).0, es) ==> a matches TaskAction::Finish(
            TaskResult::Success,
        ),
        action_matches(a, task_transition(errors, TaskEvent::Start).0, es) ==> a matches TaskAction::TryMca,
        action_matches(a, task_transition(errors, TaskEvent::McaDone(Err(e))).0, es) ==> a matches TaskAction::TryNbt,
        action_matches(a, task_transition(errors, TaskEvent::NbtDone(Err(e))).0, es)
            ==> a matches TaskAction::TrySwapContent,
        forall|r: Result<FileContentSwapResult, String>| action_matches(a, #[trigger] task_transition(errors, TaskEvent::ContentDone(r)).0, es)
            ==> a is Finish,
{
}

/// A file that no route swaps ends with every failure met on the way, in
/// order: when the region and NBT routes fail with `a` and `b`, a binary
/// file ends `Unsupported` with both failures and a failed text swap ends
/// `Error` with all three; a text swap that changed the file ends it with
/// `Success`, and one that changed nothing with `NoChange`.
pub proof fn lemma_failures_carried(a: String, b: String, c: String)
    ensures
        ({
            let (k1, e1) = task_transition(Seq::empty(), TaskEvent::Start);
            let (k2, e2) = task_transition(e1, TaskEvent::McaDone(Err(a)));
            let (k3, e3) = task_transition(e2, TaskEvent::NbtDone(Err(b)));
            &&& k1 == StepKind::TryMca && k2 == StepKind::TryNbt && k3 == StepKind::TrySwapContent
            &&& task_transition(e3, TaskEvent::ContentDone(Ok(FileContentSwapResult::IsBinary)))
                == (StepKind::Unsupported, seq![FileProcessError::McaError(a), FileProcessError::NbtError(b)])
            &&& task_transition(e3, TaskEvent::ContentDone(Err(c))) == (
                StepKind::Error,
                seq![FileProcessError::McaError(a), FileProcessError::NbtError(b), FileProcessError::ContentError(c)],
            )
            &&& task_transition(e3, TaskEvent::ContentDone(Ok(FileContentSwapResult::Changed))).0 == StepKind::Success
            &&& task_transition(e3, TaskEvent::ContentDone(Ok(FileContentSwapResult::NoChange))).0
                == StepKind::NoChange
        }),
{
    let e3 = Seq::<FileProcessError>::empty().push(FileProcessError::McaError(a)).push(FileProcessError::NbtError(b));
    assert(e3 =~= seq![FileProcessError::McaError(a), FileProcessError::NbtError(b)]);
    assert(e3.push(FileProcessError::ContentError(c)) =~= seq![
        FileProcessError::McaError(a),
        FileProcessError::NbtError(b),
        FileProcessError::ContentError(c),
    ]);
}

/// Whether a file with this extension is left alone in the content phase
/// (Java archives).
pub fn is_skipped_extension(extension: &str) -> (r: bool)
    ensures
        r == (extension@ == seq!['j', 'a', 'r']),
{
    proof {
        reveal_strlit("jar");
    }
    assert("jar"@ =~= seq!['j', 'a', 'r']);
    crate::files::str_eq(extension, "jar")
}

/// The number of tasks: one per file in the content phase, one per entry
/// in the renaming phase.
pub fn total_tasks(files: usize, entries: usize) -> (r: usize)
    requires
        files + entries <= usize::MAX,
    ensures
        r == files + entries,
{
    files + entries
}

/// In the renaming phase, the entry at depth `l_depth` goes before the one
/// at `r_depth`: deeper entries first, and at equal depth files before
/// directories, so that renaming never invalidates a path still to come.
pub open spec fn renamed_before(l_depth: int, l_is_file: bool, r_depth: int, r_is_file: bool) -> bool {
    l_depth > r_depth || (l_depth == r_depth && l_is_file && !r_is_file)
}

/// Whether the entry `(l_depth, l_is_file)` is renamed before
/// `(r_depth, r_is_file)`.
pub fn rename_before(l_depth: usize, l_is_file: bool, r_depth: usize, r_is_file: bool) -> (r: bool)
    ensures
        r == renamed_before(l_depth as int, l_is_file, r_depth as int, r_is_file),
{
    l_depth > r_depth || (l_depth == r_depth && l_is_file && !r_is_file)
}

/// The renaming order is a strict weak order: never reflexive, transitive,
/// and entries that neither precedes stand at the same place (same depth
/// and kind), so any sort by it puts every entry after all deeper ones.
pub proof fn lemma_rename_order_strict_weak(
    a: (int, bool),
    b: (int, bool),
    c: (int, bool),
)
    ensures
        !renamed_before(a.0, a.1, a.0, a.1),
        renamed_before(a.0, a.1, b.0, b.1) && renamed_before(b.0, b.1, c.0, c.1) ==> renamed_before(a.0, a.1, c.0, c.1),
        renamed_before(a.0, a.1, b.0, b.1) ==> !renamed_before(b.0, b.1, a.0, a.1),
        !renamed_before(a.0, a.1, b.0, b.1) && !renamed_before(b.0, b.1, a.0, a.1) ==> a == b,
        a.0 > b.0 ==> renamed_before(a.0, a.1, b.0, b.1),
{
}


/// The paths that the renaming phase has already moved: both ends of every
/// rename or swap so far.
pub struct RenameLedger {
    visited: Vec<String>,
}

impl View for RenameLedger {
    type V = Set<Seq<char>>;

    closed spec fn view(&self) -> Set<Seq<char>> {
        Set::new(|p: Seq<char>| exists|i: int| 0 <= i < self.visited@.len() && #[trigger] self.visited@[i]@ == p)
    }
}

impl RenameLedger {
    /// A ledger with no path moved yet.
    pub fn new() -> (r: Self)
        ensures
            r@ == Set::<Seq<char>>::empty(),
    {
        let r = RenameLedger { visited: Vec::new() };
        assert(r@ =~= Set::<Seq<char>>::empty());
        r
    }

    /// Whether the entry at `path` is renamed now: it still exists and was
    /// not already moved as one end of an earlier rename or swap (else it is
    /// finished with `NoChange`).
    pub fn takes(&self, path: &String, exists: bool) -> (r: bool)
        ensures
            r == (exists && !self@.contains(path@)),
    {
        if !exists {
            return false;
        }
        let mut i: usize = 0;
        while i < self.visited.len()
            invariant
                i <= self.visited@.len(),
                forall|j: int| 0 <= j < i ==> self.visited@[j]@ != path@,
            decreases self.visited@.len() - i,
        {
            if self.visited[i] == *path {
                assert(self@.contains(path@));
                return false;
            }
            i = i + 1;
        }
        assert(!self@.contains(path@));
        true
    }

    fn remember(&mut self, p: Option<String>)
        ensures
            final(self)@ == match p {
                Some(s) => old(self)@.insert(s@),
                None => old(self)@,
            },
    {
        let ghost before = self@;
        if let Some(s) = p {
            let ghost v = s@;
            self.visited.push(s);
            assert forall|x: Seq<char>| self@.contains(x) <==> before.insert(v).contains(x) by {
                let last = self.visited@.len() - 1;
                assert(self.visited@[last]@ == v);
                if x == v {
                    assert(self@.contains(x));
                }
                if before.contains(x) {
                    let i = choose|i: int| 0 <= i < old(self).visited@.len() && #[trigger] old(self).visited@[i]@ == x;
                    assert(self.visited@[i] == old(self).visited@[i]);
                }
                if self@.contains(x) {
                    let i = choose|i: int| 0 <= i < self.visited@.len() && #[trigger] self.visited@[i]@ == x;
                    if i < old(self).visited@.len() {
                        assert(self.visited@[i] == old(self).visited@[i]);
                    }
                }
            }
            assert(self@ =~= before.insert(v));
        }
    }

    /// The result of renaming an entry, given what the rename came to:
    /// the two ends it moved (either may be absent) are recorded and the
    /// entry succeeds, or the failure is reported.
    pub fn finish(&mut self, outcome: Result<(Option<String>, Option<String>), String>) -> (r: TaskResult)
        ensures
            match outcome {
                Ok((src, dst)) => {
                    &&& r == TaskResult::Success
                    &&& final(self)@ == old(self)@ + match src {
                        Some(s) => set![s@],
                        None => Set::empty(),
                    } + match dst {
                        Some(d) => set![d@],
                        None => Set::empty(),
                    }
                },
                Err(e) => final(self)@ == old(self)@ && (r matches TaskResult::Error(v) && v@ == seq![
                    FileProcessError::RenameError(e),
                ]),
            },
    {
        match outcome {
            Ok((src, dst)) => {
                let ghost s0 = src;
                let ghost d0 = dst;
                self.remember(src);
                self.remember(dst);
                proof {
                    let a = match s0 {
                        Some(s) => set![s@],
                        None => Set::<Seq<char>>::empty(),
                    };
                    let b = match d0 {
                        Some(d) => set![d@],
                        None => Set::<Seq<char>>::empty(),
                    };
                    assert(self@ =~= old(self)@ + a + b);
                }
                TaskResult::Success
            },
            Err(e) => {
                let mut v: Vec<FileProcessError> = Vec::new();
                v.push(FileProcessError::RenameError(e));
                assert(v@ =~= seq![FileProcessError::RenameError(e)]);
                TaskResult::Error(v)
            },
        }
    }
}

} // verus!
