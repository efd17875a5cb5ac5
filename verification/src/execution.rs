//! Carrying out a preview, and undoing it, as state machines.
//!
//! The filesystem work (creating folders, moving files without overwriting,
//! writing the journal) is done by the caller: a run says which step comes
//! next, the caller performs it and hands back how it came out, and the run
//! decides what follows. Whether a path is taken is asked through the
//! `occupied` probe.
use vstd::prelude::*;
use crate::journal::absolute_of;
use crate::models::{
    ExecutionReport, JournalEntry, JournalEntryView, OperationJournal, OperationView,
    PlannedOperation, PreviewResult, Timestamp, entries_view, new_uuid,
    operations_view,
};
use crate::journal::make_absolute;
use crate::paths::{FsPath, PathView, parent_of};
use crate::safety::{
    collision_outcome, collision_safe_path, law_collision_result_is_free, reported_free,
    reported_taken, search_gave_up,
};
use crate::text::{concat, owned};

verus! {

/// How the caller's attempt at a step came out.
#[derive(Clone, Debug, PartialEq, Eq)]
pub enum StepOutcome {
    Done,
    /// The target already exists; the system's message.
    AlreadyExists(String),
    /// Any other failure; the system's message.
    Failed(String),
}

pub enum OutcomeView {
    Done,
    AlreadyExists(Seq<char>),
    Failed(Seq<char>),
}

impl View for StepOutcome {
    type V = OutcomeView;

    open spec fn view(&self) -> OutcomeView {
        match self {
            StepOutcome::Done => OutcomeView::Done,
            StepOutcome::AlreadyExists(m) => OutcomeView::AlreadyExists(m@),
            StepOutcome::Failed(m) => OutcomeView::Failed(m@),
        }
    }
}

/// The system's message of a failed step.
pub open spec fn failure_text(o: OutcomeView) -> Seq<char> {
    match o {
        OutcomeView::Done => Seq::empty(),
        OutcomeView::AlreadyExists(m) => m,
        OutcomeView::Failed(m) => m,
    }
}

/// What the caller is asked to do next.
#[derive(Clone, Debug, PartialEq, Eq)]
pub enum ExecutionStep {
    /// Create this folder and the folders above it.
    CreateFolder(FsPath),
    /// Move `from` to `to`, never overwriting what is at `to`.
    MoveFile { from: FsPath, to: FsPath },
    /// Write the run's journal durably.
    SaveJournal,
    /// Nothing is left to do.
    Finished,
}

pub enum StepView {
    CreateFolder(PathView),
    MoveFile { from: PathView, to: PathView },
    SaveJournal,
    Finished,
}

impl View for ExecutionStep {
    type V = StepView;

    open spec fn view(&self) -> StepView {
        match self {
            ExecutionStep::CreateFolder(p) => StepView::CreateFolder(p@),
            ExecutionStep::MoveFile { from, to } => StepView::MoveFile { from: from@, to: to@ },
            ExecutionStep::SaveJournal => StepView::SaveJournal,
            ExecutionStep::Finished => StepView::Finished,
        }
    }
}

/// Where an execution stands with the operation it is working on.
#[derive(PartialEq, Eq, Structural, Clone, Copy, Debug)]
pub enum Stage {
    /// The new, empty journal is to be written before anything is moved.
    Opening,
    /// The destination's folder is to be created.
    Folder,
    /// The file is to be moved.
    Move,
    /// The destination was taken; a new one was chosen and its folder is to
    /// be created.
    RetryFolder,
    /// The move is done and the journal is to be written.
    Record,
    Finished,
}

pub open spec fn folder_message(m: Seq<char>) -> Seq<char> {
    "Could not create destination folder: "@ + m
}

pub open spec fn move_message(m: Seq<char>) -> Seq<char> {
    "Could not move a file: "@ + m
}

pub open spec fn retries_message() -> Seq<char> {
    "Could not find a collision-free destination after several retries."@
}

pub open spec fn opening_message(m: Seq<char>) -> Seq<char> {
    "The undo journal could not be written before any file was moved: "@ + m
}

pub open spec fn record_message(m: Seq<char>) -> Seq<char> {
    "A completed move could not be durably recorded in the undo journal: "@ + m
}

/// How many times one operation's move is tried.
pub open spec fn max_move_attempts() -> int {
    8
}

/// The state of an execution.
pub struct RunView {
    pub operations: Seq<OperationView>,
    pub cwd: PathView,
    pub id: u128,
    pub created_at: Timestamp,
    pub root: PathView,
    pub entries: Seq<JournalEntryView>,
    pub errors: Seq<Seq<char>>,
    /// The operation being worked on.
    pub index: int,
    /// Its current destination.
    pub destination: PathView,
    /// How many of its moves found the destination taken.
    pub attempts: int,
    pub stage: Stage,
    /// For each journal entry, the operation it records.
    pub recorded: Seq<int>,
}

impl RunView {
    /// What holds of a run whatever its stage.
    pub open spec fn core_wf(self) -> bool {
        &&& 0 <= self.index <= self.operations.len()
        &&& 0 <= self.attempts <= max_move_attempts()
        &&& self.recorded.len() == self.entries.len()
        &&& forall|k: int|
            0 <= k < self.recorded.len() ==> 0 <= #[trigger] self.recorded[k] <= self.index
                && self.recorded[k] < self.operations.len()
        &&& forall|k: int, l: int|
            0 <= k < l < self.recorded.len() ==> self.recorded[k] < self.recorded[l]
        &&& forall|k: int|
            0 <= k < self.entries.len() ==> (#[trigger] self.entries[k]).operation_id
                == self.operations[self.recorded[k]].id && self.entries[k].from == absolute_of(
                self.operations[self.recorded[k]].source,
                self.cwd,
            )
        &&& self.cwd.rooted ==> forall|k: int| 0 <= k < self.entries.len() ==> (#[trigger] self.entries[k]).to.rooted
    }

    /// Every entry records an operation before the current one.
    pub open spec fn recorded_before(self) -> bool {
        forall|k: int| 0 <= k < self.recorded.len() ==> #[trigger] self.recorded[k] < self.index
    }

    /// The invariant of a run: the journal entries record distinct
    /// operations of the preview, in the preview's order, each with the
    /// absolute form of its source; at most eight moves are tried per
    /// operation.
    pub open spec fn wf(self) -> bool {
        &&& self.core_wf()
        &&& self.stage != Stage::Finished && self.stage != Stage::Opening ==> self.index
            < self.operations.len()
        &&& self.stage == Stage::Opening ==> self.index == 0 && self.entries.len() == 0
        &&& self.stage == Stage::Move ==> self.attempts < max_move_attempts()
        &&& self.stage == Stage::Folder ==> self.attempts == 0
        &&& self.stage == Stage::RetryFolder ==> self.attempts >= 1
        &&& (self.stage == Stage::Folder || self.stage == Stage::RetryFolder) ==> parent_of(
            self.destination,
        ) is Some
        &&& (self.stage == Stage::Folder || self.stage == Stage::Move || self.stage
            == Stage::RetryFolder) ==> self.recorded_before()
        &&& self.stage == Stage::Record ==> self.recorded.len() > 0 && self.recorded.last()
            == self.index
    }

    /// The step the caller is asked to perform.
    pub open spec fn pending(self) -> StepView {
        match self.stage {
            Stage::Folder => StepView::CreateFolder(parent_of(self.destination).unwrap()),
            Stage::RetryFolder => StepView::CreateFolder(parent_of(self.destination).unwrap()),
            Stage::Move => StepView::MoveFile {
                from: self.operations[self.index].source,
                to: self.destination,
            },
            Stage::Record => StepView::SaveJournal,
            Stage::Opening => StepView::SaveJournal,
            Stage::Finished => StepView::Finished,
        }
    }

    /// An upper bound on the steps left; every step lowers it.
    pub open spec fn remaining(self) -> int {
        if self.stage == Stage::Finished {
            0
        } else if self.stage == Stage::Opening {
            (self.operations.len() * 20 + 1) as int
        } else {
            (self.operations.len() - 1 - self.index) * 20 + match self.stage {
                Stage::Folder => 20,
                Stage::RetryFolder => 4 + 2 * (max_move_attempts() - self.attempts),
                Stage::Move => 3 + 2 * (max_move_attempts() - self.attempts),
                _ => 2,
            }
        }
    }

    /// The parts that no step changes.
    pub open spec fn same_run(self, other: RunView) -> bool {
        &&& self.operations == other.operations
        &&& self.cwd == other.cwd
        &&& self.id == other.id
        &&& self.created_at == other.created_at
        &&& self.root == other.root
    }

    /// Work on operation `i` has begun: its destination is the planned one
    /// or the first free alternative the probe reported; when none is free,
    /// the planned one is tried (the move never overwrites, so it comes back
    /// taken).
    pub open spec fn began<F: Fn(&FsPath) -> bool>(self, occupied: F, i: int) -> bool {
        &&& self.index == i
        &&& self.attempts == 0
        &&& collision_outcome(occupied, Seq::empty(), self.operations[i].destination, Some(self.destination))
            || (collision_outcome(occupied, Seq::empty(), self.operations[i].destination, None)
            && self.destination == self.operations[i].destination)
        &&& self.stage == if parent_of(self.destination) is Some {
            Stage::Folder
        } else {
            Stage::Move
        }
    }

    /// The journal was written: work on the first operation begins, or,
    /// with none, the run is over.
    pub open spec fn opened<F: Fn(&FsPath) -> bool>(self, old: RunView, occupied: F) -> bool {
        &&& self.entries == old.entries
        &&& self.recorded == old.recorded
        &&& self.errors == old.errors
        &&& if old.operations.len() == 0 {
            self.stage == Stage::Finished && self.index == 0
        } else {
            self.began(occupied, 0)
        }
    }

    /// The run went on to the next operation (or finished after the last).
    pub open spec fn moved_on<F: Fn(&FsPath) -> bool>(self, old: RunView, occupied: F) -> bool {
        &&& self.entries == old.entries
        &&& self.recorded == old.recorded
        &&& if old.index + 1 == old.operations.len() {
            self.stage == Stage::Finished && self.index == old.index + 1
        } else {
            self.began(occupied, old.index + 1)
        }
    }

    /// The folder of the current destination is ready: the move is tried,
    /// unless it has been tried the most times already.
    pub open spec fn folder_ready<F: Fn(&FsPath) -> bool>(
        self,
        old: RunView,
        occupied: F,
    ) -> bool {
        if old.attempts == max_move_attempts() {
            &&& self.errors == old.errors.push(retries_message())
            &&& self.moved_on(old, occupied)
        } else {
            self == RunView { stage: Stage::Move, ..old }
        }
    }

    /// The destination `d` was chosen after the move found the old one taken.
    pub open spec fn retried<F: Fn(&FsPath) -> bool>(
        self,
        old: RunView,
        d: PathView,
        occupied: F,
    ) -> bool {
        let retry = RunView { attempts: old.attempts + 1, destination: d, ..old };
        if parent_of(d) is Some {
            self == RunView { stage: Stage::RetryFolder, ..retry }
        } else {
            self.folder_ready(retry, occupied)
        }
    }

    /// What one step's outcome does to the run.
    pub open spec fn advanced<F: Fn(&FsPath) -> bool>(
        self,
        old: RunView,
        outcome: OutcomeView,
        occupied: F,
    ) -> bool {
        &&& self.same_run(old)
        &&& match old.stage {
            Stage::Opening => match outcome {
                OutcomeView::Done => self.opened(old, occupied),
                _ => self == RunView {
                    errors: old.errors.push(opening_message(failure_text(outcome))),
                    stage: Stage::Finished,
                    ..old
                },
            },
            Stage::Folder | Stage::RetryFolder => match outcome {
                OutcomeView::Done => if old.stage == Stage::Folder {
                    self == RunView { stage: Stage::Move, ..old }
                } else {
                    self.folder_ready(old, occupied)
                },
                _ => self.errors == old.errors.push(folder_message(failure_text(outcome)))
                    && self.moved_on(old, occupied),
            },
            Stage::Move => match outcome {
                OutcomeView::Done => self == RunView {
                    entries: old.entries.push(
                        JournalEntryView {
                            operation_id: old.operations[old.index].id,
                            from: absolute_of(old.operations[old.index].source, old.cwd),
                            to: absolute_of(old.destination, old.cwd),
                        },
                    ),
                    recorded: old.recorded.push(old.index),
                    stage: Stage::Record,
                    ..old
                },
                OutcomeView::AlreadyExists(_) => {
                    ||| exists|d: PathView|
                        #[trigger] collision_outcome(occupied, Seq::empty(), old.destination, Some(d))
                            && self.retried(old, d, occupied)
                    ||| collision_outcome(occupied, Seq::empty(), old.destination, None) && self.errors
                        == old.errors.push(retries_message()) && self.moved_on(old, occupied)
                },
                OutcomeView::Failed(m) => self.errors == old.errors.push(move_message(m))
                    && self.moved_on(old, occupied),
            },
            Stage::Record => match outcome {
                OutcomeView::Done => self.errors == old.errors && self.moved_on(old, occupied),
                _ => self == RunView {
                    errors: old.errors.push(record_message(failure_text(outcome))),
                    stage: Stage::Finished,
                    ..old
                },
            },
            Stage::Finished => self == old,
        }
    }
}

/// An execution of a preview's operations.
pub struct ExecutionRun<'a> {
    operations: &'a Vec<PlannedOperation>,
    cwd: FsPath,
    journal: OperationJournal,
    errors: Vec<String>,
    index: usize,
    destination: FsPath,
    attempts: usize,
    stage: Stage,
    recorded: Ghost<Seq<int>>,
}

impl<'a> View for ExecutionRun<'a> {
    type V = RunView;

    closed spec fn view(&self) -> RunView {
        RunView {
            operations: operations_view(self.operations@),
            cwd: self.cwd@,
            id: self.journal.id,
            created_at: self.journal.created_at,
            root: self.journal.root@,
            entries: entries_view(self.journal.entries@),
            errors: self.errors@.map_values(|s: String| s@),
            index: self.index as int,
            destination: self.destination@,
            attempts: self.attempts as int,
            stage: self.stage,
            recorded: self.recorded@,
        }
    }
}

impl<'a> ExecutionRun<'a> {
    /// Starts executing `preview`'s operations below `root`, with a new
    /// journal (a fresh id, the time `clock` reads, no entries). The journal is to
    /// be saved before the first step is performed; relative paths are
    /// recorded against the working directory `cwd`.
    pub fn start<C: Fn() -> Timestamp>(
        root: &FsPath,
        preview: &'a PreviewResult,
        cwd: &FsPath,
        clock: &C,
    ) -> (r: (ExecutionRun<'a>, ExecutionStep))
        requires
            clock.requires(()),
        ensures
            clock.ensures((), r.0@.created_at),
            r.0@.wf(),
            r.0@.operations == operations_view(preview.operations@),
            r.0@.cwd == cwd@,
            r.0@.root == root@,
            r.0@.entries.len() == 0,
            r.0@.errors.len() == 0,
            r.0@.stage == Stage::Opening,
            r.1@ == StepView::SaveJournal,
    {
        let journal = OperationJournal {
            id: new_uuid(),
            created_at: clock(),
            root: root.duplicate(),
            entries: Vec::new(),
        };
        let mut run = ExecutionRun {
            operations: &preview.operations,
            cwd: cwd.duplicate(),
            journal,
            errors: Vec::new(),
            index: 0,
            destination: FsPath::empty(),
            attempts: 0,
            stage: Stage::Opening,
            recorded: Ghost(Seq::empty()),
        };
        proof {
            assert(run@.entries =~= Seq::<JournalEntryView>::empty());
            assert(run@.errors =~= Seq::<Seq<char>>::empty());
        }
        (run, ExecutionStep::SaveJournal)
    }

    /// Begins work on operation `index`.
    fn begin<F: Fn(&FsPath) -> bool>(&mut self, occupied: &F)
        requires
            forall|p: &FsPath| occupied.requires((p,)),
            old(self)@.core_wf(),
            old(self)@.index < old(self)@.operations.len(),
            old(self)@.recorded_before(),
        ensures
            final(self)@.wf(),
            final(self)@.same_run(old(self)@),
            final(self)@.entries == old(self)@.entries,
            final(self)@.recorded == old(self)@.recorded,
            final(self)@.errors == old(self)@.errors,
            final(self)@.began(*occupied, old(self)@.index),
    {
        let destination = match collision_safe_path(&self.operations[self.index].destination, occupied) {
            Some(d) => d,
            None => self.operations[self.index].destination.duplicate(),
        };
        proof {
            assert(operations_view(self.operations@)[self.index as int]
                == self.operations@[self.index as int]@);
        }
        let has_parent = destination.parent().is_some();
        self.destination = destination;
        self.attempts = 0;
        self.stage = if has_parent {
            Stage::Folder
        } else {
            Stage::Move
        };
    }

    /// Goes on to the next operation, or finishes after the last one.
    fn move_on<F: Fn(&FsPath) -> bool>(&mut self, occupied: &F)
        requires
            forall|p: &FsPath| occupied.requires((p,)),
            old(self)@.core_wf(),
            old(self)@.index < old(self)@.operations.len(),
        ensures
            final(self)@.wf(),
            final(self)@.same_run(old(self)@),
            final(self)@.errors == old(self)@.errors,
            final(self)@.moved_on(old(self)@, *occupied),
    {
        assert(operations_view(self.operations@).len() == self.operations@.len());
        assert(self.index < self.operations.len());
        self.index = self.index + 1;
        if self.index == self.operations.len() {
            self.stage = Stage::Finished;
        } else {
            self.begin(occupied);
        }
    }

    /// The step the caller is asked to perform now.
    pub fn step(&self) -> (r: ExecutionStep)
        requires
            self@.wf(),
        ensures
            r@ == self@.pending(),
    {
        match self.stage {
            Stage::Folder | Stage::RetryFolder => {
                let parent = self.destination.parent();
                match parent {
                    Some(p) => ExecutionStep::CreateFolder(p),
                    None => ExecutionStep::Finished,
                }
            },
            Stage::Move => {
                proof {
                    assert(operations_view(self.operations@)[self.index as int]
                        == self.operations@[self.index as int]@);
                }
                ExecutionStep::MoveFile {
                    from: self.operations[self.index].source.duplicate(),
                    to: self.destination.duplicate(),
                }
            },
            Stage::Record => ExecutionStep::SaveJournal,
            Stage::Opening => ExecutionStep::SaveJournal,
            Stage::Finished => ExecutionStep::Finished,
        }
    }

    fn push_error(&mut self, message: String)
        ensures
            final(self)@ == (RunView { errors: old(self)@.errors.push(message@), ..old(self)@ }),
    {
        self.errors.push(message);
        proof {
            assert(self@.errors =~= old(self)@.errors.push(message@));
        }
    }

    /// The folder of the current destination is ready.
    fn folder_done<F: Fn(&FsPath) -> bool>(&mut self, occupied: &F)
        requires
            forall|p: &FsPath| occupied.requires((p,)),
            old(self)@.core_wf(),
            old(self)@.index < old(self)@.operations.len(),
            old(self)@.recorded_before(),
            old(self)@.stage == Stage::Move || old(self)@.stage == Stage::RetryFolder,
        ensures
            final(self)@.wf(),
            final(self)@.same_run(old(self)@),
            final(self)@.folder_ready(old(self)@, *occupied),
    {
        if self.attempts == 8 {
            self.push_error(owned("Could not find a collision-free destination after several retries."));
            self.move_on(occupied);
        } else {
            self.stage = Stage::Move;
        }
    }

    /// Hands back how the pending step came out; returns the next step.
    pub fn advance<F: Fn(&FsPath) -> bool>(&mut self, outcome: StepOutcome, occupied: &F) -> (r:
        ExecutionStep)
        requires
            forall|p: &FsPath| occupied.requires((p,)),
            old(self)@.wf(),
        ensures
            final(self)@.wf(),
            final(self)@.advanced(old(self)@, outcome@, *occupied),
            old(self)@.stage != Stage::Finished ==> final(self)@.remaining() < old(
                self,
            )@.remaining(),
            r@ == final(self)@.pending(),
    {
        match self.stage {
            Stage::Opening => {
                match outcome {
                    StepOutcome::Done => {
                        if self.operations.len() == 0 {
                            self.stage = Stage::Finished;
                        } else {
                            self.begin(occupied);
                        }
                    },
                    StepOutcome::AlreadyExists(m) | StepOutcome::Failed(m) => {
                        self.push_error(
                            concat(
                                "The undo journal could not be written before any file was moved: ",
                                m.as_str(),
                            ),
                        );
                        self.stage = Stage::Finished;
                    },
                }
            },
            Stage::Folder | Stage::RetryFolder => {
                match outcome {
                    StepOutcome::Done => {
                        if self.stage == Stage::Folder {
                            self.stage = Stage::Move;
                        } else {
                            self.folder_done(occupied);
                        }
                    },
                    StepOutcome::AlreadyExists(m) | StepOutcome::Failed(m) => {
                        self.push_error(concat("Could not create destination folder: ", m.as_str()));
                        self.move_on(occupied);
                    },
                }
            },
            Stage::Move => {
                match outcome {
                    StepOutcome::Done => {
                        let op = &self.operations[self.index];
                        proof {
                            assert(operations_view(self.operations@)[self.index as int] == op@);
                        }
                        let entry = JournalEntry {
                            operation_id: op.id,
                            from: make_absolute(&op.source, &self.cwd),
                            to: make_absolute(&self.destination, &self.cwd),
                        };
                        let ghost before = self@;
                        self.journal.entries.push(entry);
                        self.recorded = Ghost(self.recorded@.push(self.index as int));
                        self.stage = Stage::Record;
                        proof {
                            assert(self@.entries =~= before.entries.push(entry@));
                        }
                    },
                    StepOutcome::AlreadyExists(_) => {
                        let ghost before = self@;
                        let next = match collision_safe_path(&self.destination, occupied) {
                            Some(d) => d,
                            None => {
                                self.push_error(
                                    owned("Could not find a collision-free destination after several retries."),
                                );
                                self.move_on(occupied);
                                return self.step();
                            },
                        };
                        let has_parent = next.parent().is_some();
                        self.destination = next;
                        self.attempts = self.attempts + 1;
                        if has_parent {
                            self.stage = Stage::RetryFolder;
                        } else {
                            self.folder_done(occupied);
                        }
                        assert(self@.retried(before, next@, *occupied));
                    },
                    StepOutcome::Failed(m) => {
                        self.push_error(concat("Could not move a file: ", m.as_str()));
                        self.move_on(occupied);
                    },
                }
            },
            Stage::Record => {
                match outcome {
                    StepOutcome::Done => {
                        self.move_on(occupied);
                    },
                    StepOutcome::AlreadyExists(m) | StepOutcome::Failed(m) => {
                        self.push_error(
                            concat(
                                "A completed move could not be durably recorded in the undo journal: ",
                                m.as_str(),
                            ),
                        );
                        self.stage = Stage::Finished;
                    },
                }
            },
            Stage::Finished => {},
        }
        self.step()
    }

    /// The run's journal as it stands.
    pub fn journal(&self) -> (r: &OperationJournal)
        ensures
            r.id == self@.id,
            r.created_at == self@.created_at,
            r.root@ == self@.root,
            entries_view(r.entries@) == self@.entries,
    {
        &self.journal
    }

    /// The report of the run: its journal, how many moves were completed and
    /// recorded, and the errors met.
    pub fn finish(self) -> (r: ExecutionReport)
        ensures
            r.journal.id == self@.id,
            r.journal.created_at == self@.created_at,
            r.journal.root@ == self@.root,
            entries_view(r.journal.entries@) == self@.entries,
            r.completed == self@.entries.len(),
            r.errors@.map_values(|s: String| s@) == self@.errors,
    {
        let completed = self.journal.entries.len();
        ExecutionReport { journal: self.journal, completed, errors: self.errors }
    }
}


/// Where an undo stands with the entry it is working on.
#[derive(PartialEq, Eq, Structural, Clone, Copy, Debug)]
pub enum UndoStage {
    /// The folder of the original path is to be created (its outcome does
    /// not matter).
    Folder,
    /// The file is to be moved back.
    Move,
    Finished,
}

pub open spec fn missing_message() -> Seq<char> {
    "A moved file is missing; skipped during undo."@
}

pub open spec fn occupied_message() -> Seq<char> {
    "Original path is occupied; skipped during undo."@
}

pub open spec fn undo_failed_message(m: Seq<char>) -> Seq<char> {
    "Undo failed: "@ + m
}

/// Why an entry was skipped: the probe reported its moved file missing, or
/// its original path taken.
pub open spec fn skip_reason<F: Fn(&FsPath) -> bool>(
    message: Seq<char>,
    e: JournalEntryView,
    occupied: F,
) -> bool {
    ||| message == missing_message() && reported_free(occupied, e.to)
    ||| message == occupied_message() && reported_taken(occupied, e.from)
}

/// The state of an undo.
pub struct UndoView {
    pub id: u128,
    pub created_at: Timestamp,
    pub root: PathView,
    pub entries: Seq<JournalEntryView>,
    /// Entries not yet dealt with; the undo works from the last entry to
    /// the first, on entry `left - 1`.
    pub left: int,
    pub completed: int,
    pub errors: Seq<Seq<char>>,
    pub stage: UndoStage,
}

impl UndoView {
    /// The invariant of an undo: every entry dealt with was either moved
    /// back or reported as an error.
    pub open spec fn wf(self) -> bool {
        &&& 0 <= self.left <= self.entries.len()
        &&& (self.stage == UndoStage::Finished) == (self.left == 0)
        &&& 0 <= self.completed
        &&& self.completed + self.errors.len() == self.entries.len() - self.left
        &&& self.stage == UndoStage::Folder ==> parent_of(self.entries[self.left - 1].from) is Some
    }

    /// The step the caller is asked to perform: the current entry's file
    /// goes back from where it was moved to where it came from.
    pub open spec fn pending(self) -> StepView {
        match self.stage {
            UndoStage::Folder => StepView::CreateFolder(
                parent_of(self.entries[self.left - 1].from).unwrap(),
            ),
            UndoStage::Move => StepView::MoveFile {
                from: self.entries[self.left - 1].to,
                to: self.entries[self.left - 1].from,
            },
            UndoStage::Finished => StepView::Finished,
        }
    }

    /// An upper bound on the steps left; every step lowers it.
    pub open spec fn remaining(self) -> int {
        match self.stage {
            UndoStage::Folder => 2 * self.left,
            UndoStage::Move => 2 * self.left - 1,
            UndoStage::Finished => 0,
        }
    }

    /// From `old`, with `old.left` entries left and none being worked on,
    /// the undo skipped, last first, the entries whose moved file the probe
    /// reported missing or whose original path it reported taken (one
    /// error each), and stopped at the first entry that can be moved back.
    pub open spec fn sought<F: Fn(&FsPath) -> bool>(self, old: UndoView, occupied: F) -> bool {
        &&& self.id == old.id && self.created_at == old.created_at && self.root == old.root
        &&& self.entries == old.entries
        &&& self.completed == old.completed
        &&& 0 <= self.left <= old.left
        &&& self.errors.len() == old.errors.len() + (old.left - self.left)
        &&& self.errors.take(old.errors.len() as int) == old.errors
        &&& forall|k: int|
            0 <= k < old.left - self.left ==> skip_reason(
                #[trigger] self.errors[old.errors.len() + k],
                self.entries[old.left - 1 - k],
                occupied,
            )
        &&& self.left > 0 ==> {
            let e = self.entries[self.left - 1];
            &&& reported_taken(occupied, e.to)
            &&& reported_free(occupied, e.from)
            &&& self.stage == if parent_of(e.from) is Some {
                UndoStage::Folder
            } else {
                UndoStage::Move
            }
        }
    }

    /// What one step's outcome does to the undo.
    pub open spec fn advanced<F: Fn(&FsPath) -> bool>(
        self,
        old: UndoView,
        outcome: OutcomeView,
        occupied: F,
    ) -> bool {
        match old.stage {
            UndoStage::Folder => self == UndoView { stage: UndoStage::Move, ..old },
            UndoStage::Move => match outcome {
                OutcomeView::Done => self.sought(
                    UndoView { left: old.left - 1, completed: old.completed + 1, ..old },
                    occupied,
                ),
                _ => self.sought(
                    UndoView {
                        left: old.left - 1,
                        errors: old.errors.push(undo_failed_message(failure_text(outcome))),
                        ..old
                    },
                    occupied,
                ),
            },
            UndoStage::Finished => self == old,
        }
    }
}

/// An undo of a journal's moves.
pub struct UndoRun {
    journal: OperationJournal,
    left: usize,
    completed: usize,
    errors: Vec<String>,
    stage: UndoStage,
}

impl View for UndoRun {
    type V = UndoView;

    closed spec fn view(&self) -> UndoView {
        UndoView {
            id: self.journal.id,
            created_at: self.journal.created_at,
            root: self.journal.root@,
            entries: entries_view(self.journal.entries@),
            left: self.left as int,
            completed: self.completed as int,
            errors: self.errors@.map_values(|s: String| s@),
            stage: self.stage,
        }
    }
}

impl UndoRun {
    /// Starts undoing `journal`, from its last entry to its first.
    pub fn start<F: Fn(&FsPath) -> bool>(journal: OperationJournal, occupied: &F) -> (r: (
        UndoRun,
        ExecutionStep,
    ))
        requires
            forall|p: &FsPath| occupied.requires((p,)),
        ensures
            r.0@.wf(),
            r.0@.sought(
                UndoView {
                    id: journal.id,
                    created_at: journal.created_at,
                    root: journal.root@,
                    entries: entries_view(journal.entries@),
                    left: journal.entries.len() as int,
                    completed: 0,
                    errors: Seq::empty(),
                    stage: UndoStage::Move,
                },
                *occupied,
            ),
            r.1@ == r.0@.pending(),
    {
        let left = journal.entries.len();
        let mut run = UndoRun { journal, left, completed: 0, errors: Vec::new(), stage: UndoStage::Move };
        proof {
            assert(run@.errors =~= Seq::<Seq<char>>::empty());
        }
        run.seek(occupied);
        let step = run.step();
        (run, step)
    }

    /// Skips the entries that cannot be moved back, up to the next one that
    /// can.
    fn seek<F: Fn(&FsPath) -> bool>(&mut self, occupied: &F)
        requires
            forall|p: &FsPath| occupied.requires((p,)),
            old(self)@.left <= old(self)@.entries.len(),
            old(self)@.completed + old(self)@.errors.len() == old(self)@.entries.len() - old(
                self,
            )@.left,
        ensures
            final(self)@.wf(),
            final(self)@.sought(old(self)@, *occupied),
    {
        let ghost start = self@;
        while self.left > 0
            invariant
                forall|p: &FsPath| occupied.requires((p,)),
                start == old(self)@,
                self@.id == start.id && self@.created_at == start.created_at && self@.root
                    == start.root,
                self@.entries == start.entries,
                self@.completed == start.completed,
                0 <= self@.left <= start.left,
                start.left <= start.entries.len(),
                start.completed + start.errors.len() == start.entries.len() - start.left,
                self@.errors.len() == start.errors.len() + (start.left - self@.left),
                self@.errors.take(start.errors.len() as int) == start.errors,
                forall|k: int|
                    0 <= k < start.left - self@.left ==> skip_reason(
                        #[trigger] self@.errors[start.errors.len() + k],
                        self@.entries[start.left - 1 - k],
                        *occupied,
                    ),
            decreases self.left,
        {
            let i = self.left - 1;
            let entry = &self.journal.entries[i];
            proof {
                assert(entries_view(self.journal.entries@)[i as int] == entry@);
            }
            if !occupied(&entry.to) {
                proof {
                    assert(occupied.ensures((&entry.to,), false));
                    assert(reported_free(*occupied, entry.to@));
                }
                let ghost before = self@;
                self.errors.push(owned("A moved file is missing; skipped during undo."));
                self.left = i;
                proof {
                    assert(self@.errors =~= before.errors.push(missing_message()));
                    assert(self@.errors.take(start.errors.len() as int) =~= before.errors.take(
                        start.errors.len() as int,
                    ));
                    assert forall|k: int| 0 <= k < start.left - self@.left implies skip_reason(
                        #[trigger] self@.errors[start.errors.len() + k],
                        self@.entries[start.left - 1 - k],
                        *occupied,
                    ) by {
                        if k < start.left - before.left {
                            assert(self@.errors[start.errors.len() + k] == before.errors[start.errors.len() + k]);
                        }
                    }
                }
                continue;
            }
            proof {
                assert(occupied.ensures((&entry.to,), true));
                assert(reported_taken(*occupied, entry.to@));
            }
            if occupied(&entry.from) {
                proof {
                    assert(occupied.ensures((&entry.from,), true));
                    assert(reported_taken(*occupied, entry.from@));
                }
                let ghost before = self@;
                self.errors.push(owned("Original path is occupied; skipped during undo."));
                self.left = i;
                proof {
                    assert(self@.errors =~= before.errors.push(occupied_message()));
                    assert(self@.errors.take(start.errors.len() as int) =~= before.errors.take(
                        start.errors.len() as int,
                    ));
                    assert forall|k: int| 0 <= k < start.left - self@.left implies skip_reason(
                        #[trigger] self@.errors[start.errors.len() + k],
                        self@.entries[start.left - 1 - k],
                        *occupied,
                    ) by {
                        if k < start.left - before.left {
                            assert(self@.errors[start.errors.len() + k] == before.errors[start.errors.len() + k]);
                        }
                    }
                }
                continue;
            }
            proof {
                assert(occupied.ensures((&entry.from,), false));
                assert(reported_free(*occupied, entry.from@));
            }
            let has_parent = entry.from.parent().is_some();
            self.stage = if has_parent {
                UndoStage::Folder
            } else {
                UndoStage::Move
            };
            return;
        }
        self.stage = UndoStage::Finished;
    }

    /// The step the caller is asked to perform now.
    pub fn step(&self) -> (r: ExecutionStep)
        requires
            self@.wf(),
        ensures
            r@ == self@.pending(),
    {
        match self.stage {
            UndoStage::Folder => {
                let entry = &self.journal.entries[self.left - 1];
                proof {
                    assert(entries_view(self.journal.entries@)[self.left - 1] == entry@);
                }
                match entry.from.parent() {
                    Some(p) => ExecutionStep::CreateFolder(p),
                    None => ExecutionStep::Finished,
                }
            },
            UndoStage::Move => {
                let entry = &self.journal.entries[self.left - 1];
                proof {
                    assert(entries_view(self.journal.entries@)[self.left - 1] == entry@);
                }
                ExecutionStep::MoveFile { from: entry.to.duplicate(), to: entry.from.duplicate() }
            },
            UndoStage::Finished => ExecutionStep::Finished,
        }
    }

    /// Hands back how the pending step came out; returns the next step.
    pub fn advance<F: Fn(&FsPath) -> bool>(&mut self, outcome: StepOutcome, occupied: &F) -> (r:
        ExecutionStep)
        requires
            forall|p: &FsPath| occupied.requires((p,)),
            old(self)@.wf(),
        ensures
            final(self)@.wf(),
            final(self)@.advanced(old(self)@, outcome@, *occupied),
            old(self)@.stage != UndoStage::Finished ==> final(self)@.remaining() < old(
                self,
            )@.remaining(),
            r@ == final(self)@.pending(),
    {
        match self.stage {
            UndoStage::Folder => {
                self.stage = UndoStage::Move;
            },
            UndoStage::Move => {
                match outcome {
                    StepOutcome::Done => {
                        assert(self@.entries.len() == self.journal.entries.len());
                        self.completed = self.completed + 1;
                    },
                    StepOutcome::AlreadyExists(m) | StepOutcome::Failed(m) => {
                        let ghost before = self@;
                        self.errors.push(concat("Undo failed: ", m.as_str()));
                        proof {
                            assert(self@.errors =~= before.errors.push(undo_failed_message(m@)));
                        }
                    },
                }
                self.left = self.left - 1;
                self.seek(occupied);
            },
            UndoStage::Finished => {},
        }
        self.step()
    }

    /// The report of the undo: its journal, how many files were moved back,
    /// and the errors met.
    pub fn finish(self) -> (r: ExecutionReport)
        ensures
            r.journal.id == self@.id,
            r.journal.created_at == self@.created_at,
            r.journal.root@ == self@.root,
            entries_view(r.journal.entries@) == self@.entries,
            r.completed == self@.completed,
            r.errors@.map_values(|s: String| s@) == self@.errors,
    {
        ExecutionReport { journal: self.journal, completed: self.completed, errors: self.errors }
    }
}

proof fn lemma_increasing_from_zero(r: Seq<int>, k: int)
    requires
        forall|i: int| 0 <= i < r.len() ==> 0 <= #[trigger] r[i],
        forall|i: int, j: int| 0 <= i < j < r.len() ==> r[i] < r[j],
        0 <= k < r.len(),
    ensures
        r[k] >= k,
    decreases k,
{
    if k > 0 {
        lemma_increasing_from_zero(r, k - 1);
    }
}

/// Law: an execution records each planned operation at most once, so its
/// journal never holds more entries than the preview has operations.
pub proof fn law_each_operation_recorded_once(run: RunView)
    requires
        run.wf(),
    ensures
        forall|k: int, l: int|
            0 <= k < l < run.recorded.len() ==> run.recorded[k] != run.recorded[l],
        run.entries.len() <= run.operations.len(),
{
    if run.recorded.len() > 0 {
        lemma_increasing_from_zero(run.recorded, run.recorded.len() - 1);
    }
}

/// Law: a run first asks for its empty journal to be written, and no move
/// comes before that: if the write fails, the run is over with the failure
/// reported and nothing moved or recorded.
pub proof fn law_no_move_before_journal_written<F: Fn(&FsPath) -> bool>(
    old: RunView,
    new: RunView,
    outcome: OutcomeView,
    occupied: F,
)
    requires
        old.wf(),
        old.stage == Stage::Opening,
        new.advanced(old, outcome, occupied),
    ensures
        old.pending() == StepView::SaveJournal,
        old.entries.len() == 0,
        !(outcome is Done) ==> {
            &&& new.stage == Stage::Finished
            &&& new.pending() == StepView::Finished
            &&& new.entries.len() == 0
            &&& new.errors == old.errors.push(opening_message(failure_text(outcome)))
        },
{
}

/// Law: with an absolute working directory, every journal entry records
/// absolute paths, whatever the preview's paths were.
pub proof fn law_journal_paths_are_absolute(run: RunView)
    requires
        run.wf(),
        run.cwd.rooted,
    ensures
        forall|k: int|
            0 <= k < run.entries.len() ==> (#[trigger] run.entries[k]).from.rooted && run.entries[k].to.rooted,
{
    assert forall|k: int| 0 <= k < run.entries.len() implies (#[trigger] run.entries[k]).from.rooted
        && run.entries[k].to.rooted by {
        assert(run.entries[k].from == absolute_of(run.operations[run.recorded[k]].source, run.cwd));
    }
}

/// Law: when an undo has finished, every entry of its journal was either
/// moved back or reported as an error.
pub proof fn law_undo_accounts_for_every_entry(undo: UndoView)
    requires
        undo.wf(),
        undo.stage == UndoStage::Finished,
    ensures
        undo.completed + undo.errors.len() == undo.entries.len(),
{
}


/// Law: when work on an operation begins, its destination is one the probe
/// reported free, or, when the planned destination and every alternative
/// were taken, the planned destination itself (which the no-overwrite move
/// then finds taken).
pub proof fn law_execution_targets_free_paths<F: Fn(&FsPath) -> bool>(
    run: RunView,
    occupied: F,
    i: int,
)
    requires
        run.began(occupied, i),
    ensures
        reported_free(occupied, run.destination) || (search_gave_up(
            occupied,
            Seq::empty(),
            run.operations[i].destination,
        ) && run.destination == run.operations[i].destination),
{
    if collision_outcome(occupied, Seq::empty(), run.operations[i].destination, Some(run.destination)) {
        law_collision_result_is_free(occupied, Seq::empty(), run.operations[i].destination, run.destination);
    }
}

/// Law: an undo moves a file back only when the probe reported the moved
/// file present and its original path free, so it never overwrites; and it
/// works from the last entry to the first.
pub proof fn law_undo_never_overwrites<F: Fn(&FsPath) -> bool>(
    undo: UndoView,
    before: UndoView,
    occupied: F,
)
    requires
        undo.sought(before, occupied),
        undo.left > 0,
    ensures
        reported_taken(occupied, undo.entries[undo.left - 1].to),
        reported_free(occupied, undo.entries[undo.left - 1].from),
        undo.left <= before.left,
{
}

} // verus!
