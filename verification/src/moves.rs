//! Renaming step by step. A mover says what to do next: ask which paths exist,
//! write a row to the log, or rename a file. Whoever runs it does that and tells
//! it what came of it.

use vstd::prelude::*;
use vstd::string::*;
use vstd::utf8::*;

use crate::error::{message, Failure};
use crate::logging::{
    csv_records,
    csv_text,
    is_table,
    pair_views,
    read_undo_pairs,
    undo_pairs,
    PairView,
    UndoPair,
};
use crate::path::{path_text, FilePath, PathView, Platform};
use crate::plan::{action_views, ActionView, Report, ReportView};
use crate::text::same_text;

verus! {

broadcast use vstd::seq_lib::group_seq_properties;

// ---------------------------------------------------------------------------
// Steps and events
// ---------------------------------------------------------------------------

/// A row for the log.
#[derive(Debug)]
pub struct Record {
    pub status: String,
    pub hash: String,
    pub old: String,
    pub new: String,
    pub note: String,
}

#[verifier::ext_equal]
pub struct RecordView {
    pub status: Seq<char>,
    pub hash: Seq<char>,
    pub old: Seq<char>,
    pub new: Seq<char>,
    pub note: Seq<char>,
}

impl View for Record {
    type V = RecordView;

    open spec fn view(&self) -> RecordView {
        RecordView {
            status: self.status@,
            hash: self.hash@,
            old: self.old@,
            new: self.new@,
            note: self.note@,
        }
    }
}

/// What to do next.
#[derive(Debug)]
pub enum Step {
    /// Find out whether the two paths exist.
    Probe { src: FilePath, dst: FilePath },
    /// Write the row, and see to it that it has reached the disk.
    Record(Record),
    /// Rename `src` to `dst`.
    Rename { src: FilePath, dst: FilePath },
    /// Nothing more.
    Finished,
}

#[verifier::ext_equal]
pub enum StepView {
    Probe { src: PathView, dst: PathView },
    Record(RecordView),
    Rename { src: PathView, dst: PathView },
    Finished,
}

impl View for Step {
    type V = StepView;

    open spec fn view(&self) -> StepView {
        match self {
            Step::Probe { src, dst } => StepView::Probe { src: src@, dst: dst@ },
            Step::Record(r) => StepView::Record(r@),
            Step::Rename { src, dst } => StepView::Rename { src: src@, dst: dst@ },
            Step::Finished => StepView::Finished,
        }
    }
}

/// What came of a step.
#[derive(Debug)]
pub enum Event {
    /// Whether the two paths exist.
    Probed { src: bool, dst: bool },
    /// The row has been written.
    Recorded,
    /// The file has been renamed.
    Renamed,
    /// The file could not be renamed, and why.
    Failed(String),
}

#[verifier::ext_equal]
pub enum EventView {
    Probed { src: bool, dst: bool },
    Recorded,
    Renamed,
    Failed(Seq<char>),
}

impl View for Event {
    type V = EventView;

    open spec fn view(&self) -> EventView {
        match self {
            Event::Probed { src, dst } => EventView::Probed { src: *src, dst: *dst },
            Event::Recorded => EventView::Recorded,
            Event::Renamed => EventView::Renamed,
            Event::Failed(why) => EventView::Failed(why@),
        }
    }
}

/// Where a mover stands with the rename at hand.
#[derive(Debug)]
pub enum Phase {
    Probing,
    /// A row is being written; `renaming` says whether the rename is next.
    Recording { status: String, note: String, renaming: bool },
    Renaming,
}

#[verifier::ext_equal]
pub enum PhaseView {
    Probing,
    Recording { status: Seq<char>, note: Seq<char>, renaming: bool },
    Renaming,
}

impl View for Phase {
    type V = PhaseView;

    open spec fn view(&self) -> PhaseView {
        match self {
            Phase::Probing => PhaseView::Probing,
            Phase::Recording { status, note, renaming } => PhaseView::Recording {
                status: status@,
                note: note@,
                renaming: *renaming,
            },
            Phase::Renaming => PhaseView::Renaming,
        }
    }
}

// ---------------------------------------------------------------------------
// Carrying out a plan
// ---------------------------------------------------------------------------

/// The positions of the renames among the actions.
pub open spec fn renames_among(actions: Seq<ActionView>) -> Seq<usize>
    decreases actions.len(),
{
    if actions.len() == 0 {
        Seq::empty()
    } else {
        let before = renames_among(actions.drop_last());
        if actions.last().is_rename() && actions.last().dst is Some {
            before.push((actions.len() - 1) as usize)
        } else {
            before
        }
    }
}

#[verifier::ext_equal]
pub struct ApplyView {
    pub report: ReportView,
    /// The positions of the actions to carry out.
    pub queue: Seq<usize>,
    /// How many of them are behind.
    pub at: nat,
    pub phase: PhaseView,
    pub success: nat,
    pub failed: nat,
}

impl ApplyView {
    /// The action at hand.
    pub open spec fn current(self) -> ActionView {
        self.report.actions[self.queue[self.at as int] as int]
    }

    /// With the action at hand marked.
    pub open spec fn marked(self, status: Seq<char>, note: Seq<char>) -> ReportView {
        ReportView {
            actions: self.report.actions.update(
                self.queue[self.at as int] as int,
                ActionView { status, note, ..self.current() },
            ),
            ..self.report
        }
    }

    /// The action at hand has failed.
    pub open spec fn fail(
        self,
        status: Seq<char>,
        note: Seq<char>,
        logged: Seq<char>,
    ) -> ApplyView {
        ApplyView {
            report: self.marked(status, note),
            phase: PhaseView::Recording { status, note: logged, renaming: false },
            failed: self.failed + 1,
            ..self
        }
    }
}

pub open spec fn apply_start(report: ReportView) -> ApplyView {
    ApplyView {
        report,
        queue: renames_among(report.actions),
        at: 0,
        phase: PhaseView::Probing,
        success: 0,
        failed: 0,
    }
}

/// What to do next.
pub open spec fn apply_step(v: ApplyView) -> StepView {
    if v.at >= v.queue.len() {
        StepView::Finished
    } else {
        let a = v.current();
        match v.phase {
            PhaseView::Probing => StepView::Probe { src: a.src, dst: a.dst->0 },
            PhaseView::Recording { status, note, .. } => StepView::Record(
                RecordView {
                    status,
                    hash: a.hash,
                    old: path_text(a.src),
                    new: path_text(a.dst->0),
                    note,
                },
            ),
            PhaseView::Renaming => StepView::Rename { src: a.src, dst: a.dst->0 },
        }
    }
}

/// Where things stand after an event. One that does not answer the last step
/// changes nothing.
pub open spec fn apply_next(v: ApplyView, event: EventView) -> ApplyView {
    if v.at >= v.queue.len() {
        v
    } else {
        match (v.phase, event) {
            (PhaseView::Probing, EventView::Probed { src, dst }) => if !src {
                v.fail(
                    "error"@,
                    "source no longer exists at apply time"@,
                    "source no longer exists at apply time"@,
                )
            } else if dst {
                v.fail(
                    "conflict"@,
                    "target now exists on disk (would overwrite); skipped"@,
                    "target now exists on disk (would overwrite); skipped"@,
                )
            } else {
                ApplyView {
                    phase: PhaseView::Recording {
                        status: "pending"@,
                        note: "about to rename"@,
                        renaming: true,
                    },
                    ..v
                }
            },
            (PhaseView::Recording { renaming, .. }, EventView::Recorded) => if renaming {
                ApplyView { phase: PhaseView::Renaming, ..v }
            } else {
                ApplyView { at: v.at + 1, phase: PhaseView::Probing, ..v }
            },
            (PhaseView::Renaming, EventView::Renamed) => ApplyView {
                report: v.marked("renamed"@, v.current().note),
                phase: PhaseView::Recording { status: "renamed"@, note: ""@, renaming: false },
                success: v.success + 1,
                ..v
            },
            (PhaseView::Renaming, EventView::Failed(why)) => v.fail(
                "error"@,
                "rename failed: "@ + why,
                why,
            ),
            _ => v,
        }
    }
}

/// The carrying out of a plan.
#[derive(Debug)]
pub struct Apply {
    report: Report,
    queue: Vec<usize>,
    at: usize,
    phase: Phase,
    success: usize,
    failed: usize,
}

impl View for Apply {
    type V = ApplyView;

    closed spec fn view(&self) -> ApplyView {
        ApplyView {
            report: self.report@,
            queue: self.queue@,
            at: self.at as nat,
            phase: self.phase@,
            success: self.success as nat,
            failed: self.failed as nat,
        }
    }
}

/// The actions in the queue have targets and none is queued twice, no more of them
/// have been counted than have been dealt with, and only an announcement comes
/// before a rename.
pub open spec fn apply_wf(v: ApplyView) -> bool {
    &&& forall|k: int|
        0 <= k < v.queue.len() ==> (#[trigger] v.queue[k]) < v.report.actions.len()
            && v.report.actions[v.queue[k] as int].dst is Some
    &&& v.at <= v.queue.len()
    &&& v.success + v.failed <= v.at + (if v.phase matches PhaseView::Recording {
        renaming,
        ..
    } && !renaming {
        1nat
    } else {
        0nat
    })
    &&& v.at == v.queue.len() ==> v.phase is Probing
    &&& (v.phase matches PhaseView::Recording { status, renaming, .. } ==> renaming ==> status
        == "pending"@)
    &&& forall|k: int, l: int|
        0 <= k < l < v.queue.len() ==> (#[trigger] v.queue[k]) < (#[trigger] v.queue[l])
}

pub proof fn lemma_renames_among(actions: Seq<ActionView>)
    requires
        actions.len() <= usize::MAX,
    ensures
        forall|k: int|
            0 <= k < renames_among(actions).len() ==> (#[trigger] renames_among(actions)[k])
                < actions.len() && actions[renames_among(actions)[k] as int].dst is Some
                && actions[renames_among(actions)[k] as int].is_rename(),
        forall|k: int, l: int|
            0 <= k < l < renames_among(actions).len() ==> (#[trigger] renames_among(actions)[k])
                < (#[trigger] renames_among(actions)[l]),
        forall|i: int|
            0 <= i < actions.len() && actions[i].is_rename() && actions[i].dst is Some
                ==> renames_among(actions).contains(#[trigger] (i as usize)),
    decreases actions.len(),
{
    if actions.len() > 0 {
        let front = actions.drop_last();
        lemma_renames_among(front);
        let before = renames_among(front);
        let now = renames_among(actions);
        assert forall|k: int| 0 <= k < now.len() implies (#[trigger] now[k]) < actions.len()
            && actions[now[k] as int].dst is Some && actions[now[k] as int].is_rename() by {
            if k < before.len() {
                assert(now[k] == before[k]);
                assert(front[before[k] as int] == actions[before[k] as int]);
            }
        }
        assert forall|i: int|
            0 <= i < actions.len() && actions[i].is_rename()
                && actions[i].dst is Some implies now.contains(#[trigger] (i as usize)) by {
            if i < front.len() {
                assert(front[i] == actions[i]);
                let k = choose|k: int| 0 <= k < before.len() && before[k] == i as usize;
                assert(now[k] == i as usize);
            } else {
                assert(now[before.len() as int] == i as usize);
            }
        }
    }
}

impl Apply {
    pub open spec fn wf(&self) -> bool {
        apply_wf(self@)
    }

    pub fn new(report: Report) -> (r: Apply)
        ensures
            r.wf(),
            r@ == apply_start(report@),
    {
        let ghost views = action_views(report.actions@);
        let mut queue: Vec<usize> = Vec::new();
        let mut i: usize = 0;
        assert(views.take(0) =~= Seq::<ActionView>::empty());
        while i < report.actions.len()
            invariant
                i <= report.actions@.len(),
                views == action_views(report.actions@),
                queue@ == renames_among(views.take(i as int)),
            decreases report.actions@.len() - i,
        {
            proof {
                assert(views.take(i + 1).drop_last() =~= views.take(i as int));
                assert(views.take(i + 1).last() == report.actions@[i as int]@);
            }
            let a = &report.actions[i];
            if a.dst.is_some() && same_text(a.status.as_str(), "rename") {
                queue.push(i);
            }
            i += 1;
        }
        assert(views.take(i as int) =~= views);
        proof {
            lemma_renames_among(views);
        }
        Apply { report, queue, at: 0, phase: Phase::Probing, success: 0, failed: 0 }
    }

    /// How many renames there are to carry out.
    pub fn total(&self) -> (r: usize)
        ensures
            r == self@.queue.len(),
    {
        self.queue.len()
    }

    /// How many renames succeeded.
    pub fn successes(&self) -> (r: usize)
        ensures
            r == self@.success,
    {
        self.success
    }

    /// How many renames failed or were refused.
    pub fn failures(&self) -> (r: usize)
        ensures
            r == self@.failed,
    {
        self.failed
    }

    /// The report as it stands.
    pub fn into_report(self) -> (r: Report)
        ensures
            r@ == self@.report,
    {
        self.report
    }

    /// What to do next.
    pub fn step(&self) -> (r: Step)
        requires
            self.wf(),
        ensures
            r@ == apply_step(self@),
    {
        if self.at >= self.queue.len() {
            return Step::Finished;
        }
        let i = self.queue[self.at];
        assert(self@.queue[self.at as int] < self.report@.actions.len());
        let a = &self.report.actions[i];
        assert(self@.current() == a@);
        let dst = match &a.dst {
            Some(dst) => dst,
            None => {
                return Step::Finished;
            },
        };
        match &self.phase {
            Phase::Probing => Step::Probe { src: a.src.clone(), dst: dst.clone() },
            Phase::Recording { status, note, .. } => Step::Record(
                Record {
                    status: status.clone(),
                    hash: a.hash.clone(),
                    old: a.src.text(),
                    new: dst.text(),
                    note: note.clone(),
                },
            ),
            Phase::Renaming => Step::Rename { src: a.src.clone(), dst: dst.clone() },
        }
    }

    fn mark(&mut self, status: &str, note: Option<String>)
        requires
            old(self).wf(),
            old(self)@.at < old(self)@.queue.len(),
        ensures
            final(self)@ == (ApplyView {
                report: old(self)@.marked(
                    status@,
                    match note {
                        Some(n) => n@,
                        None => old(self)@.current().note,
                    },
                ),
                ..old(self)@
            }),
    {
        let i = self.queue[self.at];
        let ghost before = self.report@.actions;
        assert(self@.queue[self.at as int] < before.len());
        assert(self@.current() == self.report.actions@[i as int]@);
        let mut a = self.report.actions.remove(i);
        a.status = status.to_string();
        if let Some(n) = note {
            a.note = n;
        }
        let ghost av = a@;
        self.report.actions.insert(i, a);
        assert(self.report@.actions =~= before.update(i as int, av));
    }

    fn fail(&mut self, status: &str, note: String, logged: String)
        requires
            old(self).wf(),
            old(self)@.at < old(self)@.queue.len(),
            !(old(self)@.phase is Recording),
        ensures
            final(self).wf(),
            final(self)@ == old(self)@.fail(status@, note@, logged@),
    {
        let n = self.queue.len();
        assert(self@.success + self@.failed <= self@.at < n);
        self.mark(status, Some(note));
        self.phase = Phase::Recording { status: status.to_string(), note: logged, renaming: false };
        self.failed = self.failed + 1;
    }

    /// Takes what came of the last step.
    pub fn advance(&mut self, event: Event)
        requires
            old(self).wf(),
        ensures
            final(self).wf(),
            final(self)@ == apply_next(old(self)@, event@),
    {
        if self.at >= self.queue.len() {
            return;
        }
        match (&self.phase, event) {
            (Phase::Probing, Event::Probed { src, dst }) => {
                if !src {
                    let msg = "source no longer exists at apply time";
                    self.fail("error", msg.to_string(), msg.to_string());
                } else if dst {
                    let msg = "target now exists on disk (would overwrite); skipped";
                    self.fail("conflict", msg.to_string(), msg.to_string());
                } else {
                    self.phase = Phase::Recording {
                        status: "pending".to_string(),
                        note: "about to rename".to_string(),
                        renaming: true,
                    };
                }
            },
            (Phase::Recording { renaming, .. }, Event::Recorded) => {
                if *renaming {
                    self.phase = Phase::Renaming;
                } else {
                    self.at = self.at + 1;
                    self.phase = Phase::Probing;
                }
            },
            (Phase::Renaming, Event::Renamed) => {
                self.mark("renamed", None);
                self.phase = Phase::Recording {
                    status: "renamed".to_string(),
                    note: "".to_string(),
                    renaming: false,
                };
                self.success = self.success + 1;
            },
            (Phase::Renaming, Event::Failed(why)) => {
                let mut note = "rename failed: ".to_string();
                note.append(why.as_str());
                self.fail("error", note, why);
            },
            _ => {},
        }
    }
}

// ---------------------------------------------------------------------------
// Undoing what a log says
// ---------------------------------------------------------------------------

#[verifier::ext_equal]
pub struct UndoView {
    pub pairs: Seq<PairView>,
    pub platform: Platform,
    /// How many pairs are behind.
    pub at: nat,
    pub phase: PhaseView,
    pub ok: nat,
    pub skip: nat,
    pub fail: nat,
}

/// A path that stands in a log.
pub open spec fn logged_path(text: Seq<char>, platform: Platform) -> PathView {
    PathView { bytes: encode_utf8(text), platform }
}

impl UndoView {
    pub open spec fn old_path(self) -> PathView {
        logged_path(self.pairs[self.at as int].old, self.platform)
    }

    pub open spec fn new_path(self) -> PathView {
        logged_path(self.pairs[self.at as int].new, self.platform)
    }

    pub open spec fn recording(self, status: Seq<char>, note: Seq<char>) -> UndoView {
        UndoView { phase: PhaseView::Recording { status, note, renaming: false }, ..self }
    }
}

pub open spec fn undo_start(pairs: Seq<PairView>, platform: Platform) -> UndoView {
    UndoView { pairs, platform, at: 0, phase: PhaseView::Probing, ok: 0, skip: 0, fail: 0 }
}

/// What to do next. The paths change places: the new one is renamed to the old.
pub open spec fn undo_step(v: UndoView) -> StepView {
    if v.at >= v.pairs.len() {
        StepView::Finished
    } else {
        match v.phase {
            PhaseView::Probing => StepView::Probe { src: v.new_path(), dst: v.old_path() },
            PhaseView::Recording { status, note, .. } => StepView::Record(
                RecordView {
                    status,
                    hash: ""@,
                    old: v.pairs[v.at as int].old,
                    new: v.pairs[v.at as int].new,
                    note,
                },
            ),
            PhaseView::Renaming => StepView::Rename { src: v.new_path(), dst: v.old_path() },
        }
    }
}

/// Where things stand after an event. One that does not answer the last step
/// changes nothing.
pub open spec fn undo_next(v: UndoView, event: EventView) -> UndoView {
    if v.at >= v.pairs.len() {
        v
    } else {
        match (v.phase, event) {
            (PhaseView::Probing, EventView::Probed { src, dst }) => if !src {
                (UndoView { skip: v.skip + 1, ..v }).recording("skip"@, "new name not present"@)
            } else if dst {
                (UndoView { fail: v.fail + 1, ..v }).recording(
                    "refuse"@,
                    "original name occupied"@,
                )
            } else {
                UndoView { phase: PhaseView::Renaming, ..v }
            },
            (PhaseView::Recording { .. }, EventView::Recorded) => UndoView {
                at: v.at + 1,
                phase: PhaseView::Probing,
                ..v
            },
            (PhaseView::Renaming, EventView::Renamed) => (UndoView {
                ok: v.ok + 1,
                ..v
            }).recording("reverted"@, ""@),
            (PhaseView::Renaming, EventView::Failed(why)) => (UndoView {
                fail: v.fail + 1,
                ..v
            }).recording("error"@, why),
            _ => v,
        }
    }
}

/// The undoing of what a log says was renamed.
#[derive(Debug)]
pub struct Undo {
    pairs: Vec<UndoPair>,
    platform: Platform,
    at: usize,
    phase: Phase,
    ok: usize,
    skip: usize,
    fail: usize,
}

impl View for Undo {
    type V = UndoView;

    closed spec fn view(&self) -> UndoView {
        UndoView {
            pairs: pair_views(self.pairs@),
            platform: self.platform,
            at: self.at as nat,
            phase: self.phase@,
            ok: self.ok as nat,
            skip: self.skip as nat,
            fail: self.fail as nat,
        }
    }
}

pub open spec fn undo_wf(v: UndoView) -> bool {
    &&& v.at <= v.pairs.len()
    &&& v.ok + v.skip + v.fail == v.at + (if v.phase is Recording {
        1nat
    } else {
        0nat
    })
    &&& v.at == v.pairs.len() ==> v.phase is Probing
}

impl Undo {
    pub open spec fn wf(&self) -> bool {
        undo_wf(self@)
    }

    pub fn new(pairs: Vec<UndoPair>, platform: Platform) -> (r: Undo)
        ensures
            r.wf(),
            r@ == undo_start(pair_views(pairs@), platform),
    {
        Undo { pairs, platform, at: 0, phase: Phase::Probing, ok: 0, skip: 0, fail: 0 }
    }

    /// How many renames there are to undo.
    pub fn total(&self) -> (r: usize)
        ensures
            r == self@.pairs.len(),
    {
        assert(self@.pairs.len() == self.pairs@.len());
        self.pairs.len()
    }

    pub fn reverted(&self) -> (r: usize)
        ensures
            r == self@.ok,
    {
        self.ok
    }

    pub fn skipped(&self) -> (r: usize)
        ensures
            r == self@.skip,
    {
        self.skip
    }

    pub fn failures(&self) -> (r: usize)
        ensures
            r == self@.fail,
    {
        self.fail
    }

    /// What to do next.
    pub fn step(&self) -> (r: Step)
        requires
            self.wf(),
        ensures
            r@ == undo_step(self@),
    {
        assert(self@.pairs.len() == self.pairs@.len());
        if self.at >= self.pairs.len() {
            return Step::Finished;
        }
        let pair = &self.pairs[self.at];
        assert(self@.pairs[self.at as int] == pair@);
        match &self.phase {
            Phase::Probing => Step::Probe {
                src: FilePath::from_text(pair.new.as_str(), self.platform),
                dst: FilePath::from_text(pair.old.as_str(), self.platform),
            },
            Phase::Recording { status, note, .. } => Step::Record(
                Record {
                    status: status.clone(),
                    hash: "".to_string(),
                    old: pair.old.clone(),
                    new: pair.new.clone(),
                    note: note.clone(),
                },
            ),
            Phase::Renaming => Step::Rename {
                src: FilePath::from_text(pair.new.as_str(), self.platform),
                dst: FilePath::from_text(pair.old.as_str(), self.platform),
            },
        }
    }

    fn recording(&mut self, status: &str, note: String)
        ensures
            final(self)@ == old(self)@.recording(status@, note@),
    {
        self.phase = Phase::Recording { status: status.to_string(), note, renaming: false };
    }

    /// Takes what came of the last step.
    pub fn advance(&mut self, event: Event)
        requires
            old(self).wf(),
        ensures
            final(self).wf(),
            final(self)@ == undo_next(old(self)@, event@),
    {
        assert(self@.pairs.len() == self.pairs@.len());
        if self.at >= self.pairs.len() {
            return;
        }
        match (&self.phase, event) {
            (Phase::Probing, Event::Probed { src, dst }) => {
                if !src {
                    self.skip = self.skip + 1;
                    self.recording("skip", "new name not present".to_string());
                } else if dst {
                    self.fail = self.fail + 1;
                    self.recording("refuse", "original name occupied".to_string());
                } else {
                    self.phase = Phase::Renaming;
                }
            },
            (Phase::Recording { .. }, Event::Recorded) => {
                self.at = self.at + 1;
                self.phase = Phase::Probing;
            },
            (Phase::Renaming, Event::Renamed) => {
                self.ok = self.ok + 1;
                self.recording("reverted", "".to_string());
            },
            (Phase::Renaming, Event::Failed(why)) => {
                self.fail = self.fail + 1;
                self.recording("error", why);
            },
            _ => {},
        }
    }
}

/// Starts to undo what a log says was renamed, from the content of the log.
pub fn undo(log: Option<Vec<u8>>, platform: Platform) -> (r: Result<Undo, Failure>)
    ensures
        match log {
            None => r matches Err(e) && e is LogNotFound,
            Some(data) => match csv_records(data@) {
                Ok(rows) => r matches Ok(u) && u.wf() && u@ == undo_start(
                    undo_pairs(rows, rows.len() as int),
                    platform,
                ),
                Err(text) => r matches Err(e) && e is MalformedLog && message(e) == text,
            },
        },
        log matches Some(data) ==> forall|table: Seq<Seq<Seq<char>>>|
            is_table(table) && (data@ == encode_utf8(#[trigger] csv_text(table)) || data@
                == encode_utf8(seq!['\u{feff}'] + csv_text(table))) ==> r is Ok && r->Ok_0@
                == undo_start(undo_pairs(table.skip(1), table.len() - 1), platform),
{
    match log {
        None => Err(Failure::LogNotFound),
        Some(data) => match read_undo_pairs(data.as_slice()) {
            Ok(pairs) => Ok(Undo::new(pairs, platform)),
            Err(e) => Err(e),
        },
    }
}

} // verus!
