//! Laws of steps: what a mover does about one rename, from the first question to
//! the last row, and what it counts and reports.

use vstd::prelude::*;
use vstd::utf8::*;
use crate::logging::PairView;
use crate::moves::{
    apply_next,
    apply_start,
    apply_step,
    apply_wf,
    lemma_renames_among,
    undo_next,
    undo_start,
    undo_step,
    ApplyView,
    EventView,
    RecordView,
    StepView,
    UndoView,
};
use crate::path::{path_text, PathView, Platform};
use crate::plan::{ActionView, ReportView};

verus! {

broadcast use vstd::seq_lib::group_seq_properties;

/// The event is an answer to the step.
pub open spec fn answers(step: StepView, event: EventView) -> bool {
    match step {
        StepView::Probe { .. } => event is Probed,
        StepView::Record(_) => event is Recorded,
        StepView::Rename { .. } => event is Renamed || event is Failed,
        StepView::Finished => false,
    }
}

// ---------------------------------------------------------------------------
// Carrying out a plan
// ---------------------------------------------------------------------------

/// What is no answer to the last step changes nothing, and after the last step
/// nothing does.
pub proof fn law_other_events_change_nothing(v: ApplyView, event: EventView)
    requires
        !answers(apply_step(v), event),
    ensures
        apply_next(v, event) == v,
{
}

/// What is to be carried out are the actions that are renames and have a target,
/// each once and in the order of the report.
pub proof fn law_renames_are_queued(report: ReportView, i: usize)
    requires
        report.actions.len() <= usize::MAX,
    ensures
        apply_start(report).report == report,
        apply_start(report).at == 0,
        apply_start(report).success == 0,
        apply_start(report).failed == 0,
        apply_start(report).phase is Probing,
        apply_start(report).queue.contains(i) <==> i < report.actions.len()
            && report.actions[i as int].status == "rename"@ && report.actions[i as int].dst is Some,
        forall|k: int, l: int|
            0 <= k < l < apply_start(report).queue.len() ==> (#[trigger] apply_start(
                report,
            ).queue[k]) < (#[trigger] apply_start(report).queue[l]),
{
    lemma_renames_among(report.actions);
    let queue = apply_start(report).queue;
    if queue.contains(i) {
        let k = choose|k: int| 0 <= k < queue.len() && queue[k] == i;
        assert(queue[k] < report.actions.len());
    }
    if i < report.actions.len() && report.actions[i as int].status == "rename"@
        && report.actions[i as int].dst is Some {
        assert(queue.contains((i as int) as usize));
    }
}

/// The mover is about to look at the rename of the action at `i`, to `dst`.
pub open spec fn about_to(v: ApplyView, i: int, dst: PathView) -> bool {
    &&& apply_wf(v)
    &&& v.at < v.queue.len()
    &&& v.phase is Probing
    &&& v.queue[v.at as int] == i
    &&& v.report.actions[i].dst == Some(dst)
}

/// The row for the rename.
pub open spec fn row_of(
    a: ActionView,
    dst: PathView,
    status: Seq<char>,
    note: Seq<char>,
) -> StepView {
    StepView::Record(
        RecordView { status, hash: a.hash, old: path_text(a.src), new: path_text(dst), note },
    )
}

/// The mover went from `v` on to the next rename: one more was made, or one more
/// failed, and of the report only the action at `i` has changed, to this status
/// and this note.
pub open spec fn went_on(
    v: ApplyView,
    w: ApplyView,
    i: int,
    made: bool,
    status: Seq<char>,
    note: Seq<char>,
) -> bool {
    &&& w.at == v.at + 1
    &&& w.phase is Probing
    &&& w.queue == v.queue
    &&& w.success == v.success + if made {
        1nat
    } else {
        0nat
    }
    &&& w.failed == v.failed + if made {
        0nat
    } else {
        1nat
    }
    &&& w.report.orphans == v.report.orphans
    &&& w.report.warnings == v.report.warnings
    &&& w.report.actions.len() == v.report.actions.len()
    &&& forall|k: int|
        0 <= k < w.report.actions.len() && k != i ==> #[trigger] w.report.actions[k]
            == v.report.actions[k]
    &&& w.report.actions[i] == (ActionView { status, note, ..v.report.actions[i] })
}

/// Whether both paths exist is asked first of all.
pub proof fn law_existence_is_asked_first(v: ApplyView, i: int, dst: PathView)
    requires
        about_to(v, i, dst),
    ensures
        apply_step(v) == (StepView::Probe { src: v.report.actions[i].src, dst }),
{
}

/// Where the source is gone, the rename is an error: a row says so, and the mover
/// goes on.
pub proof fn law_gone_sources_are_errors(v: ApplyView, i: int, dst: PathView, there: bool)
    requires
        about_to(v, i, dst),
    ensures
        ({
            let a = v.report.actions[i];
            let why = "source no longer exists at apply time"@;
            let w = apply_next(v, EventView::Probed { src: false, dst: there });
            &&& apply_step(w) == row_of(a, dst, "error"@, why)
            &&& went_on(v, apply_next(w, EventView::Recorded), i, false, "error"@, why)
        }),
{
}

/// Where something is in the way, the rename is a conflict: a row says so, and the
/// mover goes on.
pub proof fn law_occupied_targets_are_conflicts(v: ApplyView, i: int, dst: PathView)
    requires
        about_to(v, i, dst),
    ensures
        ({
            let a = v.report.actions[i];
            let why = "target now exists on disk (would overwrite); skipped"@;
            let w = apply_next(v, EventView::Probed { src: true, dst: true });
            &&& apply_step(w) == row_of(a, dst, "conflict"@, why)
            &&& went_on(v, apply_next(w, EventView::Recorded), i, false, "conflict"@, why)
        }),
{
}

/// Else a row announces the rename, then it is tried.
pub proof fn law_safe_renames_are_tried(v: ApplyView, i: int, dst: PathView)
    requires
        about_to(v, i, dst),
    ensures
        ({
            let a = v.report.actions[i];
            let w = apply_next(v, EventView::Probed { src: true, dst: false });
            let x = apply_next(w, EventView::Recorded);
            &&& apply_step(w) == row_of(a, dst, "pending"@, "about to rename"@)
            &&& apply_step(x) == (StepView::Rename { src: a.src, dst })
        }),
{
}

/// Where it can be made, a row says that it was, and the mover goes on.
pub proof fn law_renames_that_succeed(v: ApplyView, i: int, dst: PathView)
    requires
        about_to(v, i, dst),
    ensures
        ({
            let a = v.report.actions[i];
            let w = apply_next(v, EventView::Probed { src: true, dst: false });
            let x = apply_next(w, EventView::Recorded);
            let y = apply_next(x, EventView::Renamed);
            &&& apply_step(y) == row_of(a, dst, "renamed"@, ""@)
            &&& went_on(v, apply_next(y, EventView::Recorded), i, true, "renamed"@, a.note)
        }),
{
}

/// Where it cannot, a row says why, the report says so too, and the mover goes on.
pub proof fn law_renames_that_fail(v: ApplyView, i: int, dst: PathView, why: Seq<char>)
    requires
        about_to(v, i, dst),
    ensures
        ({
            let a = v.report.actions[i];
            let w = apply_next(v, EventView::Probed { src: true, dst: false });
            let x = apply_next(w, EventView::Recorded);
            let y = apply_next(x, EventView::Failed(why));
            &&& apply_step(y) == row_of(a, dst, "error"@, why)
            &&& went_on(
                v,
                apply_next(y, EventView::Recorded),
                i,
                false,
                "error"@,
                "rename failed: "@ + why,
            )
        }),
{
}

/// There is nothing more to do exactly once every rename has been dealt with.
pub proof fn law_applies_end(v: ApplyView)
    requires
        apply_wf(v),
    ensures
        apply_step(v) is Finished <==> v.at == v.queue.len(),
{
}

// ---------------------------------------------------------------------------
// Undoing what a log says
// ---------------------------------------------------------------------------

/// What is no answer to the last step of an undo changes nothing.
pub proof fn law_other_events_change_no_undo(v: UndoView, event: EventView)
    requires
        !answers(undo_step(v), event),
    ensures
        undo_next(v, event) == v,
{
}

/// An undo starts with the first rename, and has counted nothing.
pub proof fn law_undo_starts_at_the_first(pairs: Seq<PairView>, platform: Platform)
    ensures
        undo_start(pairs, platform).pairs == pairs,
        undo_start(pairs, platform).platform == platform,
        undo_start(pairs, platform).at == 0,
        undo_start(pairs, platform).phase is Probing,
        undo_start(pairs, platform).ok == 0,
        undo_start(pairs, platform).skip == 0,
        undo_start(pairs, platform).fail == 0,
        undo_step(undo_start(pairs, platform)) is Finished <==> pairs.len() == 0,
{
}

/// The undo is about to look at the rename of `old` to `new`.
pub open spec fn about_to_undo(v: UndoView, old_text: Seq<char>, new_text: Seq<char>) -> bool {
    &&& v.at < v.pairs.len()
    &&& v.phase is Probing
    &&& v.pairs[v.at as int] == (PairView { old: old_text, new: new_text })
}

/// The row for the undoing of a rename, which has no hash.
pub open spec fn undo_row(
    old_text: Seq<char>,
    new_text: Seq<char>,
    status: Seq<char>,
    note: Seq<char>,
) -> StepView {
    StepView::Record(RecordView { status, hash: ""@, old: old_text, new: new_text, note })
}

/// The undo went from `v` on to the next rename, and has counted this one.
pub open spec fn undo_went_on(v: UndoView, w: UndoView, ok: nat, skip: nat, fail: nat) -> bool {
    &&& w.pairs == v.pairs
    &&& w.platform == v.platform
    &&& w.at == v.at + 1
    &&& w.phase is Probing
    &&& w.ok == v.ok + ok
    &&& w.skip == v.skip + skip
    &&& w.fail == v.fail + fail
}

/// The path that a text in a log stands for.
pub open spec fn as_path(text: Seq<char>, platform: Platform) -> PathView {
    PathView { bytes: encode_utf8(text), platform }
}

/// An undo first asks whether the new name is there and the old one is free.
pub proof fn law_undo_asks_first(v: UndoView, old_text: Seq<char>, new_text: Seq<char>)
    requires
        about_to_undo(v, old_text, new_text),
    ensures
        undo_step(v) == (StepView::Probe {
            src: as_path(new_text, v.platform),
            dst: as_path(old_text, v.platform),
        }),
{
}

/// What is no longer there under its new name is skipped.
pub proof fn law_undo_skips_what_is_gone(
    v: UndoView,
    old_text: Seq<char>,
    new_text: Seq<char>,
    there: bool,
)
    requires
        about_to_undo(v, old_text, new_text),
    ensures
        ({
            let w = undo_next(v, EventView::Probed { src: false, dst: there });
            &&& undo_step(w) == undo_row(old_text, new_text, "skip"@, "new name not present"@)
            &&& undo_went_on(v, undo_next(w, EventView::Recorded), 0, 1, 0)
        }),
{
}

/// What would overwrite something under its old name is refused.
pub proof fn law_undo_refuses_to_overwrite(v: UndoView, old_text: Seq<char>, new_text: Seq<char>)
    requires
        about_to_undo(v, old_text, new_text),
    ensures
        ({
            let w = undo_next(v, EventView::Probed { src: true, dst: true });
            &&& undo_step(w) == undo_row(old_text, new_text, "refuse"@, "original name occupied"@)
            &&& undo_went_on(v, undo_next(w, EventView::Recorded), 0, 0, 1)
        }),
{
}

/// All else is renamed back, and a row says whether that could be done.
pub proof fn law_undo_renames_back(
    v: UndoView,
    old_text: Seq<char>,
    new_text: Seq<char>,
    why: Seq<char>,
)
    requires
        about_to_undo(v, old_text, new_text),
    ensures
        ({
            let w = undo_next(v, EventView::Probed { src: true, dst: false });
            let made = undo_next(w, EventView::Renamed);
            let not_made = undo_next(w, EventView::Failed(why));
            &&& undo_step(w) == (StepView::Rename {
                src: as_path(new_text, v.platform),
                dst: as_path(old_text, v.platform),
            })
            &&& undo_step(made) == undo_row(old_text, new_text, "reverted"@, ""@)
            &&& undo_went_on(v, undo_next(made, EventView::Recorded), 1, 0, 0)
            &&& undo_step(not_made) == undo_row(old_text, new_text, "error"@, why)
            &&& undo_went_on(v, undo_next(not_made, EventView::Recorded), 0, 0, 1)
        }),
{
}

} // verus!
