//! Laws of renaming step by step: nothing is renamed that was not announced,
//! nothing is overwritten, and what a log tells of a run brings the disk back,
//! even of a run that broke off.

use vstd::prelude::*;
use vstd::utf8::*;
use crate::disk::DiskView;
use crate::hashfile::{path_key_text, EntryView};
use crate::laws::logs::{
    fields_of,
    law_logs_read_back,
    law_no_rename_is_undone_twice,
    law_undo_takes_what_was_renamed,
    log_table,
    plain_row,
};
use crate::laws::plans::{
    called_for,
    law_no_more_actions_than_entries,
    law_no_two_renames_share_a_target,
    law_one_action_for_each_path,
    law_renames_are_called_for,
};
use crate::logging::{
    about_rename,
    calls_for_undo,
    concluded,
    csv_text,
    is_table,
    log_text,
    needs_quotes,
    pair_at,
    readable,
    undo_pairs,
    PairView,
    RowView,
};
use crate::moves::{
    apply_next,
    apply_start,
    apply_step,
    apply_wf,
    lemma_renames_among,
    renames_among,
    undo_next,
    undo_start,
    undo_step,
    ApplyView,
    EventView,
    PhaseView,
    RecordView,
    StepView,
    UndoView,
};
use crate::names::lemma_target_platform;
use crate::path::{path_text, PathView, Platform};
use crate::plan::{action_for, counts, goal, plan, ActionView, PlanOptions, ReportView};

verus! {

broadcast use vstd::seq_lib::group_seq_properties;

// ---------------------------------------------------------------------------
// One step
// ---------------------------------------------------------------------------

/// A rename comes only after a row that announces it has been written: whatever
/// happens next, the log knows of it.
pub proof fn law_renames_are_announced(
    v: ApplyView,
    event: EventView,
    src: PathView,
    dst: PathView,
)
    requires
        apply_wf(v),
        apply_step(apply_next(v, event)) == (StepView::Rename { src, dst }),
        apply_step(v) != (StepView::Rename { src, dst }),
    ensures
        event is Recorded,
        apply_step(v) matches StepView::Record(r) && r.status == "pending"@ && r.old == path_text(
            src,
        ) && r.new == path_text(dst),
{
}

/// A rename is announced only right after its source was found to exist and its
/// target was not: nothing is overwritten.
pub proof fn law_announced_renames_overwrite_nothing(v: ApplyView, event: EventView, r: RecordView)
    requires
        apply_wf(v),
        apply_step(apply_next(v, event)) == StepView::Record(r),
        r.status == "pending"@,
        apply_step(v) != StepView::Record(r),
    ensures
        event == (EventView::Probed { src: true, dst: false }),
        apply_step(v) matches StepView::Probe { src, dst } && path_text(src) == r.old && path_text(
            dst,
        ) == r.new,
{
    lemma_words();
}

/// An undo renames a file back only right after the file was found under its new
/// name and nothing under its old one: nothing is overwritten.
pub proof fn law_undo_overwrites_nothing(
    v: UndoView,
    event: EventView,
    src: PathView,
    dst: PathView,
)
    requires
        undo_step(undo_next(v, event)) == (StepView::Rename { src, dst }),
        undo_step(v) != (StepView::Rename { src, dst }),
    ensures
        event == (EventView::Probed { src: true, dst: false }),
        undo_step(v) == (StepView::Probe { src, dst }),
{
}

proof fn lemma_words()
    ensures
        "pending"@ != "renamed"@,
        "pending"@ != "error"@,
        "pending"@ != "conflict"@,
        "renamed"@ != "error"@,
        "renamed"@ != "conflict"@,
        "error"@ != "conflict"@,
{
    reveal_strlit("pending");
    reveal_strlit("renamed");
    reveal_strlit("error");
    reveal_strlit("conflict");
    assert("pending"@.len() == 7 && "renamed"@.len() == 7 && "error"@.len() == 5
        && "conflict"@.len() == 8);
    assert("pending"@[0] == 'p' && "renamed"@[0] == 'r');
}

// ---------------------------------------------------------------------------
// Disks
// ---------------------------------------------------------------------------

/// A disk: what is where.
pub type Files = Map<Seq<u8>, int>;

/// A file to be moved from one path to another.
#[verifier::ext_equal]
pub struct Item {
    pub src: PathView,
    pub dst: PathView,
}

/// The disk once the file at `src` has been renamed to `dst`.
pub open spec fn moved(d: Files, src: Seq<u8>, dst: Seq<u8>) -> Files {
    d.remove(src).insert(dst, d[src])
}

/// A path that survives being written to a log: it is text, and not empty.
pub open spec fn loggable(p: PathView) -> bool {
    p.bytes.len() > 0 && valid_utf8(p.bytes)
}

/// The text of such a path gives it back.
proof fn lemma_loggable(p: PathView)
    requires
        loggable(p),
    ensures
        encode_utf8(path_text(p)) == p.bytes,
        path_text(p).len() > 0,
{
    decode_utf8_encode_utf8(p.bytes);
    if path_text(p).len() == 0 {
        assert(encode_utf8(path_text(p)) =~= Seq::<u8>::empty());
    }
}

/// No path is the source or the target of two moves, nor the source of one and
/// the target of another, and all survive being written to a log.
pub open spec fn independent(items: Seq<Item>) -> bool {
    &&& forall|k: int, l: int|
        0 <= k < items.len() && 0 <= l < items.len() ==> (#[trigger] items[k]).src.bytes
            != (#[trigger] items[l]).dst.bytes
    &&& forall|k: int, l: int|
        0 <= k < items.len() && 0 <= l < items.len() && k != l ==> (#[trigger] items[k]).src.bytes
            != (#[trigger] items[l]).src.bytes && items[k].dst.bytes != items[l].dst.bytes
    &&& forall|k: int|
        0 <= k < items.len() ==> loggable((#[trigger] items[k]).src) && loggable(items[k].dst)
}

/// The file at `p` has been moved away.
pub open spec fn left(items: Seq<Item>, done: Set<int>, p: Seq<u8>) -> bool {
    exists|k: int| #[trigger] done.contains(k) && items[k].src.bytes == p
}

/// A file has been moved to `p`.
pub open spec fn reached(items: Seq<Item>, done: Set<int>, p: Seq<u8>) -> bool {
    exists|k: int| #[trigger] done.contains(k) && items[k].dst.bytes == p
}

/// The move to `p`.
pub open spec fn mover(items: Seq<Item>, done: Set<int>, p: Seq<u8>) -> int {
    choose|k: int| #[trigger] done.contains(k) && items[k].dst.bytes == p
}

/// The disk with the given moves made.
pub open spec fn placed(items: Seq<Item>, d: Files, done: Set<int>) -> Files {
    Map::new(
        |p: Seq<u8>| (d.contains_key(p) && !left(items, done, p)) || reached(items, done, p),
        |p: Seq<u8>|
            if reached(items, done, p) {
                d[items[mover(items, done, p)].src.bytes]
            } else {
                d[p]
            },
    )
}

/// The moves could be made: their files were there, and nothing where they went.
pub open spec fn movable(items: Seq<Item>, d: Files, done: Set<int>) -> bool {
    forall|k: int| #[trigger]
        done.contains(k) ==> 0 <= k < items.len() && d.contains_key(items[k].src.bytes)
            && !d.contains_key(items[k].dst.bytes)
}

proof fn lemma_mover(items: Seq<Item>, d: Files, done: Set<int>, k: int)
    requires
        independent(items),
        movable(items, d, done),
        done.contains(k),
    ensures
        reached(items, done, items[k].dst.bytes),
        mover(items, done, items[k].dst.bytes) == k,
        left(items, done, items[k].src.bytes),
        !reached(items, done, items[k].src.bytes),
{
    let m = mover(items, done, items[k].dst.bytes);
    assert(done.contains(m) && items[m].dst.bytes == items[k].dst.bytes);
    if reached(items, done, items[k].src.bytes) {
        let l = mover(items, done, items[k].src.bytes);
        assert(done.contains(l) && items[l].dst.bytes == items[k].src.bytes);
    }
}

/// Making one more move.
proof fn lemma_move(items: Seq<Item>, d: Files, done: Set<int>, k: int)
    requires
        independent(items),
        movable(items, d, done),
        0 <= k < items.len(),
        !done.contains(k),
        d.contains_key(items[k].src.bytes),
        !d.contains_key(items[k].dst.bytes),
    ensures
        placed(items, d, done.insert(k)) == moved(
            placed(items, d, done),
            items[k].src.bytes,
            items[k].dst.bytes,
        ),
{
    let more = done.insert(k);
    let a = placed(items, d, more);
    let before = placed(items, d, done);
    let b = moved(before, items[k].src.bytes, items[k].dst.bytes);
    let src = items[k].src.bytes;
    let dst = items[k].dst.bytes;
    assert(movable(items, d, more));
    lemma_mover(items, d, more, k);
    assert(!left(items, done, src)) by {
        if left(items, done, src) {
            let l = choose|l: int| #[trigger] done.contains(l) && items[l].src.bytes == src;
            assert(l != k);
        }
    }
    assert(!reached(items, done, src)) by {
        if reached(items, done, src) {
            let l = mover(items, done, src);
            assert(done.contains(l));
        }
    }
    assert(before.contains_key(src) && before[src] == d[src]);
    assert forall|p: Seq<u8>| #[trigger] a.contains_key(p) == b.contains_key(p) by {
        lemma_more(items, done, k, p);
    }
    assert forall|p: Seq<u8>| a.contains_key(p) implies #[trigger] a[p] == b[p] by {
        lemma_more(items, done, k, p);
        if p != dst && reached(items, more, p) {
            let m = mover(items, more, p);
            assert(more.contains(m) && items[m].dst.bytes == p);
            assert(done.contains(m));
            lemma_mover(items, d, done, m);
            lemma_mover(items, d, more, m);
        }
    }
    assert(a =~= b);
}

proof fn lemma_more(items: Seq<Item>, done: Set<int>, k: int, p: Seq<u8>)
    ensures
        left(items, done.insert(k), p) == (left(items, done, p) || items[k].src.bytes == p),
        reached(items, done.insert(k), p) == (reached(items, done, p) || items[k].dst.bytes == p),
{
    let more = done.insert(k);
    assert(more.contains(k));
    if left(items, done, p) {
        let l = choose|l: int| #[trigger] done.contains(l) && items[l].src.bytes == p;
        assert(more.contains(l));
    }
    if reached(items, done, p) {
        let l = choose|l: int| #[trigger] done.contains(l) && items[l].dst.bytes == p;
        assert(more.contains(l));
    }
    if left(items, more, p) {
        let l = choose|l: int| #[trigger] more.contains(l) && items[l].src.bytes == p;
        if l != k {
            assert(done.contains(l));
        }
    }
    if reached(items, more, p) {
        let l = choose|l: int| #[trigger] more.contains(l) && items[l].dst.bytes == p;
        if l != k {
            assert(done.contains(l));
        }
    }
}

/// Taking one move back.
proof fn lemma_move_back(items: Seq<Item>, d: Files, done: Set<int>, k: int)
    requires
        independent(items),
        movable(items, d, done),
        done.contains(k),
    ensures
        placed(items, d, done).contains_key(items[k].dst.bytes),
        !placed(items, d, done).contains_key(items[k].src.bytes),
        moved(placed(items, d, done), items[k].dst.bytes, items[k].src.bytes) == placed(
            items,
            d,
            done.remove(k),
        ),
{
    let fewer = done.remove(k);
    let src = items[k].src.bytes;
    let dst = items[k].dst.bytes;
    lemma_mover(items, d, done, k);
    assert(movable(items, d, fewer));
    assert(fewer.insert(k) =~= done);
    let here = placed(items, d, done);
    let back = placed(items, d, fewer);
    lemma_move(items, d, fewer, k);
    assert(here == moved(back, src, dst));
    lemma_more(items, fewer, k, src);
    lemma_more(items, fewer, k, dst);
    assert(!back.contains_key(dst)) by {
        if reached(items, fewer, dst) {
            let l = mover(items, fewer, dst);
            assert(fewer.contains(l) && items[l].dst.bytes == dst);
            assert(l != k);
        }
    }
    assert(!left(items, fewer, src)) by {
        if left(items, fewer, src) {
            let l = choose|l: int| #[trigger] fewer.contains(l) && items[l].src.bytes == src;
            assert(l != k);
        }
    }
    assert(back.contains_key(src));
    assert(moved(here, dst, src) =~= back);
}

/// With no moves made, the disk is as it was.
proof fn lemma_no_moves(items: Seq<Item>, d: Files, done: Set<int>)
    requires
        forall|k: int| !(#[trigger] done.contains(k)),
    ensures
        placed(items, d, done) == d,
{
    assert(placed(items, d, done) =~= d);
}

// ---------------------------------------------------------------------------
// Undoing
// ---------------------------------------------------------------------------

/// What undoing one rename does to a disk.
pub open spec fn undo_one(d: Files, pair: PairView) -> Files {
    let new = encode_utf8(pair.new);
    let old = encode_utf8(pair.old);
    if d.contains_key(new) && !d.contains_key(old) {
        moved(d, new, old)
    } else {
        d
    }
}

/// What undoing the renames from the `i`th on does to a disk.
pub open spec fn undo_from(d: Files, pairs: Seq<PairView>, i: int) -> Files
    decreases pairs.len() - i,
{
    if i < 0 || i >= pairs.len() {
        d
    } else {
        undo_from(undo_one(d, pairs[i]), pairs, i + 1)
    }
}

pub open spec fn phase_rank(phase: PhaseView) -> int {
    match phase {
        PhaseView::Probing => 2,
        PhaseView::Renaming => 1,
        PhaseView::Recording { .. } => 0,
    }
}

/// The disk after an undo has run to its end, with every step done as told and
/// every question answered truly.
pub open spec fn undo_run(v: UndoView, d: Files) -> Files
    decreases v.pairs.len() - v.at, phase_rank(v.phase),
{
    match undo_step(v) {
        StepView::Finished => d,
        StepView::Probe { src, dst } => undo_run(
            undo_next(
                v,
                EventView::Probed {
                    src: d.contains_key(src.bytes),
                    dst: d.contains_key(dst.bytes),
                },
            ),
            d,
        ),
        StepView::Record(_) => undo_run(undo_next(v, EventView::Recorded), d),
        StepView::Rename { src, dst } => undo_run(
            undo_next(v, EventView::Renamed),
            moved(d, src.bytes, dst.bytes),
        ),
    }
}

proof fn lemma_undo_run(v: UndoView, d: Files)
    requires
        v.phase is Probing,
    ensures
        undo_run(v, d) == undo_from(d, v.pairs, v.at as int),
    decreases v.pairs.len() - v.at,
{
    if v.at < v.pairs.len() {
        let new = v.new_path().bytes;
        let old = v.old_path().bytes;
        let src = d.contains_key(new);
        let dst = d.contains_key(old);
        let a = undo_next(v, EventView::Probed { src, dst });
        assert(undo_run(v, d) == undo_run(a, d));
        if src && !dst {
            let e = moved(d, new, old);
            let b = undo_next(a, EventView::Renamed);
            assert(undo_run(a, d) == undo_run(b, e));
            let c = undo_next(b, EventView::Recorded);
            assert(undo_run(b, e) == undo_run(c, e));
            lemma_undo_run(c, e);
        } else {
            let c = undo_next(a, EventView::Recorded);
            assert(undo_run(a, d) == undo_run(c, d));
            lemma_undo_run(c, d);
        }
    }
}

/// The rename of an item, as it stands in a log.
pub open spec fn pair_of(item: Item) -> PairView {
    PairView { old: path_text(item.src), new: path_text(item.dst) }
}

proof fn lemma_pairs_differ(items: Seq<Item>, k: int, l: int)
    requires
        independent(items),
        0 <= k < items.len(),
        0 <= l < items.len(),
        pair_of(items[k]) == pair_of(items[l]),
    ensures
        k == l,
{
    lemma_loggable(items[k].src);
    lemma_loggable(items[l].src);
}

/// Undoing renames in any order takes back the moves that were made, provided that
/// every one of them is undone and that nothing was where the other renames
/// would have gone.
proof fn lemma_undo_from(
    items: Seq<Item>,
    d: Files,
    done: Set<int>,
    pairs: Seq<PairView>,
    owners: Seq<int>,
    i: int,
)
    requires
        independent(items),
        movable(items, d, done),
        0 <= i <= pairs.len(),
        owners.len() == pairs.len(),
        forall|j: int|
            i <= j < pairs.len() ==> {
                let k = #[trigger] owners[j];
                &&& 0 <= k < items.len()
                &&& pairs[j] == pair_of(items[k])
                &&& done.contains(k) || !d.contains_key(items[k].dst.bytes)
            },
        forall|j: int, l: int|
            i <= j < l < pairs.len() ==> (#[trigger] owners[j]) != (#[trigger] owners[l]),
        forall|k: int| #[trigger]
            done.contains(k) ==> exists|j: int| i <= j < pairs.len() && #[trigger] owners[j] == k,
    ensures
        undo_from(placed(items, d, done), pairs, i) == d,
    decreases pairs.len() - i,
{
    if i == pairs.len() {
        assert forall|k: int| !(#[trigger] done.contains(k)) by {
            if done.contains(k) {
                let j = choose|j: int| i <= j < pairs.len() && #[trigger] owners[j] == k;
            }
        }
        lemma_no_moves(items, d, done);
    } else {
        let k = owners[i];
        let here = placed(items, d, done);
        lemma_loggable(items[k].src);
        lemma_loggable(items[k].dst);
        assert(encode_utf8(pairs[i].new) == items[k].dst.bytes);
        assert(encode_utf8(pairs[i].old) == items[k].src.bytes);
        let rest = done.remove(k);
        if done.contains(k) {
            lemma_move_back(items, d, done, k);
            assert(undo_one(here, pairs[i]) == placed(items, d, rest));
        } else {
            assert(!here.contains_key(items[k].dst.bytes)) by {
                if reached(items, done, items[k].dst.bytes) {
                    let l = mover(items, done, items[k].dst.bytes);
                    assert(done.contains(l) && items[l].dst.bytes == items[k].dst.bytes);
                }
            }
            assert(rest =~= done);
            assert(undo_one(here, pairs[i]) == here);
        }
        assert forall|m: int| #[trigger] rest.contains(m) implies exists|j: int|
            i + 1 <= j < pairs.len() && #[trigger] owners[j] == m by {
            assert(done.contains(m));
            let j = choose|j: int| i <= j < pairs.len() && #[trigger] owners[j] == m;
            assert(j != i);
        }
        assert forall|j: int| i + 1 <= j < pairs.len() implies {
            let m = #[trigger] owners[j];
            &&& 0 <= m < items.len()
            &&& pairs[j] == pair_of(items[m])
            &&& rest.contains(m) || !d.contains_key(items[m].dst.bytes)
        } by {
            assert(owners[i] != owners[j]);
        }
        assert(movable(items, d, rest));
        lemma_undo_from(items, d, rest, pairs, owners, i + 1);
    }
}

// ---------------------------------------------------------------------------
// Carrying out a plan
// ---------------------------------------------------------------------------

/// A plan being carried out: where it stands, the disk, and the rows written.
/// `owners` has for each row the rename that it is about, and `done` the renames
/// that were made.
#[verifier::ext_equal]
pub struct Run {
    pub v: ApplyView,
    pub disk: Files,
    pub records: Seq<RecordView>,
    pub owners: Seq<int>,
    pub done: Set<int>,
}

/// The renames of a report.
pub open spec fn items_of(report: ReportView) -> Seq<Item> {
    let queue = renames_among(report.actions);
    Seq::new(
        queue.len(),
        |k: int|
            Item {
                src: report.actions[queue[k] as int].src,
                dst: report.actions[queue[k] as int].dst->0,
            },
    )
}

pub open spec fn run_start(report: ReportView, d: Files) -> Run {
    Run {
        v: apply_start(report),
        disk: d,
        records: Seq::empty(),
        owners: Seq::empty(),
        done: Set::empty(),
    }
}

/// One step: it is done as told, and questions are answered truly. A rename may
/// run into trouble, and then changes nothing.
pub open spec fn run_step(run: Run, trouble: Option<Seq<char>>) -> Run {
    match apply_step(run.v) {
        StepView::Finished => run,
        StepView::Probe { src, dst } => Run {
            v: apply_next(
                run.v,
                EventView::Probed {
                    src: run.disk.contains_key(src.bytes),
                    dst: run.disk.contains_key(dst.bytes),
                },
            ),
            ..run
        },
        StepView::Record(r) => Run {
            v: apply_next(run.v, EventView::Recorded),
            records: run.records.push(r),
            owners: run.owners.push(run.v.at as int),
            ..run
        },
        StepView::Rename { src, dst } => match trouble {
            Some(why) => Run { v: apply_next(run.v, EventView::Failed(why)), ..run },
            None => Run {
                v: apply_next(run.v, EventView::Renamed),
                disk: moved(run.disk, src.bytes, dst.bytes),
                done: run.done.insert(run.v.at as int),
                ..run
            },
        },
    }
}

/// As many steps as there are answers to whether a rename ran into trouble.
pub open spec fn run_steps(report: ReportView, d: Files, troubles: Seq<Option<Seq<char>>>) -> Run
    decreases troubles.len(),
{
    if troubles.len() == 0 {
        run_start(report, d)
    } else {
        run_step(run_steps(report, d, troubles.drop_last()), troubles.last())
    }
}

/// Some row about the rename `k` has the status.
pub open spec fn has_row(
    owners: Seq<int>,
    records: Seq<RecordView>,
    k: int,
    status: Seq<char>,
) -> bool {
    exists|i: int|
        0 <= i < owners.len() && #[trigger] owners[i] == k && records[i].status == status
}

impl Run {
    /// Some row announces the rename `k`.
    pub open spec fn announced(self, k: int) -> bool {
        has_row(self.owners, self.records, k, "pending"@)
    }

    /// Some row says that the rename `k` was made.
    pub open spec fn reported(self, k: int) -> bool {
        has_row(self.owners, self.records, k, "renamed"@)
    }

    /// Some row says how the rename `k` ended.
    pub open spec fn ended(self, k: int) -> bool {
        self.reported(k) || has_row(self.owners, self.records, k, "error"@)
    }
}

/// What holds at every point of a run.
pub open spec fn sound(run: Run, items: Seq<Item>, d: Files) -> bool {
    let at = run.v.at as int;
    &&& apply_wf(run.v)
    &&& run.v.queue.len() == items.len()
    &&& forall|k: int|
        0 <= k < items.len() ==> {
            let a = run.v.report.actions[(#[trigger] run.v.queue[k]) as int];
            a.src == items[k].src && a.dst == Some(items[k].dst)
        }
    &&& run.disk == placed(items, d, run.done)
    &&& movable(items, d, run.done)
    &&& forall|k: int| #[trigger] run.done.contains(k) ==> k <= at
    // The rows.
    &&& run.owners.len() == run.records.len()
    &&& forall|i: int|
        0 <= i < run.owners.len() ==> {
            let k = #[trigger] run.owners[i];
            &&& 0 <= k <= at
            &&& k < items.len()
            &&& run.records[i].old == path_text(items[k].src)
            &&& run.records[i].new == path_text(items[k].dst)
            &&& k == at ==> run.records[i].status == "pending"@
            &&& run.records[i].status == "renamed"@ ==> run.done.contains(k)
            &&& run.records[i].status == "pending"@ && k < at ==> run.ended(k)
        }
    &&& forall|k: int| #[trigger] run.done.contains(k) && k < at ==> run.reported(k)
    // The rename at hand.
    &&& at < items.len() ==> match run.v.phase {
        PhaseView::Probing => !run.announced(at) && !run.done.contains(at),
        PhaseView::Recording { status, renaming, .. } => if renaming {
            &&& !run.announced(at)
            &&& !run.done.contains(at)
            &&& d.contains_key(items[at].src.bytes)
            &&& !d.contains_key(items[at].dst.bytes)
        } else {
            &&& status == "renamed"@ || status == "error"@ || status == "conflict"@
            &&& run.done.contains(at) <==> status == "renamed"@
            &&& run.done.contains(at) ==> run.announced(at)
            &&& run.announced(at) ==> status != "conflict"@ && !d.contains_key(
                items[at].dst.bytes,
            )
        },
        PhaseView::Renaming => {
            &&& run.announced(at)
            &&& !run.done.contains(at)
            &&& d.contains_key(items[at].src.bytes)
            &&& !d.contains_key(items[at].dst.bytes)
        },
    }
    &&& at == items.len() ==> !run.done.contains(at)
}

proof fn lemma_sound_start(report: ReportView, d: Files)
    requires
        report.actions.len() <= usize::MAX,
    ensures
        sound(run_start(report, d), items_of(report), d),
{
    lemma_renames_among(report.actions);
    lemma_no_moves(items_of(report), d, Set::<int>::empty());
}

/// A file that has not been moved is where it was, and nothing has come to where
/// it goes.
proof fn lemma_unmoved(items: Seq<Item>, d: Files, done: Set<int>, k: int)
    requires
        independent(items),
        movable(items, d, done),
        0 <= k < items.len(),
        !done.contains(k),
    ensures
        placed(items, d, done).contains_key(items[k].src.bytes) == d.contains_key(
            items[k].src.bytes,
        ),
        placed(items, d, done).contains_key(items[k].dst.bytes) == d.contains_key(
            items[k].dst.bytes,
        ),
{
    let src = items[k].src.bytes;
    let dst = items[k].dst.bytes;
    if left(items, done, src) {
        let l = choose|l: int| #[trigger] done.contains(l) && items[l].src.bytes == src;
        assert(l != k);
    }
    if left(items, done, dst) {
        let l = choose|l: int| #[trigger] done.contains(l) && items[l].src.bytes == dst;
        assert(items[l].src.bytes != items[k].dst.bytes);
    }
    if reached(items, done, src) {
        let l = mover(items, done, src);
        assert(done.contains(l) && items[l].dst.bytes == src);
        assert(items[k].src.bytes != items[l].dst.bytes);
    }
    if reached(items, done, dst) {
        let l = mover(items, done, dst);
        assert(done.contains(l) && items[l].dst.bytes == dst);
        assert(l != k);
    }
}

/// Marking an action changes neither what it is about nor any other action.
proof fn lemma_marked(v: ApplyView, status: Seq<char>, note: Seq<char>, k: int)
    requires
        apply_wf(v),
        v.at < v.queue.len(),
        0 <= k < v.queue.len(),
    ensures
        v.marked(status, note).actions[v.queue[k] as int].src
            == v.report.actions[v.queue[k] as int].src,
        v.marked(status, note).actions[v.queue[k] as int].dst
            == v.report.actions[v.queue[k] as int].dst,
        v.marked(status, note).actions.len() == v.report.actions.len(),
{
    let at = v.queue[v.at as int] as int;
    assert(v.queue[v.at as int] < v.report.actions.len());
    if v.queue[k] as int == at {
        assert(v.marked(status, note).actions[at].src == v.current().src);
    }
}

proof fn lemma_sound_probe(run: Run, items: Seq<Item>, d: Files)
    requires
        independent(items),
        sound(run, items, d),
        apply_step(run.v) is Probe,
    ensures
        sound(run_step(run, None), items, d),
{
    lemma_words();
    let at = run.v.at as int;
    let a = run.v.current();
    assert(run.v.queue[at] < run.v.report.actions.len());
    assert(a.src == items[at].src && a.dst == Some(items[at].dst));
    lemma_unmoved(items, d, run.done, at);
    let next = run_step(run, None);
    assert forall|k: int| 0 <= k < items.len() implies {
        let b = next.v.report.actions[(#[trigger] next.v.queue[k]) as int];
        b.src == items[k].src && b.dst == Some(items[k].dst)
    } by {
        let b = run.v.report.actions[run.v.queue[k] as int];
        assert(b.src == items[k].src && b.dst == Some(items[k].dst));
        lemma_marked(
            run.v,
            "error"@,
            "source no longer exists at apply time"@,
            k,
        );
        lemma_marked(
            run.v,
            "conflict"@,
            "target now exists on disk (would overwrite); skipped"@,
            k,
        );
    }
    assert(next.owners == run.owners && next.records == run.records);
    assert(apply_wf(next.v));
}

proof fn lemma_has_row_push(
    owners: Seq<int>,
    records: Seq<RecordView>,
    o: int,
    r: RecordView,
    k: int,
    status: Seq<char>,
)
    requires
        owners.len() == records.len(),
    ensures
        has_row(owners.push(o), records.push(r), k, status) == (has_row(owners, records, k, status)
            || (o == k && r.status == status)),
{
    let more = owners.push(o);
    let longer = records.push(r);
    if has_row(owners, records, k, status) {
        let i = choose|i: int|
            0 <= i < owners.len() && #[trigger] owners[i] == k && records[i].status == status;
        assert(more[i] == k && longer[i].status == status);
    }
    if o == k && r.status == status {
        assert(more[owners.len() as int] == k);
    }
    if has_row(more, longer, k, status) {
        let i = choose|i: int|
            0 <= i < more.len() && #[trigger] more[i] == k && longer[i].status == status;
        if i < owners.len() {
            assert(owners[i] == k);
        }
    }
}

proof fn lemma_sound_record(run: Run, items: Seq<Item>, d: Files)
    requires
        independent(items),
        sound(run, items, d),
        apply_step(run.v) is Record,
    ensures
        sound(run_step(run, None), items, d),
{
    lemma_words();
    let at = run.v.at as int;
    let a = run.v.current();
    assert(run.v.queue[at] < run.v.report.actions.len());
    assert(a.src == items[at].src && a.dst == Some(items[at].dst));
    let r = apply_step(run.v)->Record_0;
    let next = run_step(run, None);
    assert(next.owners == run.owners.push(at) && next.records == run.records.push(r));
    assert forall|k: int, status: Seq<char>| #[trigger]
        has_row(next.owners, next.records, k, status) == (has_row(
            run.owners,
            run.records,
            k,
            status,
        ) || (at == k && r.status == status)) by {
        lemma_has_row_push(run.owners, run.records, at, r, k, status);
    }
    let then = next.v.at as int;
    assert(apply_wf(next.v));
    assert forall|i: int| 0 <= i < next.owners.len() implies {
        let k = #[trigger] next.owners[i];
        &&& 0 <= k <= then
        &&& k < items.len()
        &&& next.records[i].old == path_text(items[k].src)
        &&& next.records[i].new == path_text(items[k].dst)
        &&& k == then ==> next.records[i].status == "pending"@
        &&& next.records[i].status == "renamed"@ ==> next.done.contains(k)
        &&& next.records[i].status == "pending"@ && k < then ==> next.ended(k)
    } by {
        let k = next.owners[i];
        if i < run.owners.len() {
            assert(run.owners[i] == k);
            assert(run.records[i] == next.records[i]);
            if next.records[i].status == "pending"@ && k == at && k < then {
                assert(run.announced(at));
                assert(r.status == "renamed"@ || r.status == "error"@);
            }
        } else {
            assert(k == at);
        }
    }
    assert forall|k: int| #[trigger] next.done.contains(k) && k < then implies next.reported(k) by {
        if k == at {
            assert(r.status == "renamed"@);
        }
    }
    if then < items.len() && then > at {
        assert(!next.announced(then)) by {
            if next.announced(then) {
                assert(run.announced(then));
                let i = choose|i: int|
                    0 <= i < run.owners.len() && #[trigger] run.owners[i] == then
                        && run.records[i].status == "pending"@;
                assert(run.owners[i] <= at);
            }
        }
    }
}

proof fn lemma_sound_rename(run: Run, items: Seq<Item>, d: Files, trouble: Option<Seq<char>>)
    requires
        independent(items),
        sound(run, items, d),
        apply_step(run.v) is Rename,
    ensures
        sound(run_step(run, trouble), items, d),
{
    lemma_words();
    let at = run.v.at as int;
    let a = run.v.current();
    assert(run.v.queue[at] < run.v.report.actions.len());
    assert(a.src == items[at].src && a.dst == Some(items[at].dst));
    let next = run_step(run, trouble);
    assert(next.owners == run.owners && next.records == run.records);
    lemma_move(items, d, run.done, at);
    assert forall|k: int| 0 <= k < items.len() implies {
        let b = next.v.report.actions[(#[trigger] next.v.queue[k]) as int];
        b.src == items[k].src && b.dst == Some(items[k].dst)
    } by {
        let b = run.v.report.actions[run.v.queue[k] as int];
        assert(b.src == items[k].src && b.dst == Some(items[k].dst));
        lemma_marked(run.v, "renamed"@, a.note, k);
        if trouble is Some {
            lemma_marked(run.v, "error"@, "rename failed: "@ + trouble->0, k);
        }
    }
    assert(apply_wf(next.v));
}

/// Every run is sound at every point.
proof fn lemma_run_sound(report: ReportView, d: Files, troubles: Seq<Option<Seq<char>>>)
    requires
        report.actions.len() <= usize::MAX,
        independent(items_of(report)),
    ensures
        sound(run_steps(report, d, troubles), items_of(report), d),
    decreases troubles.len(),
{
    if troubles.len() == 0 {
        lemma_sound_start(report, d);
    } else {
        let run = run_steps(report, d, troubles.drop_last());
        let items = items_of(report);
        lemma_run_sound(report, d, troubles.drop_last());
        match apply_step(run.v) {
            StepView::Finished => {},
            StepView::Probe { .. } => {
                lemma_sound_probe(run, items, d);
            },
            StepView::Record(_) => {
                lemma_sound_record(run, items, d);
            },
            StepView::Rename { .. } => {
                lemma_sound_rename(run, items, d, troubles.last());
            },
        }
    }
}

/// The rows of a log are these records, each with a time.
pub open spec fn logs(rows: Seq<Seq<Seq<char>>>, records: Seq<RecordView>) -> bool {
    rows.len() == records.len() && forall|i: int|
        0 <= i < rows.len() ==> {
            let row = #[trigger] rows[i];
            let r = records[i];
            row.len() == 6 && row.skip(1) == seq![r.status, r.hash, r.old, r.new, r.note]
        }
}

proof fn lemma_logged_row(rows: Seq<Seq<Seq<char>>>, run: Run, items: Seq<Item>, d: Files, i: int)
    requires
        independent(items),
        sound(run, items, d),
        logs(rows, run.records),
        0 <= i < rows.len(),
    ensures
        about_rename(rows, i),
        rows[i][1] == run.records[i].status,
        pair_at(rows, i) == pair_of(items[run.owners[i]]),
        0 <= run.owners[i] < items.len(),
{
    let row = rows[i];
    let r = run.records[i];
    let k = run.owners[i];
    let tail = seq![r.status, r.hash, r.old, r.new, r.note];
    assert(row.skip(1) == tail);
    assert(row[1] == row.skip(1)[0]);
    assert(row[3] == row.skip(1)[2]);
    assert(row[4] == row.skip(1)[3]);
    lemma_loggable(items[k].src);
    lemma_loggable(items[k].dst);
}

/// What the log of a run calls to undo: the rename of an item is called for by a
/// row exactly if a row says that it was made, or announces it and none says how
/// it ended.
proof fn lemma_calls(rows: Seq<Seq<Seq<char>>>, run: Run, items: Seq<Item>, d: Files, i: int)
    requires
        independent(items),
        sound(run, items, d),
        logs(rows, run.records),
        0 <= i < rows.len(),
    ensures
        concluded(rows, i) == run.ended(run.owners[i]),
        calls_for_undo(rows, i) == (run.records[i].status == "renamed"@ || (run.records[i].status
            == "pending"@ && !run.ended(run.owners[i]))),
{
    lemma_logged_row(rows, run, items, d, i);
    let k = run.owners[i];
    if concluded(rows, i) {
        let j = choose|j: int|
            0 <= j < rows.len() && #[trigger] about_rename(rows, j) && pair_at(rows, j) == pair_at(
                rows,
                i,
            ) && (rows[j][1] == "renamed"@ || rows[j][1] == "error"@);
        lemma_logged_row(rows, run, items, d, j);
        lemma_pairs_differ(items, run.owners[j], k);
        assert(run.owners[j] == k);
    }
    if run.reported(k) {
        let j = choose|j: int|
            0 <= j < run.owners.len() && #[trigger] run.owners[j] == k && run.records[j].status
                == "renamed"@;
        lemma_logged_row(rows, run, items, d, j);
    }
    if has_row(run.owners, run.records, k, "error"@) {
        let j = choose|j: int|
            0 <= j < run.owners.len() && #[trigger] run.owners[j] == k && run.records[j].status
                == "error"@;
        lemma_logged_row(rows, run, items, d, j);
    }
}

/// Nothing tells yet how the rename at hand ended.
proof fn lemma_at_hand_is_open(run: Run, items: Seq<Item>, d: Files)
    requires
        sound(run, items, d),
    ensures
        !run.ended(run.v.at as int),
{
    lemma_words();
    let at = run.v.at as int;
    if run.reported(at) {
        let i = choose|i: int|
            0 <= i < run.owners.len() && #[trigger] run.owners[i] == at && run.records[i].status
                == "renamed"@;
    }
    if has_row(run.owners, run.records, at, "error"@) {
        let i = choose|i: int|
            0 <= i < run.owners.len() && #[trigger] run.owners[i] == at && run.records[i].status
                == "error"@;
    }
}

/// The item that a rename to undo is about.
proof fn lemma_pair_owner(
    rows: Seq<Seq<Seq<char>>>,
    run: Run,
    items: Seq<Item>,
    d: Files,
    pair: PairView,
) -> (k: int)
    requires
        independent(items),
        sound(run, items, d),
        logs(rows, run.records),
        undo_pairs(rows, rows.len() as int).contains(pair),
    ensures
        0 <= k < items.len(),
        pair == pair_of(items[k]),
        run.done.contains(k) || !d.contains_key(items[k].dst.bytes),
{
    lemma_words();
    law_undo_takes_what_was_renamed(rows, rows.len() as int, pair);
    let i = choose|i: int|
        0 <= i < rows.len() && #[trigger] calls_for_undo(rows, i) && pair_at(rows, i) == pair;
    lemma_logged_row(rows, run, items, d, i);
    lemma_calls(rows, run, items, d, i);
    let k = run.owners[i];
    let at = run.v.at as int;
    if run.records[i].status != "renamed"@ {
        assert(run.records[i].status == "pending"@ && !run.ended(k));
        assert(k == at);
        assert(run.announced(at));
        assert(!d.contains_key(items[k].dst.bytes));
    }
    k
}

/// A rename that was made is called to be undone.
proof fn lemma_done_is_called(
    rows: Seq<Seq<Seq<char>>>,
    run: Run,
    items: Seq<Item>,
    d: Files,
    k: int,
)
    requires
        independent(items),
        sound(run, items, d),
        logs(rows, run.records),
        run.done.contains(k),
    ensures
        undo_pairs(rows, rows.len() as int).contains(pair_of(items[k])),
{
    lemma_words();
    let at = run.v.at as int;
    let status = if k < at {
        "renamed"@
    } else {
        "pending"@
    };
    assert(has_row(run.owners, run.records, k, status)) by {
        if k < at {
            assert(run.reported(k));
        } else {
            assert(k == at);
            assert(run.announced(at));
        }
    }
    let i = choose|i: int|
        0 <= i < run.owners.len() && #[trigger] run.owners[i] == k && run.records[i].status
            == status;
    lemma_logged_row(rows, run, items, d, i);
    lemma_calls(rows, run, items, d, i);
    if k == at {
        lemma_at_hand_is_open(run, items, d);
    }
    assert(calls_for_undo(rows, i));
    law_undo_takes_what_was_renamed(rows, rows.len() as int, pair_of(items[k]));
}

/// However far a plan was carried out, even if it broke off in the middle of a
/// rename, and whichever renames ran into trouble: undoing what the log tells
/// brings the disk back to what it was. The renames must not depend on one
/// another, as those of a plan never do, and nothing else may touch the disk.
pub proof fn law_broken_runs_can_be_undone(
    report: ReportView,
    d: Files,
    troubles: Seq<Option<Seq<char>>>,
    rows: Seq<Seq<Seq<char>>>,
    platform: Platform,
)
    requires
        report.actions.len() <= usize::MAX,
        independent(items_of(report)),
        logs(rows, run_steps(report, d, troubles).records),
    ensures
        undo_run(
            undo_start(undo_pairs(rows, rows.len() as int), platform),
            run_steps(report, d, troubles).disk,
        ) == d,
{
    let run = run_steps(report, d, troubles);
    let items = items_of(report);
    lemma_run_sound(report, d, troubles);
    let pairs = undo_pairs(rows, rows.len() as int);
    law_no_rename_is_undone_twice(rows, rows.len() as int);
    lemma_undo_run(undo_start(pairs, platform), run.disk);
    let owners = Seq::new(
        pairs.len(),
        |j: int| choose|k: int| is_owner(items, run.done, d, pairs[j], k),
    );
    assert forall|j: int| 0 <= j < pairs.len() implies is_owner(
        items,
        run.done,
        d,
        pairs[j],
        #[trigger] owners[j],
    ) by {
        assert(pairs.contains(pairs[j]));
        let k = lemma_pair_owner(rows, run, items, d, pairs[j]);
        assert(is_owner(items, run.done, d, pairs[j], k));
    }
    assert forall|j: int| 0 <= j < pairs.len() implies {
        let k = #[trigger] owners[j];
        &&& 0 <= k < items.len()
        &&& pairs[j] == pair_of(items[k])
        &&& run.done.contains(k) || !d.contains_key(items[k].dst.bytes)
    } by {
        assert(is_owner(items, run.done, d, pairs[j], owners[j]));
    }
    assert forall|j: int, l: int| 0 <= j < l < pairs.len() implies (#[trigger] owners[j])
        != (#[trigger] owners[l]) by {
        assert(pairs[j] != pairs[l]);
        assert(is_owner(items, run.done, d, pairs[j], owners[j]));
        assert(is_owner(items, run.done, d, pairs[l], owners[l]));
    }
    assert forall|k: int| #[trigger] run.done.contains(k) implies exists|j: int|
        0 <= j < pairs.len() && #[trigger] owners[j] == k by {
        lemma_done_is_called(rows, run, items, d, k);
        let j = choose|j: int| 0 <= j < pairs.len() && pairs[j] == pair_of(items[k]);
        assert(is_owner(items, run.done, d, pairs[j], owners[j]));
        lemma_pairs_differ(items, owners[j], k);
        assert(owners[j] == k);
    }
    lemma_undo_from(items, d, run.done, pairs, owners, 0);
}

/// The pair is the rename of item `k`, which was made or could not overwrite.
spec fn is_owner(items: Seq<Item>, done: Set<int>, d: Files, pair: PairView, k: int) -> bool {
    &&& 0 <= k < items.len()
    &&& pair == pair_of(items[k])
    &&& done.contains(k) || !d.contains_key(items[k].dst.bytes)
}

/// The renames of a plan do not depend on one another: their sources and targets
/// are all different paths.
pub proof fn law_planned_renames_are_independent(
    all: Seq<EntryView>,
    options: PlanOptions,
    disk: DiskView,
    platform: Platform,
)
    requires
        all.len() <= usize::MAX,
        forall|i: int| 0 <= i < all.len() ==> (#[trigger] all[i]).path.platform == platform,
        forall|k: int|
            0 <= k < items_of(plan(all, options, disk)).len() ==> loggable(
                (#[trigger] items_of(plan(all, options, disk))[k]).src,
            ) && loggable(items_of(plan(all, options, disk))[k].dst),
    ensures
        independent(items_of(plan(all, options, disk))),
{
    let report = plan(all, options, disk);
    let actions = report.actions;
    let items = items_of(report);
    let queue = renames_among(actions);
    law_no_more_actions_than_entries(all, options, disk);
    lemma_renames_among(actions);
    assert forall|k: int| 0 <= k < items.len() implies {
        let i = #[trigger] items[k];
        &&& i.src.platform == platform
        &&& i.dst.platform == platform
        &&& disk.present(i.src)
        &&& !disk.present(i.dst)
    } by {
        let q = queue[k] as int;
        assert(actions[q].is_rename());
        law_renames_are_called_for(all, options, disk, q);
        let i = choose|i: int|
            0 <= i < all.len() && #[trigger] counts(all, i) && called_for(all[i], options, disk)
                && actions[q] == action_for(all[i], Some(goal(all[i])), "rename"@, ""@);
        lemma_target_platform(all[i].path, all[i].hash, "_"@);
    }
    law_one_action_for_each_path(all, options, disk);
    assert forall|k: int, l: int|
        0 <= k < items.len() && 0 <= l < items.len() && k != l implies (
    #[trigger] items[k]).src.bytes != (#[trigger] items[l]).src.bytes && items[k].dst.bytes
        != items[l].dst.bytes by {
        let (a, b) = if k < l {
            (k, l)
        } else {
            (l, k)
        };
        let p = queue[a] as int;
        let q = queue[b] as int;
        assert(p < q);
        assert(actions[p].is_rename() && actions[q].is_rename());
        law_no_two_renames_share_a_target(all, options, disk, p, q);
        assert(path_key_text(actions[p].src) != path_key_text(actions[q].src));
        assert(items[a].src == actions[p].src && items[b].src == actions[q].src);
        assert(items[a].src.bytes == items[b].src.bytes ==> items[a].src =~= items[b].src);
        assert(items[a].dst.bytes == items[b].dst.bytes ==> items[a].dst =~= items[b].dst);
    }
    assert forall|k: int, l: int| 0 <= k < items.len() && 0 <= l < items.len() implies (
    #[trigger] items[k]).src.bytes != (#[trigger] items[l]).dst.bytes by {
        assert(disk.present(items[k].src));
        assert(!disk.present(items[l].dst));
    }
}

/// No trouble, `n` times.
pub open spec fn untroubled(n: nat) -> Seq<Option<Seq<char>>> {
    Seq::new(n, |i: int| None)
}

proof fn lemma_untroubled_step(report: ReportView, d: Files, n: nat)
    ensures
        run_steps(report, d, untroubled(n + 1)) == run_step(
            run_steps(report, d, untroubled(n)),
            None,
        ),
{
    assert(untroubled(n + 1).drop_last() =~= untroubled(n));
}

proof fn lemma_untroubled(report: ReportView, d: Files, k: nat)
    requires
        report.actions.len() <= usize::MAX,
        independent(items_of(report)),
        forall|i: int|
            0 <= i < items_of(report).len() ==> d.contains_key(
                (#[trigger] items_of(report)[i]).src.bytes,
            ) && !d.contains_key(items_of(report)[i].dst.bytes),
        k <= items_of(report).len(),
    ensures
        ({
            let run = run_steps(report, d, untroubled(4 * k));
            &&& run.v.at == k
            &&& run.v.phase is Probing
            &&& run.v.success == k
            &&& run.v.failed == 0
            &&& forall|i: int| #[trigger] run.done.contains(i) <==> 0 <= i < k
        }),
    decreases k,
{
    let items = items_of(report);
    if k > 0 {
        let at = (k - 1) as nat;
        lemma_untroubled(report, d, at);
        let n = 4 * at;
        let r0 = run_steps(report, d, untroubled(n));
        lemma_run_sound(report, d, untroubled(n));
        lemma_untroubled_step(report, d, n);
        let r1 = run_steps(report, d, untroubled(n + 1));
        lemma_untroubled_step(report, d, n + 1);
        let r2 = run_steps(report, d, untroubled(n + 2));
        lemma_untroubled_step(report, d, n + 2);
        let r3 = run_steps(report, d, untroubled(n + 3));
        lemma_untroubled_step(report, d, n + 3);
        let r4 = run_steps(report, d, untroubled(n + 4));
        let a = r0.v.report.actions[r0.v.queue[at as int] as int];
        assert(a.src == items[at as int].src && a.dst == Some(items[at as int].dst));
        lemma_unmoved(items, d, r0.done, at as int);
        assert(r1.v.phase == PhaseView::Recording {
            status: "pending"@,
            note: "about to rename"@,
            renaming: true,
        });
        assert(r2.v.phase is Renaming);
        assert(r3.v.phase is Recording);
        assert(r4.v.at == k);
        assert(n + 4 == 4 * k);
    } else {
        assert(untroubled(0) =~= Seq::<Option<Seq<char>>>::empty());
    }
}

/// A plan that is carried out without trouble, on a disk where every file to be
/// renamed is there and nothing where it goes, has every file renamed in the end:
/// four steps for each, and nothing is left to do.
pub proof fn law_untroubled_runs_rename_everything(report: ReportView, d: Files)
    requires
        report.actions.len() <= usize::MAX,
        independent(items_of(report)),
        forall|i: int|
            0 <= i < items_of(report).len() ==> d.contains_key(
                (#[trigger] items_of(report)[i]).src.bytes,
            ) && !d.contains_key(items_of(report)[i].dst.bytes),
    ensures
        ({
            let n = items_of(report).len();
            let run = run_steps(report, d, untroubled(4 * n));
            &&& apply_step(run.v) is Finished
            &&& run.v.success == n
            &&& run.v.failed == 0
            &&& run.disk == placed(items_of(report), d, run.done)
            &&& forall|i: int| #[trigger] run.done.contains(i) <==> 0 <= i < n
        }),
{
    let n = items_of(report).len();
    lemma_untroubled(report, d, n);
    lemma_run_sound(report, d, untroubled(4 * n));
}

// ---------------------------------------------------------------------------
// From the text of a log back to the disk
// ---------------------------------------------------------------------------

/// A text that stands in a log as it is.
pub open spec fn plain_text(s: Seq<char>) -> bool {
    !needs_quotes(s) && readable(s)
}

/// What is logged of the renames of a report can be read back.
pub open spec fn readable_renames(actions: Seq<ActionView>, queue: Seq<usize>) -> bool {
    forall|k: int|
        0 <= k < queue.len() ==> {
            let a = actions[(#[trigger] queue[k]) as int];
            readable(a.hash) && readable(path_text(a.src)) && readable(path_text(a.dst->0))
        }
}

/// What is being and will be logged can be read back.
spec fn readable_state(v: ApplyView) -> bool {
    &&& readable_renames(v.report.actions, v.queue)
    &&& (v.phase matches PhaseView::Recording { status, note, .. } ==> plain_text(status)
        && readable(note))
}

spec fn readable_record(r: RecordView) -> bool {
    plain_text(r.status) && readable(r.hash) && readable(r.old) && readable(r.new) && readable(
        r.note,
    )
}

proof fn lemma_plain_words()
    ensures
        plain_text("pending"@),
        plain_text("renamed"@),
        plain_text("error"@),
        plain_text("conflict"@),
        readable("about to rename"@),
        readable(""@),
        readable("source no longer exists at apply time"@),
        readable("target now exists on disk (would overwrite); skipped"@),
{
    reveal_strlit("pending");
    reveal_strlit("renamed");
    reveal_strlit("error");
    reveal_strlit("conflict");
    reveal_strlit("about to rename");
    reveal_strlit("");
    reveal_strlit("source no longer exists at apply time");
    reveal_strlit("target now exists on disk (would overwrite); skipped");
}

proof fn lemma_marked_readable(v: ApplyView, status: Seq<char>, note: Seq<char>)
    requires
        apply_wf(v),
        v.at < v.queue.len(),
        readable_renames(v.report.actions, v.queue),
    ensures
        readable_renames(v.marked(status, note).actions, v.queue),
{
    let after = v.marked(status, note).actions;
    assert forall|k: int| 0 <= k < v.queue.len() implies {
        let a = after[(#[trigger] v.queue[k]) as int];
        readable(a.hash) && readable(path_text(a.src)) && readable(path_text(a.dst->0))
    } by {
        lemma_marked(v, status, note, k);
        let b = v.report.actions[v.queue[k] as int];
        assert(readable(b.hash));
        assert(v.queue[v.at as int] < v.report.actions.len());
        assert(after[v.queue[k] as int].hash == b.hash);
    }
}

proof fn lemma_next_readable(v: ApplyView, event: EventView)
    requires
        apply_wf(v),
        readable_state(v),
        event matches EventView::Failed(why) ==> readable(why),
    ensures
        readable_state(apply_next(v, event)),
{
    lemma_plain_words();
    if v.at < v.queue.len() {
        lemma_marked_readable(v, "error"@, "source no longer exists at apply time"@);
        lemma_marked_readable(
            v,
            "conflict"@,
            "target now exists on disk (would overwrite); skipped"@,
        );
        lemma_marked_readable(v, "renamed"@, v.current().note);
        if event is Failed {
            lemma_marked_readable(v, "error"@, "rename failed: "@ + event->Failed_0);
        }
    }
}

proof fn lemma_run_readable(report: ReportView, d: Files, troubles: Seq<Option<Seq<char>>>)
    requires
        report.actions.len() <= usize::MAX,
        independent(items_of(report)),
        readable_renames(report.actions, renames_among(report.actions)),
        forall|i: int|
            0 <= i < troubles.len() ==> ((#[trigger] troubles[i]) matches Some(why) ==> readable(
                why,
            )),
    ensures
        readable_state(run_steps(report, d, troubles).v),
        forall|i: int|
            0 <= i < run_steps(report, d, troubles).records.len() ==> readable_record(
                #[trigger] run_steps(report, d, troubles).records[i],
            ),
    decreases troubles.len(),
{
    if troubles.len() > 0 {
        let front = troubles.drop_last();
        assert forall|i: int| 0 <= i < front.len() implies ((#[trigger] front[i]) matches Some(why)
            ==> readable(why)) by {
            assert(front[i] == troubles[i]);
        }
        lemma_run_readable(report, d, front);
        lemma_run_sound(report, d, front);
        let run = run_steps(report, d, front);
        let next = run_steps(report, d, troubles);
        let trouble = troubles[troubles.len() - 1];
        assert(next == run_step(run, trouble));
        match apply_step(run.v) {
            StepView::Finished => {},
            StepView::Probe { src, dst } => {
                lemma_next_readable(
                    run.v,
                    EventView::Probed {
                        src: run.disk.contains_key(src.bytes),
                        dst: run.disk.contains_key(dst.bytes),
                    },
                );
            },
            StepView::Record(r) => {
                lemma_next_readable(run.v, EventView::Recorded);
                assert(readable_record(r)) by {
                    assert(run.v.queue[run.v.at as int] < run.v.report.actions.len());
                }
                assert(next.records == run.records.push(r));
            },
            StepView::Rename { .. } => match trouble {
                Some(why) => {
                    lemma_next_readable(run.v, EventView::Failed(why));
                },
                None => {
                    lemma_next_readable(run.v, EventView::Renamed);
                },
            },
        }
    }
}

/// The records with the times at which they were written.
pub open spec fn timed(records: Seq<RecordView>, times: Seq<Seq<char>>) -> Seq<RowView> {
    Seq::new(
        records.len(),
        |i: int|
            RowView {
                time: times[i],
                status: records[i].status,
                hash: records[i].hash,
                old: records[i].old,
                new: records[i].new,
                note: records[i].note,
            },
    )
}

/// However far a plan was carried out: the text of its log is the text of a table,
/// and undoing what is read from that table brings the disk back. The times in
/// the log need no quotes, and nothing that is logged has a carriage return
/// unless it is quoted.
pub proof fn law_logs_of_broken_runs_bring_the_disk_back(
    report: ReportView,
    d: Files,
    troubles: Seq<Option<Seq<char>>>,
    times: Seq<Seq<char>>,
    platform: Platform,
)
    requires
        report.actions.len() <= usize::MAX,
        independent(items_of(report)),
        readable_renames(report.actions, renames_among(report.actions)),
        forall|i: int|
            0 <= i < troubles.len() ==> ((#[trigger] troubles[i]) matches Some(why) ==> readable(
                why,
            )),
        times.len() == run_steps(report, d, troubles).records.len(),
        forall|i: int| 0 <= i < times.len() ==> plain_text(#[trigger] times[i]),
    ensures
        ({
            let run = run_steps(report, d, troubles);
            let rows = timed(run.records, times);
            let table = log_table(rows);
            &&& log_text(rows) == seq!['\u{feff}'] + csv_text(table)
            &&& is_table(table)
            &&& undo_run(
                undo_start(undo_pairs(table.skip(1), table.len() - 1), platform),
                run.disk,
            ) == d
        }),
{
    let run = run_steps(report, d, troubles);
    let rows = timed(run.records, times);
    lemma_run_readable(report, d, troubles);
    assert forall|i: int| 0 <= i < rows.len() implies plain_row(#[trigger] rows[i]) by {
        assert(readable_record(run.records[i]));
        assert(plain_text(times[i]));
    }
    law_logs_read_back(rows);
    let read = fields_of(rows);
    assert forall|i: int| 0 <= i < read.len() implies {
        let row = #[trigger] read[i];
        let r = run.records[i];
        row.len() == 6 && row.skip(1) == seq![r.status, r.hash, r.old, r.new, r.note]
    } by {
        let r = run.records[i];
        assert(read[i].skip(1) =~= seq![r.status, r.hash, r.old, r.new, r.note]);
    }
    law_broken_runs_can_be_undone(report, d, troubles, read, platform);
}

} // verus!
