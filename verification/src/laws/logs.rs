//! Laws of logs: what is logged can be read back, and what a log calls to undo.

use vstd::prelude::*;
use vstd::utf8::*;
use crate::disk::DiskView;
use crate::hashfile::EntryView;
use crate::logging::{
    calls_for_undo,
    csv_line,
    csv_text,
    escaped,
    first_call,
    is_table,
    log_start,
    log_text,
    needs_quotes,
    pair_at,
    readable,
    row_line,
    row_lines,
    undo_pairs,
    PairView,
    RowView,
};
use crate::path::{path_text, PathView};
use crate::plan::{
    contradictions,
    draft,
    entry_actions,
    plan,
    planned_actions,
    reconciled,
    ActionView,
    PlanOptions,
    ReportView,
};
use crate::report::{
    action_line,
    action_lines,
    orphan_lines,
    orphan_row,
    report_text,
    target_text,
    warning_lines,
    warning_row,
};

verus! {

broadcast use vstd::seq_lib::group_seq_properties;

// ---------------------------------------------------------------------------
// Reading back
// ---------------------------------------------------------------------------

/// The names of the columns.
pub open spec fn columns() -> Seq<Seq<char>> {
    seq!["timestamp"@, "status"@, "hash"@, "old_path"@, "new_path"@, "note"@]
}

pub open spec fn fields_of(rows: Seq<RowView>) -> Seq<Seq<Seq<char>>> {
    Seq::new(rows.len(), |i: int| rows[i].fields())
}

/// A log as a table: the names of the columns, then the rows.
pub open spec fn log_table(rows: Seq<RowView>) -> Seq<Seq<Seq<char>>> {
    seq![columns()] + fields_of(rows)
}

/// A row that can be read back: time and status, which are written as they are,
/// need no quotes, and no field has a carriage return unless it is quoted.
pub open spec fn plain_row(row: RowView) -> bool {
    &&& !needs_quotes(row.time)
    &&& !needs_quotes(row.status)
    &&& readable(row.time)
    &&& readable(row.status)
    &&& readable(row.hash)
    &&& readable(row.old)
    &&& readable(row.new)
    &&& readable(row.note)
}

pub open spec fn plain_rows(rows: Seq<RowView>) -> bool {
    forall|i: int| 0 <= i < rows.len() ==> plain_row(#[trigger] rows[i])
}

proof fn lemma_row_line(row: RowView)
    requires
        plain_row(row),
    ensures
        row_line(row) == csv_line(row.fields()) + seq!['\n'],
{
    reveal_strlit(",");
    reveal_strlit("\n");
    assert(","@ =~= seq![',']);
    assert("\n"@ =~= seq!['\n']);
    let f = row.fields();
    lemma_six_fields(f);
    assert(row_line(row) =~= csv_line(f) + seq!['\n']);
}

proof fn lemma_six_fields(f: Seq<Seq<char>>)
    requires
        f.len() == 6,
    ensures
        csv_line(f) == escaped(f[0]) + seq![','] + escaped(f[1]) + seq![','] + escaped(f[2])
            + seq![','] + escaped(f[3]) + seq![','] + escaped(f[4]) + seq![','] + escaped(f[5]),
{
    let f5 = f.drop_last();
    let f4 = f5.drop_last();
    let f3 = f4.drop_last();
    let f2 = f3.drop_last();
    let f1 = f2.drop_last();
    assert(csv_line(f1) == escaped(f[0]));
    assert(csv_line(f2) == csv_line(f1) + seq![','] + escaped(f[1]));
    assert(csv_line(f3) == csv_line(f2) + seq![','] + escaped(f[2]));
    assert(csv_line(f4) == csv_line(f3) + seq![','] + escaped(f[3]));
    assert(csv_line(f5) == csv_line(f4) + seq![','] + escaped(f[4]));
}

proof fn lemma_columns()
    ensures
        log_start() == seq!['\u{feff}'] + csv_line(columns()) + seq!['\n'],
        columns().len() == 6,
        forall|k: int| 0 <= k < 6 ==> readable(#[trigger] columns()[k]),
{
    reveal_strlit("\u{feff}timestamp,status,hash,old_path,new_path,note\n");
    reveal_strlit("timestamp");
    reveal_strlit("status");
    reveal_strlit("hash");
    reveal_strlit("old_path");
    reveal_strlit("new_path");
    reveal_strlit("note");
    let f = columns();
    assert forall|k: int| 0 <= k < 6 implies readable(#[trigger] f[k]) && escaped(f[k])
        == f[k] by {
        assert(!f[k].contains(',') && !f[k].contains('"') && !f[k].contains('\n')
            && !f[k].contains('\r'));
    }
    lemma_six_fields(f);
    assert(log_start() =~= seq!['\u{feff}'] + csv_line(f) + seq!['\n']);
}

proof fn lemma_csv_rows(rows: Seq<RowView>)
    requires
        plain_rows(rows),
    ensures
        csv_text(log_table(rows)) == csv_line(columns()) + seq!['\n'] + row_lines(rows),
    decreases rows.len(),
{
    let table = log_table(rows);
    if rows.len() == 0 {
        assert(table =~= seq![columns()]);
        assert(table.drop_last() =~= Seq::<Seq<Seq<char>>>::empty());
        assert(csv_text(table.drop_last()) =~= Seq::<char>::empty());
        assert(csv_text(table) =~= csv_line(columns()) + seq!['\n']);
    } else {
        let front = rows.drop_last();
        assert forall|i: int| 0 <= i < front.len() implies plain_row(#[trigger] front[i]) by {
            assert(front[i] == rows[i]);
        }
        lemma_csv_rows(front);
        assert(table.drop_last() =~= log_table(front));
        assert(rows[rows.len() - 1] == rows.last());
        lemma_row_line(rows.last());
        assert(table.last() == rows.last().fields());
        assert(csv_text(table) =~= csv_text(log_table(front)) + row_line(rows.last()));
        assert(csv_text(table) =~= csv_line(columns()) + seq!['\n'] + row_lines(rows));
    }
}

/// A log whose rows can be read back is, after its byte order mark, the text of
/// a table with the names of the columns and those rows. So what a reader of CSV
/// finds in it are the rows, field by field, whatever commas, quotes and line
/// breaks the fields have.
pub proof fn law_logs_read_back(rows: Seq<RowView>)
    requires
        plain_rows(rows),
    ensures
        log_text(rows) == seq!['\u{feff}'] + csv_text(log_table(rows)),
        is_table(log_table(rows)),
        log_table(rows).skip(1) == fields_of(rows),
{
    lemma_csv_rows(rows);
    lemma_columns();
    let table = log_table(rows);
    assert(log_text(rows) =~= seq!['\u{feff}'] + csv_text(table));
    assert(table.skip(1) =~= fields_of(rows));
    assert(table[0] == columns());
    assert forall|i: int| 0 <= i < table.len() implies (#[trigger] table[i]).len()
        == table[0].len() by {
        if i > 0 {
            assert(table[i] == rows[i - 1].fields());
        }
    }
    assert forall|i: int, k: int| 0 <= i < table.len() && 0 <= k < table[i].len() implies readable(
        #[trigger] table[i][k],
    ) by {
        if i > 0 {
            assert(table[i] == rows[i - 1].fields());
            assert(plain_row(rows[i - 1]));
        }
    }
}

// ---------------------------------------------------------------------------
// What is undone
// ---------------------------------------------------------------------------

/// A rename is undone exactly if some row of the log says that it was done, or
/// some row announces it and no row says how it ended.
pub proof fn law_undo_takes_what_was_renamed(rows: Seq<Seq<Seq<char>>>, n: int, pair: PairView)
    requires
        0 <= n <= rows.len(),
    ensures
        undo_pairs(rows, n).contains(pair) <==> exists|i: int|
            0 <= i < n && #[trigger] calls_for_undo(rows, i) && pair_at(rows, i) == pair,
    decreases n,
{
    if n > 0 {
        law_undo_takes_what_was_renamed(rows, n - 1, pair);
        let before = undo_pairs(rows, n - 1);
        let now = undo_pairs(rows, n);
        if now.contains(pair) {
            let k = choose|k: int| 0 <= k < now.len() && now[k] == pair;
            if k < before.len() {
                assert(before[k] == pair);
                assert(before.contains(pair));
                let i = choose|i: int|
                    0 <= i < n - 1 && #[trigger] calls_for_undo(rows, i) && pair_at(rows, i)
                        == pair;
                assert(calls_for_undo(rows, i));
            } else {
                assert(calls_for_undo(rows, n - 1));
            }
        }
        if exists|i: int|
            0 <= i < n && #[trigger] calls_for_undo(rows, i) && pair_at(rows, i) == pair {
            let i = choose|i: int|
                0 <= i < n && #[trigger] calls_for_undo(rows, i) && pair_at(rows, i) == pair;
            if first_call(rows, n - 1) && pair_at(rows, n - 1) == pair {
                assert(now[before.len() as int] == pair);
            } else {
                if i == n - 1 {
                    assert(!first_call(rows, n - 1));
                    let k = choose|k: int|
                        0 <= k < n - 1 && #[trigger] calls_for_undo(rows, k) && pair_at(rows, k)
                            == pair_at(rows, n - 1);
                    assert(calls_for_undo(rows, k));
                }
                assert(before.contains(pair));
                let k = choose|k: int| 0 <= k < before.len() && before[k] == pair;
                assert(now[k] == pair);
            }
        }
    }
}

/// No rename is undone twice.
pub proof fn law_no_rename_is_undone_twice(rows: Seq<Seq<Seq<char>>>, n: int)
    requires
        0 <= n <= rows.len(),
    ensures
        forall|k: int, l: int|
            0 <= k < l < undo_pairs(rows, n).len() ==> undo_pairs(rows, n)[k] != undo_pairs(
                rows,
                n,
            )[l],
    decreases n,
{
    if n > 0 {
        law_no_rename_is_undone_twice(rows, n - 1);
        let before = undo_pairs(rows, n - 1);
        let now = undo_pairs(rows, n);
        assert forall|k: int, l: int| 0 <= k < l < now.len() implies now[k] != now[l] by {
            if l == before.len() {
                let pair = now[l];
                assert(now[k] == before[k]);
                if before[k] == pair {
                    assert(before.contains(pair));
                    law_undo_takes_what_was_renamed(rows, n - 1, pair);
                    let i = choose|i: int|
                        0 <= i < n - 1 && #[trigger] calls_for_undo(rows, i) && pair_at(rows, i)
                            == pair;
                    assert(!first_call(rows, n - 1));
                }
            }
        }
    }
}

proof fn lemma_nothing_to_undo(rows: Seq<Seq<Seq<char>>>, n: int)
    requires
        0 <= n <= rows.len(),
        forall|i: int|
            0 <= i < n ==> (#[trigger] rows[i])[1] != "renamed"@ && rows[i][1] != "pending"@,
    ensures
        undo_pairs(rows, n).len() == 0,
    decreases n,
{
    if n > 0 {
        lemma_nothing_to_undo(rows, n - 1);
        assert(rows[n - 1][1] != "renamed"@);
        assert(!first_call(rows, n - 1));
    }
}

// ---------------------------------------------------------------------------
// The log of a plan
// ---------------------------------------------------------------------------

pub open spec fn action_row(a: ActionView, now: Seq<char>) -> RowView {
    RowView {
        time: now,
        status: a.status,
        hash: a.hash,
        old: path_text(a.src),
        new: target_text(a.dst),
        note: a.note,
    }
}

/// The rows of the log of a plan.
pub open spec fn report_rows(report: ReportView, now: Seq<char>) -> Seq<RowView> {
    Seq::new(report.actions.len(), |i: int| action_row(report.actions[i], now)) + Seq::new(
        report.orphans.len(),
        |i: int| orphan_row(report.orphans[i], now),
    ) + Seq::new(report.warnings.len(), |i: int| warning_row(report.warnings[i], now))
}

proof fn lemma_row_lines_append(a: Seq<RowView>, b: Seq<RowView>)
    ensures
        row_lines(a + b) == row_lines(a) + row_lines(b),
    decreases b.len(),
{
    if b.len() == 0 {
        assert(a + b =~= a);
        assert(row_lines(a) + row_lines(b) =~= row_lines(a));
    } else {
        lemma_row_lines_append(a, b.drop_last());
        assert((a + b).drop_last() =~= a + b.drop_last());
        assert((a + b).last() == b.last());
        assert(row_lines(a) + (row_lines(b.drop_last()) + row_line(b.last())) =~= row_lines(a)
            + row_lines(b.drop_last()) + row_line(b.last()));
    }
}

proof fn lemma_action_lines(actions: Seq<ActionView>, now: Seq<char>)
    requires
        forall|i: int| 0 <= i < actions.len() ==> !needs_quotes((#[trigger] actions[i]).hash),
    ensures
        action_lines(actions, now) == row_lines(
            Seq::new(actions.len(), |i: int| action_row(actions[i], now)),
        ),
    decreases actions.len(),
{
    let rows = Seq::new(actions.len(), |i: int| action_row(actions[i], now));
    if actions.len() > 0 {
        let front = actions.drop_last();
        assert forall|i: int| 0 <= i < front.len() implies !needs_quotes(
            (#[trigger] front[i]).hash,
        ) by {
            assert(front[i] == actions[i]);
        }
        lemma_action_lines(front, now);
        assert(rows.drop_last() =~= Seq::new(front.len(), |i: int| action_row(front[i], now)));
        let a = actions[actions.len() - 1];
        assert(!needs_quotes(a.hash));
        assert(action_line(a, now) == row_line(action_row(a, now)));
    }
}

proof fn lemma_orphan_lines(orphans: Seq<PathView>, now: Seq<char>)
    ensures
        orphan_lines(orphans, now) == row_lines(
            Seq::new(orphans.len(), |i: int| orphan_row(orphans[i], now)),
        ),
    decreases orphans.len(),
{
    let rows = Seq::new(orphans.len(), |i: int| orphan_row(orphans[i], now));
    if orphans.len() > 0 {
        let front = orphans.drop_last();
        lemma_orphan_lines(front, now);
        assert(rows.drop_last() =~= Seq::new(front.len(), |i: int| orphan_row(front[i], now)));
    }
}

proof fn lemma_warning_lines(warnings: Seq<Seq<char>>, now: Seq<char>)
    ensures
        warning_lines(warnings, now) == row_lines(
            Seq::new(warnings.len(), |i: int| warning_row(warnings[i], now)),
        ),
    decreases warnings.len(),
{
    let rows = Seq::new(warnings.len(), |i: int| warning_row(warnings[i], now));
    if warnings.len() > 0 {
        let front = warnings.drop_last();
        lemma_warning_lines(front, now);
        assert(rows.drop_last() =~= Seq::new(front.len(), |i: int| warning_row(front[i], now)));
    }
}

/// The log of a plan is a log with a row for each action, each orphan and each
/// warning, where the hashes need no quotes.
pub proof fn law_plan_logs_are_logs(report: ReportView, now: Seq<char>)
    requires
        forall|i: int|
            0 <= i < report.actions.len() ==> !needs_quotes((#[trigger] report.actions[i]).hash),
    ensures
        report_text(report, now) == log_text(report_rows(report, now)),
{
    let a = Seq::new(report.actions.len(), |i: int| action_row(report.actions[i], now));
    let o = Seq::new(report.orphans.len(), |i: int| orphan_row(report.orphans[i], now));
    let w = Seq::new(report.warnings.len(), |i: int| warning_row(report.warnings[i], now));
    lemma_action_lines(report.actions, now);
    lemma_orphan_lines(report.orphans, now);
    lemma_warning_lines(report.warnings, now);
    lemma_row_lines_append(a, o);
    lemma_row_lines_append(a + o, w);
    assert(report_text(report, now) =~= log_start() + (row_lines(a) + row_lines(o) + row_lines(w)));
}

/// A status that a plan gives.
pub open spec fn is_plan_status(s: Seq<char>) -> bool {
    s == "rename"@ || s == "done"@ || s == "missing"@ || s == "conflict"@ || s == "not-video"@ || s
        == "verify-failed"@
}

proof fn lemma_plan_status_words()
    ensures
        forall|s: Seq<char>|
            #[trigger] is_plan_status(s) ==> s != "renamed"@ && s != "pending"@ && s != "error"@,
        "orphan"@ != "renamed"@ && "orphan"@ != "pending"@,
        "warning"@ != "renamed"@ && "warning"@ != "pending"@,
{
    reveal_strlit("rename");
    reveal_strlit("done");
    reveal_strlit("missing");
    reveal_strlit("conflict");
    reveal_strlit("not-video");
    reveal_strlit("verify-failed");
    reveal_strlit("renamed");
    reveal_strlit("pending");
    reveal_strlit("error");
    reveal_strlit("orphan");
    reveal_strlit("warning");
    assert("rename"@.len() == 6 && "done"@.len() == 4 && "missing"@.len() == 7 && "conflict"@.len()
        == 8 && "not-video"@.len() == 9 && "verify-failed"@.len() == 13);
    assert("renamed"@.len() == 7 && "pending"@.len() == 7 && "error"@.len() == 5);
    assert("orphan"@.len() == 6 && "warning"@.len() == 7);
    assert("missing"@[0] == 'm' && "renamed"@[0] == 'r' && "pending"@[0] == 'p' && "warning"@[0]
        == 'w');
}

proof fn lemma_contradiction_statuses(all: Seq<EntryView>, n: int)
    ensures
        forall|k: int|
            0 <= k < contradictions(all, n).len() ==> (#[trigger] contradictions(all, n)[k]).status
                == "conflict"@,
    decreases n,
{
    if n > 0 {
        lemma_contradiction_statuses(all, n - 1);
    }
}

proof fn lemma_entry_statuses(all: Seq<EntryView>, n: int, options: PlanOptions, disk: DiskView)
    ensures
        forall|k: int|
            0 <= k < entry_actions(all, n, options, disk).len() ==> is_plan_status(
                (#[trigger] entry_actions(all, n, options, disk)[k]).status,
            ),
    decreases n,
{
    if n > 0 {
        lemma_entry_statuses(all, n - 1, options, disk);
    }
}

/// A plan gives no action a status that says something was tried.
pub proof fn law_plans_only_plan(all: Seq<EntryView>, options: PlanOptions, disk: DiskView)
    ensures
        forall|k: int|
            0 <= k < planned_actions(all, options, disk).len() ==> is_plan_status(
                (#[trigger] planned_actions(all, options, disk)[k]).status,
            ),
{
    let n = all.len() as int;
    lemma_contradiction_statuses(all, n);
    lemma_entry_statuses(all, n, options, disk);
    let d = draft(all, options, disk);
    let head = contradictions(all, n);
    assert forall|k: int| 0 <= k < d.len() implies is_plan_status(
        (#[trigger] planned_actions(all, options, disk)[k]).status,
    ) by {
        if k < head.len() {
            assert(d[k] == head[k]);
        } else {
            assert(d[k] == entry_actions(all, n, options, disk)[k - head.len()]);
        }
        assert(planned_actions(all, options, disk)[k] == reconciled(d, d[k]));
    }
}

/// The log of a plan calls for no rename to be undone: what was only planned is
/// never reverted.
pub proof fn law_dry_runs_are_never_undone(
    all: Seq<EntryView>,
    options: PlanOptions,
    disk: DiskView,
    now: Seq<char>,
)
    ensures
        ({
            let rows = fields_of(report_rows(plan(all, options, disk), now));
            undo_pairs(rows, rows.len() as int) == Seq::<PairView>::empty()
        }),
{
    let report = plan(all, options, disk);
    let listed = report_rows(report, now);
    let rows = fields_of(listed);
    law_plans_only_plan(all, options, disk);
    lemma_plan_status_words();
    let a = report.actions.len() as int;
    let o = report.orphans.len() as int;
    assert forall|i: int| 0 <= i < rows.len() implies (#[trigger] rows[i])[1] != "renamed"@
        && rows[i][1] != "pending"@ by {
        assert(rows[i][1] == listed[i].status);
        if i < a {
            assert(listed[i] == action_row(report.actions[i], now));
            assert(is_plan_status(report.actions[i].status));
        } else if i < a + o {
            assert(listed[i] == orphan_row(report.orphans[i - a], now));
        } else {
            assert(listed[i] == warning_row(report.warnings[i - a - o], now));
        }
    }
    lemma_nothing_to_undo(rows, rows.len() as int);
}

} // verus!
