//! Laws of recovery: which renames are undone, by what the rows of a log say, and
//! what stands in the rows.

use vstd::prelude::*;
use vstd::utf8::*;
use crate::laws::filters::{called, called_without_dot, lemma_called, lemma_called_without_dot};
use crate::laws::logs::{
    law_no_rename_is_undone_twice,
    law_undo_takes_what_was_renamed,
    report_rows,
};
use crate::logging::{
    about_rename,
    calls_for_undo,
    concluded,
    escaped,
    first_call,
    pair_at,
    quotes_doubled,
    row_lines,
    undo_pairs,
    PairView,
    RowView,
};
use crate::path::{path_text, PathView};
use crate::plan::{ActionView, ReportView};
use crate::report::{action_lines, output_name, undo_log_name, Output};

verus! {

broadcast use vstd::seq_lib::group_seq_properties;

// ---------------------------------------------------------------------------
// What is undone
// ---------------------------------------------------------------------------

/// The row has all six columns, and says that the rename of `old` to `new` has the
/// status.
pub open spec fn says(
    row: Seq<Seq<char>>,
    status: Seq<char>,
    old: Seq<char>,
    new: Seq<char>,
) -> bool {
    row.len() >= 6 && row[1] == status && row[3] == old && row[4] == new
}

/// Some row of the log says so.
pub open spec fn log_says(
    rows: Seq<Seq<Seq<char>>>,
    status: Seq<char>,
    old: Seq<char>,
    new: Seq<char>,
) -> bool {
    exists|i: int| 0 <= i < rows.len() && says(#[trigger] rows[i], status, old, new)
}

/// The row at `i` gives a reason to undo the rename: it says that the rename was
/// made, or announces it and no row says how it ended.
pub open spec fn reason(
    rows: Seq<Seq<Seq<char>>>,
    i: int,
    old: Seq<char>,
    new: Seq<char>,
) -> bool {
    ||| says(rows[i], "renamed"@, old, new)
    ||| says(rows[i], "pending"@, old, new) && !log_says(rows, "renamed"@, old, new) && !log_says(
        rows,
        "error"@,
        old,
        new,
    )
}

proof fn lemma_reason(rows: Seq<Seq<Seq<char>>>, i: int, pair: PairView)
    requires
        0 <= i < rows.len(),
    ensures
        calls_for_undo(rows, i) && pair_at(rows, i) == pair <==> pair.old.len() > 0
            && pair.new.len() > 0 && reason(rows, i, pair.old, pair.new),
{
    if about_rename(rows, i) && pair_at(rows, i) == pair {
        if concluded(rows, i) {
            let k = choose|k: int|
                0 <= k < rows.len() && #[trigger] about_rename(rows, k) && pair_at(rows, k)
                    == pair_at(rows, i) && (rows[k][1] == "renamed"@ || rows[k][1] == "error"@);
            assert(says(rows[k], rows[k][1], pair.old, pair.new));
        }
        if log_says(rows, "renamed"@, pair.old, pair.new) {
            let k = choose|k: int|
                0 <= k < rows.len() && says(#[trigger] rows[k], "renamed"@, pair.old, pair.new);
            assert(about_rename(rows, k) && pair_at(rows, k) == pair);
        }
        if log_says(rows, "error"@, pair.old, pair.new) {
            let k = choose|k: int|
                0 <= k < rows.len() && says(#[trigger] rows[k], "error"@, pair.old, pair.new);
            assert(about_rename(rows, k) && pair_at(rows, k) == pair);
        }
    }
}

/// A rename is undone exactly if it has both paths and the log says that it was
/// made, or announces it and says neither that it was made nor that it failed.
pub proof fn law_what_the_log_says_is_undone(
    rows: Seq<Seq<Seq<char>>>,
    old: Seq<char>,
    new: Seq<char>,
)
    ensures
        undo_pairs(rows, rows.len() as int).contains((PairView { old, new })) <==> old.len() > 0
            && new.len() > 0 && {
            ||| log_says(rows, "renamed"@, old, new)
            ||| log_says(rows, "pending"@, old, new) && !log_says(rows, "error"@, old, new)
        },
        undo_pairs(rows, rows.len() as int).no_duplicates(),
{
    let n = rows.len() as int;
    let pair = PairView { old, new };
    law_undo_takes_what_was_renamed(rows, n, pair);
    law_no_rename_is_undone_twice(rows, n);
    if undo_pairs(rows, n).contains(pair) {
        let i = choose|i: int|
            0 <= i < n && #[trigger] calls_for_undo(rows, i) && pair_at(rows, i) == pair;
        lemma_reason(rows, i, pair);
        if says(rows[i], "renamed"@, old, new) {
            assert(log_says(rows, "renamed"@, old, new));
        } else {
            assert(log_says(rows, "pending"@, old, new));
        }
    }
    if old.len() > 0 && new.len() > 0 {
        if log_says(rows, "renamed"@, old, new) {
            let i = choose|i: int| 0 <= i < n && says(#[trigger] rows[i], "renamed"@, old, new);
            lemma_reason(rows, i, pair);
            assert(calls_for_undo(rows, i));
        } else if log_says(rows, "pending"@, old, new) && !log_says(rows, "error"@, old, new) {
            let i = choose|i: int| 0 <= i < n && says(#[trigger] rows[i], "pending"@, old, new);
            lemma_reason(rows, i, pair);
            assert(calls_for_undo(rows, i));
        }
    }
}

/// Renames are undone in the order of the log: of two that are, the one that comes
/// first has a reason before every reason of the other.
pub proof fn law_undo_keeps_the_order_of_the_log(rows: Seq<Seq<Seq<char>>>, a: int, b: int)
    requires
        0 <= a < b < undo_pairs(rows, rows.len() as int).len(),
    ensures
        ({
            let first = undo_pairs(rows, rows.len() as int)[a];
            let second = undo_pairs(rows, rows.len() as int)[b];
            exists|i: int|
                0 <= i < rows.len() && #[trigger] reason(rows, i, first.old, first.new)
                    && forall|j: int|
                    0 <= j < rows.len() && #[trigger] reason(rows, j, second.old, second.new)
                        ==> i < j
        }),
{
    let n = rows.len() as int;
    let (i, j) = lemma_first_calls(rows, n, a, b);
    let first = undo_pairs(rows, n)[a];
    let second = undo_pairs(rows, n)[b];
    lemma_reason(rows, i, first);
    lemma_reason(rows, j, second);
    assert forall|k: int|
        0 <= k < rows.len() && #[trigger] reason(rows, k, second.old, second.new) implies i < k by {
        lemma_reason(rows, k, second);
        if k < j {
            assert(calls_for_undo(rows, k));
        }
    }
}

proof fn lemma_first_calls(rows: Seq<Seq<Seq<char>>>, n: int, a: int, b: int) -> (r: (int, int))
    requires
        0 <= n <= rows.len(),
        0 <= a < b < undo_pairs(rows, n).len(),
    ensures
        0 <= r.0 < r.1 < n,
        first_call(rows, r.0),
        first_call(rows, r.1),
        pair_at(rows, r.0) == undo_pairs(rows, n)[a],
        pair_at(rows, r.1) == undo_pairs(rows, n)[b],
    decreases n,
{
    let before = undo_pairs(rows, n - 1);
    if b < before.len() {
        lemma_first_calls(rows, n - 1, a, b)
    } else {
        let i = lemma_first_call_of(rows, n - 1, a);
        (i, n - 1)
    }
}

proof fn lemma_first_call_of(rows: Seq<Seq<Seq<char>>>, n: int, a: int) -> (i: int)
    requires
        0 <= n <= rows.len(),
        0 <= a < undo_pairs(rows, n).len(),
    ensures
        0 <= i < n,
        first_call(rows, i),
        pair_at(rows, i) == undo_pairs(rows, n)[a],
    decreases n,
{
    if a < undo_pairs(rows, n - 1).len() {
        lemma_first_call_of(rows, n - 1, a)
    } else {
        n - 1
    }
}

// ---------------------------------------------------------------------------
// Fields
// ---------------------------------------------------------------------------

/// What a reader makes of the inside of a quoted field: of two quotes one. A quote
/// that stands alone would end the field.
pub open spec fn undoubled(s: Seq<char>) -> Option<Seq<char>>
    decreases s.len(),
{
    if s.len() == 0 {
        Some(s)
    } else if s[0] != '"' {
        match undoubled(s.skip(1)) {
            Some(rest) => Some(seq![s[0]] + rest),
            None => None,
        }
    } else if s.len() > 1 && s[1] == '"' {
        match undoubled(s.skip(2)) {
            Some(rest) => Some(seq!['"'] + rest),
            None => None,
        }
    } else {
        None
    }
}

proof fn lemma_doubled_front(c: char, s: Seq<char>)
    ensures
        quotes_doubled(seq![c] + s) == (if c == '"' {
            seq!['"', '"']
        } else {
            seq![c]
        }) + quotes_doubled(s),
    decreases s.len(),
{
    let all = seq![c] + s;
    let head = if c == '"' {
        seq!['"', '"']
    } else {
        seq![c]
    };
    if s.len() == 0 {
        assert(all =~= seq![c]);
        assert(all.drop_last() =~= Seq::<char>::empty());
        assert(quotes_doubled(Seq::<char>::empty()) =~= Seq::<char>::empty());
        assert(quotes_doubled(all) =~= head + quotes_doubled(s));
    } else {
        let front = s.drop_last();
        lemma_doubled_front(c, front);
        assert(all.drop_last() =~= seq![c] + front);
        assert(all.last() == s.last());
        assert(quotes_doubled(all) =~= head + quotes_doubled(s));
    }
}

proof fn lemma_undoubled(s: Seq<char>)
    ensures
        undoubled(quotes_doubled(s)) == Some(s),
    decreases s.len(),
{
    if s.len() == 0 {
        assert(quotes_doubled(s) =~= s);
    } else {
        let rest = s.skip(1);
        let d = quotes_doubled(rest);
        lemma_undoubled(rest);
        assert(s =~= seq![s[0]] + rest);
        lemma_doubled_front(s[0], rest);
        let all = quotes_doubled(s);
        if s[0] == '"' {
            assert(all =~= seq!['"', '"'] + d);
            assert(all.skip(2) =~= d);
        } else {
            assert(all =~= seq![s[0]] + d);
            assert(all.skip(1) =~= d);
        }
    }
}

/// A field stands as it is where no comma, quote or line feed is in it. Else it
/// stands in quotes, and what a reader makes of the inside is the field.
pub proof fn law_fields_are_quoted(s: Seq<char>)
    ensures
        !s.contains(',') && !s.contains('"') && !s.contains('\n') ==> escaped(s) == s,
        s.contains(',') || s.contains('"') || s.contains('\n') ==> {
            &&& escaped(s).len() >= 2
            &&& escaped(s)[0] == '"'
            &&& escaped(s).last() == '"'
            &&& undoubled(escaped(s).subrange(1, escaped(s).len() - 1)) == Some(s)
        },
{
    if s.contains(',') || s.contains('"') || s.contains('\n') {
        let e = escaped(s);
        assert(e.subrange(1, e.len() - 1) =~= quotes_doubled(s));
        lemma_undoubled(s);
    }
}

// ---------------------------------------------------------------------------
// Rows
// ---------------------------------------------------------------------------

/// The rows of a report are those of its actions, then those of its orphans, then
/// those of its warnings, and each says what it is about.
pub proof fn law_rows_of_reports(report: ReportView, now: Seq<char>, i: int)
    requires
        0 <= i < report.actions.len() + report.orphans.len() + report.warnings.len(),
    ensures
        report_rows(report, now).len() == report.actions.len() + report.orphans.len()
            + report.warnings.len(),
        ({
            let fields = report_rows(report, now)[i].fields();
            let a = report.actions.len() as int;
            let o = report.orphans.len() as int;
            if i < a {
                let action = report.actions[i];
                fields == seq![
                    now,
                    action.status,
                    action.hash,
                    path_text(action.src),
                    if action.dst is Some {
                        path_text(action.dst->0)
                    } else {
                        ""@
                    },
                    action.note,
                ]
            } else if i < a + o {
                fields == seq![
                    now,
                    "orphan"@,
                    ""@,
                    path_text(report.orphans[i - a]),
                    ""@,
                    "no hash in any manifest"@,
                ]
            } else {
                fields == seq![now, "warning"@, ""@, ""@, ""@, report.warnings[i - a - o]]
            }
        }),
{
    reveal_strlit("");
    assert(""@ =~= Seq::<char>::empty());
}

/// The texts with commas between them.
pub open spec fn with_commas(texts: Seq<Seq<char>>) -> Seq<char>
    decreases texts.len(),
{
    if texts.len() == 0 {
        Seq::empty()
    } else if texts.len() == 1 {
        texts[0]
    } else {
        with_commas(texts.drop_last()) + seq![','] + texts.last()
    }
}

proof fn lemma_six_with_commas(
    a: Seq<char>,
    b: Seq<char>,
    c: Seq<char>,
    d: Seq<char>,
    e: Seq<char>,
    f: Seq<char>,
)
    ensures
        with_commas(seq![a, b, c, d, e, f]) == a + ","@ + b + ","@ + c + ","@ + d + ","@ + e + ","@
            + f,
{
    reveal_strlit(",");
    assert(","@ =~= seq![',']);
    assert(seq![a, b, c, d, e, f].drop_last() =~= seq![a, b, c, d, e]);
    assert(seq![a, b, c, d, e].drop_last() =~= seq![a, b, c, d]);
    assert(seq![a, b, c, d].drop_last() =~= seq![a, b, c]);
    assert(seq![a, b, c].drop_last() =~= seq![a, b]);
    assert(seq![a, b].drop_last() =~= seq![a]);
    reveal_with_fuel(with_commas, 7);
}

/// A row is a line of its six fields with commas between them. Time and status
/// stand as they are, the others are quoted where they need it.
pub proof fn law_rows_are_lines(rows: Seq<RowView>, row: RowView)
    ensures
        row_lines(Seq::empty()).len() == 0,
        row_lines(rows.push(row)) == row_lines(rows) + with_commas(
            seq![
                row.time,
                row.status,
                escaped(row.hash),
                escaped(row.old),
                escaped(row.new),
                escaped(row.note),
            ],
        ) + seq!['\n'],
{
    assert(rows.push(row).drop_last() =~= rows);
    reveal_strlit("\n");
    lemma_six_with_commas(
        row.time,
        row.status,
        escaped(row.hash),
        escaped(row.old),
        escaped(row.new),
        escaped(row.note),
    );
    assert(row_lines(rows.push(row)) =~= row_lines(rows) + with_commas(
        seq![
            row.time,
            row.status,
            escaped(row.hash),
            escaped(row.old),
            escaped(row.new),
            escaped(row.note),
        ],
    ) + seq!['\n']);
}

/// In the log of a plan, an action is a line like any row, but its hash stands as
/// it is.
pub proof fn law_actions_are_lines(actions: Seq<ActionView>, a: ActionView, now: Seq<char>)
    ensures
        action_lines(Seq::empty(), now).len() == 0,
        action_lines(actions.push(a), now) == action_lines(actions, now) + with_commas(
            seq![
                now,
                a.status,
                a.hash,
                escaped(path_text(a.src)),
                if a.dst is Some {
                    escaped(path_text(a.dst->0))
                } else {
                    Seq::empty()
                },
                escaped(a.note),
            ],
        ) + seq!['\n'],
{
    assert(actions.push(a).drop_last() =~= actions);
    reveal_strlit("\n");
    let to = if a.dst is Some {
        escaped(path_text(a.dst->0))
    } else {
        Seq::empty()
    };
    law_fields_are_quoted(Seq::empty());
    lemma_six_with_commas(now, a.status, a.hash, escaped(path_text(a.src)), to, escaped(a.note));
    assert(action_lines(actions.push(a), now) =~= action_lines(actions, now) + with_commas(
        seq![now, a.status, a.hash, escaped(path_text(a.src)), to, escaped(a.note)],
    ) + seq!['\n']);
}

/// The log of an undo is called after the time, with the extension of the log that
/// is undone, where that is text.
pub proof fn law_undo_logs_keep_the_extension(
    log: PathView,
    stem: Seq<u8>,
    ext: Seq<u8>,
    stamp: Seq<char>,
)
    requires
        called(log, stem, ext),
        valid_utf8(ext),
    ensures
        undo_log_name(log, stamp) == "undo-"@ + stamp + "."@ + decode_utf8(ext),
{
    lemma_called(log, stem, ext);
}

/// Where the log that is undone has no extension, or one that is no text, that of
/// an undo is a CSV file.
pub proof fn law_other_undo_logs_are_tables(log: PathView, stamp: Seq<char>)
    requires
        called_without_dot(log) || exists|stem: Seq<u8>, ext: Seq<u8>| #[trigger]
            called(log, stem, ext) && !valid_utf8(ext),
    ensures
        undo_log_name(log, stamp) == "undo-"@ + stamp + ".csv"@,
{
    if called_without_dot(log) {
        lemma_called_without_dot(log);
    } else {
        let (stem, ext) = choose|stem: Seq<u8>, ext: Seq<u8>| #[trigger]
            called(log, stem, ext) && !valid_utf8(ext);
        lemma_called(log, stem, ext);
    }
    reveal_strlit(".");
    reveal_strlit("csv");
    reveal_strlit(".csv");
    assert("."@ + "csv"@ =~= ".csv"@);
    assert("undo-"@ + stamp + "."@ + "csv"@ =~= "undo-"@ + stamp + ("."@ + "csv"@));
}

/// What the tool writes at different times, and things of different kinds that it
/// writes at one time, have different names.
pub proof fn law_outputs_have_different_names(
    a: Output,
    b: Output,
    s: Seq<char>,
    t: Seq<char>,
)
    requires
        output_name(a, s) == output_name(b, t),
        a == b || s.len() == t.len(),
    ensures
        a == b,
        s == t,
{
    reveal_strlit("dups-dryrun-");
    reveal_strlit("dups-applied-");
    reveal_strlit("dups-manifest-");
    reveal_strlit(".csv");
    reveal_strlit(".xxh3");
    let x = output_name(a, s);
    let y = output_name(b, t);
    assert(x.len() == y.len());
    assert(x[5] == y[5] && x[6] == y[6]);
    let (h, e) = match a {
        Output::DryRun => (12int, 4int),
        Output::Applied => (13int, 4int),
        Output::Manifest => (14int, 5int),
    };
    assert(a == b);
    assert(s =~= x.subrange(h, x.len() - e));
    assert(t =~= y.subrange(h, y.len() - e));
}

} // verus!
