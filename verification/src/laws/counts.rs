//! Laws of counts: what is counted and summed up, of files, entries and actions.

use vstd::prelude::*;
use vstd::utf8::*;
use crate::digest::concatenated;
use crate::disk::WalkView;
use crate::generate::{covered_count, failure_count, listed, size_sum};
use crate::hashfile::{path_key_text, EntryView};
use crate::index::lemma_text_bytes_injective;
use crate::plan::ActionView;
use crate::report::{apply_lines, status_count, summary, summary_line};
use crate::text::decimal_text;

verus! {

broadcast use vstd::seq_lib::group_seq_properties;

// ---------------------------------------------------------------------------
// Files
// ---------------------------------------------------------------------------

/// The size of no files is nothing, that of one file is its size where that is
/// known, and that of two lots of files is the sum.
pub proof fn law_sizes_add_up(a: Seq<WalkView>, b: Seq<WalkView>, w: WalkView)
    ensures
        size_sum(Seq::empty()) == 0,
        w.size is Some ==> size_sum(seq![w]) == w.size->0,
        w.size is None ==> size_sum(seq![w]) == 0,
        size_sum(a + b) == size_sum(a) + size_sum(b),
    decreases b.len(),
{
    assert(seq![w].drop_last() =~= Seq::<WalkView>::empty());
    if b.len() == 0 {
        assert(a + b =~= a);
    } else {
        law_sizes_add_up(a, b.drop_last(), w);
        assert((a + b).drop_last() =~= a + b.drop_last());
        assert((a + b).last() == b.last());
    }
}

/// The files that are covered are those for whose location some entry has the same
/// key: as many are counted.
pub proof fn law_covered_files_are_counted(files: Seq<WalkView>, entries: Seq<EntryView>)
    ensures
        covered_count(files, entries) == files.filter(
            |w: WalkView|
                exists|k: int|
                    0 <= k < entries.len() && path_key_text((#[trigger] entries[k]).path)
                        == path_key_text(w.location()),
        ).len(),
    decreases files.len(),
{
    reveal(Seq::filter);
    if files.len() > 0 {
        law_covered_files_are_counted(files.drop_last(), entries);
        let p = files.last().location();
        if listed(entries, p) {
            let k = choose|k: int|
                0 <= k < entries.len() && crate::plan::key_bytes((#[trigger] entries[k]).path)
                    == crate::plan::key_bytes(p);
            lemma_text_bytes_injective(path_key_text(entries[k].path), path_key_text(p));
            assert(path_key_text(entries[k].path) == path_key_text(p));
        } else {
            assert forall|k: int| 0 <= k < entries.len() implies path_key_text(
                (#[trigger] entries[k]).path,
            ) != path_key_text(p) by {
                assert(crate::plan::key_bytes(entries[k].path) != crate::plan::key_bytes(p));
            }
        }
    }
}

/// The files that could not be hashed are counted.
pub proof fn law_failures_are_counted(outcomes: Seq<Result<String, String>>)
    ensures
        failure_count(outcomes) == outcomes.filter(|r: Result<String, String>| r is Err).len(),
    decreases outcomes.len(),
{
    reveal(Seq::filter);
    if outcomes.len() > 0 {
        law_failures_are_counted(outcomes.drop_last());
    }
}

/// Chunks one after the other: all bytes of each, in order.
pub proof fn law_chunks_are_joined(a: Seq<Vec<u8>>, b: Seq<Vec<u8>>, c: Vec<u8>)
    ensures
        concatenated(Seq::empty()).len() == 0,
        concatenated(seq![c]) == c@,
        concatenated(a + b) == concatenated(a) + concatenated(b),
    decreases b.len(),
{
    assert(seq![c].drop_last() =~= Seq::<Vec<u8>>::empty());
    assert(Seq::<u8>::empty() + c@ =~= c@);
    if b.len() == 0 {
        assert(a + b =~= a);
        assert(concatenated(a) + concatenated(b) =~= concatenated(a));
    } else {
        law_chunks_are_joined(a, b.drop_last(), c);
        assert((a + b).drop_last() =~= a + b.drop_last());
        assert((a + b).last() == b.last());
        assert(concatenated(a + b) =~= concatenated(a) + concatenated(b));
    }
}

// ---------------------------------------------------------------------------
// Actions
// ---------------------------------------------------------------------------

/// As many actions are counted as have the status.
pub proof fn law_actions_are_counted(actions: Seq<ActionView>, status: Seq<char>)
    ensures
        status_count(actions, status) == actions.filter(|a: ActionView| a.status == status).len(),
        status_count(actions, status) > 0 <==> exists|i: int|
            0 <= i < actions.len() && (#[trigger] actions[i]).status == status,
    decreases actions.len(),
{
    reveal(Seq::filter);
    if actions.len() > 0 {
        let front = actions.drop_last();
        law_actions_are_counted(front, status);
        if exists|i: int| 0 <= i < front.len() && (#[trigger] front[i]).status == status {
            let i = choose|i: int| 0 <= i < front.len() && (#[trigger] front[i]).status == status;
            assert(actions[i].status == status);
        }
        if exists|i: int| 0 <= i < actions.len() && (#[trigger] actions[i]).status == status {
            let i = choose|i: int|
                0 <= i < actions.len() && (#[trigger] actions[i]).status == status;
            if i < front.len() {
                assert(front[i].status == status);
            }
        }
        if actions.last().status == status {
            assert(actions[actions.len() - 1].status == status);
        }
    }
}

/// What a status is called in a summary.
pub open spec fn is_label(status: Seq<char>, label: Seq<char>) -> bool {
    ||| status == "rename"@ && label == "将重命名"@
    ||| status == "done"@ && label == "已就绪(跳过)"@
    ||| status == "conflict"@ && label == "冲突(已拒绝)"@
    ||| status == "verify-failed"@ && label == "校验失败(已拒绝)"@
    ||| status == "missing"@ && label == "清单有、磁盘无"@
    ||| status == "not-video"@ && label == "非视频(忽略)"@
}

/// A summary has a line for each status that occurs, with its label and how often
/// it occurs, and no other lines.
pub proof fn law_summaries(actions: Seq<ActionView>, line: (Seq<char>, nat))
    ensures
        summary(actions).contains(line) <==> line.1 > 0 && exists|status: Seq<char>| #[trigger]
            is_label(status, line.0) && actions.filter(|a: ActionView| a.status == status).len()
                == line.1,
        summary(actions).len() <= 6,
{
    let r = summary_line(actions, "rename"@, "将重命名"@);
    let d = summary_line(actions, "done"@, "已就绪(跳过)"@);
    let c = summary_line(actions, "conflict"@, "冲突(已拒绝)"@);
    let v = summary_line(actions, "verify-failed"@, "校验失败(已拒绝)"@);
    let m = summary_line(actions, "missing"@, "清单有、磁盘无"@);
    let n = summary_line(actions, "not-video"@, "非视频(忽略)"@);
    assert(is_label("rename"@, "将重命名"@) && is_label("done"@, "已就绪(跳过)"@) && is_label(
        "conflict"@,
        "冲突(已拒绝)"@,
    ) && is_label("verify-failed"@, "校验失败(已拒绝)"@) && is_label(
        "missing"@,
        "清单有、磁盘无"@,
    ) && is_label("not-video"@, "非视频(忽略)"@));
    law_actions_are_counted(actions, "rename"@);
    law_actions_are_counted(actions, "done"@);
    law_actions_are_counted(actions, "conflict"@);
    law_actions_are_counted(actions, "verify-failed"@);
    law_actions_are_counted(actions, "missing"@);
    law_actions_are_counted(actions, "not-video"@);
    lemma_joined_contains(r, d, line);
    lemma_joined_contains(r + d, c, line);
    lemma_joined_contains(r + d + c, v, line);
    lemma_joined_contains(r + d + c + v, m, line);
    lemma_joined_contains(r + d + c + v + m, n, line);
    lemma_line_contains(actions, "rename"@, "将重命名"@, line);
    lemma_line_contains(actions, "done"@, "已就绪(跳过)"@, line);
    lemma_line_contains(actions, "conflict"@, "冲突(已拒绝)"@, line);
    lemma_line_contains(actions, "verify-failed"@, "校验失败(已拒绝)"@, line);
    lemma_line_contains(actions, "missing"@, "清单有、磁盘无"@, line);
    lemma_line_contains(actions, "not-video"@, "非视频(忽略)"@, line);
}

/// The lines of a summary come in one order, and those with nothing to count are
/// left out.
pub proof fn law_summaries_keep_an_order(actions: Seq<ActionView>)
    ensures
        summary(actions) == seq![
            ("将重命名"@, actions.filter(|a: ActionView| a.status == "rename"@).len()),
            ("已就绪(跳过)"@, actions.filter(|a: ActionView| a.status == "done"@).len()),
            ("冲突(已拒绝)"@, actions.filter(|a: ActionView| a.status == "conflict"@).len()),
            (
                "校验失败(已拒绝)"@,
                actions.filter(|a: ActionView| a.status == "verify-failed"@).len(),
            ),
            ("清单有、磁盘无"@, actions.filter(|a: ActionView| a.status == "missing"@).len()),
            ("非视频(忽略)"@, actions.filter(|a: ActionView| a.status == "not-video"@).len()),
        ].filter(|line: (Seq<char>, nat)| line.1 > 0),
{
    let pred = |line: (Seq<char>, nat)| line.1 > 0;
    law_actions_are_counted(actions, "rename"@);
    law_actions_are_counted(actions, "done"@);
    law_actions_are_counted(actions, "conflict"@);
    law_actions_are_counted(actions, "verify-failed"@);
    law_actions_are_counted(actions, "missing"@);
    law_actions_are_counted(actions, "not-video"@);
    let l1 = ("将重命名"@, status_count(actions, "rename"@));
    let l2 = ("已就绪(跳过)"@, status_count(actions, "done"@));
    let l3 = ("冲突(已拒绝)"@, status_count(actions, "conflict"@));
    let l4 = ("校验失败(已拒绝)"@, status_count(actions, "verify-failed"@));
    let l5 = ("清单有、磁盘无"@, status_count(actions, "missing"@));
    let l6 = ("非视频(忽略)"@, status_count(actions, "not-video"@));
    let none = Seq::<(Seq<char>, nat)>::empty();
    lemma_filter_line(none, l1);
    lemma_filter_line(seq![l1], l2);
    lemma_filter_line(seq![l1, l2], l3);
    lemma_filter_line(seq![l1, l2, l3], l4);
    lemma_filter_line(seq![l1, l2, l3, l4], l5);
    lemma_filter_line(seq![l1, l2, l3, l4, l5], l6);
    assert(none.push(l1) =~= seq![l1]);
    assert(seq![l1].push(l2) =~= seq![l1, l2]);
    assert(seq![l1, l2].push(l3) =~= seq![l1, l2, l3]);
    assert(seq![l1, l2, l3].push(l4) =~= seq![l1, l2, l3, l4]);
    assert(seq![l1, l2, l3, l4].push(l5) =~= seq![l1, l2, l3, l4, l5]);
    assert(seq![l1, l2, l3, l4, l5].push(l6) =~= seq![l1, l2, l3, l4, l5, l6]);
    assert(none.filter(pred) =~= none) by {
        reveal(Seq::filter);
    }
    assert(summary(actions) =~= seq![l1, l2, l3, l4, l5, l6].filter(pred));
}

proof fn lemma_filter_line(before: Seq<(Seq<char>, nat)>, line: (Seq<char>, nat))
    ensures
        ({
            let pred = |line: (Seq<char>, nat)| line.1 > 0;
            before.push(line).filter(pred) == before.filter(pred) + (if line.1 > 0 {
                seq![line]
            } else {
                Seq::empty()
            })
        }),
{
    reveal(Seq::filter);
    assert(before.push(line).drop_last() =~= before);
    let pred = |line: (Seq<char>, nat)| line.1 > 0;
    assert(before.filter(pred) + Seq::empty() =~= before.filter(pred));
    assert(before.filter(pred) + seq![line] =~= before.filter(pred).push(line));
}

proof fn lemma_joined_contains<T>(a: Seq<T>, b: Seq<T>, x: T)
    ensures
        (a + b).contains(x) <==> a.contains(x) || b.contains(x),
{
    if a.contains(x) {
        let i = choose|i: int| 0 <= i < a.len() && a[i] == x;
        assert((a + b)[i] == x);
    }
    if b.contains(x) {
        let i = choose|i: int| 0 <= i < b.len() && b[i] == x;
        assert((a + b)[a.len() + i] == x);
    }
    if (a + b).contains(x) {
        let i = choose|i: int| 0 <= i < a.len() + b.len() && (a + b)[i] == x;
        if i < a.len() {
            assert(a[i] == x);
        } else {
            assert(b[i - a.len()] == x);
        }
    }
}

proof fn lemma_line_contains(
    actions: Seq<ActionView>,
    status: Seq<char>,
    label: Seq<char>,
    line: (Seq<char>, nat),
)
    ensures
        summary_line(actions, status, label).contains(line) <==> line.0 == label && line.1 > 0
            && line.1 == status_count(actions, status),
{
    let l = summary_line(actions, status, label);
    if status_count(actions, status) > 0 {
        assert(l[0] == (label, status_count(actions, status)));
    }
}

/// What is said after an apply depends on how many renames were made and how many
/// failed, and on nothing else of the actions.
pub proof fn law_applies_are_summed_up(a: Seq<ActionView>, b: Seq<ActionView>, log: Seq<char>)
    requires
        a.filter(|x: ActionView| x.status == "renamed"@).len() == b.filter(
            |x: ActionView| x.status == "renamed"@,
        ).len(),
        a.filter(|x: ActionView| x.status == "error"@).len() == b.filter(
            |x: ActionView| x.status == "error"@,
        ).len(),
    ensures
        apply_lines(a, log) == apply_lines(b, log),
{
    law_actions_are_counted(a, "renamed"@);
    law_actions_are_counted(b, "renamed"@);
    law_actions_are_counted(a, "error"@);
    law_actions_are_counted(b, "error"@);
}

/// After an apply the renames that were made are told. Those that failed are told
/// where there are any; how to undo the renames, and where the log is, where any
/// were made.
pub proof fn law_applies_are_told(actions: Seq<ActionView>, log: Seq<char>)
    ensures
        ({
            let renamed = actions.filter(|x: ActionView| x.status == "renamed"@).len();
            let errors = actions.filter(|x: ActionView| x.status == "error"@).len();
            let lines = apply_lines(actions, log);
            let told = if errors > 0 {
                7int
            } else {
                6int
            };
            &&& lines.len() == told + (if renamed > 0 {
                6int
            } else {
                0int
            })
            &&& lines[0] == ""@
            &&& lines[1] == Seq::new(70, |i: int| '=')
            &&& lines[2] == "执行完成"@
            &&& lines[3] == Seq::new(70, |i: int| '-')
            &&& lines[4] == "[OK] 成功改名: "@ + decimal_text(renamed) + " 个"@
            &&& errors > 0 ==> lines[5] == "[ERROR] 改名失败: "@ + decimal_text(errors) + " 个"@
            &&& lines[told - 1] == Seq::new(70, |i: int| '=')
            &&& renamed > 0 ==> lines[told + 4] == "     dups undo "@ + log && lines[told + 5]
                == "  3. 详细日志见: "@ + log
        }),
{
    law_actions_are_counted(actions, "renamed"@);
    law_actions_are_counted(actions, "error"@);
}

} // verus!
