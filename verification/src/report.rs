//! Reports as text: the counts of a summary, the rows of a log, and where logs
//! are kept.

use vstd::prelude::*;
use vstd::string::*;
use vstd::utf8::*;
use crate::index::text_views;
use crate::logging::{escape_csv, escaped, log_line, log_start, row_line, RowView};

use crate::path::{
    extension,
    join,
    path_text,
    path_views,
    split_name,
    with_file_name,
    FilePath,
    PathView,
};
use crate::plan::{action_views, Action, ActionView, Report, ReportView};
use crate::text::{decimal, decimal_text, same_text, string_from_chars, utf8_text};

verus! {

broadcast use vstd::seq_lib::group_seq_properties;

// ---------------------------------------------------------------------------
// Counts
// ---------------------------------------------------------------------------

/// How many actions have the status.
pub open spec fn status_count(actions: Seq<ActionView>, status: Seq<char>) -> nat
    decreases actions.len(),
{
    if actions.len() == 0 {
        0
    } else {
        status_count(actions.drop_last(), status) + (if actions.last().status == status {
            1nat
        } else {
            0nat
        })
    }
}

/// Counts the actions with a status.
pub fn count_status(actions: &Vec<Action>, status: &str) -> (r: usize)
    ensures
        r == status_count(action_views(actions@), status@),
        r <= actions@.len(),
{
    let ghost views = action_views(actions@);
    let mut n: usize = 0;
    let mut i: usize = 0;
    assert(views.take(0) =~= Seq::<ActionView>::empty());
    while i < actions.len()
        invariant
            i <= actions@.len(),
            views == action_views(actions@),
            n == status_count(views.take(i as int), status@),
            n <= i,
        decreases actions@.len() - i,
    {
        proof {
            assert(views.take(i + 1).drop_last() =~= views.take(i as int));
            assert(views.take(i + 1).last() == actions@[i as int]@);
        }
        if same_text(actions[i].status.as_str(), status) {
            n += 1;
        }
        i += 1;
    }
    assert(views.take(i as int) =~= views);
    n
}

/// A line of a summary: what is counted, and how many there are.
#[derive(Debug)]
pub struct SummaryLine {
    pub label: String,
    pub count: usize,
}

pub open spec fn summary_views(v: Seq<SummaryLine>) -> Seq<(Seq<char>, nat)> {
    Seq::new(v.len(), |i: int| (v[i].label@, v[i].count as nat))
}

/// The line for a status, where there is anything to count.
pub open spec fn summary_line(actions: Seq<ActionView>, status: Seq<char>, label: Seq<char>) -> Seq<
    (Seq<char>, nat),
> {
    if status_count(actions, status) > 0 {
        seq![(label, status_count(actions, status))]
    } else {
        Seq::empty()
    }
}

/// The lines of a summary.
pub open spec fn summary(actions: Seq<ActionView>) -> Seq<(Seq<char>, nat)> {
    summary_line(actions, "rename"@, "将重命名"@) + summary_line(actions, "done"@, "已就绪(跳过)"@)
        + summary_line(actions, "conflict"@, "冲突(已拒绝)"@) + summary_line(
        actions,
        "verify-failed"@,
        "校验失败(已拒绝)"@,
    ) + summary_line(actions, "missing"@, "清单有、磁盘无"@) + summary_line(
        actions,
        "not-video"@,
        "非视频(忽略)"@,
    )
}

fn push_summary(out: &mut Vec<SummaryLine>, actions: &Vec<Action>, status: &str, label: &str)
    ensures
        summary_views(final(out)@) == summary_views(old(out)@) + summary_line(
            action_views(actions@),
            status@,
            label@,
        ),
{
    let count = count_status(actions, status);
    let ghost before = summary_views(out@);
    if count > 0 {
        out.push(SummaryLine { label: label.to_string(), count });
        assert(summary_views(out@) =~= before + seq![(label@, count as nat)]);
    } else {
        assert(before + Seq::<(Seq<char>, nat)>::empty() =~= before);
    }
}

/// Sums up the actions of a report.
pub fn summarize(actions: &Vec<Action>) -> (r: Vec<SummaryLine>)
    ensures
        summary_views(r@) == summary(action_views(actions@)),
{
    let mut out: Vec<SummaryLine> = Vec::new();
    push_summary(&mut out, actions, "rename", "将重命名");
    push_summary(&mut out, actions, "done", "已就绪(跳过)");
    push_summary(&mut out, actions, "conflict", "冲突(已拒绝)");
    push_summary(&mut out, actions, "verify-failed", "校验失败(已拒绝)");
    push_summary(&mut out, actions, "missing", "清单有、磁盘无");
    push_summary(&mut out, actions, "not-video", "非视频(忽略)");
    assert(summary_views(out@) =~= summary(action_views(actions@)));
    out
}

// ---------------------------------------------------------------------------
// After an apply
// ---------------------------------------------------------------------------

/// A line across the screen.
pub open spec fn ruled(c: char) -> Seq<char> {
    Seq::new(70, |i: int| c)
}

/// What was renamed and what was not.
pub open spec fn outcome_lines(renamed: nat, errors: nat) -> Seq<Seq<char>> {
    let done = seq![
        ""@,
        ruled('='),
        "执行完成"@,
        ruled('-'),
        "[OK] 成功改名: "@ + decimal_text(renamed) + " 个"@,
    ];
    if errors > 0 {
        done.push("[ERROR] 改名失败: "@ + decimal_text(errors) + " 个"@).push(ruled('='))
    } else {
        done.push(ruled('='))
    }
}

/// What to do next, where anything was renamed.
pub open spec fn advice_lines(renamed: nat, log: Seq<char>) -> Seq<Seq<char>> {
    if renamed > 0 {
        seq![
            ""@,
            "Next steps:"@,
            "  1. 检查结果是否满意"@,
            "  2. 如需撤销所有改名，运行:"@,
            "     dups undo "@ + log,
            "  3. 详细日志见: "@ + log,
        ]
    } else {
        Seq::empty()
    }
}

/// The lines that sum up an apply whose log is called `log`.
pub open spec fn apply_lines(actions: Seq<ActionView>, log: Seq<char>) -> Seq<Seq<char>> {
    let renamed = status_count(actions, "renamed"@);
    let errors = status_count(actions, "error"@);
    outcome_lines(renamed, errors) + advice_lines(renamed, log)
}

fn rule(c: char) -> (r: String)
    ensures
        r@ == ruled(c),
{
    let mut line: Vec<char> = Vec::new();
    while line.len() < 70
        invariant
            line@ == Seq::new(line@.len(), |i: int| c),
            line@.len() <= 70,
        decreases 70 - line@.len(),
    {
        line.push(c);
        assert(line@ =~= Seq::new(line@.len(), |i: int| c));
    }
    string_from_chars(&line)
}

/// A text between two others.
fn between(head: &str, middle: &str, tail: &str) -> (r: String)
    ensures
        r@ == head@ + middle@ + tail@,
{
    let mut r = head.to_string();
    r.append(middle);
    r.append(tail);
    r
}

/// Adds a line.
fn push_line(out: &mut Vec<String>, line: String)
    ensures
        text_views(final(out)@) == text_views(old(out)@).push(line@),
{
    let ghost before = text_views(out@);
    out.push(line);
    assert(text_views(out@) =~= before.push(line@));
}

/// Sums up an apply whose log is called `log`, line by line.
pub fn apply_summary(actions: &Vec<Action>, log: &str) -> (r: Vec<String>)
    ensures
        text_views(r@) == apply_lines(action_views(actions@), log@),
{
    let renamed = count_status(actions, "renamed");
    let errors = count_status(actions, "error");
    let mut out: Vec<String> = Vec::new();
    assert(text_views(out@) =~= Seq::<Seq<char>>::empty());
    push_line(&mut out, "".to_string());
    push_line(&mut out, rule('='));
    push_line(&mut out, "执行完成".to_string());
    push_line(&mut out, rule('-'));
    push_line(&mut out, between("[OK] 成功改名: ", decimal(renamed as u64).as_str(), " 个"));
    if errors > 0 {
        push_line(&mut out, between("[ERROR] 改名失败: ", decimal(errors as u64).as_str(), " 个"));
    }
    push_line(&mut out, rule('='));
    assert(text_views(out@) =~= outcome_lines(renamed as nat, errors as nat));
    let ghost outcome = text_views(out@);
    if renamed > 0 {
        push_line(&mut out, "".to_string());
        push_line(&mut out, "Next steps:".to_string());
        push_line(&mut out, "  1. 检查结果是否满意".to_string());
        push_line(&mut out, "  2. 如需撤销所有改名，运行:".to_string());
        push_line(&mut out, between("     dups undo ", log, ""));
        push_line(&mut out, between("  3. 详细日志见: ", log, ""));
        proof {
            reveal_strlit("");
            assert("     dups undo "@ + log@ + ""@ =~= "     dups undo "@ + log@);
            assert("  3. 详细日志见: "@ + log@ + ""@ =~= "  3. 详细日志见: "@ + log@);
        }
    }
    assert(text_views(out@) =~= outcome + advice_lines(renamed as nat, log@));
    out
}

// ---------------------------------------------------------------------------
// The log of a plan
// ---------------------------------------------------------------------------

pub open spec fn target_text(dst: Option<PathView>) -> Seq<char> {
    match dst {
        Some(p) => path_text(p),
        None => Seq::empty(),
    }
}

/// The line of an action. The hash stands as it is.
pub open spec fn action_line(a: ActionView, now: Seq<char>) -> Seq<char> {
    now + ","@ + a.status + ","@ + a.hash + ","@ + escaped(path_text(a.src)) + ","@ + escaped(
        target_text(a.dst),
    ) + ","@ + escaped(a.note) + "\n"@
}

pub open spec fn action_lines(actions: Seq<ActionView>, now: Seq<char>) -> Seq<char>
    decreases actions.len(),
{
    if actions.len() == 0 {
        Seq::empty()
    } else {
        action_lines(actions.drop_last(), now) + action_line(actions.last(), now)
    }
}

pub open spec fn orphan_row(p: PathView, now: Seq<char>) -> RowView {
    RowView {
        time: now,
        status: "orphan"@,
        hash: ""@,
        old: path_text(p),
        new: ""@,
        note: "no hash in any manifest"@,
    }
}

pub open spec fn orphan_lines(orphans: Seq<PathView>, now: Seq<char>) -> Seq<char>
    decreases orphans.len(),
{
    if orphans.len() == 0 {
        Seq::empty()
    } else {
        orphan_lines(orphans.drop_last(), now) + row_line(orphan_row(orphans.last(), now))
    }
}

pub open spec fn warning_row(warning: Seq<char>, now: Seq<char>) -> RowView {
    RowView { time: now, status: "warning"@, hash: ""@, old: ""@, new: ""@, note: warning }
}

pub open spec fn warning_lines(warnings: Seq<Seq<char>>, now: Seq<char>) -> Seq<char>
    decreases warnings.len(),
{
    if warnings.len() == 0 {
        Seq::empty()
    } else {
        warning_lines(warnings.drop_last(), now) + row_line(warning_row(warnings.last(), now))
    }
}

/// The log of a plan: its actions, then the orphans, then the warnings.
pub open spec fn report_text(report: ReportView, now: Seq<char>) -> Seq<char> {
    log_start() + action_lines(report.actions, now) + orphan_lines(report.orphans, now)
        + warning_lines(report.warnings, now)
}

fn action_text(a: &Action, now: &str) -> (r: String)
    ensures
        r@ == action_line(a@, now@),
{
    let new_path = match &a.dst {
        Some(p) => p.text(),
        None => String::new(),
    };
    assert(new_path@ =~= target_text(a@.dst));
    let mut line = now.to_string();
    line.append(",");
    line.append(a.status.as_str());
    line.append(",");
    line.append(a.hash.as_str());
    line.append(",");
    line.append(escape_csv(a.src.text().as_str()).as_str());
    line.append(",");
    line.append(escape_csv(new_path.as_str()).as_str());
    line.append(",");
    line.append(escape_csv(a.note.as_str()).as_str());
    line.append("\n");
    line
}

/// Writes the log of a plan, as of `now`.
pub fn report_csv(report: &Report, now: &str) -> (r: String)
    ensures
        r@ == report_text(report@, now@),
{
    let mut out = "\u{feff}timestamp,status,hash,old_path,new_path,note\n".to_string();
    let ghost av = action_views(report.actions@);
    let ghost start = out@;
    let mut i: usize = 0;
    assert(av.take(0) =~= Seq::<ActionView>::empty());
    assert(out@ =~= start + action_lines(av.take(0), now@));
    while i < report.actions.len()
        invariant
            i <= report.actions@.len(),
            av == action_views(report.actions@),
            out@ == start + action_lines(av.take(i as int), now@),
        decreases report.actions@.len() - i,
    {
        let ghost before = action_lines(av.take(i as int), now@);
        let line = action_text(&report.actions[i], now);
        out.append(line.as_str());
        i += 1;
        proof {
            assert(av.take(i as int).drop_last() =~= av.take(i - 1));
            assert(av.take(i as int).last() == av[i - 1]);
            assert(start + before + line@ =~= start + (before + line@));
        }
    }
    assert(av.take(i as int) =~= av);
    let ghost ov = path_views(report.orphans@);
    let ghost start = out@;
    i = 0;
    assert(ov.take(0) =~= Seq::<PathView>::empty());
    assert(out@ =~= start + orphan_lines(ov.take(0), now@));
    while i < report.orphans.len()
        invariant
            i <= report.orphans@.len(),
            ov == path_views(report.orphans@),
            out@ == start + orphan_lines(ov.take(i as int), now@),
        decreases report.orphans@.len() - i,
    {
        let ghost before = orphan_lines(ov.take(i as int), now@);
        let text = report.orphans[i].text();
        let line = log_line(now, "orphan", "", text.as_str(), "", "no hash in any manifest");
        out.append(line.as_str());
        i += 1;
        proof {
            assert(ov.take(i as int).drop_last() =~= ov.take(i - 1));
            assert(ov.take(i as int).last() == ov[i - 1]);
            assert(start + before + line@ =~= start + (before + line@));
        }
    }
    assert(ov.take(i as int) =~= ov);
    let ghost wv = text_views(report.warnings@);
    let ghost start = out@;
    i = 0;
    assert(wv.take(0) =~= Seq::<Seq<char>>::empty());
    assert(out@ =~= start + warning_lines(wv.take(0), now@));
    while i < report.warnings.len()
        invariant
            i <= report.warnings@.len(),
            wv == text_views(report.warnings@),
            out@ == start + warning_lines(wv.take(i as int), now@),
        decreases report.warnings@.len() - i,
    {
        let ghost before = warning_lines(wv.take(i as int), now@);
        let line = log_line(now, "warning", "", "", "", report.warnings[i].as_str());
        out.append(line.as_str());
        i += 1;
        proof {
            assert(wv.take(i as int).drop_last() =~= wv.take(i - 1));
            assert(wv.take(i as int).last() == wv[i - 1]);
            assert(start + before + line@ =~= start + (before + line@));
        }
    }
    assert(wv.take(i as int) =~= wv);
    out
}

// ---------------------------------------------------------------------------
// Where logs are kept
// ---------------------------------------------------------------------------

/// The kinds of files that the tool writes into a directory.
#[derive(Clone, Copy, Debug, PartialEq, Eq, Structural)]
pub enum Output {
    DryRun,
    Applied,
    Manifest,
}

pub open spec fn output_name(kind: Output, stamp: Seq<char>) -> Seq<char> {
    match kind {
        Output::DryRun => "dups-dryrun-"@ + stamp + ".csv"@,
        Output::Applied => "dups-applied-"@ + stamp + ".csv"@,
        Output::Manifest => "dups-manifest-"@ + stamp + ".xxh3"@,
    }
}

/// Where a file that the tool writes goes: into the directory it is about.
pub fn output_path(dir: &FilePath, kind: Output, stamp: &str) -> (r: FilePath)
    ensures
        r@ == join(dir@, encode_utf8(output_name(kind, stamp@))),
{
    let (start, end) = match kind {
        Output::DryRun => ("dups-dryrun-", ".csv"),
        Output::Applied => ("dups-applied-", ".csv"),
        Output::Manifest => ("dups-manifest-", ".xxh3"),
    };
    let mut name = start.to_string();
    name.append(stamp);
    name.append(end);
    dir.join(name.as_str().as_bytes())
}

/// The name of the log of an undo: it has the extension of the log that is
/// undone, or `csv`.
pub open spec fn undo_log_name(log: PathView, stamp: Seq<char>) -> Seq<char> {
    let ext = match extension(log) {
        Some(e) if valid_utf8(e) => decode_utf8(e),
        _ => "csv"@,
    };
    "undo-"@ + stamp + "."@ + ext
}

/// Where the log of an undo goes: next to the log that is undone.
pub fn undo_log_path(log: &FilePath, stamp: &str) -> (r: FilePath)
    ensures
        r@ == with_file_name(log@, encode_utf8(undo_log_name(log@, stamp@))),
{
    let ext = match log.file_name() {
        Some(name) => match split_name(&name).1 {
            Some(e) => utf8_text(e.as_slice()),
            None => None,
        },
        None => None,
    };
    let mut name = "undo-".to_string();
    name.append(stamp);
    name.append(".");
    match ext {
        Some(e) => {
            name.append(e.as_str());
        },
        None => {
            name.append("csv");
        },
    }
    assert(name@ =~= undo_log_name(log@, stamp@));
    log.with_file_name(name.as_str().as_bytes())
}

} // verus!
