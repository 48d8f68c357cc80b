//! Generating a manifest: which files it lists, what it says of them, and sizes
//! and times as people read them.

use vstd::prelude::*;
use vstd::string::*;
use vstd::utf8::*;
use crate::disk::{keep_files, kept_files, walk_views, WalkView, WalkedFile};
use crate::error::Failure;
use crate::hashfile::{entry_views, path_key, EntryView, HashEntry};
use crate::index::Grouping;
use crate::laws::listings::law_listed_files;
use crate::names::passes;
use crate::order::{is_sort_order, sort_order};
use crate::path::{
    arranged,
    path_order,
    path_text,
    path_views,
    relative,
    sort_keys,
    FilePath,
    PathView,
    Platform,
};
use crate::plan::key_bytes;
use crate::text::{
    decimal,
    decimal_text,
    decimal_two,
    digit_char,
    replace_char,
    replaced,
    two_digits,
};

verus! {

broadcast use vstd::seq_lib::group_seq_properties;

// ---------------------------------------------------------------------------
// The files of a manifest
// ---------------------------------------------------------------------------

/// A directory can be scanned if it is one.
pub fn scan_root(path: FilePath, present: bool, is_dir: bool) -> (r: Result<FilePath, Failure>)
    ensures
        r == if present && is_dir {
            Ok::<FilePath, Failure>(path)
        } else {
            Err::<FilePath, Failure>(Failure::CannotScan(path))
        },
{
    if !present || !is_dir {
        return Err(Failure::CannotScan(path));
    }
    Ok(path)
}

pub open spec fn walk_paths(files: Seq<WalkView>) -> Seq<PathView> {
    Seq::new(files.len(), |i: int| files[i].path)
}

/// The files that a manifest lists: those that pass the filter, sorted by path.
pub open spec fn listed_files(walk: Seq<WalkView>, all_files: bool) -> Seq<WalkView> {
    let files = kept_files(walk, all_files);
    arranged(files, sort_order(sort_keys(walk_paths(files))))
}

pub fn select_files(walk: &Vec<WalkedFile>, all_files: bool) -> (r: Vec<WalkedFile>)
    ensures
        walk_views(r@) == listed_files(walk_views(walk@), all_files),
        forall|w: WalkView| #[trigger]
            walk_views(r@).contains(w) <==> walk_views(walk@).contains(w) && passes(
                w.path,
                w.is_file,
                all_files,
            ),
{
    let files = keep_files(walk, all_files);
    let ghost fv = walk_views(files@);
    let mut paths: Vec<FilePath> = Vec::new();
    let mut i: usize = 0;
    while i < files.len()
        invariant
            i <= files@.len(),
            fv == walk_views(files@),
            paths@.len() == i,
            forall|k: int| 0 <= k < i ==> (#[trigger] paths@[k])@ == fv[k].path,
        decreases files@.len() - i,
    {
        paths.push(files[i].path.clone());
        i += 1;
    }
    assert(path_views(paths@) =~= walk_paths(fv));
    let order = path_order(&paths);
    let mut out: Vec<WalkedFile> = Vec::new();
    i = 0;
    while i < order.len()
        invariant
            i <= order@.len(),
            fv == walk_views(files@),
            is_sort_order(sort_keys(walk_paths(fv)), order@),
            out@.len() == i,
            forall|k: int| 0 <= k < i ==> (#[trigger] out@[k])@ == fv[order@[k] as int],
        decreases order@.len() - i,
    {
        assert(order@[i as int] < files@.len());
        out.push(files[order[i]].clone());
        i += 1;
    }
    assert(walk_views(out@) =~= listed_files(walk_views(walk@), all_files));
    proof {
        assert(walk_views(walk@).len() == walk.len());
        assert forall|w: WalkView| #[trigger]
            walk_views(out@).contains(w) <==> walk_views(walk@).contains(w) && passes(
                w.path,
                w.is_file,
                all_files,
            ) by {
            law_listed_files(walk_views(walk@), all_files, w);
        }
    }
    out
}

/// The size of a file; nothing where it is not known.
pub open spec fn size_or_zero(size: Option<u64>) -> u64 {
    match size {
        Some(n) => n,
        None => 0,
    }
}

/// The size of all files together.
pub open spec fn size_sum(files: Seq<WalkView>) -> nat
    decreases files.len(),
{
    if files.len() == 0 {
        0
    } else {
        size_sum(files.drop_last()) + size_or_zero(files.last().size) as nat
    }
}

proof fn lemma_size_sum_grows(files: Seq<WalkView>, i: int)
    requires
        0 <= i <= files.len(),
    ensures
        size_sum(files.take(i)) <= size_sum(files),
    decreases files.len() - i,
{
    if i < files.len() {
        lemma_size_sum_grows(files, i + 1);
        assert(files.take(i + 1).drop_last() =~= files.take(i));
    } else {
        assert(files.take(i) =~= files);
    }
}

/// The size of all files together, where that is a number of 64 bits.
pub fn total_bytes(files: &Vec<WalkedFile>) -> (r: Option<u64>)
    ensures
        match r {
            Some(n) => n == size_sum(walk_views(files@)),
            None => size_sum(walk_views(files@)) > u64::MAX,
        },
{
    let ghost fv = walk_views(files@);
    let mut sum: u64 = 0;
    let mut i: usize = 0;
    assert(fv.take(0) =~= Seq::<WalkView>::empty());
    while i < files.len()
        invariant
            i <= files@.len(),
            fv == walk_views(files@),
            sum == size_sum(fv.take(i as int)),
        decreases files@.len() - i,
    {
        let size = match files[i].size {
            Some(n) => n,
            None => 0,
        };
        proof {
            assert(fv.take(i + 1).drop_last() =~= fv.take(i as int));
            assert(fv.take(i + 1).last() == files@[i as int]@);
            lemma_size_sum_grows(fv, i + 1);
        }
        sum = match sum.checked_add(size) {
            Some(n) => n,
            None => {
                return None;
            },
        };
        i += 1;
    }
    assert(fv.take(i as int) =~= fv);
    Some(sum)
}

/// Some entry is for the path.
pub open spec fn listed(entries: Seq<EntryView>, p: PathView) -> bool {
    exists|k: int| 0 <= k < entries.len() && key_bytes((#[trigger] entries[k]).path) == key_bytes(p)
}

/// How many of the files the entries cover.
pub open spec fn covered_count(files: Seq<WalkView>, entries: Seq<EntryView>) -> nat
    decreases files.len(),
{
    if files.len() == 0 {
        0
    } else {
        covered_count(files.drop_last(), entries) + (if listed(entries, files.last().location()) {
            1nat
        } else {
            0nat
        })
    }
}

/// How many files existing manifests cover, and how many they do not.
pub fn coverage(files: &Vec<WalkedFile>, entries: &Vec<HashEntry>) -> (r: (usize, usize))
    ensures
        r.0 == covered_count(walk_views(files@), entry_views(entries@)),
        r.0 + r.1 == files@.len(),
{
    let ghost ev = entry_views(entries@);
    let mut known = Grouping::new();
    let mut i: usize = 0;
    while i < entries.len()
        invariant
            i <= entries@.len(),
            ev == entry_views(entries@),
            known.wf(),
            known@.len() == i,
            forall|k: int| 0 <= k < i ==> #[trigger] known@[k] == key_bytes(ev[k].path),
        decreases entries@.len() - i,
    {
        known.push(path_key(&entries[i].abs_path).as_str().as_bytes());
        i += 1;
    }
    let ghost fv = walk_views(files@);
    let mut covered: usize = 0;
    let mut orphans: usize = 0;
    i = 0;
    assert(fv.take(0) =~= Seq::<WalkView>::empty());
    while i < files.len()
        invariant
            i <= files@.len(),
            fv == walk_views(files@),
            known.wf(),
            known@.len() == ev.len(),
            forall|k: int| 0 <= k < ev.len() ==> #[trigger] known@[k] == key_bytes(ev[k].path),
            covered == covered_count(fv.take(i as int), ev),
            covered + orphans == i,
        decreases files@.len() - i,
    {
        let at = files[i].location();
        let found = known.has(path_key(&at).as_str().as_bytes());
        proof {
            assert(fv.take(i + 1).drop_last() =~= fv.take(i as int));
            assert(fv.take(i + 1).last() == files@[i as int]@);
            let key = key_bytes(at@);
            if found {
                let k = choose|k: int| 0 <= k < known@.len() && known@[k] == key;
                assert(key_bytes(ev[k].path) == key);
            }
            if listed(ev, at@) {
                let k = choose|k: int|
                    0 <= k < ev.len() && key_bytes((#[trigger] ev[k]).path) == key;
                assert(known@[k] == key);
            }
        }
        if found {
            covered += 1;
        } else {
            orphans += 1;
        }
        i += 1;
    }
    assert(fv.take(i as int) =~= fv);
    (covered, orphans)
}

// ---------------------------------------------------------------------------
// The text of a manifest
// ---------------------------------------------------------------------------

/// A path in a manifest: backslashes separate.
pub open spec fn manifest_path_text(p: PathView) -> Seq<char> {
    if p.platform is Windows {
        path_text(p)
    } else {
        replaced(path_text(p), '/', '\\')
    }
}

/// The line of a file, which is listed as seen from `base`.
pub open spec fn manifest_line(p: PathView, base: PathView, hash: Seq<char>) -> Seq<char> {
    hash + " *"@ + manifest_path_text(relative(p, base)) + "\n"@
}

/// The lines of the files that could be hashed.
pub open spec fn manifest_text(
    files: Seq<WalkView>,
    outcomes: Seq<Result<String, String>>,
    base: PathView,
) -> Seq<char>
    decreases files.len(),
{
    if files.len() == 0 {
        Seq::empty()
    } else {
        let before = manifest_text(files.drop_last(), outcomes.drop_last(), base);
        match outcomes.last() {
            Ok(hash) => before + manifest_line(files.last().path, base, hash@),
            Err(_) => before,
        }
    }
}

/// How many files could not be hashed.
pub open spec fn failure_count(outcomes: Seq<Result<String, String>>) -> nat
    decreases outcomes.len(),
{
    if outcomes.len() == 0 {
        0
    } else {
        failure_count(outcomes.drop_last()) + (if outcomes.last() is Err {
            1nat
        } else {
            0nat
        })
    }
}

/// A manifest, and how many files it lists and leaves out.
#[derive(Debug)]
pub struct Manifest {
    pub text: String,
    pub listed: usize,
    pub errors: usize,
}

/// Writes the manifest of the files, given what came of hashing each.
pub fn write_manifest(
    files: &Vec<WalkedFile>,
    outcomes: &Vec<Result<String, String>>,
    base: &FilePath,
) -> (r: Manifest)
    requires
        files@.len() == outcomes@.len(),
    ensures
        r.text@ == manifest_text(walk_views(files@), outcomes@, base@),
        r.errors == failure_count(outcomes@),
        r.listed + r.errors == files@.len(),
{
    let ghost fv = walk_views(files@);
    let mut text = String::new();
    let mut listed: usize = 0;
    let mut errors: usize = 0;
    let mut i: usize = 0;
    assert(fv.take(0) =~= Seq::<WalkView>::empty());
    assert(outcomes@.take(0) =~= Seq::<Result<String, String>>::empty());
    assert(text@ =~= Seq::<char>::empty());
    while i < files.len()
        invariant
            files@.len() == outcomes@.len(),
            i <= files@.len(),
            fv == walk_views(files@),
            text@ == manifest_text(fv.take(i as int), outcomes@.take(i as int), base@),
            errors == failure_count(outcomes@.take(i as int)),
            listed + errors == i,
        decreases files@.len() - i,
    {
        proof {
            assert(fv.take(i + 1).drop_last() =~= fv.take(i as int));
            assert(fv.take(i + 1).last() == files@[i as int]@);
            assert(outcomes@.take(i + 1).drop_last() =~= outcomes@.take(i as int));
            assert(outcomes@.take(i + 1).last() == outcomes@[i as int]);
        }
        match &outcomes[i] {
            Ok(hash) => {
                let ghost before = text@;
                let rel = files[i].path.relative_to(base);
                let shown = rel.text();
                let shown = match rel.platform {
                    Platform::Windows => shown,
                    _ => replace_char(shown.as_str(), '/', '\\'),
                };
                text.append(hash.as_str());
                text.append(" *");
                text.append(shown.as_str());
                text.append("\n");
                assert(text@ =~= before + manifest_line(fv[i as int].path, base@, hash@));
                listed += 1;
            },
            Err(_) => {
                errors += 1;
            },
        }
        i += 1;
    }
    assert(fv.take(i as int) =~= fv);
    assert(outcomes@.take(i as int) =~= outcomes@);
    Manifest { text, listed, errors }
}

// ---------------------------------------------------------------------------
// Sizes and times
// ---------------------------------------------------------------------------

/// `n / d` to the nearest whole number, and to the even one in the middle.
pub open spec fn nearest(n: nat, d: nat) -> nat {
    let q = n / d;
    let r = n % d;
    if 2 * r < d || (2 * r == d && q % 2 == 0) {
        q
    } else {
        q + 1
    }
}

/// How far apart the numbers near `n` are that have 53 binary digits.
pub open spec fn spacing(n: nat) -> nat
    decreases n,
{
    if n < 0x20_0000_0000_0000 {
        1
    } else {
        2 * spacing(n / 2)
    }
}

/// `n` with 53 binary digits, as a floating-point number holds it.
pub open spec fn with_53_bits(n: nat) -> nat {
    if n < 0x20_0000_0000_0000 {
        n
    } else {
        nearest(n, spacing(n)) * spacing(n)
    }
}

/// `n` bytes in a unit, with one decimal.
pub open spec fn in_unit(n: nat, unit: nat, name: Seq<char>) -> Seq<char> {
    let tenths = nearest(10 * with_53_bits(n), unit);
    decimal_text(tenths / 10) + "."@ + seq![digit_char(tenths % 10)] + name
}

/// A size as people read it.
pub open spec fn size_text(n: nat) -> Seq<char> {
    if n >= 0x100_0000_0000 {
        in_unit(n, 0x100_0000_0000, " TB"@)
    } else if n >= 0x4000_0000 {
        in_unit(n, 0x4000_0000, " GB"@)
    } else if n >= 0x10_0000 {
        in_unit(n, 0x10_0000, " MB"@)
    } else if n >= 0x400 {
        in_unit(n, 0x400, " KB"@)
    } else {
        decimal_text(n) + " B"@
    }
}

fn round_to_even(n: u128, d: u128) -> (r: u128)
    requires
        0 < d < 0x1_0000_0000_0000_0000_0000_0000,
    ensures
        r == nearest(n as nat, d as nat),
        r <= n / d + 1,
{
    let q = n / d;
    let r = n % d;
    assert(q <= n) by (nonlinear_arith)
        requires
            q == n / d,
            0 < d,
    ;
    if 2 * r < d || (2 * r == d && q % 2 == 0) {
        q
    } else {
        assert(q < u128::MAX) by (nonlinear_arith)
            requires
                q == n / d,
                r == n % d,
                r > 0,
                0 < d,
        ;
        q + 1
    }
}

fn spacing_of(n: u64) -> (r: u64)
    ensures
        r == spacing(n as nat),
        1 <= r <= 0x800,
        n < 0x20_0000_0000_0000 ==> r == 1,
{
    let mut m: u64 = n;
    let mut s: u64 = 1;
    let ghost mut k: nat = 0;
    while m >= 0x20_0000_0000_0000
        invariant
            s * spacing(m as nat) == spacing(n as nat),
            n < 0x20_0000_0000_0000 ==> m == n && s == 1,
            k == 0 ==> s == 1 && m <= 0xffff_ffff_ffff_ffff,
            k == 1 ==> s == 2 && m <= 0x7fff_ffff_ffff_ffff,
            k == 2 ==> s == 4 && m <= 0x3fff_ffff_ffff_ffff,
            k == 3 ==> s == 8 && m <= 0x1fff_ffff_ffff_ffff,
            k == 4 ==> s == 16 && m <= 0x0fff_ffff_ffff_ffff,
            k == 5 ==> s == 32 && m <= 0x07ff_ffff_ffff_ffff,
            k == 6 ==> s == 64 && m <= 0x03ff_ffff_ffff_ffff,
            k == 7 ==> s == 128 && m <= 0x01ff_ffff_ffff_ffff,
            k == 8 ==> s == 256 && m <= 0x00ff_ffff_ffff_ffff,
            k == 9 ==> s == 512 && m <= 0x007f_ffff_ffff_ffff,
            k == 10 ==> s == 1024 && m <= 0x003f_ffff_ffff_ffff,
            k == 11 ==> s == 2048 && m <= 0x001f_ffff_ffff_ffff,
            k <= 11,
        decreases m,
    {
        let ghost sp = spacing((m / 2) as nat);
        assert(spacing(m as nat) == 2 * sp);
        assert(s * (2 * sp) == (2 * s) * sp) by (nonlinear_arith);
        m = m / 2;
        s = 2 * s;
        proof {
            k = k + 1;
        }
    }
    s
}

fn unit_text(n: u64, unit: u64, name: &str) -> (r: String)
    requires
        0x400 <= unit <= 0x100_0000_0000,
    ensures
        r@ == in_unit(n as nat, unit as nat, name@),
{
    let s = spacing_of(n);
    let q = round_to_even(n as u128, s as u128);
    assert(q * s <= n + s) by (nonlinear_arith)
        requires
            q <= (n as u128) / (s as u128) + 1,
            s >= 1,
    ;
    let held: u128 = q * (s as u128);
    assert(held == with_53_bits(n as nat)) by {
        if n < 0x20_0000_0000_0000 {
            assert(s == 1);
            assert((n as nat) / 1 == n && (n as nat) % 1 == 0);
            assert(q == n);
            assert(q * (s as u128) == q) by (nonlinear_arith)
                requires
                    s == 1,
            ;
        }
    }
    let tenths = round_to_even(10 * held, unit as u128);
    assert(tenths / 10 <= u64::MAX) by (nonlinear_arith)
        requires
            tenths <= (10 * held) / (unit as int) + 1,
            held <= 0xffff_ffff_ffff_ffff + 0x800,
            unit >= 0x400,
    ;
    let whole: u64 = (tenths / 10) as u64;
    let mut out = decimal(whole);
    out.append(".");
    let digit: u64 = (tenths % 10) as u64;
    out.append(decimal(digit).as_str());
    out.append(name);
    assert(decimal_text(digit as nat) =~= seq![digit_char(digit as nat)]);
    assert(out@ =~= in_unit(n as nat, unit as nat, name@));
    out
}

/// A size as people read it: in the largest unit that it fills, with one
/// decimal, as the nearest floating-point number gives it.
pub fn format_size(bytes: u64) -> (r: String)
    ensures
        r@ == size_text(bytes as nat),
{
    if bytes >= 0x100_0000_0000 {
        unit_text(bytes, 0x100_0000_0000, " TB")
    } else if bytes >= 0x4000_0000 {
        unit_text(bytes, 0x4000_0000, " GB")
    } else if bytes >= 0x10_0000 {
        unit_text(bytes, 0x10_0000, " MB")
    } else if bytes >= 0x400 {
        unit_text(bytes, 0x400, " KB")
    } else {
        let mut out = decimal(bytes);
        out.append(" B");
        out
    }
}

/// A time as people read it: minutes and seconds, with hours where there are any.
pub open spec fn duration_text(secs: nat) -> Seq<char> {
    let hours = secs / 3600;
    let rest = two_digits((secs % 3600) / 60) + ":"@ + two_digits(secs % 60);
    if hours > 0 {
        two_digits(hours) + ":"@ + rest
    } else {
        rest
    }
}

pub fn format_duration(secs: u64) -> (r: String)
    ensures
        r@ == duration_text(secs as nat),
        secs == 0 ==> r@ == "00:00"@,
{
    let hours = secs / 3600;
    let mins = (secs % 3600) / 60;
    let s = secs % 60;
    let mut rest = decimal_two(mins);
    rest.append(":");
    rest.append(decimal_two(s).as_str());
    if hours > 0 {
        let mut out = decimal_two(hours);
        out.append(":");
        out.append(rest.as_str());
        out
    } else {
        proof {
            reveal_strlit("00:00");
            reveal_strlit(":");
            if secs == 0 {
                assert(rest@ =~= "00:00"@);
            }
        }
        rest
    }
}

} // verus!
