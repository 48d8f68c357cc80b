//! Laws of listings: which of the files that a walk met are listed, which are
//! taken for manifests, and in what order they come.

use vstd::prelude::*;
use vstd::utf8::*;
use crate::disk::{kept_files, WalkView};
use crate::generate::{listed_files, walk_paths};
use crate::hashfile::{is_manifest_name, manifests_among};
use crate::laws::filters::{called, law_what_is_looked_at, spells};
use crate::laws::names::{is_stamp, lemma_output_name};
use crate::names::{passes, video_extensions, video_file};
use crate::order::{is_sort_order, lemma_lex_irreflexive, lemma_sort_order, lex_less, sort_order};
use crate::path::{arranged, file_name, join, sort_key, sort_keys, sorted_paths, PathView};
use crate::path_facts::settled;
use crate::report::{output_name, Output};
use crate::text::{has_infix, has_prefix, has_suffix, same_ignoring_ascii_case};

verus! {

broadcast use vstd::seq_lib::group_seq_properties;

// ---------------------------------------------------------------------------
// Parts of texts
// ---------------------------------------------------------------------------

/// `s` is `part` and something after it exactly if it starts with `part`.
pub proof fn law_prefix<T>(s: Seq<T>, part: Seq<T>)
    ensures
        has_prefix(s, part) <==> exists|rest: Seq<T>| s == #[trigger] (part + rest),
{
    if has_prefix(s, part) {
        assert(s =~= part + s.skip(part.len() as int));
    }
    if exists|rest: Seq<T>| s == #[trigger] (part + rest) {
        let rest = choose|rest: Seq<T>| s == #[trigger] (part + rest);
        assert(s.take(part.len() as int) =~= part);
    }
}

/// `s` is something and `part` after it exactly if it ends in `part`.
pub proof fn law_suffix<T>(s: Seq<T>, part: Seq<T>)
    ensures
        has_suffix(s, part) <==> exists|head: Seq<T>| s == #[trigger] (head + part),
{
    if has_suffix(s, part) {
        assert(s =~= s.take(s.len() - part.len()) + part);
    }
    if exists|head: Seq<T>| s == #[trigger] (head + part) {
        let head = choose|head: Seq<T>| s == #[trigger] (head + part);
        assert(s.skip(s.len() - part.len()) =~= part);
    }
}

/// `s` is something, `part` and something more exactly if it holds `part`.
pub proof fn law_infix(s: Seq<u8>, part: Seq<u8>)
    ensures
        has_infix(s, part) <==> exists|head: Seq<u8>, rest: Seq<u8>|
            s == #[trigger] (head + part + rest),
{
    let n = part.len() as int;
    if has_infix(s, part) {
        let i = choose|i: int|
            0 <= i <= s.len() - n && #[trigger] s.subrange(i, i + n) == part;
        assert(s =~= s.take(i) + s.subrange(i, i + n) + s.skip(i + n));
    }
    if exists|head: Seq<u8>, rest: Seq<u8>| s == #[trigger] (head + part + rest) {
        let (head, rest) = choose|head: Seq<u8>, rest: Seq<u8>|
            s == #[trigger] (head + part + rest);
        assert(s.subrange(head.len() as int, head.len() + n) =~= part);
    }
}

/// The bytes end in the text.
pub open spec fn ends_in(s: Seq<u8>, text: Seq<char>) -> bool {
    exists|head: Seq<u8>| s == #[trigger] (head + encode_utf8(text))
}

/// The text stands somewhere in the bytes.
pub open spec fn holds(s: Seq<u8>, text: Seq<char>) -> bool {
    exists|head: Seq<u8>, rest: Seq<u8>| s == #[trigger] (head + encode_utf8(text) + rest)
}

// ---------------------------------------------------------------------------
// Sorted lists
// ---------------------------------------------------------------------------

/// What a filter leaves: the items that meet it, none more often than before.
pub proof fn lemma_filter<T>(s: Seq<T>, pred: spec_fn(T) -> bool, x: T)
    ensures
        s.filter(pred).contains(x) <==> s.contains(x) && pred(x),
        s.filter(pred).len() <= s.len(),
        s.no_duplicates() ==> s.filter(pred).no_duplicates(),
    decreases s.len(),
{
    reveal(Seq::filter);
    if s.len() > 0 {
        let front = s.drop_last();
        let last = s.last();
        lemma_filter(front, pred, x);
        lemma_filter(front, pred, last);
        assert(s =~= front.push(last));
        lemma_push_contains(front, last, x);
        lemma_push_contains(front.filter(pred), last, x);
        if s.no_duplicates() && front.contains(last) {
            let i = choose|i: int| 0 <= i < front.len() && front[i] == last;
            assert(s[i] == s[s.len() - 1]);
        }
        if s.no_duplicates() {
            assert(front.no_duplicates());
        }
    } else {
        assert(s.filter(pred) =~= s);
    }
}

proof fn lemma_push_contains<T>(s: Seq<T>, last: T, x: T)
    ensures
        s.push(last).contains(x) <==> s.contains(x) || x == last,
{
    if s.contains(x) {
        let i = choose|i: int| 0 <= i < s.len() && s[i] == x;
        assert(s.push(last)[i] == x);
    }
    assert(s.push(last)[s.len() as int] == last);
    if s.push(last).contains(x) && x != last {
        let i = choose|i: int| 0 <= i < s.len() + 1 && s.push(last)[i] == x;
        assert(s[i] == x);
    }
}

/// A list that was put in the order of its keys holds the same items, as many,
/// and none of them comes after one with a greater key.
pub proof fn lemma_arranged<T>(s: Seq<T>, keys: Seq<Seq<u16>>)
    requires
        keys.len() == s.len(),
        s.len() <= usize::MAX,
    ensures
        arranged(s, sort_order(keys)).len() == s.len(),
        forall|x: T| arranged(s, sort_order(keys)).contains(x) <==> #[trigger] s.contains(x),
        s.no_duplicates() ==> arranged(s, sort_order(keys)).no_duplicates(),
        forall|i: int|
            0 <= i < s.len() ==> (#[trigger] sort_order(keys)[i]) < s.len() && arranged(
                s,
                sort_order(keys),
            )[i] == s[sort_order(keys)[i] as int],
        forall|i: int, j: int|
            0 <= i < j < s.len() ==> !lex_less(
                keys[(#[trigger] sort_order(keys)[j]) as int],
                keys[(#[trigger] sort_order(keys)[i]) as int],
            ),
{
    lemma_sort_order(keys);
    let order = sort_order(keys);
    let a = arranged(s, order);
    assert forall|x: T| a.contains(x) <==> #[trigger] s.contains(x) by {
        if a.contains(x) {
            let i = choose|i: int| 0 <= i < a.len() && a[i] == x;
            assert(s[order[i] as int] == x);
        }
        if s.contains(x) {
            let k = choose|k: int| 0 <= k < s.len() && s[k] == x;
            assert(order.contains(k as usize));
            let i = choose|i: int| 0 <= i < order.len() && order[i] == k as usize;
            assert(a[i] == x);
        }
    }
    assert forall|i: int, j: int| 0 <= i < j < s.len() implies !lex_less(
        keys[(#[trigger] order[j]) as int],
        keys[(#[trigger] order[i]) as int],
    ) && order[i] != order[j] by {
        lemma_not_after(keys, order, i, j);
    }
    if s.no_duplicates() {
        assert forall|i: int, j: int| 0 <= i < a.len() && 0 <= j < a.len() && i != j implies a[i]
            != a[j] by {
            if i < j {
                assert(order[i] != order[j]);
            } else {
                assert(order[j] != order[i]);
            }
            assert(s[order[i] as int] != s[order[j] as int]);
        }
    }
}

proof fn lemma_not_after(keys: Seq<Seq<u16>>, order: Seq<usize>, i: int, j: int)
    requires
        is_sort_order(keys, order),
        0 <= i < j < order.len(),
    ensures
        order[i] != order[j],
        !lex_less(keys[order[j] as int], keys[order[i] as int]),
{
    assert(crate::order::precedes(keys, order[i], order[j]));
    let (a, b) = (keys[order[i] as int], keys[order[j] as int]);
    lemma_lex_irreflexive(a);
    if lex_less(b, a) && lex_less(a, b) {
        crate::order::lemma_lex_transitive(a, b, a);
    }
}

/// Sorting paths keeps them all, each as often, and puts none before one with a
/// smaller key.
pub proof fn law_sorted_paths(s: Seq<PathView>, p: PathView)
    requires
        s.len() <= usize::MAX,
    ensures
        sorted_paths(s).len() == s.len(),
        sorted_paths(s).contains(p) <==> s.contains(p),
        s.no_duplicates() ==> sorted_paths(s).no_duplicates(),
        forall|i: int, j: int|
            0 <= i < j < s.len() ==> !lex_less(
                sort_key(#[trigger] sorted_paths(s)[j]),
                sort_key(#[trigger] sorted_paths(s)[i]),
            ),
{
    let keys = sort_keys(s);
    lemma_arranged(s, keys);
    assert forall|i: int, j: int| 0 <= i < j < s.len() implies !lex_less(
        sort_key(#[trigger] sorted_paths(s)[j]),
        sort_key(#[trigger] sorted_paths(s)[i]),
    ) by {
        let (a, b) = (sort_order(keys)[i] as int, sort_order(keys)[j] as int);
        assert(keys[a] == sort_key(s[a]));
        assert(keys[b] == sort_key(s[b]));
    }
}

/// Paths that sort alike keep their order.
pub proof fn law_equal_paths_keep_their_order(s: Seq<PathView>, i: int, j: int) -> (r: (int, int))
    requires
        s.len() <= usize::MAX,
        0 <= i < j < s.len(),
        sort_key(s[i]) == sort_key(s[j]),
    ensures
        0 <= r.0 < r.1 < sorted_paths(s).len(),
        sorted_paths(s)[r.0] == s[i],
        sorted_paths(s)[r.1] == s[j],
{
    let keys = sort_keys(s);
    lemma_sort_order(keys);
    let order = sort_order(keys);
    assert(order.contains(i as usize) && order.contains(j as usize));
    let a = choose|a: int| 0 <= a < order.len() && order[a] == i as usize;
    let b = choose|b: int| 0 <= b < order.len() && order[b] == j as usize;
    assert(a != b);
    if b < a {
        assert(crate::order::precedes(keys, order[b], order[a]));
        lemma_lex_irreflexive(keys[i]);
        assert(keys[i] == keys[j]);
    }
    (a, b)
}

/// A key sorts before another exactly if it is a proper beginning of it, or the
/// first number in which they differ is smaller in it.
pub proof fn law_order_of_keys(a: Seq<u16>, b: Seq<u16>)
    ensures
        lex_less(a, b) <==> exists|k: int|
            0 <= k <= a.len() && k < b.len() && #[trigger] a.take(k) == b.take(k) && (k == a.len()
                || a[k] < b[k]),
    decreases a.len(),
{
    if a.len() > 0 && b.len() > 0 {
        let (x, y) = (a.drop_first(), b.drop_first());
        law_order_of_keys(x, y);
        if lex_less(a, b) {
            if a[0] < b[0] {
                assert(a.take(0) =~= b.take(0));
            } else {
                let k = choose|k: int|
                    0 <= k <= x.len() && k < y.len() && #[trigger] x.take(k) == y.take(k) && (k
                        == x.len() || x[k] < y[k]);
                lemma_take_first(a, k);
                lemma_take_first(b, k);
                assert(a.take(k + 1) == b.take(k + 1));
            }
        }
        if exists|k: int|
            0 <= k <= a.len() && k < b.len() && #[trigger] a.take(k) == b.take(k) && (k == a.len()
                || a[k] < b[k]) {
            let k = choose|k: int|
                0 <= k <= a.len() && k < b.len() && #[trigger] a.take(k) == b.take(k) && (k
                    == a.len() || a[k] < b[k]);
            if k > 0 {
                assert(a.take(k)[0] == a[0] && b.take(k)[0] == b[0]);
                assert(x.take(k - 1) =~= a.take(k).drop_first());
                assert(y.take(k - 1) =~= b.take(k).drop_first());
                assert(lex_less(x, y));
            }
        }
    } else if a.len() == 0 && b.len() > 0 {
        assert(a.take(0) =~= b.take(0));
    }
}

proof fn lemma_take_first(a: Seq<u16>, k: int)
    requires
        0 <= k < a.len(),
    ensures
        a.take(k + 1) == seq![a[0]] + a.drop_first().take(k),
{
    assert(a.take(k + 1) =~= seq![a[0]] + a.drop_first().take(k));
}

// ---------------------------------------------------------------------------
// The files that are listed
// ---------------------------------------------------------------------------

/// A file is kept exactly if the walk met it and it is one to look at, and as
/// often; what is kept stays in the order of the walk.
pub proof fn law_kept_files(walk: Seq<WalkView>, all_files: bool, w: WalkView)
    ensures
        kept_files(walk, all_files).contains(w) <==> walk.contains(w) && passes(
            w.path,
            w.is_file,
            all_files,
        ),
        passes(w.path, w.is_file, all_files) ==> kept_files(walk.push(w), all_files) == kept_files(
            walk,
            all_files,
        ).push(w),
        !passes(w.path, w.is_file, all_files) ==> kept_files(walk.push(w), all_files) == kept_files(
            walk,
            all_files,
        ),
        kept_files(Seq::empty(), all_files).len() == 0,
        kept_files(walk, all_files).len() <= walk.len(),
        walk.no_duplicates() ==> kept_files(walk, all_files).no_duplicates(),
{
    let pred = |w: WalkView| passes(w.path, w.is_file, all_files);
    lemma_filter(walk, pred, w);
    reveal(Seq::filter);
    assert(walk.push(w).drop_last() =~= walk);
}

/// Where every file is asked for, each regular file is kept but for those of the
/// system, manifests and our own logs, whatever it is called.
pub proof fn law_all_files_are_listed(walk: Seq<WalkView>, w: WalkView)
    requires
        walk.len() <= usize::MAX,
    ensures
        listed_files(walk, true).contains(w) <==> walk.contains(w) && passes(
            w.path,
            w.is_file,
            true,
        ),
        listed_files(walk, false).contains(w) <==> listed_files(walk, true).contains(w)
            && video_file(w.path, video_extensions()),
{
    law_listed_files(walk, true, w);
    law_listed_files(walk, false, w);
    assert(passes(w.path, w.is_file, false) <==> passes(w.path, w.is_file, true) && video_file(
        w.path,
        video_extensions(),
    ));
}

/// A manifest lists exactly the files of the walk that are to be looked at, each
/// as often as the walk met it.
pub proof fn law_listed_files(walk: Seq<WalkView>, all_files: bool, w: WalkView)
    requires
        walk.len() <= usize::MAX,
    ensures
        listed_files(walk, all_files).contains(w) <==> walk.contains(w) && passes(
            w.path,
            w.is_file,
            all_files,
        ),
        listed_files(walk, all_files).len() == walk.filter(
            |w: WalkView| passes(w.path, w.is_file, all_files),
        ).len(),
        walk.no_duplicates() ==> listed_files(walk, all_files).no_duplicates(),
{
    law_kept_files(walk, all_files, w);
    let files = kept_files(walk, all_files);
    lemma_arranged(files, sort_keys(walk_paths(files)));
    assert(arranged(files, sort_order(sort_keys(walk_paths(files)))).contains(w)
        <==> files.contains(w));
}

/// The files of a manifest come in the order of their paths.
pub proof fn law_listed_files_are_sorted(walk: Seq<WalkView>, all_files: bool, i: int, j: int)
    requires
        walk.len() <= usize::MAX,
        0 <= i < j < listed_files(walk, all_files).len(),
    ensures
        !lex_less(
            sort_key(listed_files(walk, all_files)[j].path),
            sort_key(listed_files(walk, all_files)[i].path),
        ),
{
    law_kept_files(walk, all_files, arbitrary());
    let files = kept_files(walk, all_files);
    let keys = sort_keys(walk_paths(files));
    lemma_arranged(files, keys);
    let (a, b) = (sort_order(keys)[i] as int, sort_order(keys)[j] as int);
    assert(keys[a] == sort_key(files[a].path));
    assert(keys[b] == sort_key(files[b].path));
}

/// Where every file is asked for, a regular file `stem.ext` is listed whatever its
/// extension says, unless it says that the file is one of the system or a manifest,
/// or the file is one of our logs.
pub proof fn law_any_extension_is_listed(
    walk: Seq<WalkView>,
    w: WalkView,
    stem: Seq<u8>,
    ext: Seq<u8>,
)
    requires
        walk.len() <= usize::MAX,
        called(w.path, stem, ext),
        !same_ignoring_ascii_case(ext, encode_utf8("xxh3"@)),
        !same_ignoring_ascii_case(ext, encode_utf8("xxh"@)),
        ext != encode_utf8("csv"@),
    ensures
        listed_files(walk, true).contains(w) <==> walk.contains(w) && w.is_file && !{
            ||| spells(ext, "exe"@) || spells(ext, "dll"@) || spells(ext, "sys"@)
            ||| spells(ext, "driver"@) || spells(ext, "scr"@) || spells(ext, "bat"@)
            ||| spells(ext, "cmd"@) || spells(ext, "ps1"@) || spells(ext, "msi"@)
            ||| spells(ext, "lnk"@) || spells(ext, "url"@) || spells(ext, "desktop"@)
            ||| spells(ext, "app"@) || spells(ext, "ini"@) || spells(ext, "config"@)
            ||| spells(ext, "conf"@)
        },
{
    law_listed_files(walk, true, w);
    law_what_is_looked_at(w.path, stem, ext, w.is_file, true);
}

/// Unless every file is asked for, exactly the videos among these are listed.
pub proof fn law_videos_are_listed(
    walk: Seq<WalkView>,
    w: WalkView,
    stem: Seq<u8>,
    ext: Seq<u8>,
)
    requires
        walk.len() <= usize::MAX,
        called(w.path, stem, ext),
        !same_ignoring_ascii_case(ext, encode_utf8("xxh3"@)),
        !same_ignoring_ascii_case(ext, encode_utf8("xxh"@)),
        ext != encode_utf8("csv"@),
    ensures
        listed_files(walk, false).contains(w) <==> listed_files(walk, true).contains(w) && {
            ||| spells(ext, "mp4"@) || spells(ext, "mov"@) || spells(ext, "mxf"@)
            ||| spells(ext, "avi"@) || spells(ext, "mts"@) || spells(ext, "m2ts"@)
            ||| spells(ext, "m2t"@) || spells(ext, "ts"@) || spells(ext, "mkv"@)
            ||| spells(ext, "m4v"@) || spells(ext, "mpg"@) || spells(ext, "mpeg"@)
            ||| spells(ext, "wmv"@) || spells(ext, "braw"@) || spells(ext, "r3d"@)
            ||| spells(ext, "ari"@) || spells(ext, "arx"@) || spells(ext, "insv"@)
            ||| spells(ext, "lrv"@) || spells(ext, "3gp"@) || spells(ext, "vob"@)
            ||| spells(ext, "mod"@) || spells(ext, "tod"@)
        },
{
    law_listed_files(walk, true, w);
    law_listed_files(walk, false, w);
    law_what_is_looked_at(w.path, stem, ext, w.is_file, true);
    law_what_is_looked_at(w.path, stem, ext, w.is_file, false);
}

// ---------------------------------------------------------------------------
// The manifests that are found
// ---------------------------------------------------------------------------

proof fn lemma_short_is_not_long(name: Seq<u8>)
    ensures
        !(has_suffix(name, encode_utf8(".xxh"@)) && has_suffix(name, encode_utf8(".xxh3"@))),
{
    reveal_strlit(".xxh3");
    reveal_strlit(".xxh");
    assert(is_ascii_chars(".xxh3"@));
    assert(is_ascii_chars(".xxh"@));
    is_ascii_chars_encode_utf8(".xxh3"@);
    is_ascii_chars_encode_utf8(".xxh"@);
    let (long, short) = (encode_utf8(".xxh3"@), encode_utf8(".xxh"@));
    assert(".xxh3"@[4] as u8 == long[4]);
    assert(".xxh"@[3] as u8 == short[3]);
    if has_suffix(name, short) && has_suffix(name, long) {
        assert(name.skip(name.len() - 4)[3] == name[name.len() - 1]);
        assert(name.skip(name.len() - 5)[4] == name[name.len() - 1]);
    }
}

/// The name of the path is text that ends as the pattern ends, in `.xxh3` or in
/// `.xxh`, and nowhere says `_renamed`.
pub open spec fn called_as_manifest(p: PathView, pattern: Seq<char>) -> bool {
    &&& file_name(p) is Some
    &&& valid_utf8(file_name(p)->0)
    &&& !holds(file_name(p)->0, "_renamed"@)
    &&& {
        ||| ends_in(encode_utf8(pattern), ".xxh3"@) && ends_in(file_name(p)->0, ".xxh3"@)
        ||| ends_in(encode_utf8(pattern), ".xxh"@) && ends_in(file_name(p)->0, ".xxh"@)
    }
}

/// A path is found exactly if the walk met it, its name is text that ends as the
/// pattern ends, in `.xxh3` or in `.xxh`, and nowhere says `_renamed`.
pub proof fn law_manifests_are_found(walked: Seq<PathView>, pattern: Seq<char>, p: PathView)
    requires
        walked.len() <= usize::MAX,
    ensures
        sorted_paths(manifests_among(walked, pattern)).contains(p) <==> walked.contains(p)
            && called_as_manifest(p, pattern),
        walked.no_duplicates() ==> sorted_paths(manifests_among(walked, pattern)).no_duplicates(),
{
    let found = manifests_among(walked, pattern);
    let pred = |q: PathView| is_manifest_name(q, pattern);
    lemma_filter(walked, pred, p);
    lemma_arranged(found, sort_keys(found));
    assert(sorted_paths(found).contains(p) <==> found.contains(p));
    if file_name(p) is Some {
        let name = file_name(p)->0;
        lemma_short_is_not_long(name);
        law_infix(name, encode_utf8("_renamed"@));
        law_suffix(name, encode_utf8(".xxh3"@));
        law_suffix(name, encode_utf8(".xxh"@));
        law_suffix(encode_utf8(pattern), encode_utf8(".xxh3"@));
        law_suffix(encode_utf8(pattern), encode_utf8(".xxh"@));
    }
}

/// The manifests that are found come in the order of their paths.
pub proof fn law_found_manifests_are_sorted(
    walked: Seq<PathView>,
    pattern: Seq<char>,
    i: int,
    j: int,
)
    requires
        walked.len() <= usize::MAX,
        0 <= i < j < sorted_paths(manifests_among(walked, pattern)).len(),
    ensures
        !lex_less(
            sort_key(sorted_paths(manifests_among(walked, pattern))[j]),
            sort_key(sorted_paths(manifests_among(walked, pattern))[i]),
        ),
{
    let found = manifests_among(walked, pattern);
    let pred = |q: PathView| is_manifest_name(q, pattern);
    walked.lemma_filter_len(pred);
    let keys = sort_keys(found);
    lemma_arranged(found, keys);
    let (a, b) = (sort_order(keys)[i] as int, sort_order(keys)[j] as int);
    assert(keys[a] == sort_key(found[a]));
    assert(keys[b] == sort_key(found[b]));
}

/// A manifest that the tool wrote is found again by the next search.
pub proof fn law_own_manifests_are_found(walked: Seq<PathView>, dir: PathView, stamp: Seq<char>)
    requires
        walked.len() <= usize::MAX,
        settled(dir),
        is_stamp(stamp),
        !holds(encode_utf8(stamp), "_renamed"@),
        walked.contains(join(dir, encode_utf8(output_name(Output::Manifest, stamp)))),
    ensures
        sorted_paths(manifests_among(walked, "*.xxh3"@)).contains(
            join(dir, encode_utf8(output_name(Output::Manifest, stamp))),
        ),
{
    let text = output_name(Output::Manifest, stamp);
    let name = encode_utf8(text);
    let p = join(dir, name);
    lemma_output_name(Output::Manifest, stamp, dir.platform);
    crate::path_facts::lemma_join_file_name(dir, name);
    law_manifests_are_found(walked, "*.xxh3"@, p);
    reveal_strlit("*.xxh3");
    reveal_strlit(".xxh3");
    reveal_strlit("dups-manifest-");
    is_ascii_chars_encode_utf8("*.xxh3"@);
    is_ascii_chars_encode_utf8(".xxh3"@);
    is_ascii_chars_encode_utf8(stamp);
    let tail = encode_utf8(".xxh3"@);
    let wanted = encode_utf8("*.xxh3"@);
    assert forall|i: int| 0 <= i < 5 implies #[trigger] tail[i] == ".xxh3"@[i] as u8 by {
        assert(".xxh3"@[i] as u8 == tail[i]);
    }
    assert(wanted =~= seq![0x2au8] + tail) by {
        assert forall|i: int| 0 <= i < 6 implies #[trigger] wanted[i] == "*.xxh3"@[i] as u8 by {
            assert("*.xxh3"@[i] as u8 == wanted[i]);
        }
    }
    assert(ends_in(wanted, ".xxh3"@));
    let n = text.len() as int;
    assert(text.skip(n - 5) =~= ".xxh3"@);
    assert(name =~= name.take(n - 5) + tail) by {
        assert forall|i: int| n - 5 <= i < n implies name[i] == tail[i - (n - 5)] by {
            assert(name[i] == text[i] as u8);
            assert(text[i] == text.skip(n - 5)[i - (n - 5)]);
        }
    }
    assert(ends_in(name, ".xxh3"@));
    if holds(name, "_renamed"@) {
        lemma_renamed_is_in_stamp(stamp);
    }
}

/// A manifest that the tool wrote says that files were renamed only where its time
/// stamp does.
proof fn lemma_renamed_is_in_stamp(stamp: Seq<char>)
    requires
        is_ascii_chars(stamp),
        holds(encode_utf8("dups-manifest-"@ + stamp + ".xxh3"@), "_renamed"@),
    ensures
        holds(encode_utf8(stamp), "_renamed"@),
{
    let text = "dups-manifest-"@ + stamp + ".xxh3"@;
    let name = encode_utf8(text);
    let word = encode_utf8("_renamed"@);
    let inner = encode_utf8(stamp);
    lemma_manifest_name_bytes(stamp);
    lemma_renamed_bytes();
    let (head, rest) = choose|head: Seq<u8>, rest: Seq<u8>|
        name == #[trigger] (head + word + rest);
    let i = head.len() as int;
    let end = 14 + stamp.len() as int;
    assert forall|k: int| 0 <= k < 8 implies name[i + k] == #[trigger] word[k] by {
        assert(name[i + k] == (head + word + rest)[i + k]);
    }
    assert(name[i + 0] == word[0]);
    assert(name[i] == 0x5f);
    assert(14 <= i < end);
    if i + 8 > end {
        let k = end - i;
        assert(name[i + k] == word[k]);
        assert(name[end] == 0x2e);
    }
    let at = i - 14;
    assert forall|k: int| 0 <= k < 8 implies inner[at + k] == #[trigger] word[k] by {
        assert(name[i + k] == inner[(i + k) - 14]);
    }
    assert(inner =~= inner.take(at) + word + inner.skip(at + 8));
}

proof fn lemma_renamed_bytes()
    ensures
        encode_utf8("_renamed"@).len() == 8,
        encode_utf8("_renamed"@)[0] == 0x5f,
        forall|k: int| 0 <= k < 8 ==> #[trigger] encode_utf8("_renamed"@)[k] != 0x2e,
{
    let word = encode_utf8("_renamed"@);
    reveal_strlit("_renamed");
    assert(is_ascii_chars("_renamed"@));
    is_ascii_chars_encode_utf8("_renamed"@);
    assert forall|k: int| 0 <= k < 8 implies #[trigger] word[k] == "_renamed"@[k] as u8 by {
        assert("_renamed"@[k] as u8 == word[k]);
    }
    assert(word[0] == 0x5f);
    assert forall|k: int| 0 <= k < 8 implies #[trigger] word[k] != 0x2e by {
        assert("_renamed"@[k] != '.');
    }
}

/// The bytes of the name: those of the time stamp from the fourteenth on, with a
/// dot after them, and no underscore elsewhere.
proof fn lemma_manifest_name_bytes(stamp: Seq<char>)
    requires
        is_ascii_chars(stamp),
    ensures
        ({
            let name = encode_utf8("dups-manifest-"@ + stamp + ".xxh3"@);
            let end = 14 + stamp.len() as int;
            &&& name.len() == end + 5
            &&& encode_utf8(stamp).len() == stamp.len()
            &&& name[end] == 0x2e
            &&& forall|k: int| 0 <= k < 14 || end <= k < name.len() ==> #[trigger] name[k] != 0x5f
            &&& forall|k: int| 14 <= k < end ==> #[trigger] name[k] == encode_utf8(stamp)[k - 14]
        }),
{
    let text = "dups-manifest-"@ + stamp + ".xxh3"@;
    let name = encode_utf8(text);
    let inner = encode_utf8(stamp);
    let end = 14 + stamp.len() as int;
    reveal_strlit("dups-manifest-");
    reveal_strlit(".xxh3");
    assert forall|i: int| 0 <= i < text.len() implies '\0' <= #[trigger] text[i] <= '\u{7f}' by {
        if i < 14 {
            assert(text[i] == "dups-manifest-"@[i]);
        } else if i < end {
            assert(text[i] == stamp[i - 14]);
        } else {
            assert(text[i] == ".xxh3"@[i - end]);
        }
    }
    assert(is_ascii_chars(text));
    is_ascii_chars_encode_utf8(text);
    is_ascii_chars_encode_utf8(stamp);
    assert forall|k: int| 0 <= k < text.len() implies #[trigger] name[k] == text[k] as u8 by {
        assert(text[k] as u8 == name[k]);
    }
    assert(text[end] == ".xxh3"@[0]);
    assert forall|k: int| 0 <= k < 14 || end <= k < name.len() implies #[trigger] name[k]
        != 0x5f by {
        if k < 14 {
            assert(text[k] == "dups-manifest-"@[k]);
        } else {
            assert(text[k] == ".xxh3"@[k - end]);
        }
    }
    assert forall|k: int| 14 <= k < end implies #[trigger] name[k] == inner[k - 14] by {
        assert(stamp[k - 14] as u8 == inner[k - 14]);
        assert(text[k] == stamp[k - 14]);
    }
}

} // verus!
