//! Laws of components, on every platform but Windows: what the bytes of a path say
//! of its file name, its directory and its place among sorted paths.

use vstd::prelude::*;
use crate::laws::listings::law_order_of_keys;
use crate::order::{lemma_lex_skip, lex_less};
use crate::path::{
    body,
    body_from,
    bytes_key,
    file_name,
    has_root,
    join,
    kind_rank,
    lead_len,
    leading_parts,
    lies_below,
    mended,
    parent,
    parts,
    path_end,
    prefix,
    prefix_rank,
    relative,
    same_part,
    segment_kind,
    separators,
    sort_key,
    span_key,
    spans_key,
    with_file_name,
    PartKind,
    PathView,
    Platform,
    Span,
};
use crate::path_facts::{
    lemma_body_join,
    lemma_file_name,
    lemma_join_file_name,
    lemma_lead,
    lemma_parts,
    lemma_parts_join,
    plain_name,
};
use crate::prefix::{
    lemma_segment_end,
    lemma_segment_end_is,
    segment_end,
    windows_prefix,
    PrefixKind,
    Separators,
};

verus! {

broadcast use vstd::seq_lib::group_seq_properties;

/// A name: not empty, without a slash, and neither a dot nor two.
pub open spec fn simple_name(n: Seq<u8>) -> bool {
    &&& n.len() > 0
    &&& !n.contains(0x2f)
    &&& n != seq![0x2eu8]
    &&& n != seq![0x2eu8, 0x2eu8]
}

proof fn lemma_simple_is_plain(n: Seq<u8>, platform: Platform)
    requires
        !(platform is Windows),
        simple_name(n),
    ensures
        plain_name(n, platform),
{
    assert forall|i: int| 0 <= i < n.len() implies !platform.is_separator(#[trigger] n[i]) by {
        assert(n.contains(n[i]));
    }
}

/// A slash separates everywhere; a backslash, on Windows only. What a join puts in
/// is the backslash there, and else the slash.
pub proof fn law_separators(platform: Platform, b: u8)
    ensures
        platform.is_separator(b) <==> b == 0x2f || (platform is Windows && b == 0x5c),
        platform.main_separator() == if platform is Windows {
            0x5cu8
        } else {
            0x2fu8
        },
{
}

/// Joining puts the second path behind the first, with a slash between them unless
/// the first is empty or ends in one. A path that starts with a slash replaces the
/// first.
pub proof fn law_join(base: PathView, tail: Seq<u8>)
    requires
        !(base.platform is Windows),
    ensures
        join(base, tail).platform == base.platform,
        tail.len() > 0 && tail[0] == 0x2f ==> join(base, tail).bytes == tail,
        !(tail.len() > 0 && tail[0] == 0x2f) ==> join(base, tail).bytes == (if base.bytes.len() == 0
            || base.bytes.last() == 0x2f {
            base.bytes + tail
        } else {
            base.bytes.push(0x2f) + tail
        }),
{
    reveal(join);
    assert(base.bytes.take(0) + tail =~= tail);
}

/// A slash at the end of a path makes no difference to its components.
proof fn lemma_body_trailing(b: Seq<u8>, i: int)
    requires
        0 <= i <= b.len(),
    ensures
        body_from(b.push(0x2f), i, Separators::Slash) == body_from(b, i, Separators::Slash),
    decreases b.len() - i,
{
    let by = Separators::Slash;
    let j = b.push(0x2f);
    let n = b.len() as int;
    if i == n {
        assert(by.part(j[n]));
        assert(body_from(j, n + 1, by) =~= Seq::<Span>::empty());
        assert(body_from(b, n, by) =~= Seq::<Span>::empty());
    } else if by.part(b[i]) {
        lemma_body_trailing(b, i + 1);
    } else {
        lemma_segment_end(b, i, by);
        let end = segment_end(b, i, by);
        assert forall|k: int| i <= k < end implies !by.part(#[trigger] j[k]) by {
            assert(j[k] == b[k]);
        }
        lemma_segment_end_is(j, i, by, end);
        assert(j.subrange(i, end) =~= b.subrange(i, end));
        lemma_body_trailing(b, end);
    }
}

/// A slash behind a path makes no difference to its file name, nor do more of them.
pub proof fn law_trailing_slashes_make_no_difference(p: PathView)
    requires
        !(p.platform is Windows),
        p.bytes.len() > 0,
    ensures
        file_name(PathView { bytes: p.bytes.push(0x2f), platform: p.platform }) == file_name(p),
        parts(PathView { bytes: p.bytes.push(0x2f), platform: p.platform }) == parts(p),
{
    let q = PathView { bytes: p.bytes.push(0x2f), platform: p.platform };
    lemma_lead(p);
    assert(leading_parts(q) =~= leading_parts(p));
    lemma_body_trailing(p.bytes, lead_len(p));
    assert(parts(q) == parts(p));
    lemma_parts(p);
    if parts(p).len() > 0 {
        let s = parts(p)[parts(p).len() - 1];
        assert(q.bytes.subrange(s.start, s.end) =~= p.bytes.subrange(s.start, s.end));
    }
}

/// Behind a path that ends in a slash, a segment is one more component.
proof fn lemma_segment_behind(b: Seq<u8>, s: Seq<u8>, platform: Platform)
    requires
        !(platform is Windows),
        b.len() > 0,
        b.last() == 0x2f,
        s.len() > 0,
        !s.contains(0x2f),
        s != seq![0x2eu8],
    ensures
        parts(PathView { bytes: b + s, platform }) == parts(PathView { bytes: b, platform }).push(
            (Span {
                kind: segment_kind(s),
                start: b.len() as int,
                end: b.len() + s.len() as int,
            }),
        ),
{
    let p = PathView { bytes: b, platform };
    let q = PathView { bytes: b + s, platform };
    let n = b.len() as int;
    lemma_lead(p);
    assert(leading_parts(q) =~= leading_parts(p));
    assert(q.bytes.take(n) =~= b);
    assert(q.bytes.skip(n) =~= s);
    assert forall|k: int| n <= k < q.bytes.len() implies !Separators::Slash.part(
        #[trigger] q.bytes[k],
    ) by {
        assert(s.contains(s[k - n]));
    }
    lemma_body_join(b, q.bytes, n, lead_len(p), Separators::Slash);
    assert(parts(q) =~= parts(p).push(
        Span { kind: segment_kind(s), start: n, end: q.bytes.len() as int },
    ));
}

/// What stands behind the last slash of a path is its file name.
pub proof fn law_file_name(dir: Seq<u8>, n: Seq<u8>, platform: Platform)
    requires
        !(platform is Windows),
        simple_name(n),
    ensures
        file_name(PathView { bytes: n, platform }) == Some(n),
        file_name(PathView { bytes: dir.push(0x2f) + n, platform }) == Some(n),
{
    lemma_simple_is_plain(n, platform);
    let none = PathView { bytes: Seq::empty(), platform };
    let base = PathView { bytes: dir.push(0x2f), platform };
    lemma_join_file_name(none, n);
    lemma_join_file_name(base, n);
    assert(n[0] != 0x2f) by {
        assert(n.contains(n[0]));
    }
    law_join(none, n);
    law_join(base, n);
    assert(none.bytes + n =~= n);
}

/// A file name is a name. A path that ends in two dots has none, nor have the empty
/// path and the root.
pub proof fn law_paths_without_file_name(dir: Seq<u8>, platform: Platform)
    requires
        !(platform is Windows),
    ensures
        file_name(PathView { bytes: dir, platform }) is Some ==> simple_name(
            file_name(PathView { bytes: dir, platform })->0,
        ),
        file_name(PathView { bytes: dir.push(0x2f) + seq![0x2eu8, 0x2e], platform }) is None,
        file_name(PathView { bytes: Seq::empty(), platform }) is None,
        file_name(PathView { bytes: seq![0x2fu8], platform }) is None,
{
    let p = PathView { bytes: dir, platform };
    if file_name(p) is Some {
        lemma_file_name(p);
        let n = file_name(p)->0;
        assert(separators(p) == Separators::Slash);
        if n.contains(0x2f) {
            let i = choose|i: int| 0 <= i < n.len() && n[i] == 0x2f;
            assert(!separators(p).part(n[i]));
        }
    }
    let dots = seq![0x2eu8, 0x2e];
    assert(!dots.contains(0x2f));
    assert(dots.len() != seq![0x2eu8].len());
    lemma_segment_behind(dir.push(0x2f), dots, platform);
    let e = PathView { bytes: Seq::empty(), platform };
    assert(leading_parts(e) =~= Seq::<Span>::empty());
    assert(body(e) =~= Seq::<Span>::empty());
    let r = PathView { bytes: seq![0x2fu8], platform };
    lemma_lead(r);
    assert(body(r) =~= Seq::<Span>::empty());
    assert(parts(r) =~= leading_parts(r));
}

/// What comes before the last slash of a path is its directory: the root where
/// nothing does, and the empty path where there is no slash. `last` is the last
/// name of the directory.
pub proof fn law_directory(dir: Seq<u8>, last: Seq<u8>, n: Seq<u8>, platform: Platform)
    requires
        !(platform is Windows),
        simple_name(last),
        simple_name(n),
    ensures
        parent(PathView { bytes: n, platform }) == Some(PathView { bytes: Seq::empty(), platform }),
        parent(PathView { bytes: seq![0x2fu8] + n, platform }) == Some(
            PathView { bytes: seq![0x2fu8], platform },
        ),
        parent(PathView { bytes: last.push(0x2f) + n, platform }) == Some(
            PathView { bytes: last, platform },
        ),
        parent(PathView { bytes: (dir.push(0x2f) + last).push(0x2f) + n, platform }) == Some(
            PathView { bytes: dir.push(0x2f) + last, platform },
        ),
{
    lemma_simple_is_plain(n, platform);
    lemma_simple_is_plain(last, platform);
    assert(n[0] != 0x2f) by {
        assert(n.contains(n[0]));
    }
    let none = PathView { bytes: Seq::empty(), platform };
    let root = PathView { bytes: seq![0x2fu8], platform };
    let one = PathView { bytes: last, platform };
    let more = PathView { bytes: dir.push(0x2f) + last, platform };
    assert(body(none) =~= Seq::<Span>::empty());
    lemma_lead(root);
    assert(body(root) =~= Seq::<Span>::empty());
    lemma_last_ends(Seq::empty(), last, platform);
    lemma_last_ends(dir.push(0x2f), last, platform);
    assert(Seq::<u8>::empty() + last =~= last);
    law_join(none, n);
    law_join(root, n);
    law_join(one, n);
    law_join(more, n);
    assert(none.bytes + n =~= n);
    crate::laws::paths::law_joined_files_stand_in_the_directory(none, n);
    crate::laws::paths::law_joined_files_stand_in_the_directory(root, n);
    crate::laws::paths::law_joined_files_stand_in_the_directory(one, n);
    crate::laws::paths::law_joined_files_stand_in_the_directory(more, n);
}

/// A path that ends in a name ends where that does, and not in a slash.
proof fn lemma_last_ends(b: Seq<u8>, last: Seq<u8>, platform: Platform)
    requires
        !(platform is Windows),
        b.len() == 0 || b.last() == 0x2f,
        simple_name(last),
    ensures
        path_end(PathView { bytes: b + last, platform }) == b.len() + last.len(),
        (b + last).len() > 0,
        (b + last).last() != 0x2f,
{
    let base = PathView { bytes: b, platform };
    lemma_simple_is_plain(last, platform);
    assert(last[0] != 0x2f) by {
        assert(last.contains(last[0]));
    }
    assert((b + last).last() == last.last());
    assert(last.contains(last.last()));
    law_join(base, last);
    assert(b.len() == 0 ==> b + last =~= last);
    lemma_parts_join(base, last);
}

/// A file that gets another name stays in its directory.
pub proof fn law_with_file_name(
    dir: Seq<u8>,
    last: Seq<u8>,
    n: Seq<u8>,
    m: Seq<u8>,
    platform: Platform,
)
    requires
        !(platform is Windows),
        simple_name(last),
        simple_name(n),
        simple_name(m),
    ensures
        with_file_name(PathView { bytes: n, platform }, m) == (PathView { bytes: m, platform }),
        with_file_name(PathView { bytes: seq![0x2fu8] + n, platform }, m) == (PathView {
            bytes: seq![0x2fu8] + m,
            platform,
        }),
        with_file_name(
            PathView { bytes: (dir.push(0x2f) + last).push(0x2f) + n, platform },
            m,
        ) == (PathView { bytes: (dir.push(0x2f) + last).push(0x2f) + m, platform }),
{
    law_directory(dir, last, n, platform);
    law_file_name(Seq::empty(), n, platform);
    law_file_name(dir.push(0x2f) + last, n, platform);
    assert(Seq::<u8>::empty().push(0x2f) =~= seq![0x2fu8]);
    assert(m[0] != 0x2f) by {
        assert(m.contains(m[0]));
    }
    lemma_last_ends(dir.push(0x2f), last, platform);
    law_join(PathView { bytes: Seq::empty(), platform }, m);
    law_join(PathView { bytes: seq![0x2fu8], platform }, m);
    law_join(PathView { bytes: dir.push(0x2f) + last, platform }, m);
    assert(Seq::<u8>::empty() + m =~= m);
}

/// Nothing of a path is left as seen from itself. A file is seen from its directory
/// by its name, and from another directory by its whole path.
pub proof fn law_relative(dir: PathView, a: Seq<u8>, b: Seq<u8>)
    requires
        !(dir.platform is Windows),
        simple_name(a),
        simple_name(b),
    ensures
        relative(dir, dir).bytes.len() == 0,
        relative(join(dir, a), dir).bytes == a,
        a != b ==> relative(join(dir, b), join(dir, a)) == join(dir, b),
{
    lemma_simple_is_plain(a, dir.platform);
    lemma_simple_is_plain(b, dir.platform);
    lemma_parts_join(dir, a);
    lemma_parts_join(dir, b);
    let n = parts(dir).len() as int;
    let names = seq![a];
    assert(names.drop_last() =~= Seq::<Seq<u8>>::empty());
    assert(crate::laws::paths::joined(dir, names.drop_last()) == dir);
    assert(crate::laws::paths::joined(dir, names) == join(dir, a));
    crate::laws::paths::law_relative_paths_lead_back(dir, names);
    assert(crate::laws::paths::listed(names, dir.platform) == a);
    lemma_parts(dir);
    assert forall|i: int| 0 <= i < n implies same_part(
        dir,
        #[trigger] parts(dir)[i],
        dir,
        parts(dir)[i],
    ) by {
        assert(prefix(dir) is None);
        assert(!(parts(dir)[i].kind is Prefix));
    }
    assert(lies_below(dir, dir));
    let (x, y) = (join(dir, a), join(dir, b));
    if a != b && lies_below(y, x) {
        assert(same_part(y, parts(y)[n], x, parts(x)[n]));
        let (s, t) = (parts(y)[n], parts(x)[n]);
        assert(y.bytes.subrange(s.start, s.end) =~= y.bytes.skip(s.start));
        assert(x.bytes.subrange(t.start, t.end) =~= x.bytes.skip(t.start));
    }
}

/// On Windows, the three bytes of a lone surrogate, of either half, are shown as
/// one replacement character, and all other bytes are left as they are.
pub proof fn law_surrogates_are_mended(x: u8, y: u8, b: u8, rest: Seq<u8>)
    ensures
        mended(Seq::empty()).len() == 0,
        0xa0 <= x && x <= 0xbf && 0x80 <= y && y <= 0xbf ==> mended(seq![0xedu8, x, y] + rest)
            == seq![0xefu8, 0xbf, 0xbd] + mended(rest),
        b != 0xed ==> mended(seq![b] + rest) == seq![b] + mended(rest),
        rest.len() < 2 || rest[0] < 0xa0 || rest[0] > 0xbf || rest[1] < 0x80 || rest[1] > 0xbf
            ==> mended(seq![0xedu8] + rest) == seq![0xedu8] + mended(rest),
{
    let s = seq![0xedu8, x, y] + rest;
    assert(s.skip(3) =~= rest);
    let t = seq![b] + rest;
    assert(t.skip(1) =~= rest);
    let u = seq![0xedu8] + rest;
    assert(u.skip(1) =~= rest);
    if rest.len() >= 2 {
        assert(u[1] == rest[0] && u[2] == rest[1]);
    }
}

// ---------------------------------------------------------------------------
// Order
// ---------------------------------------------------------------------------

/// The first byte string comes before the second: it is a proper beginning of it,
/// or the first byte in which they differ is smaller in it.
pub open spec fn bytes_before(a: Seq<u8>, b: Seq<u8>) -> bool {
    exists|k: int|
        0 <= k <= a.len() && k < b.len() && #[trigger] a.take(k) == b.take(k) && (k == a.len()
            || a[k] < b[k])
}

/// The key of a path with one more name behind it.
proof fn lemma_key_of_joined(base: PathView, n: Seq<u8>)
    requires
        !(base.platform is Windows),
        simple_name(n),
    ensures
        sort_key(join(base, n)) == sort_key(base) + (seq![4u16] + bytes_key(n)).push(0),
{
    lemma_simple_is_plain(n, base.platform);
    lemma_parts_join(base, n);
    lemma_parts(base);
    let j = join(base, n);
    let all = parts(base);
    let last = parts(j).last();
    assert(parts(j).drop_last() =~= all);
    assert forall|i: int| 0 <= i < all.len() implies span_key(j, #[trigger] all[i]) == span_key(
        base,
        all[i],
    ) by {
        let s = all[i];
        assert(j.bytes.subrange(s.start, s.end) =~= base.bytes.subrange(s.start, s.end)) by {
            assert forall|k: int| s.start <= k < s.end implies j.bytes[k] == base.bytes[k] by {
                assert(j.bytes.take(base.bytes.len() as int)[k] == base.bytes[k]);
            }
        }
    }
    lemma_same_keys(base, j, all);
    assert(j.bytes.subrange(last.start, last.end) =~= n) by {
        assert(j.bytes.subrange(last.start, last.end) =~= j.bytes.skip(last.start));
    }
    assert(span_key(j, last) == (seq![4u16] + bytes_key(n)).push(0));
}

proof fn lemma_same_keys(p: PathView, q: PathView, all: Seq<Span>)
    requires
        forall|i: int| 0 <= i < all.len() ==> span_key(q, #[trigger] all[i]) == span_key(p, all[i]),
    ensures
        spans_key(q, all) == spans_key(p, all),
    decreases all.len(),
{
    if all.len() > 0 {
        let front = all.drop_last();
        assert forall|i: int| 0 <= i < front.len() implies span_key(q, #[trigger] front[i])
            == span_key(p, front[i]) by {
            assert(front[i] == all[i]);
        }
        lemma_same_keys(p, q, front);
        assert(span_key(q, all[all.len() - 1]) == span_key(p, all[all.len() - 1]));
    }
}

/// Keys of names, whatever comes behind them, are in the order of the names.
proof fn lemma_names_in_order(a: Seq<u8>, b: Seq<u8>, x: Seq<u16>, y: Seq<u16>)
    requires
        bytes_before(a, b),
    ensures
        lex_less((seq![4u16] + bytes_key(a)).push(0) + x, (seq![4u16] + bytes_key(b)).push(0) + y),
{
    let s = (seq![4u16] + bytes_key(a)).push(0) + x;
    let t = (seq![4u16] + bytes_key(b)).push(0) + y;
    let k = choose|k: int|
        0 <= k <= a.len() && k < b.len() && #[trigger] a.take(k) == b.take(k) && (k == a.len()
            || a[k] < b[k]);
    assert forall|i: int| 0 <= i < k + 1 implies s[i] == t[i] by {
        if i > 0 {
            assert(s[i] == bytes_key(a)[i - 1] && t[i] == bytes_key(b)[i - 1]);
            assert(a.take(k)[i - 1] == a[i - 1] && b.take(k)[i - 1] == b[i - 1]);
        }
    }
    assert(s.take(k + 1) =~= t.take(k + 1));
    assert(t[k + 1] == bytes_key(b)[k]);
    assert(t[k + 1] == (b[k] + 1) as u16);
    if k < a.len() {
        assert(s[k + 1] == bytes_key(a)[k]);
    } else {
        assert(s[k + 1] == 0);
    }
    law_order_of_keys(s, t);
}

/// The keys start alike, so what is behind the start decides.
proof fn lemma_common_start(s: Seq<u16>, x: Seq<u16>, y: Seq<u16>)
    ensures
        lex_less(s + x, s + y) == lex_less(x, y),
{
    let n = s.len() as int;
    assert((s + x).take(n) =~= (s + y).take(n));
    assert((s + x).skip(n) =~= x);
    assert((s + y).skip(n) =~= y);
    lemma_lex_skip(s + x, s + y, n);
}

proof fn lemma_names_are_ordered(a: Seq<u8>, b: Seq<u8>)
    ensures
        bytes_before(a, b) || bytes_before(b, a) || a == b,
    decreases a.len(),
{
    if a.len() == 0 || b.len() == 0 {
        assert(a.take(0) =~= b.take(0));
        if a.len() == 0 && b.len() == 0 {
            assert(a =~= b);
        }
    } else if a[0] != b[0] {
        assert(a.take(0) =~= b.take(0));
    } else {
        let (x, y) = (a.drop_first(), b.drop_first());
        lemma_names_are_ordered(x, y);
        if bytes_before(x, y) {
            lemma_before_behind(a, b);
        } else if bytes_before(y, x) {
            lemma_before_behind(b, a);
        } else {
            assert(a =~= seq![a[0]] + x && b =~= seq![b[0]] + y);
        }
    }
}

proof fn lemma_before_behind(a: Seq<u8>, b: Seq<u8>)
    requires
        a.len() > 0,
        b.len() > 0,
        a[0] == b[0],
        bytes_before(a.drop_first(), b.drop_first()),
    ensures
        bytes_before(a, b),
{
    let (x, y) = (a.drop_first(), b.drop_first());
    let k = choose|k: int|
        0 <= k <= x.len() && k < y.len() && #[trigger] x.take(k) == y.take(k) && (k == x.len()
            || x[k] < y[k]);
    assert(a.take(k + 1) =~= seq![a[0]] + x.take(k));
    assert(b.take(k + 1) =~= seq![b[0]] + y.take(k));
}

/// Keys of byte strings sort as the byte strings do.
pub proof fn law_keys_of_bytes(a: Seq<u8>, b: Seq<u8>)
    ensures
        lex_less(bytes_key(a), bytes_key(b)) <==> bytes_before(a, b),
{
    let (x, y) = (bytes_key(a), bytes_key(b));
    law_order_of_keys(x, y);
    if lex_less(x, y) {
        let k = choose|k: int|
            0 <= k <= x.len() && k < y.len() && #[trigger] x.take(k) == y.take(k) && (k == x.len()
                || x[k] < y[k]);
        assert forall|i: int| 0 <= i < k implies a[i] == b[i] by {
            assert(x.take(k)[i] == x[i] && y.take(k)[i] == y[i]);
        }
        assert(a.take(k) =~= b.take(k));
    }
    if bytes_before(a, b) {
        let k = choose|k: int|
            0 <= k <= a.len() && k < b.len() && #[trigger] a.take(k) == b.take(k) && (k == a.len()
                || a[k] < b[k]);
        assert forall|i: int| 0 <= i < k implies x[i] == y[i] by {
            assert(a.take(k)[i] == a[i] && b.take(k)[i] == b[i]);
        }
        assert(x.take(k) =~= y.take(k));
    }
}

/// In one directory, files sort by the bytes of their names.
pub proof fn law_names_sort_by_their_bytes(dir: PathView, a: Seq<u8>, b: Seq<u8>)
    requires
        !(dir.platform is Windows),
        simple_name(a),
        simple_name(b),
    ensures
        lex_less(sort_key(join(dir, a)), sort_key(join(dir, b))) <==> bytes_before(a, b),
{
    lemma_key_of_joined(dir, a);
    lemma_key_of_joined(dir, b);
    let x = (seq![4u16] + bytes_key(a)).push(0);
    let y = (seq![4u16] + bytes_key(b)).push(0);
    let none = Seq::<u16>::empty();
    lemma_common_start(sort_key(dir), x, y);
    assert(x + none =~= x && y + none =~= y);
    lemma_names_are_ordered(a, b);
    crate::order::lemma_lex_irreflexive(x);
    if bytes_before(a, b) {
        lemma_names_in_order(a, b, none, none);
    }
    if bytes_before(b, a) && !bytes_before(a, b) {
        lemma_names_in_order(b, a, none, none);
        if lex_less(x, y) {
            crate::order::lemma_lex_transitive(x, y, x);
        }
    }
}

/// A directory sorts before what is in it.
pub proof fn law_directories_sort_before_their_files(dir: PathView, a: Seq<u8>)
    requires
        !(dir.platform is Windows),
        simple_name(a),
    ensures
        lex_less(sort_key(dir), sort_key(join(dir, a))),
{
    lemma_key_of_joined(dir, a);
    let x = (seq![4u16] + bytes_key(a)).push(0);
    let none = Seq::<u16>::empty();
    assert(sort_key(dir) + none =~= sort_key(dir));
    lemma_common_start(sort_key(dir), none, x);
}

/// What is in a directory sorts with it: before all that comes after the directory
/// by name.
pub proof fn law_directories_sort_with_their_files(
    dir: PathView,
    a: Seq<u8>,
    c: Seq<u8>,
    b: Seq<u8>,
)
    requires
        !(dir.platform is Windows),
        simple_name(a),
        simple_name(b),
        simple_name(c),
        bytes_before(a, b),
    ensures
        lex_less(sort_key(join(join(dir, a), c)), sort_key(join(dir, b))),
        lex_less(sort_key(join(dir, a)), sort_key(join(join(dir, b), c))),
{
    law_join(dir, a);
    law_join(dir, b);
    lemma_key_of_joined(dir, a);
    lemma_key_of_joined(dir, b);
    lemma_key_of_joined(join(dir, a), c);
    lemma_key_of_joined(join(dir, b), c);
    let x = (seq![4u16] + bytes_key(a)).push(0);
    let y = (seq![4u16] + bytes_key(b)).push(0);
    let z = (seq![4u16] + bytes_key(c)).push(0);
    let none = Seq::<u16>::empty();
    let s = sort_key(dir);
    assert(s + x + z =~= s + (x + z));
    assert(s + y + z =~= s + (y + z));
    assert(x + none =~= x && y + none =~= y);
    lemma_common_start(s, x + z, y);
    lemma_common_start(s, x, y + z);
    lemma_names_in_order(a, b, z, none);
    lemma_names_in_order(a, b, none, z);
}

/// Components of different kinds sort in this order: prefix, root, dot, two dots,
/// name.
pub proof fn law_kinds_of_components_sort()
    ensures
        kind_rank(PartKind::Prefix) < kind_rank(PartKind::Root) < kind_rank(PartKind::Current)
            < kind_rank(PartKind::Parent) < kind_rank(PartKind::Normal),
        prefix_rank(PrefixKind::Verbatim) < prefix_rank(PrefixKind::VerbatimUnc) < prefix_rank(
            PrefixKind::VerbatimDisk,
        ) < prefix_rank(PrefixKind::Device) < prefix_rank(PrefixKind::Unc) < prefix_rank(
            PrefixKind::Disk,
        ),
{
}

// ---------------------------------------------------------------------------
// Drives
// ---------------------------------------------------------------------------

/// A name on Windows: not empty, without slashes and backslashes, neither a dot nor
/// two, and not taken for a drive.
pub open spec fn simple_windows_name(n: Seq<u8>) -> bool {
    &&& n.len() > 0
    &&& !n.contains(0x2f)
    &&& !n.contains(0x5c)
    &&& n != seq![0x2eu8]
    &&& n != seq![0x2eu8, 0x2eu8]
    &&& !(n.len() >= 2 && n[1] == 0x3a)
}

/// The path starts with a letter and a colon.
pub open spec fn on_drive(b: Seq<u8>) -> bool {
    &&& b.len() >= 2
    &&& 0x41 <= b[0] <= 0x5a || 0x61 <= b[0] <= 0x7a
    &&& b[1] == 0x3a
}

proof fn lemma_windows_name(n: Seq<u8>)
    requires
        simple_windows_name(n),
    ensures
        plain_name(n, Platform::Windows),
        n[0] != 0x2f,
        n[0] != 0x5c,
{
    reveal(windows_prefix);
    assert forall|i: int| 0 <= i < n.len() implies !Platform::Windows.is_separator(
        #[trigger] n[i],
    ) by {
        assert(n.contains(n[i]));
    }
    assert(!Platform::Windows.is_separator(n[0]));
}

/// A name joined to a path on a drive comes behind a backslash, unless the path ends
/// in a separator or is the drive alone; it is the file name of the result.
pub proof fn law_names_on_drives(base: Seq<u8>, n: Seq<u8>)
    requires
        on_drive(base),
        simple_windows_name(n),
    ensures
        ({
            let j = join(PathView { bytes: base, platform: Platform::Windows }, n);
            &&& j.platform is Windows
            &&& j.bytes == (if base.len() == 2 || base.last() == 0x2f || base.last() == 0x5c {
                base + n
            } else {
                base.push(0x5c) + n
            })
            &&& file_name(j) == Some(n)
        }),
{
    reveal(windows_prefix);
    reveal(join);
    lemma_windows_name(n);
    let p = PathView { bytes: base, platform: Platform::Windows };
    let t = PathView { bytes: n, platform: Platform::Windows };
    assert(!crate::prefix::slash(base[0]));
    assert(crate::prefix::drive_at(base, 0));
    assert(prefix(p) == Some(crate::prefix::drive_prefix(PrefixKind::Disk, 0)));
    assert(!has_root(t));
    lemma_join_file_name(p, n);
}

/// A path from a root joined to one on a drive replaces all but the drive, and one
/// on a drive replaces all.
pub proof fn law_roots_on_drives(base: Seq<u8>, tail: Seq<u8>)
    requires
        on_drive(base),
    ensures
        on_drive(tail) ==> join(PathView { bytes: base, platform: Platform::Windows }, tail).bytes
            == tail,
        tail.len() > 0 && (tail[0] == 0x2f || tail[0] == 0x5c) && !(tail.len() > 1 && (tail[1]
            == 0x2f || tail[1] == 0x5c)) ==> join(
            PathView { bytes: base, platform: Platform::Windows },
            tail,
        ).bytes == base.take(2) + tail,
{
    reveal(windows_prefix);
    reveal(join);
    let p = PathView { bytes: base, platform: Platform::Windows };
    assert(!crate::prefix::slash(base[0]));
    assert(crate::prefix::drive_at(base, 0));
    assert(prefix(p) == Some(crate::prefix::drive_prefix(PrefixKind::Disk, 0)));
    let t = PathView { bytes: tail, platform: Platform::Windows };
    if on_drive(tail) {
        assert(!crate::prefix::slash(tail[0]));
        assert(crate::prefix::drive_at(tail, 0));
        assert(prefix(t) is Some);
    } else if tail.len() > 0 && (tail[0] == 0x2f || tail[0] == 0x5c) && !(tail.len() > 1 && (tail[1]
        == 0x2f || tail[1] == 0x5c)) {
        assert(!crate::prefix::drive_at(tail, 0));
        assert(prefix(t) is None);
        assert(has_root(t));
    }
}

} // verus!
