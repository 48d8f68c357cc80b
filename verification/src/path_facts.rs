//! Facts about paths: where their components are, and what joins and cuts leave
//! of them.

use vstd::prelude::*;
use crate::path::{
    body,
    body_from,
    cut,
    file_name,
    has_root,
    is_drive,
    is_verbatim,
    join,
    last_position,
    lead_len,
    leading_parts,
    parent,
    parts,
    path_end,
    piece,
    pieces,
    prefix,
    prefix_len,
    same_part,
    segment_kind,
    separators,
    starts_at_root,
    starts_with_dot,
    walked,
    with_file_name,
    written,
    PartKind,
    PathView,
    PieceView,
    Platform,
    Span,
};
use crate::prefix::{
    first_name,
    lemma_prefix,
    lemma_prefix_kept,
    lemma_segment_end,
    lemma_segment_end_is,
    second_name,
    segment_end,
    settled_prefix,
    slash,
    windows_prefix,
    Separators,
};

verus! {

broadcast use vstd::seq_lib::group_seq_properties;

/// What comes before the names lies at the start of the path.
pub proof fn lemma_lead(p: PathView)
    ensures
        0 <= prefix_len(p) <= lead_len(p) <= p.bytes.len(),
        prefix(p) is Some ==> prefix_len(p) > 0,
        forall|k: int|
            0 <= k < leading_parts(p).len() ==> {
                let s = #[trigger] leading_parts(p)[k];
                &&& 0 <= s.start <= s.end <= lead_len(p)
                &&& s.kind is Prefix || s.kind is Root || s.kind is Current
                &&& s.kind is Prefix ==> prefix(p) is Some
            },
        forall|k: int, l: int|
            0 <= k < l < leading_parts(p).len() ==> (#[trigger] leading_parts(p)[k]).end <= (
            #[trigger] leading_parts(p)[l]).start,
{
    lemma_prefix(p.bytes);
}

/// Every component behind the root lies within the path, holds no separator, and
/// ends before the next one starts.
pub proof fn lemma_body_from(b: Seq<u8>, i: int, by: Separators)
    requires
        0 <= i,
    ensures
        forall|k: int|
            0 <= k < body_from(b, i, by).len() ==> {
                let s = #[trigger] body_from(b, i, by)[k];
                &&& i <= s.start < s.end <= b.len()
                &&& s.kind == segment_kind(b.subrange(s.start, s.end))
                &&& s.kind is Current ==> by is Backslash
                &&& forall|m: int| s.start <= m < s.end ==> !by.part(#[trigger] b[m])
            },
        forall|k: int, l: int|
            0 <= k < l < body_from(b, i, by).len() ==> (#[trigger] body_from(b, i, by)[k]).end <= (
            #[trigger] body_from(b, i, by)[l]).start,
    decreases b.len() - i,
{
    if i < b.len() {
        if by.part(b[i]) {
            lemma_body_from(b, i + 1, by);
        } else {
            lemma_segment_end(b, i, by);
            lemma_body_from(b, segment_end(b, i, by), by);
        }
    }
}

pub proof fn lemma_parts(p: PathView)
    ensures
        forall|k: int|
            0 <= k < parts(p).len() ==> 0 <= (#[trigger] parts(p)[k]).start <= parts(p)[k].end
                <= path_end(p),
        forall|k: int|
            0 <= k < parts(p).len() ==> ((#[trigger] parts(p)[k]).kind is Prefix ==> prefix(
                p,
            ) is Some),
        prefix_len(p) <= lead_len(p) <= path_end(p) <= p.bytes.len(),
{
    lemma_lead(p);
    lemma_body_from(p.bytes, lead_len(p), separators(p));
    let lead = leading_parts(p);
    let names = body(p);
    if names.len() > 0 {
        assert(names.last() == names[names.len() - 1]);
    }
    assert forall|k: int| 0 <= k < parts(p).len() implies 0 <= (#[trigger] parts(p)[k]).start
        <= parts(p)[k].end <= path_end(p) && (parts(p)[k].kind is Prefix ==> prefix(p) is Some) by {
        if k < lead.len() {
            assert(parts(p)[k] == lead[k]);
        } else {
            assert(parts(p)[k] == names[k - lead.len()]);
        }
    }
}

/// The path does not change its prefix when a name is put behind it.
pub open spec fn settled(p: PathView) -> bool {
    p.platform is Windows ==> settled_prefix(p.bytes)
}

/// Where the path is taken as it stands, it is written as its components are.
pub open spec fn tidy(p: PathView) -> bool {
    is_verbatim(p) ==> written(pieces(p)) == p.bytes
}

/// The path written as its components are, where it is taken as it stands.
pub open spec fn tidied(p: PathView) -> PathView {
    PathView {
        bytes: if is_verbatim(p) {
            written(pieces(p))
        } else {
            p.bytes
        },
        platform: p.platform,
    }
}

/// A prefix other than a drive is followed by a root.
pub open spec fn rooted(p: PathView) -> bool {
    prefix(p) is Some && !is_drive(p) ==> starts_at_root(p)
}

/// A name that a join takes as one name: neither empty nor a dot or two, without
/// separators, and not taken for a drive.
pub open spec fn plain_name(name: Seq<u8>, platform: Platform) -> bool {
    &&& segment_kind(name) is Normal
    &&& name.len() > 0
    &&& forall|i: int| 0 <= i < name.len() ==> !platform.is_separator(#[trigger] name[i])
    &&& prefix(PathView { bytes: name, platform }) is None
}

/// Where a join puts the name.
pub open spec fn join_start(base: PathView, name: Seq<u8>) -> int {
    join(base, name).bytes.len() - name.len()
}

pub open spec fn name_span(start: int, end: int) -> Span {
    Span { kind: PartKind::Normal, start, end }
}

/// Behind `b`, with a separator in between where `b` does not end in one, a
/// segment is one more component.
pub proof fn lemma_body_join(b: Seq<u8>, j: Seq<u8>, start: int, i: int, by: Separators)
    requires
        0 <= i <= b.len() <= start < j.len(),
        start <= b.len() + 1,
        j.take(b.len() as int) == b,
        start > b.len() ==> by.part(j[b.len() as int]),
        start > b.len() || i == b.len() || by.part(b.last()),
        segment_kind(j.skip(start)) is Current ==> by is Backslash,
        forall|k: int| start <= k < j.len() ==> !by.part(#[trigger] j[k]),
    ensures
        body_from(j, i, by) == body_from(b, i, by).push(
            (Span { kind: segment_kind(j.skip(start)), start, end: j.len() as int }),
        ),
    decreases b.len() - i,
{
    let n = b.len() as int;
    let len = j.len() as int;
    let last = Span { kind: segment_kind(j.skip(start)), start, end: len };
    assert(forall|k: int| 0 <= k < n ==> #[trigger] j[k] == b[k]) by {
        assert(forall|k: int| 0 <= k < n ==> j.take(n)[k] == b[k]);
    }
    if i == n {
        lemma_segment_end_is(j, start, by, len);
        assert(j.subrange(start, len) =~= j.skip(start));
        assert(body_from(j, len, by) =~= Seq::<Span>::empty());
        assert(body_from(j, start, by) =~= seq![last]);
        if start > n {
            assert(body_from(j, n, by) == body_from(j, n + 1, by));
        }
        assert(body_from(b, n, by) =~= Seq::<Span>::empty());
        assert(body_from(b, n, by).push(last) =~= seq![last]);
    } else if by.part(b[i]) {
        lemma_body_join(b, j, start, i + 1, by);
        assert(by.part(j[i]));
    } else {
        let end = segment_end(b, i, by);
        lemma_segment_end(b, i, by);
        assert(end < len && by.part(j[end])) by {
            if end == n {
                assert(!by.part(b[n - 1]));
            }
        }
        lemma_segment_end_is(j, i, by, end);
        assert(j.subrange(i, end) =~= b.subrange(i, end));
        lemma_body_join(b, j, start, end, by);
        let kind = segment_kind(b.subrange(i, end));
        if !(kind is Current && !(by is Backslash)) {
            let head = seq![Span { kind, start: i, end }];
            assert(head + body_from(b, end, by).push(last) =~= (head + body_from(b, end, by)).push(
                last,
            ));
        }
    }
}

/// A plain name is a path of one component.
pub proof fn lemma_plain_name_parts(name: Seq<u8>, platform: Platform)
    requires
        plain_name(name, platform),
    ensures
        ({
            let t = PathView { bytes: name, platform };
            &&& !has_root(t)
            &&& parts(t) == seq![name_span(0, name.len() as int)]
            &&& pieces(t) == seq![PieceView { kind: PartKind::Normal, bytes: name }]
        }),
{
    let t = PathView { bytes: name, platform };
    let none = Seq::<u8>::empty();
    let by = separators(t);
    assert(!platform.is_separator(name[0]));
    assert(!starts_with_dot(t)) by {
        if name.len() > 1 {
            assert(!platform.is_separator(name[1]));
        } else if name[0] == 0x2e {
            assert(name =~= seq![0x2eu8]);
        }
    }
    assert(name.take(0) =~= none);
    assert(name.skip(0) =~= name);
    lemma_body_join(none, name, 0, 0, by);
    assert(body_from(none, 0, by) =~= Seq::<Span>::empty());
    let only = name_span(0, name.len() as int);
    assert(body(t) =~= seq![only]);
    assert(leading_parts(t) =~= Seq::<Span>::empty());
    assert(parts(t) =~= seq![only]);
    assert(name.subrange(0, name.len() as int) =~= name);
    assert(pieces(t) =~= seq![PieceView { kind: PartKind::Normal, bytes: name }]);
}

/// A verbatim path that is written as its components are ends in a backslash
/// exactly if it ends in its root.
pub proof fn lemma_last_piece(p: PathView)
    requires
        is_verbatim(p),
        rooted(p),
        tidy(p),
    ensures
        pieces(p).len() > 0,
        p.bytes.len() > 0,
        pieces(p).last().kind is Root <==> p.bytes.last() == 0x5c,
{
    let at = pieces(p);
    lemma_lead(p);
    lemma_prefix(p.bytes);
    assert(parts(p)[0] == leading_parts(p)[0]);
    assert(written(at) == p.bytes);
    if at.last().kind is Root {
        assert(at.last().bytes == seq![0x5cu8]);
    } else {
        let s = parts(p).last();
        if body(p).len() == 0 {
            assert(parts(p) =~= leading_parts(p));
            assert(false);
        }
        assert(s == body(p)[body(p).len() - 1]);
        lemma_body_from(p.bytes, lead_len(p), separators(p));
        assert(at.last().bytes == p.bytes.subrange(s.start, s.end));
        assert(p.bytes.last() == at.last().bytes.last());
        assert(at.last().bytes.last() == p.bytes[s.end - 1]);
    }
}

/// A plain name is put behind the base, or behind the base and a separator.
pub proof fn lemma_join_bytes(base: PathView, name: Seq<u8>)
    requires
        plain_name(name, base.platform),
        tidy(base),
    ensures
        ({
            let j = join(base, name);
            let n = base.bytes.len() as int;
            let start = join_start(base, name);
            &&& j.platform == base.platform
            &&& n <= start <= n + 1
            &&& j.bytes.take(n) == base.bytes
            &&& j.bytes.skip(start) == name
            &&& start > n ==> j.bytes[n] == base.platform.main_separator()
            &&& n == 0 || (is_drive(base) && n == prefix_len(base)) ==> start == n
            &&& n > 0 && separators(base).part(base.bytes.last()) && rooted(base) ==> start == n
            &&& start == n ==> n == 0 || (n > 0 && separators(base).part(base.bytes.last())) || (
            is_drive(base) && n == prefix_len(base))
        }),
{
    reveal(join);
    let j = join(base, name);
    let n = base.bytes.len() as int;
    let start = join_start(base, name);
    let t = PathView { bytes: name, platform: base.platform };
    lemma_plain_name_parts(name, base.platform);
    if is_verbatim(base) {
        let at = pieces(base);
        let step = PieceView { kind: PartKind::Normal, bytes: name };
        assert(pieces(t).drop_last() =~= Seq::<PieceView>::empty());
        assert(walked(at, pieces(t).drop_last()) == at);
        assert(walked(at, pieces(t)) == at.push(step));
        assert(at.push(step).drop_last() =~= at);
        lemma_lead(base);
        assert(parts(base)[0] == leading_parts(base)[0]);
        assert(at.len() > 0);
        assert(written(at) == base.bytes);
        lemma_prefix(base.bytes);
        if at.last().kind is Root {
            assert(at.last().bytes == seq![0x5cu8]);
            assert(base.bytes.last() == 0x5c);
        } else if rooted(base) {
            lemma_last_piece(base);
        }
    }
    assert(j.bytes.take(n) =~= base.bytes);
    assert(j.bytes.skip(start) =~= name);
}

/// A name put behind a path leaves its prefix, its root and its first dot alone.
proof fn lemma_join_lead(base: PathView, name: Seq<u8>)
    requires
        plain_name(name, base.platform),
        tidy(base),
        settled(base),
        rooted(base),
    ensures
        ({
            let j = join(base, name);
            &&& prefix(j) == prefix(base)
            &&& starts_at_root(j) == starts_at_root(base)
            &&& starts_with_dot(j) == starts_with_dot(base)
        }),
{
    reveal(windows_prefix);
    let j = join(base, name);
    let b = base.bytes;
    let n = b.len() as int;
    let m = prefix_len(base);
    let start = join_start(base, name);
    lemma_join_bytes(base, name);
    lemma_lead(base);
    lemma_prefix(b);
    assert(forall|k: int| 0 <= k < n ==> #[trigger] j.bytes[k] == b[k]) by {
        assert(forall|k: int| 0 <= k < n ==> j.bytes.take(n)[k] == b[k]);
    }
    assert(forall|k: int| start <= k < j.bytes.len() ==> #[trigger] j.bytes[k] == name[k - start])
        by {
        assert(forall|k: int| 0 <= k < name.len() ==> j.bytes.skip(start)[k] == name[k]);
        assert forall|k: int| start <= k < j.bytes.len() implies #[trigger] j.bytes[k] == name[k
            - start] by {
            assert(j.bytes.skip(start)[k - start] == name[k - start]);
        }
    }
    assert(!base.platform.is_separator(name[0]));
    if base.platform is Windows {
        if prefix(base) is Some {
            lemma_prefix_kept(b, j.bytes);
        } else if n == 0 {
            assert(j.bytes =~= name);
        } else if n == 1 {
            assert(b.last() == b[0]);
            if start == 1 {
                assert(slash(b[0]));
                assert(j.bytes[1] == name[0]);
            }
        }
    }
    assert(starts_at_root(j) == starts_at_root(base)) by {
        assert(prefix_len(j) == m);
        if m == n {
            assert(j.bytes[m] == name[0]);
        } else {
            assert(j.bytes[m] == b[m]);
        }
    }
    assert(starts_with_dot(j) == starts_with_dot(base)) by {
        if m == n {
            assert(start == n);
            if name[0] == 0x2e {
                if name.len() == 1 {
                    assert(name =~= seq![0x2eu8]);
                } else {
                    assert(j.bytes[m + 1] == name[1]);
                    assert(!base.platform.is_separator(name[1]));
                }
            }
        } else if n == m + 1 {
            if b[m] == 0x2e && !has_root(base) {
                assert(b.last() == b[m]);
                assert(start == n + 1);
            }
        }
    }
}

/// A name put behind a path that is settled leaves it settled.
pub proof fn lemma_join_settled(base: PathView, name: Seq<u8>)
    requires
        plain_name(name, base.platform),
        tidy(base),
        settled(base),
        rooted(base),
    ensures
        settled(join(base, name)),
        rooted(join(base, name)),
{
    let j = join(base, name);
    let n = base.bytes.len() as int;
    let start = join_start(base, name);
    lemma_join_bytes(base, name);
    lemma_join_lead(base, name);
    lemma_prefix(base.bytes);
    if j.platform is Windows {
        assert(forall|k: int| 0 <= k < n ==> #[trigger] j.bytes[k] == base.bytes[k]) by {
            assert(forall|k: int| 0 <= k < n ==> j.bytes.take(n)[k] == base.bytes[k]);
        }
        match prefix(base) {
            Some(x) => {
                assert(j.bytes.subrange(x.start, x.mid) =~= base.bytes.subrange(x.start, x.mid));
            },
            None => {
                assert(!base.platform.is_separator(name[0]));
                assert(j.bytes.skip(start)[0] == name[0]);
                if n == 0 {
                    assert(!slash(j.bytes[0]));
                } else if n == 1 {
                    assert(base.bytes.last() == base.bytes[0]);
                    if start == 1 {
                        assert(!slash(j.bytes[1]));
                    }
                }
            },
        }
    }
}

/// A path joined from a base and a plain name has the components of the base and
/// that name.
pub proof fn lemma_parts_join(base: PathView, name: Seq<u8>)
    requires
        plain_name(name, base.platform),
        tidy(base),
        settled(base),
        rooted(base),
    ensures
        ({
            let j = join(base, name);
            let start = join_start(base, name);
            let last = name_span(start, j.bytes.len() as int);
            &&& j.platform == base.platform
            &&& base.bytes.len() <= start
            &&& j.bytes.skip(start) == name
            &&& j.bytes.take(base.bytes.len() as int) == base.bytes
            &&& prefix(j) == prefix(base)
            &&& starts_at_root(j) == starts_at_root(base)
            &&& lead_len(j) == lead_len(base)
            &&& body(j) == body(base).push(last)
            &&& parts(j) == parts(base).push(last)
        }),
{
    let j = join(base, name);
    let start = join_start(base, name);
    let last = name_span(start, j.bytes.len() as int);
    let by = separators(base);
    lemma_join_bytes(base, name);
    lemma_join_lead(base, name);
    lemma_lead(base);
    assert forall|k: int| start <= k < j.bytes.len() implies !by.part(#[trigger] j.bytes[k]) by {
        assert(j.bytes.skip(start)[k - start] == name[k - start]);
        assert(!base.platform.is_separator(name[k - start]));
    }
    assert(start == base.bytes.len() && base.bytes.len() == 0 ==> lead_len(base) == 0);
    lemma_body_join(base.bytes, j.bytes, start, lead_len(base), by);
    assert(leading_parts(j) =~= leading_parts(base));
    assert(leading_parts(base) + body(base).push(last) =~= parts(base).push(last));
}

/// Behind a prefix that stands alone, a plain name comes below a root.
proof fn lemma_parts_join_alone(base: PathView, name: Seq<u8>)
    requires
        plain_name(name, base.platform),
        tidy(base),
        settled(base),
        !rooted(base),
    ensures
        ({
            let j = join(base, name);
            &&& body(j).len() > 0
            &&& body(j).last() == name_span(join_start(base, name), j.bytes.len() as int)
        }),
{
    let j = join(base, name);
    let start = join_start(base, name);
    let b = base.bytes;
    let n = b.len() as int;
    lemma_join_bytes(base, name);
    lemma_prefix(b);
    lemma_prefix_alone(base);
    assert(forall|k: int| 0 <= k < n ==> #[trigger] j.bytes[k] == b[k]) by {
        assert(forall|k: int| 0 <= k < n ==> j.bytes.take(n)[k] == b[k]);
    }
    assert(start == n + 1) by {
        if is_verbatim(base) {
            lemma_join_alone_bytes(base, name);
        }
    }
    lemma_prefix_kept(b, j.bytes);
    assert(starts_at_root(j));
    let by = separators(j);
    assert forall|k: int| start <= k < j.bytes.len() implies !by.part(#[trigger] j.bytes[k]) by {
        assert(j.bytes.skip(start)[k - start] == name[k - start]);
        assert(!base.platform.is_separator(name[k - start]));
    }
    lemma_body_join(j.bytes.take(start), j.bytes, start, start, by);
}

/// A separator comes between a verbatim prefix that stands alone and a name.
proof fn lemma_join_alone_bytes(base: PathView, name: Seq<u8>)
    requires
        plain_name(name, base.platform),
        tidy(base),
        is_verbatim(base),
        parts(base).len() == 1,
        parts(base)[0].kind is Prefix,
    ensures
        join_start(base, name) == base.bytes.len() + 1,
{
    reveal(join);
    let t = PathView { bytes: name, platform: base.platform };
    lemma_plain_name_parts(name, base.platform);
    let at = pieces(base);
    let step = PieceView { kind: PartKind::Normal, bytes: name };
    assert(pieces(t).drop_last() =~= Seq::<PieceView>::empty());
    assert(walked(at, pieces(t).drop_last()) == at);
    assert(walked(at, pieces(t)) == at.push(step));
    assert(at.push(step).drop_last() =~= at);
    assert(written(at) == base.bytes);
}

/// What the first `k` components of a verbatim path are once they are written
/// out: the prefix, a root, and the rest one by one.
proof fn lemma_written(p: PathView, k: int)
    requires
        is_verbatim(p),
        starts_at_root(p),
        2 <= k <= parts(p).len(),
    ensures
        ({
            let w = written(pieces(p).take(k));
            let n = prefix_len(p);
            let names = body_from(w, n + 1, Separators::Backslash);
            &&& n < w.len()
            &&& w.take(n) == p.bytes.take(n)
            &&& w[n] == 0x5c
            &&& names.len() == k - 2
            &&& forall|j: int|
                0 <= j < k - 2 ==> (#[trigger] names[j]).kind == parts(p)[j + 2].kind && w.subrange(
                    names[j].start,
                    names[j].end,
                ) == pieces(p)[j + 2].bytes
            &&& k == 2 ==> w.len() == n + 1
            &&& k > 2 ==> w.len() == names.last().end
        }),
    decreases k,
{
    lemma_lead(p);
    lemma_prefix(p.bytes);
    let by = Separators::Backslash;
    let n = prefix_len(p);
    let all = pieces(p);
    let w = written(all.take(k));
    assert(parts(p)[0] == leading_parts(p)[0] && parts(p)[1] == leading_parts(p)[1]);
    if k == 2 {
        let one = all.take(1);
        assert(all.take(2).drop_last() =~= one);
        assert(one.drop_last() =~= Seq::<PieceView>::empty());
        assert(written(one.drop_last()) =~= Seq::<u8>::empty());
        assert(one.last() == all[0]);
        assert(written(one) =~= p.bytes.subrange(0, n));
        assert(w =~= p.bytes.subrange(0, n) + seq![0x5cu8]);
        assert(body_from(w, n + 1, by) =~= Seq::<Span>::empty());
        assert(w.take(n) =~= p.bytes.take(n));
    } else {
        lemma_written(p, k - 1);
        let front = all.take(k - 1);
        let v = written(front);
        let c = all[k - 1];
        let s = parts(p)[k - 1];
        assert(s == body(p)[k - 3]);
        lemma_body_from(p.bytes, lead_len(p), by);
        assert(c.bytes == p.bytes.subrange(s.start, s.end));
        assert(all.take(k).drop_last() =~= front);
        assert(front.last() == all[k - 2]);
        let start = if k == 3 {
            v.len() as int
        } else {
            v.len() as int + 1
        };
        if k == 3 {
            assert(w =~= v + c.bytes);
        } else {
            assert(all[k - 2].kind == body(p)[k - 4].kind) by {
                assert(parts(p)[k - 2] == body(p)[k - 4]);
            }
            assert(w =~= v.push(0x5c) + c.bytes);
        }
        assert(w.skip(start) =~= c.bytes);
        assert(w.take(v.len() as int) =~= v);
        assert forall|m: int| start <= m < w.len() implies !by.part(#[trigger] w[m]) by {
            assert(w[m] == c.bytes[m - start]);
            assert(w[m] == p.bytes[s.start + m - start]);
        }
        lemma_body_join(v, w, start, n + 1, by);
        lemma_body_from(v, n + 1, by);
        let before = body_from(v, n + 1, by);
        let names = body_from(w, n + 1, by);
        assert forall|j: int| 0 <= j < k - 2 implies (#[trigger] names[j]).kind == parts(p)[j
            + 2].kind && w.subrange(names[j].start, names[j].end) == all[j + 2].bytes by {
            if j < k - 3 {
                assert(names[j] == before[j]);
                assert(w.subrange(names[j].start, names[j].end) =~= v.subrange(
                    before[j].start,
                    before[j].end,
                ));
            } else {
                assert(w.subrange(start, w.len() as int) =~= w.skip(start));
            }
        }
        assert(w.take(n) =~= v.take(n));
        assert(w[n] == v[n]);
    }
}

/// Written as its components are, a verbatim path has the same components, and
/// ends where the last of them ends.
pub proof fn lemma_tidied(p: PathView)
    requires
        settled(p),
        is_verbatim(p),
    ensures
        ({
            let q = tidied(p);
            &&& prefix(q) == prefix(p)
            &&& prefix_len(p) <= q.bytes.len()
            &&& q.bytes.take(prefix_len(p)) == p.bytes.take(prefix_len(p))
            &&& settled(q)
            &&& rooted(q) == rooted(p)
            &&& pieces(q) == pieces(p)
            &&& parts(q).len() == parts(p).len()
            &&& tidy(q)
            &&& path_end(q) == q.bytes.len()
        }),
{
    let q = tidied(p);
    let n = prefix_len(p);
    let by = Separators::Backslash;
    lemma_lead(p);
    lemma_prefix(p.bytes);
    if !rooted(p) {
        lemma_prefix_alone(p);
        let all = pieces(p);
        assert(parts(p)[0] == leading_parts(p)[0]);
        assert(all.drop_last() =~= Seq::<PieceView>::empty());
        assert(p.bytes.subrange(0, n) =~= p.bytes);
        assert(written(all.drop_last()) =~= Seq::<u8>::empty());
        assert(all.last() == all[0]);
        assert(written(all) =~= p.bytes);
        assert(body(p) =~= Seq::<Span>::empty());
    } else {
        let k = parts(p).len() as int;
        assert(parts(p).len() == leading_parts(p).len() + body(p).len());
        lemma_written(p, k);
        assert(pieces(p).take(k) =~= pieces(p));
        let w = q.bytes;
        assert forall|m: int| 0 <= m < n implies #[trigger] w[m] == p.bytes[m] by {
            assert(w.take(n)[m] == p.bytes.take(n)[m]);
        }
        lemma_prefix_kept(p.bytes, w);
        let x = prefix(p)->0;
        assert(w.subrange(x.start, x.mid) =~= p.bytes.subrange(x.start, x.mid));
        assert(starts_at_root(q));
        let names = body_from(w, n + 1, by);
        assert(body(q) == names);
        assert forall|i: int| 0 <= i < k implies #[trigger] pieces(q)[i] == pieces(p)[i] by {
            if i < 2 {
                assert(parts(p)[i] == leading_parts(p)[i] && parts(q)[i] == leading_parts(q)[i]);
                assert(w.subrange(0, n) =~= p.bytes.subrange(0, n));
            } else {
                assert(parts(q)[i] == names[i - 2]);
                assert(parts(p)[i] == body(p)[i - 2]);
                lemma_body_from(p.bytes, lead_len(p), by);
                assert(pieces(p)[i].kind == parts(p)[i].kind);
            }
        }
        assert(pieces(q) =~= pieces(p));
    }
}

/// A join to a verbatim path is a join to the path as its components are written.
pub proof fn lemma_join_tidied(base: PathView, name: Seq<u8>)
    requires
        settled(base),
        is_verbatim(base),
        plain_name(name, base.platform),
    ensures
        join(base, name) == join(tidied(base), name),
{
    reveal(join);
    lemma_tidied(base);
}

/// A path joined from a base and a plain name has that file name.
pub proof fn lemma_join_file_name(base: PathView, name: Seq<u8>)
    requires
        plain_name(name, base.platform),
        settled(base),
    ensures
        file_name(join(base, name)) == Some(name),
{
    if is_verbatim(base) {
        lemma_tidied(base);
        lemma_join_tidied(base, name);
    }
    lemma_tidy_join_file_name(tidied(base), name);
}

proof fn lemma_tidy_join_file_name(base: PathView, name: Seq<u8>)
    requires
        plain_name(name, base.platform),
        tidy(base),
        settled(base),
    ensures
        file_name(join(base, name)) == Some(name),
{
    let j = join(base, name);
    let start = join_start(base, name);
    let len = j.bytes.len() as int;
    if rooted(base) {
        lemma_parts_join(base, name);
    } else {
        lemma_parts_join_alone(base, name);
    }
    lemma_join_bytes(base, name);
    assert(parts(j).last() == body(j).last());
    assert(j.bytes.subrange(start, len) =~= j.bytes.skip(start));
}

/// A name put behind a path that is written as its components are leaves it so.
pub proof fn lemma_join_tidy(base: PathView, name: Seq<u8>)
    requires
        plain_name(name, base.platform),
        tidy(base),
        settled(base),
        rooted(base),
    ensures
        tidy(join(base, name)),
{
    let j = join(base, name);
    lemma_parts_join(base, name);
    if is_verbatim(base) {
        reveal(join);
        lemma_plain_name_parts(name, base.platform);
        lemma_parts(base);
        let t = PathView { bytes: name, platform: base.platform };
        let at = pieces(base);
        let step = PieceView { kind: PartKind::Normal, bytes: name };
        let n = base.bytes.len() as int;
        let start = join_start(base, name);
        assert(pieces(t).drop_last() =~= Seq::<PieceView>::empty());
        assert(walked(at, pieces(t).drop_last()) == at);
        assert(walked(at, pieces(t)) == at.push(step));
        assert forall|k: int| 0 <= k < n implies #[trigger] j.bytes[k] == base.bytes[k] by {
            assert(j.bytes.take(n)[k] == base.bytes[k]);
        }
        assert forall|i: int| 0 <= i < parts(j).len() implies #[trigger] pieces(j)[i] == at.push(
            step,
        )[i] by {
            let s = parts(j)[i];
            if i < at.len() {
                assert(s == parts(base)[i]);
                assert(j.bytes.subrange(s.start, s.end) =~= base.bytes.subrange(s.start, s.end));
            } else {
                assert(j.bytes.subrange(s.start, s.end) =~= j.bytes.skip(start));
            }
        }
        assert(pieces(j) =~= at.push(step));
    }
}

/// The path as a join takes it: written as its components are, and with a root
/// behind a prefix that stands alone.
pub open spec fn grounded(p: PathView) -> PathView {
    if rooted(p) {
        tidied(p)
    } else {
        PathView { bytes: p.bytes.push(0x5c), platform: p.platform }
    }
}

/// A path as a join takes it has the components of the path, and a root behind a
/// verbatim prefix that stands alone.
pub proof fn lemma_grounded(p: PathView)
    requires
        settled(p),
    ensures
        ({
            let g = grounded(p);
            &&& g.platform == p.platform
            &&& prefix(g) == prefix(p)
            &&& settled(g)
            &&& rooted(g)
            &&& tidy(g)
            &&& parts(p).len() <= parts(g).len()
            &&& rooted(p) || !is_verbatim(p) ==> parts(p).len() == parts(g).len()
            &&& !rooted(p) ==> is_drive(p) || (parts(g).len() == 2 && parts(g)[1].end
                == g.bytes.len() && prefix_len(p) + 1 == g.bytes.len())
            &&& forall|i: int|
                0 <= i < parts(p).len() ==> same_part(
                    g,
                    #[trigger] parts(g)[i],
                    p,
                    parts(p)[i],
                )
        }),
{
    let g = grounded(p);
    lemma_prefix(p.bytes);
    if rooted(p) {
        if is_verbatim(p) {
            lemma_tidied(p);
        } else {
            assert(g =~= p);
        }
        assert forall|i: int| 0 <= i < parts(p).len() implies same_part(
            g,
            #[trigger] parts(g)[i],
            p,
            parts(p)[i],
        ) by {
            lemma_tidied_part(p, i);
        }
    } else {
        lemma_prefix_alone(p);
        let n = prefix_len(p);
        let x = prefix(p)->0;
        assert forall|k: int| 0 <= k < n implies #[trigger] g.bytes[k] == p.bytes[k] by {}
        lemma_prefix_kept(p.bytes, g.bytes);
        assert(g.bytes.subrange(x.start, x.mid) =~= p.bytes.subrange(x.start, x.mid));
        assert(starts_at_root(g));
        assert(body(g) =~= Seq::<Span>::empty());
        assert(body(p) =~= Seq::<Span>::empty());
        assert(parts(g) =~= leading_parts(g));
        assert(parts(p) =~= leading_parts(p));
        assert(first_name(g.bytes, x) =~= first_name(p.bytes, x));
        assert(second_name(g.bytes, x) =~= second_name(p.bytes, x));
        if is_verbatim(p) {
            let all = pieces(g);
            let one = all.drop_last();
            assert(one.drop_last() =~= Seq::<PieceView>::empty());
            assert(written(one.drop_last()) =~= Seq::<u8>::empty());
            assert(one.last() == all[0] && all.last() == all[1]);
            assert(g.bytes.subrange(0, n) =~= p.bytes);
            assert(written(one) =~= p.bytes);
            assert(written(all) =~= g.bytes);
        }
    }
}

/// A name is put behind a path as it is put behind the path as a join takes it.
pub proof fn lemma_join_grounded(base: PathView, name: Seq<u8>)
    requires
        settled(base),
        plain_name(name, base.platform),
    ensures
        join(base, name) == join(grounded(base), name),
{
    let g = grounded(base);
    lemma_grounded(base);
    if rooted(base) {
        if is_verbatim(base) {
            lemma_join_tidied(base, name);
        } else {
            assert(g =~= base);
        }
    } else {
        let n = base.bytes.len() as int;
        lemma_prefix_alone(base);
        lemma_join_bytes(g, name);
        assert(g.bytes.last() == 0x5c);
        let k = join(g, name);
        assert(k.bytes =~= k.bytes.take(n + 1) + k.bytes.skip(n + 1));
        if is_verbatim(base) {
            let all = pieces(base);
            assert(parts(base)[0] == leading_parts(base)[0]) by {
                lemma_lead(base);
            }
            assert(all.drop_last() =~= Seq::<PieceView>::empty());
            assert(written(all.drop_last()) =~= Seq::<u8>::empty());
            assert(base.bytes.subrange(0, n) =~= base.bytes);
            assert(written(all) =~= base.bytes);
            lemma_join_bytes(base, name);
            lemma_join_alone_bytes(base, name);
            let j = join(base, name);
            assert(j.bytes =~= j.bytes.take(n) + seq![j.bytes[n]] + j.bytes.skip(n + 1));
        } else {
            reveal(join);
            lemma_plain_name_parts(name, base.platform);
        }
        assert(join(base, name).bytes =~= k.bytes);
        crate::path::lemma_join_platform(base, name);
    }
}

/// A settled prefix with nothing behind it does not end in a separator, unless
/// what comes behind it is taken as it stands.
pub proof fn lemma_prefix_alone(p: PathView)
    requires
        settled(p),
        !rooted(p),
    ensures
        p.bytes.len() == prefix_len(p),
        p.bytes.len() > 0,
        !is_verbatim(p) ==> !slash(p.bytes.last()),
        is_verbatim(p) ==> parts(p).len() == 1 && parts(p)[0].kind is Prefix,
{
    reveal(windows_prefix);
    let b = p.bytes;
    lemma_prefix(b);
    let x = prefix(p)->0;
    lemma_segment_end(b, x.start, Separators::Either);
    lemma_segment_end(b, x.second, Separators::Either);
    assert(b.len() == x.len);
    if is_verbatim(p) {
        assert(body(p) =~= Seq::<Span>::empty());
    }
}

/// The last component of a path with a file name stands behind its root.
proof fn lemma_file_name_part(p: PathView)
    requires
        file_name(p) is Some,
    ensures
        body(p).len() > 0,
        parts(p).last() == body(p).last(),
        parts(p).drop_last() == leading_parts(p) + body(p).drop_last(),
{
    lemma_lead(p);
    let lead = leading_parts(p);
    if body(p).len() == 0 {
        assert(parts(p) =~= lead);
        assert(lead.last() == lead[lead.len() - 1]);
    }
    assert(parts(p).drop_last() =~= lead + body(p).drop_last());
}

/// A path with a file name has a parent.
pub proof fn lemma_named_path_has_parent(p: PathView)
    ensures
        file_name(p) is Some ==> parent(p) is Some,
        parent(p) is Some ==> parent(p)->0.platform == p.platform,
{
    if file_name(p) is Some {
        lemma_file_name_part(p);
    }
}

/// A file name is a name: not empty, no dot or two, without what parts the
/// components of the path.
pub proof fn lemma_file_name(p: PathView)
    requires
        file_name(p) is Some,
    ensures
        ({
            let name = file_name(p)->0;
            &&& name.len() > 0
            &&& segment_kind(name) is Normal
            &&& forall|i: int| 0 <= i < name.len() ==> !separators(p).part(#[trigger] name[i])
        }),
{
    lemma_file_name_part(p);
    lemma_body_from(p.bytes, lead_len(p), separators(p));
    lemma_lead(p);
    let s = body(p)[body(p).len() - 1];
    let name = file_name(p)->0;
    assert(name == p.bytes.subrange(s.start, s.end));
    assert forall|i: int| 0 <= i < name.len() implies !separators(p).part(#[trigger] name[i]) by {
        assert(name[i] == p.bytes[s.start + i]);
    }
}

/// Cut at the end of a component, a path keeps the components up to there.
proof fn lemma_body_cut(b: Seq<u8>, i: int, by: Separators, m: int)
    requires
        0 <= i,
        0 <= m < body_from(b, i, by).len(),
    ensures
        body_from(b.take(body_from(b, i, by)[m].end), i, by) == body_from(b, i, by).take(m + 1),
    decreases b.len() - i,
{
    lemma_body_from(b, i, by);
    let all = body_from(b, i, by);
    let e = all[m].end;
    let q = b.take(e);
    assert(forall|k: int| 0 <= k < e ==> #[trigger] q[k] == b[k]);
    assert(i <= all[m].start);
    if by.part(b[i]) {
        lemma_body_cut(b, i + 1, by, m);
        assert(q[i] == b[i]);
    } else {
        let end = segment_end(b, i, by);
        lemma_segment_end(b, i, by);
        let kind = segment_kind(b.subrange(i, end));
        let rest = body_from(b, end, by);
        lemma_body_from(b, end, by);
        let skipped = kind is Current && !(by is Backslash);
        let head = Span { kind, start: i, end };
        assert(end <= e) by {
            if skipped {
                assert(all[m] == rest[m]);
            } else if m > 0 {
                assert(all[m] == rest[m - 1]);
            } else {
                assert(all[0] == head);
            }
        }
        assert forall|k: int| i <= k < end implies !by.part(#[trigger] q[k]) by {
            assert(q[k] == b[k]);
        }
        if end < e {
            assert(q[end] == b[end]);
        }
        lemma_segment_end_is(q, i, by, end);
        assert(q.subrange(i, end) =~= b.subrange(i, end));
        assert(q[i] == b[i]);
        if skipped {
            lemma_body_cut(b, end, by, m);
        } else if m > 0 {
            assert(all[m] == rest[m - 1]);
            lemma_body_cut(b, end, by, m - 1);
            assert(all.take(m + 1) =~= seq![head] + rest.take(m));
        } else {
            assert(all[0] == head);
            assert(e == end);
            assert(body_from(q, end, by) =~= Seq::<Span>::empty());
            assert(all.take(1) =~= seq![head]);
            assert(body_from(q, i, by) =~= seq![head]);
        }
    }
}

/// A path cut behind its lead keeps its prefix, its root and its first dot.
proof fn lemma_cut_lead(p: PathView, e: int)
    requires
        settled(p),
        lead_len(p) <= e <= p.bytes.len(),
        e == p.bytes.len() || e == lead_len(p) || e >= lead_len(p) + 1 && !separators(p).part(
            p.bytes[lead_len(p)],
        ) || e >= lead_len(p) + 2,
        !starts_with_dot(p) && !starts_at_root(p) && e == prefix_len(p) + 1 ==> p.bytes[prefix_len(
            p,
        )] != 0x2e,
    ensures
        ({
            let q = cut(p, e);
            &&& prefix(q) == prefix(p)
            &&& starts_at_root(q) == starts_at_root(p)
            &&& starts_with_dot(q) == starts_with_dot(p)
            &&& settled(q)
        }),
{
    reveal(windows_prefix);
    let q = cut(p, e);
    let n = prefix_len(p);
    lemma_lead(p);
    lemma_prefix(p.bytes);
    assert(forall|k: int| 0 <= k < e ==> #[trigger] q.bytes[k] == p.bytes[k]);
    if p.platform is Windows {
        if prefix(p) is Some {
            let x = prefix(p)->0;
            assert(e == n || q.bytes[n] == p.bytes[n]);
            lemma_prefix_kept(p.bytes, q.bytes);
            assert(q.bytes.subrange(x.start, x.mid) =~= p.bytes.subrange(x.start, x.mid));
        }
    }
    assert(starts_at_root(q) == starts_at_root(p)) by {
        if e > n {
            assert(q.bytes[n] == p.bytes[n]);
        }
    }
    assert(starts_with_dot(q) == starts_with_dot(p)) by {
        if e > n {
            assert(q.bytes[n] == p.bytes[n]);
        }
        if e > n + 1 {
            assert(q.bytes[n + 1] == p.bytes[n + 1]);
        }
    }
}

/// The directory of a file starts as the path of the file does.
proof fn lemma_parent_lead(p: PathView)
    requires
        file_name(p) is Some,
        settled(p),
    ensures
        parent(p) is Some,
        ({
            let q = parent(p)->0;
            let e = q.bytes.len() as int;
            let names = body(p);
            &&& q == cut(p, e)
            &&& lead_len(p) <= e <= p.bytes.len()
            &&& e == (if names.len() >= 2 {
                names[names.len() - 2].end
            } else {
                lead_len(p)
            })
            &&& prefix(q) == prefix(p)
            &&& starts_at_root(q) == starts_at_root(p)
            &&& starts_with_dot(q) == starts_with_dot(p)
            &&& settled(q)
            &&& rooted(p)
        }),
{
    lemma_file_name_part(p);
    lemma_lead(p);
    lemma_prefix(p.bytes);
    let by = separators(p);
    let names = body(p);
    let n = lead_len(p);
    lemma_body_from(p.bytes, n, by);
    let e = parent(p)->0.bytes.len() as int;
    assert(rooted(p)) by {
        assert(names[0].start < p.bytes.len());
    }
    if names.len() >= 2 {
        let m = names.len() - 2;
        assert(names[m].end == e);
        assert(names[m].start >= n);
        if !starts_with_dot(p) && !starts_at_root(p) && e == prefix_len(p) + 1 {
            assert(names[m].start == prefix_len(p));
            let s = p.bytes.subrange(names[m].start, names[m].end);
            if p.bytes[prefix_len(p)] == 0x2e {
                assert(s =~= seq![0x2eu8]);
                assert(names[m].kind is Current);
            }
        }
        if e == n + 1 {
            assert(names[m].start == n);
            assert(!by.part(p.bytes[n]));
        }
    } else {
        assert(e == n);
    }
    lemma_cut_lead(p, e);
}

/// The directory of a file has the components of its path but for the last, and
/// ends where the last of them ends.
pub proof fn lemma_parent(p: PathView)
    requires
        file_name(p) is Some,
        settled(p),
    ensures
        parent(p) is Some,
        ({
            let q = parent(p)->0;
            &&& q.platform == p.platform
            &&& q == cut(p, q.bytes.len() as int)
            &&& q.bytes.len() <= p.bytes.len()
            &&& prefix(q) == prefix(p)
            &&& lead_len(q) == lead_len(p)
            &&& body(q) == body(p).drop_last()
            &&& parts(q) == parts(p).drop_last()
            &&& path_end(q) == q.bytes.len()
            &&& settled(q)
            &&& rooted(q)
        }),
{
    lemma_parent_lead(p);
    lemma_file_name_part(p);
    lemma_lead(p);
    let by = separators(p);
    let names = body(p);
    let n = lead_len(p);
    let q = parent(p)->0;
    let e = q.bytes.len() as int;
    assert(q.bytes =~= p.bytes.take(e));
    if names.len() >= 2 {
        let m = names.len() - 2;
        lemma_body_cut(p.bytes, n, by, m);
        assert(names.take(m + 1) =~= names.drop_last());
        assert(body(q).last() == names[m]);
    } else {
        assert(body_from(q.bytes, n, by) =~= Seq::<Span>::empty());
        assert(names.drop_last() =~= Seq::<Span>::empty());
    }
    assert(leading_parts(q) =~= leading_parts(p));
}

/// A file that gets another plain name has that name, in the same directory,
/// which is written as its components are where the path is verbatim.
pub proof fn lemma_with_file_name(p: PathView, name: Seq<u8>)
    requires
        file_name(p) is Some,
        plain_name(name, p.platform),
        settled(p),
    ensures
        ({
            let j = with_file_name(p, name);
            let q = tidied(parent(p)->0);
            &&& file_name(j) == Some(name)
            &&& parent(j) == Some(q)
            &&& j.platform == p.platform
            &&& prefix(j) == prefix(p)
            &&& settled(j)
            &&& q.bytes.len() <= j.bytes.len()
            &&& j.bytes.take(q.bytes.len() as int) == q.bytes
            &&& parts(j).len() == parts(p).len()
            &&& parts(j).drop_last() == parts(q)
        }),
{
    lemma_parent(p);
    let r = parent(p)->0;
    let q = tidied(r);
    if is_verbatim(r) {
        lemma_tidied(r);
        lemma_join_tidied(r, name);
    }
    lemma_parts_join(q, name);
    let j = join(q, name);
    let start = join_start(q, name);
    let len = j.bytes.len() as int;
    assert(parts(j).last() == name_span(start, len));
    assert(parts(j).drop_last() =~= parts(q));
    assert(j.bytes.subrange(start, len) =~= j.bytes.skip(start));
    let names = body(j);
    let n = q.bytes.len() as int;
    if names.len() >= 2 {
        assert(names[names.len() - 2] == body(q).last());
    }
    assert(parent(j) == Some(cut(j, n)));
    assert(j.bytes.subrange(0, n) =~= j.bytes.take(n));
    lemma_join_settled(q, name);
}

/// The components of a path as they are written are those of the path.
pub proof fn lemma_tidied_part(p: PathView, i: int)
    requires
        settled(p),
        0 <= i < parts(p).len(),
    ensures
        parts(tidied(p)).len() == parts(p).len(),
        same_part(tidied(p), parts(tidied(p))[i], p, parts(p)[i]),
{
    let q = tidied(p);
    lemma_parts(p);
    if is_verbatim(p) {
        lemma_tidied(p);
        lemma_prefix(p.bytes);
        let n = prefix_len(p);
        assert(pieces(q)[i] == pieces(p)[i]);
        assert(piece(q, parts(q)[i]) == piece(p, parts(p)[i]));
        assert forall|m: int| 0 <= m < n implies #[trigger] q.bytes[m] == p.bytes[m] by {
            assert(q.bytes.take(n)[m] == p.bytes.take(n)[m]);
        }
        let x = prefix(p)->0;
        assert(first_name(q.bytes, x) =~= first_name(p.bytes, x));
        assert(second_name(q.bytes, x) =~= second_name(p.bytes, x));
    } else {
        assert(q =~= p);
    }
}

/// With another name at its end, a path keeps its other components.
pub proof fn lemma_kept_part(p: PathView, name: Seq<u8>, i: int)
    requires
        file_name(p) is Some,
        plain_name(name, p.platform),
        settled(p),
        0 <= i < parts(p).len() - 1,
    ensures
        ({
            let j = with_file_name(p, name);
            same_part(j, parts(j)[i], p, parts(p)[i])
        }),
{
    lemma_with_file_name(p, name);
    lemma_parent(p);
    let j = with_file_name(p, name);
    let r = parent(p)->0;
    let q = tidied(r);
    lemma_tidied_part(r, i);
    if is_verbatim(r) {
        lemma_tidied(r);
    } else {
        assert(q =~= r);
    }
    assert(parts(j).drop_last()[i] == parts(j)[i]);
    assert(parts(p).drop_last()[i] == parts(p)[i]);
    assert(p.bytes.take(r.bytes.len() as int) =~= r.bytes) by {
        assert(p.bytes.take(r.bytes.len() as int) =~= cut(p, r.bytes.len() as int).bytes);
    }
    lemma_kept_head(q, j, i);
    lemma_kept_head(r, p, i);
}

/// A path that another one starts with, up to the end of a component, has its
/// components from it.
pub proof fn lemma_kept_head(q: PathView, j: PathView, i: int)
    requires
        q.platform == j.platform,
        q.bytes.len() <= j.bytes.len(),
        j.bytes.take(q.bytes.len() as int) == q.bytes,
        prefix(j) == prefix(q),
        settled(q),
        0 <= i < parts(q).len(),
        i < parts(j).len(),
        parts(j)[i] == parts(q)[i],
    ensures
        same_part(q, parts(q)[i], j, parts(j)[i]),
{
    let n = q.bytes.len() as int;
    lemma_parts(q);
    lemma_prefix(q.bytes);
    let s = parts(q)[i];
    assert forall|k: int| 0 <= k < n implies #[trigger] j.bytes[k] == q.bytes[k] by {
        assert(j.bytes.take(n)[k] == q.bytes[k]);
    }
    assert(j.bytes.subrange(s.start, s.end) =~= q.bytes.subrange(s.start, s.end));
    if s.kind is Prefix {
        let x = prefix(q)->0;
        assert(first_name(j.bytes, x) =~= first_name(q.bytes, x));
        assert(second_name(j.bytes, x) =~= second_name(q.bytes, x));
    }
}

pub proof fn lemma_last_position(s: Seq<u8>, b: u8)
    ensures
        -1 <= last_position(s, b) < s.len(),
        last_position(s, b) >= 0 ==> s[last_position(s, b)] == b,
        forall|k: int| last_position(s, b) < k < s.len() ==> #[trigger] s[k] != b,
    decreases s.len(),
{
    if s.len() > 0 && s.last() != b {
        let rest = s.drop_last();
        lemma_last_position(rest, b);
        assert forall|k: int| last_position(s, b) < k < s.len() implies #[trigger] s[k] != b by {
            assert(k < rest.len() ==> s[k] == rest[k]);
        }
    }
}

/// The last position of a byte is the one after which it does not stand.
pub proof fn lemma_last_position_is(s: Seq<u8>, b: u8, at: int)
    requires
        -1 <= at < s.len(),
        at >= 0 ==> s[at] == b,
        forall|k: int| at < k < s.len() ==> #[trigger] s[k] != b,
    ensures
        last_position(s, b) == at,
{
    lemma_last_position(s, b);
    let found = last_position(s, b);
    if found > at {
        assert(s[found] != b);
    } else if found < at {
        assert(s[at] != b);
    }
}

} // verus!
