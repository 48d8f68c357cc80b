//! Laws of paths: what is cut off a path leads back to it.

use vstd::prelude::*;
use crate::path::{
    body,
    body_from,
    cut,
    equal_paths,
    file_name,
    has_root,
    is_drive,
    is_verbatim,
    join,
    lead_len,
    leading_parts,
    lies_below,
    parent,
    parts,
    path_end,
    pieces,
    prefix,
    prefix_len,
    relative,
    same_part,
    segment_kind,
    separators,
    starts_at_root,
    starts_with_dot,
    walked,
    written,
    PartKind,
    PathView,
    PieceView,
    Platform,
    Span,
};
use crate::path_facts::{
    grounded,
    join_start,
    lemma_body_from,
    lemma_body_join,
    lemma_grounded,
    lemma_join_bytes,
    lemma_join_file_name,
    lemma_join_grounded,
    lemma_join_settled,
    lemma_join_tidy,
    lemma_kept_head,
    lemma_last_piece,
    lemma_lead,
    lemma_parent,
    lemma_parts,
    lemma_parts_join,
    lemma_prefix_alone,
    lemma_tidied,
    plain_name,
    rooted,
    settled,
    tidy,
};
use crate::prefix::{lemma_prefix, lemma_segment_end, segment_end, windows_prefix, Prefix};

verus! {

broadcast use vstd::seq_lib::group_seq_properties;

/// The path that comes of joining one name after the other.
pub open spec fn joined(base: PathView, names: Seq<Seq<u8>>) -> PathView
    decreases names.len(),
{
    if names.len() == 0 {
        base
    } else {
        join(joined(base, names.drop_last()), names.last())
    }
}

/// The names with separators between them.
pub open spec fn listed(names: Seq<Seq<u8>>, platform: Platform) -> Seq<u8>
    decreases names.len(),
{
    if names.len() == 0 {
        Seq::empty()
    } else if names.len() == 1 {
        names[0]
    } else {
        listed(names.drop_last(), platform).push(platform.main_separator()) + names.last()
    }
}

pub open spec fn plain_names(names: Seq<Seq<u8>>, platform: Platform) -> bool {
    names.len() > 0 && forall|i: int|
        0 <= i < names.len() ==> plain_name(#[trigger] names[i], platform)
}

/// A directory that names can be put behind: on Windows one whose prefix they do
/// not become part of, and not a lone dot behind a drive.
pub open spec fn plain_directory(p: PathView) -> bool {
    &&& settled(p)
    &&& !(prefix(p) is Some && starts_with_dot(p) && body(p).len() == 0)
}

/// A verbatim prefix with nothing behind it, not even a root.
pub open spec fn bare_prefix(p: PathView) -> bool {
    is_verbatim(p) && !starts_at_root(p)
}

/// The directory as a join takes it, with a separator behind it where a name
/// needs one.
pub open spec fn joint(base: PathView) -> Seq<u8> {
    let g = grounded(base);
    if g.bytes.len() == 0 || separators(g).part(g.bytes.last()) || (is_drive(g) && g.bytes.len()
        == prefix_len(g)) {
        g.bytes
    } else {
        g.bytes.push(g.platform.main_separator())
    }
}

/// A list of plain names is not taken for a path of its own.
pub proof fn lemma_listed(names: Seq<Seq<u8>>, platform: Platform)
    requires
        plain_names(names, platform),
    ensures
        ({
            let t = PathView { bytes: listed(names, platform), platform };
            &&& t.bytes.len() > 0
            &&& t.bytes.len() == names[0].len() || (t.bytes.len() > names[0].len()
                && t.bytes[names[0].len() as int] == platform.main_separator())
            &&& t.bytes.len() >= names[0].len()
            &&& t.bytes.take(names[0].len() as int) == names[0]
            &&& !platform.is_separator(t.bytes.last())
        }),
    decreases names.len(),
{
    let t = listed(names, platform);
    let first = names[0];
    let last = names.last();
    assert(last == names[names.len() - 1]);
    assert(!platform.is_separator(last[last.len() - 1]));
    assert(t.last() == last.last());
    if names.len() == 1 {
        assert(t.take(first.len() as int) =~= first);
    } else {
        let front = names.drop_last();
        assert forall|i: int| 0 <= i < front.len() implies plain_name(
            #[trigger] front[i],
            platform,
        ) by {
            assert(front[i] == names[i]);
        }
        lemma_listed(front, platform);
        let head = listed(front, platform);
        assert(t.take(first.len() as int) =~= head.take(first.len() as int));
    }
}

proof fn lemma_listed_is_relative(names: Seq<Seq<u8>>, platform: Platform)
    requires
        plain_names(names, platform),
    ensures
        prefix(PathView { bytes: listed(names, platform), platform }) is None,
        !has_root(PathView { bytes: listed(names, platform), platform }),
{
    reveal(windows_prefix);
    lemma_listed(names, platform);
    let t = listed(names, platform);
    let first = names[0];
    let n = first.len() as int;
    assert(plain_name(first, platform));
    assert(t.take(n)[0] == first[0] && t[0] == first[0]);
    assert(!platform.is_separator(first[0]));
    if n > 1 {
        assert(t.take(n)[1] == first[1] && t[1] == first[1]);
    }
}

/// Behind `lead`, each name of a list is a component.
proof fn lemma_listed_body(lead: Seq<u8>, names: Seq<Seq<u8>>, platform: Platform)
    requires
        plain_names(names, platform),
    ensures
        ({
            let b = lead + listed(names, platform);
            let found = body_from(b, lead.len() as int, platform.separators());
            &&& found.len() == names.len()
            &&& forall|i: int|
                0 <= i < names.len() ==> (#[trigger] found[i]).kind is Normal && b.subrange(
                    found[i].start,
                    found[i].end,
                ) == names[i]
        }),
    decreases names.len(),
{
    let by = platform.separators();
    let n = lead.len() as int;
    let b = lead + listed(names, platform);
    let last = names.last();
    assert(last == names[names.len() - 1]);
    let front = names.drop_last();
    let head = lead + listed(front, platform);
    let start = b.len() - last.len();
    if names.len() == 1 {
        assert(head =~= lead);
    } else {
        assert forall|i: int| 0 <= i < front.len() implies plain_name(
            #[trigger] front[i],
            platform,
        ) by {
            assert(front[i] == names[i]);
        }
        lemma_listed_body(lead, front, platform);
        assert(b =~= head.push(platform.main_separator()) + last);
    }
    assert(b.skip(start) =~= last);
    assert(b.take(head.len() as int) =~= head);
    assert forall|k: int| start <= k < b.len() implies !by.part(#[trigger] b[k]) by {
        assert(b[k] == last[k - start]);
        assert(!platform.is_separator(last[k - start]));
    }
    lemma_body_join(head, b, start, n, by);
    lemma_body_from(head, n, by);
    let before = body_from(head, n, by);
    let found = body_from(b, n, by);
    if names.len() == 1 {
        assert(before =~= Seq::<Span>::empty());
    }
    assert forall|i: int| 0 <= i < names.len() implies (#[trigger] found[i]).kind is Normal
        && b.subrange(found[i].start, found[i].end) == names[i] by {
        if i < front.len() {
            assert(found[i] == before[i]);
            assert(front[i] == names[i]);
            assert(b.subrange(found[i].start, found[i].end) =~= head.subrange(
                before[i].start,
                before[i].end,
            ));
        } else {
            assert(b.subrange(start, b.len() as int) =~= b.skip(start));
        }
    }
}

/// Names as components to put into another path.
pub open spec fn name_pieces(names: Seq<Seq<u8>>) -> Seq<PieceView> {
    Seq::new(names.len(), |i: int| PieceView { kind: PartKind::Normal, bytes: names[i] })
}

spec fn root_piece() -> PieceView {
    PieceView { kind: PartKind::Root, bytes: seq![0x5cu8] }
}

/// A list of names is a path of those components.
proof fn lemma_listed_pieces(names: Seq<Seq<u8>>, platform: Platform)
    requires
        plain_names(names, platform),
    ensures
        pieces(PathView { bytes: listed(names, platform), platform }) == name_pieces(names),
{
    let t = PathView { bytes: listed(names, platform), platform };
    let first = names[0];
    lemma_listed(names, platform);
    lemma_listed_is_relative(names, platform);
    lemma_listed_body(Seq::empty(), names, platform);
    assert(Seq::<u8>::empty() + t.bytes =~= t.bytes);
    assert(plain_name(first, platform));
    assert(!starts_with_dot(t)) by {
        let n = first.len() as int;
        assert(t.bytes.take(n)[0] == first[0] && t.bytes[0] == first[0]);
        if t.bytes[0] == 0x2e {
            if n == 1 {
                assert(first =~= seq![0x2eu8]);
            } else {
                assert(t.bytes.take(n)[1] == first[1] && t.bytes[1] == first[1]);
                assert(!platform.is_separator(first[1]));
            }
        }
    }
    assert(leading_parts(t) =~= Seq::<Span>::empty());
    assert(parts(t) =~= body(t));
    assert(pieces(t) =~= name_pieces(names));
}

/// A list of names behind a root is a path of that root and those components.
proof fn lemma_rooted_list_pieces(names: Seq<Seq<u8>>)
    requires
        plain_names(names, Platform::Windows),
    ensures
        ({
            let t = PathView {
                bytes: seq![0x5cu8] + listed(names, Platform::Windows),
                platform: Platform::Windows,
            };
            &&& prefix(t) is None
            &&& pieces(t) == seq![root_piece()] + name_pieces(names)
        }),
{
    let platform = Platform::Windows;
    let lead = seq![0x5cu8];
    let t = PathView { bytes: lead + listed(names, platform), platform };
    let first = names[0];
    lemma_listed(names, platform);
    lemma_listed_body(lead, names, platform);
    assert(prefix(t) is None) by {
        reveal(windows_prefix);
        assert(plain_name(first, platform));
        assert(listed(names, platform).take(first.len() as int)[0] == first[0]);
        assert(t.bytes[1] == first[0]);
        assert(!platform.is_separator(first[0]));
    }
    assert(starts_at_root(t));
    assert(leading_parts(t) =~= seq![Span { kind: PartKind::Root, start: 0, end: 1 }]);
    assert(pieces(t) =~= seq![root_piece()] + name_pieces(names));
}

/// Names are taken one by one, whatever steps came before.
proof fn lemma_walked(at: Seq<PieceView>, steps: Seq<PieceView>, names: Seq<Seq<u8>>)
    ensures
        walked(at, steps + name_pieces(names)) == walked(at, steps) + name_pieces(names),
    decreases names.len(),
{
    let all = steps + name_pieces(names);
    if names.len() == 0 {
        assert(all =~= steps);
        assert(walked(at, steps) + name_pieces(names) =~= walked(at, steps));
    } else {
        let front = names.drop_last();
        lemma_walked(at, steps, front);
        assert(all.drop_last() =~= steps + name_pieces(front));
        assert(all.last() == name_pieces(names).last());
        assert(walked(at, all) =~= walked(at, steps) + name_pieces(names));
    }
}

/// Names are written one by one, with backslashes between them.
proof fn lemma_written_names(at: Seq<PieceView>, names: Seq<Seq<u8>>)
    requires
        at.len() > 0,
        names.len() > 0,
    ensures
        written(at + name_pieces(names)) == (if at.last().kind is Root {
            written(at)
        } else {
            written(at).push(0x5c)
        }) + listed(names, Platform::Windows),
    decreases names.len(),
{
    let all = at + name_pieces(names);
    let front = names.drop_last();
    assert(all.drop_last() =~= at + name_pieces(front));
    assert(all.last() == (PieceView { kind: PartKind::Normal, bytes: names.last() }));
    if names.len() == 1 {
        assert(at + name_pieces(front) =~= at);
        assert(names.last() == names[0]);
    } else {
        lemma_written_names(at, front);
        assert(all.drop_last().last() == name_pieces(front).last());
    }
    assert(written(all) =~= (if at.last().kind is Root {
        written(at)
    } else {
        written(at).push(0x5c)
    }) + listed(names, Platform::Windows));
}

/// A verbatim prefix that stands alone is its only component.
proof fn lemma_bare_prefix(p: PathView)
    requires
        settled(p),
        bare_prefix(p),
    ensures
        pieces(p).len() == 1,
        pieces(p)[0].kind is Prefix,
        written(pieces(p)) == p.bytes,
        p.bytes.len() == prefix_len(p),
{
    lemma_prefix_alone(p);
    let all = pieces(p);
    assert(parts(p)[0] == leading_parts(p)[0]) by {
        lemma_lead(p);
    }
    assert(all.drop_last() =~= Seq::<PieceView>::empty());
    assert(written(all.drop_last()) =~= Seq::<u8>::empty());
    assert(all.last() == all[0]);
    assert(p.bytes.subrange(0, p.bytes.len() as int) =~= p.bytes);
    assert(written(all) =~= p.bytes);
}

/// A list of plain names is put behind a directory as one name is.
pub proof fn lemma_join_listed(base: PathView, names: Seq<Seq<u8>>)
    requires
        plain_names(names, base.platform),
        settled(base),
    ensures
        join(base, listed(names, base.platform)).bytes == joint(base) + listed(
            names,
            base.platform,
        ),
        join(base, listed(names, base.platform)).platform == base.platform,
{
    reveal(join);
    lemma_listed(names, base.platform);
    lemma_listed_is_relative(names, base.platform);
    let g = grounded(base);
    lemma_grounded(base);
    if is_verbatim(base) {
        let at = pieces(base);
        lemma_listed_pieces(names, base.platform);
        lemma_walked(at, Seq::empty(), names);
        assert(Seq::<PieceView>::empty() + name_pieces(names) =~= name_pieces(names));
        if rooted(base) {
            lemma_tidied(base);
            lemma_last_piece(g);
        } else {
            lemma_bare_prefix(base);
        }
        lemma_written_names(at, names);
    } else if rooted(base) {
        assert(g =~= base);
    } else {
        lemma_prefix_alone(base);
    }
}

/// The component is the given name.
pub open spec fn is_name(p: PathView, s: Span, name: Seq<u8>) -> bool {
    s.kind is Normal && p.bytes.subrange(s.start, s.end) == name
}

/// Joined names stand behind the directory, one after the other, each a
/// component.
pub open spec fn stand_joined(base: PathView, names: Seq<Seq<u8>>) -> bool {
    let f = joined(base, names);
    let g = grounded(base);
    let n = parts(g).len();
    &&& f.platform == base.platform
    &&& f.bytes == joint(base) + listed(names, base.platform)
    &&& prefix(f) == prefix(base)
    &&& settled(f)
    &&& rooted(f)
    &&& tidy(f)
    &&& parts(f).len() == n + names.len()
    &&& parts(f).take(n as int) == parts(g)
    &&& parts(f)[n as int].start == joint(base).len()
    &&& path_end(f) == f.bytes.len()
    &&& forall|i: int| 0 <= i < names.len() ==> is_name(f, #[trigger] parts(f)[n + i], names[i])
}

#[verifier::spinoff_prover]
#[verifier::rlimit(30)]
proof fn lemma_one_joined(base: PathView, names: Seq<Seq<u8>>)
    requires
        settled(base),
        plain_names(names, base.platform),
        names.len() == 1,
    ensures
        stand_joined(base, names),
{
    let f = joined(base, names);
    let g = grounded(base);
    let n = parts(g).len() as int;
    let last = names.last();
    assert(last == names[names.len() - 1]);
    lemma_grounded(base);
    assert(joined(base, names.drop_last()) == base);
    lemma_join_listed(base, names);
    assert(listed(names, base.platform) == last);
    lemma_join_grounded(base, last);
    lemma_parts_join(g, last);
    lemma_join_settled(g, last);
    lemma_join_tidy(g, last);
    assert(parts(f).take(n) =~= parts(g));
    let s = parts(f).last();
    assert(body(f).last() == s);
    assert(s.end == f.bytes.len());
    assert(f.bytes.subrange(s.start, s.end) =~= last);
}

/// One more name comes behind the others and a separator.
#[verifier::spinoff_prover]
#[verifier::rlimit(30)]
proof fn lemma_joined_bytes_step(base: PathView, names: Seq<Seq<u8>>)
    requires
        settled(base),
        plain_names(names, base.platform),
        names.len() > 1,
        stand_joined(base, names.drop_last()),
    ensures
        ({
            let before = joined(base, names.drop_last());
            let f = joined(base, names);
            let m = before.bytes.len() as int;
            &&& join_start(before, names.last()) == m + 1
            &&& f.bytes == before.bytes.push(base.platform.main_separator()) + names.last()
            &&& f.bytes == joint(base) + listed(names, base.platform)
        }),
{
    let f = joined(base, names);
    let g = grounded(base);
    let front = names.drop_last();
    let last = names.last();
    assert(last == names[names.len() - 1]);
    let before = joined(base, front);
    lemma_grounded(base);
    assert forall|i: int| 0 <= i < front.len() implies plain_name(
        #[trigger] front[i],
        base.platform,
    ) by {
        assert(front[i] == names[i]);
    }
    lemma_listed(front, base.platform);
    lemma_join_bytes(before, last);
    let m = before.bytes.len() as int;
    assert(before.bytes.last() == listed(front, base.platform).last());
    lemma_prefix(g.bytes);
    assert(joint(base).len() >= prefix_len(base));
    assert(join_start(before, last) == m + 1);
    assert(f.bytes =~= before.bytes.push(base.platform.main_separator()) + last) by {
        assert(f.bytes =~= f.bytes.take(m) + seq![f.bytes[m]] + f.bytes.skip(m + 1));
    }
    assert(f.bytes =~= joint(base) + listed(names, base.platform));
}

#[verifier::spinoff_prover]
#[verifier::rlimit(30)]
proof fn lemma_more_joined(base: PathView, names: Seq<Seq<u8>>)
    requires
        settled(base),
        plain_names(names, base.platform),
        names.len() > 1,
        stand_joined(base, names.drop_last()),
    ensures
        stand_joined(base, names),
{
    let f = joined(base, names);
    let g = grounded(base);
    let n = parts(g).len() as int;
    let front = names.drop_last();
    let last = names.last();
    assert(last == names[names.len() - 1]);
    let before = joined(base, front);
    lemma_joined_bytes_step(base, names);
    lemma_parts_join(before, last);
    lemma_join_settled(before, last);
    lemma_join_tidy(before, last);
    assert(parts(f).take(n) =~= parts(before).take(n));
    assert(parts(f)[n] == parts(before)[n]);
    lemma_parts(before);
    assert forall|i: int| 0 <= i < front.len() implies is_name(
        f,
        #[trigger] parts(f)[n + i],
        names[i],
    ) by {
        let s = parts(before)[n + i];
        assert(is_name(before, s, front[i]));
        assert(f.bytes.subrange(s.start, s.end) =~= before.bytes.subrange(s.start, s.end));
    }
    let s = parts(f).last();
    assert(body(f).last() == s);
    assert(s.end == f.bytes.len());
    assert(f.bytes.subrange(s.start, s.end) =~= last);
}

proof fn lemma_joined(base: PathView, names: Seq<Seq<u8>>)
    requires
        settled(base),
        plain_names(names, base.platform),
    ensures
        stand_joined(base, names),
    decreases names.len(),
{
    if names.len() == 1 {
        lemma_one_joined(base, names);
    } else {
        let front = names.drop_last();
        assert forall|i: int| 0 <= i < front.len() implies plain_name(
            #[trigger] front[i],
            base.platform,
        ) by {
            assert(front[i] == names[i]);
        }
        lemma_joined(base, front);
        lemma_more_joined(base, names);
    }
}

/// A path that has nothing to show behind its lead ends there, but for
/// separators behind a root or a dot.
proof fn lemma_no_body(p: PathView)
    requires
        body(p).len() == 0,
        !is_verbatim(p),
        !starts_at_root(p),
        !starts_with_dot(p),
        rooted(p),
    ensures
        p.bytes.len() == lead_len(p),
{
    lemma_lead(p);
    let b = p.bytes;
    let i = lead_len(p);
    let by = separators(p);
    if i < b.len() {
        lemma_segment_end(b, i, by);
        let end = segment_end(b, i, by);
        assert(!by.part(b[i]));
        let segment = b.subrange(i, end);
        if segment_kind(segment) is Current {
            assert(segment == seq![0x2eu8]);
            assert(segment.len() == end - i);
            assert(segment[0] == b[i]);
            assert(end == i + 1);
        } else {
            assert(body_from(b, i, by).len() > 0);
        }
        assert(false);
    }
}

/// A path that names lead to starts with the components of the directory.
proof fn lemma_joined_head(base: PathView, names: Seq<Seq<u8>>, i: int)
    requires
        settled(base),
        plain_names(names, base.platform),
        0 <= i < parts(grounded(base)).len(),
    ensures
        ({
            let f = joined(base, names);
            let g = grounded(base);
            &&& i < parts(f).len()
            &&& same_part(g, parts(g)[i], f, parts(f)[i])
        }),
{
    lemma_joined(base, names);
    lemma_grounded(base);
    let f = joined(base, names);
    let g = grounded(base);
    assert(f.bytes.take(g.bytes.len() as int) =~= g.bytes);
    assert(parts(f).take(parts(g).len() as int)[i] == parts(f)[i]);
    lemma_kept_head(g, f, i);
}

/// Joined names lie below the directory.
proof fn lemma_joined_lies_below(base: PathView, names: Seq<Seq<u8>>)
    requires
        settled(base),
        plain_names(names, base.platform),
    ensures
        lies_below(joined(base, names), base),
{
    lemma_joined(base, names);
    lemma_grounded(base);
    let f = joined(base, names);
    let g = grounded(base);
    assert forall|i: int| 0 <= i < parts(base).len() implies same_part(
        f,
        #[trigger] parts(f)[i],
        base,
        parts(base)[i],
    ) by {
        lemma_joined_head(base, names, i);
        assert(same_part(g, parts(g)[i], base, parts(base)[i]));
    }
}

/// A directory without components, or with a drive alone, ends where names
/// start.
proof fn lemma_bare_directory(base: PathView)
    requires
        plain_directory(base),
        !is_verbatim(base),
        parts(base).len() == 0 || (parts(base).len() == 1 && prefix(base) is Some),
    ensures
        joint(base).len() == prefix_len(base),
        parts(base).len() == 0 ==> prefix_len(base) == 0,
{
    assert(parts(base).len() == leading_parts(base).len() + body(base).len());
    if rooted(base) {
        lemma_no_body(base);
        assert(grounded(base) =~= base);
    } else {
        lemma_prefix_alone(base);
    }
}

/// What comes after a verbatim prefix that stands alone leads back to the path.
proof fn lemma_bare_prefix_leads_back(base: PathView, names: Seq<Seq<u8>>)
    requires
        settled(base),
        bare_prefix(base),
        plain_names(names, base.platform),
    ensures
        join(base, seq![0x5cu8] + listed(names, base.platform)) == joined(base, names),
{
    reveal(join);
    lemma_joined(base, names);
    lemma_bare_prefix(base);
    lemma_rooted_list_pieces(names);
    let at = pieces(base);
    let root = seq![root_piece()];
    lemma_walked(at, root, names);
    assert(root.drop_last() =~= Seq::<PieceView>::empty());
    assert(walked(at, root.drop_last()) == at);
    assert(at.take(1) =~= at);
    assert(walked(at, root) == at.push(root_piece()));
    lemma_written_names(at.push(root_piece()), names);
    assert(at.push(root_piece()).drop_last() =~= at);
    assert(written(at.push(root_piece())) =~= base.bytes.push(0x5c));
    assert(join(base, seq![0x5cu8] + listed(names, base.platform)).bytes =~= joined(
        base,
        names,
    ).bytes);
}

/// What comes after the components of a directory, in a path that plain names
/// lead to from there, is those names, behind a root where the directory is a
/// verbatim prefix that stands alone; and put behind the directory again it gives
/// the path.
pub proof fn law_relative_paths_lead_back(base: PathView, names: Seq<Seq<u8>>)
    requires
        plain_directory(base),
        plain_names(names, base.platform),
    ensures
        relative(joined(base, names), base) == (PathView {
            bytes: if bare_prefix(base) {
                seq![0x5cu8] + listed(names, base.platform)
            } else {
                listed(names, base.platform)
            },
            platform: base.platform,
        }),
        join(base, relative(joined(base, names), base).bytes) == joined(base, names),
{
    lemma_joined(base, names);
    lemma_join_listed(base, names);
    lemma_joined_lies_below(base, names);
    lemma_grounded(base);
    let f = joined(base, names);
    let n = parts(base).len() as int;
    let start = joint(base).len() as int;
    if bare_prefix(base) {
        lemma_bare_prefix(base);
        assert(parts(base).len() == pieces(base).len());
        assert(joint(base) == base.bytes.push(0x5c));
        assert(f.bytes.subrange(prefix_len(f), f.bytes.len() as int) =~= seq![0x5cu8] + listed(
            names,
            base.platform,
        ));
        lemma_bare_prefix_leads_back(base, names);
    } else {
        if n == 0 || (n == 1 && prefix(f) is Some) {
            if is_verbatim(base) {
                lemma_lead(base);
                assert(leading_parts(base).len() == 2);
                assert(false);
            }
            lemma_bare_directory(base);
        }
        assert(n == parts(grounded(base)).len());
        assert(f.bytes.subrange(start, f.bytes.len() as int) =~= listed(names, base.platform));
        assert(relative(f, base) == (PathView {
            bytes: f.bytes.subrange(start, path_end(f)),
            platform: f.platform,
        }));
    }
}

/// The directory of a file that was put into a directory is that directory,
/// without what comes behind its last component.
pub proof fn lemma_directory_of_joined(base: PathView, name: Seq<u8>)
    requires
        settled(base),
        plain_name(name, base.platform),
    ensures
        parent(join(base, name)) is Some,
        ({
            let g = grounded(base);
            let dir = parent(join(base, name))->0;
            &&& dir == cut(g, path_end(g))
            &&& dir.platform == base.platform
            &&& dir.bytes.len() <= g.bytes.len()
            &&& g.bytes.take(dir.bytes.len() as int) == dir.bytes
            &&& prefix(dir) == prefix(base)
            &&& settled(dir)
            &&& rooted(dir)
            &&& parts(dir) == parts(g)
        }),
{
    let g = grounded(base);
    let j = join(base, name);
    lemma_grounded(base);
    lemma_join_grounded(base, name);
    lemma_parts_join(g, name);
    lemma_join_settled(g, name);
    lemma_join_file_name(base, name);
    lemma_parent(j);
    lemma_parts(g);
    let dir = parent(j)->0;
    assert(parts(j).drop_last() =~= parts(g));
    assert(body(j).drop_last() =~= body(g));
    let e = path_end(g);
    assert(dir.bytes.len() == e);
    assert(j.bytes.subrange(0, e) =~= g.bytes.subrange(0, e)) by {
        assert forall|k: int| 0 <= k < e implies j.bytes[k] == g.bytes[k] by {
            assert(j.bytes.take(g.bytes.len() as int)[k] == g.bytes[k]);
        }
    }
    assert(g.bytes.take(e) =~= g.bytes.subrange(0, e));
}

/// Names lead to the same file from a directory and from the directory of a file
/// that was put there.
pub proof fn law_names_lead_to_the_same_file(
    base: PathView,
    name: Seq<u8>,
    names: Seq<Seq<u8>>,
)
    requires
        settled(base),
        plain_name(name, base.platform),
        plain_names(names, base.platform),
    ensures
        parent(join(base, name)) is Some,
        equal_paths(joined(parent(join(base, name))->0, names), joined(base, names)),
{
    lemma_directory_of_joined(base, name);
    let g = grounded(base);
    let dir = parent(join(base, name))->0;
    let h = grounded(dir);
    lemma_grounded(base);
    lemma_grounded(dir);
    lemma_joined(base, names);
    lemma_joined(dir, names);
    let f = joined(base, names);
    let l = joined(dir, names);
    let n = parts(g).len() as int;
    assert forall|i: int| 0 <= i < parts(f).len() implies same_part(
        l,
        #[trigger] parts(l)[i],
        f,
        parts(f)[i],
    ) by {
        if i < n {
            lemma_joined_head(base, names, i);
            lemma_joined_head(dir, names, i);
            lemma_kept_head(dir, g, i);
            assert(same_part(h, parts(h)[i], dir, parts(dir)[i]));
        } else {
            assert(is_name(f, parts(f)[n + (i - n)], names[i - n]));
            assert(is_name(l, parts(l)[n + (i - n)], names[i - n]));
        }
    }
}

/// Joined names, byte by byte.
pub proof fn lemma_joined_bytes(base: PathView, names: Seq<Seq<u8>>)
    requires
        settled(base),
        plain_names(names, base.platform),
    ensures
        joined(base, names).bytes == joint(base) + listed(names, base.platform),
        joined(base, names).platform == base.platform,
{
    lemma_joined(base, names);
}

/// A bare verbatim prefix as a join takes it has a root behind it.
pub proof fn lemma_bare_directory_parts(base: PathView)
    requires
        settled(base),
        bare_prefix(base),
    ensures
        parts(grounded(base)).len() == 2,
        parts(grounded(base))[1].kind is Root,
{
    let g = grounded(base);
    lemma_grounded(base);
    lemma_lead(g);
    assert(leading_parts(g).len() == 2);
    assert(parts(g)[1] == leading_parts(g)[1]);
}

/// From the directory of a file below a bare verbatim prefix, a root leads where
/// no root leads.
pub proof fn lemma_root_makes_no_difference(dir: PathView, names: Seq<Seq<u8>>)
    requires
        plain_names(names, dir.platform),
        is_verbatim(dir),
        parts(dir).len() == 2,
        parts(dir)[1].kind is Root,
    ensures
        join(dir, seq![0x5cu8] + listed(names, dir.platform)) == join(
            dir,
            listed(names, dir.platform),
        ),
{
    reveal(join);
    lemma_listed(names, dir.platform);
    lemma_listed_is_relative(names, dir.platform);
    lemma_listed_pieces(names, dir.platform);
    lemma_rooted_list_pieces(names);
    let at = pieces(dir);
    let root = seq![root_piece()];
    lemma_walked(at, root, names);
    lemma_walked(at, Seq::empty(), names);
    assert(Seq::<PieceView>::empty() + name_pieces(names) =~= name_pieces(names));
    assert(root.drop_last() =~= Seq::<PieceView>::empty());
    assert(walked(at, root.drop_last()) == at);
    assert(at.take(1).push(root_piece()) =~= at);
}

/// A file that is put into a directory stands there under its name.
pub proof fn law_joined_files_stand_in_the_directory(base: PathView, name: Seq<u8>)
    requires
        settled(base),
        tidy(base),
        rooted(base),
        plain_name(name, base.platform),
        path_end(base) == base.bytes.len(),
    ensures
        parent(join(base, name)) == Some(base),
        file_name(join(base, name)) == Some(name),
{
    lemma_parts_join(base, name);
    lemma_join_file_name(base, name);
    let j = join(base, name);
    let n = base.bytes.len() as int;
    let names = body(j);
    if names.len() >= 2 {
        assert(names[names.len() - 2] == body(base).last());
    }
    assert(j.bytes.subrange(0, n) =~= j.bytes.take(n));
    assert(parent(j) == Some(cut(j, n)));
}

} // verus!
