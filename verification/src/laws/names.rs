//! Laws of names: what a file is called once it has its hash.

use vstd::prelude::*;
use vstd::utf8::*;
use crate::hashfile::{folded, name_key_text};
use crate::names::{
    hash_suffixed,
    own_log,
    passes,
    suffixed_name,
    suffixed_with,
    system_file,
    target,
    video_file,
};
use crate::path::{
    body,
    body_from,
    equal_paths,
    extension,
    extension_of,
    file_name,
    file_stem,
    is_verbatim,
    join,
    last_position,
    lemma_join_platform,
    parent,
    parts,
    prefix,
    same_part,
    segment_kind,
    shown,
    starts_at_root,
    starts_with_dot,
    stem_of,
    with_file_name,
    PathView,
    Platform,
    Span,
};
use crate::path_facts::{
    lemma_body_join,
    lemma_file_name,
    lemma_join_file_name,
    lemma_kept_part,
    lemma_last_position,
    lemma_last_position_is,
    lemma_named_path_has_parent,
    lemma_parent,
    lemma_plain_name_parts,
    lemma_tidied,
    lemma_tidied_part,
    lemma_with_file_name,
    name_span,
    plain_name,
    settled,
    tidied,
};
use crate::prefix::{drive_at, windows_prefix, Separators};
use crate::report::{output_name, Output};
use crate::text::{
    ascii_lower,
    has_prefix,
    has_suffix,
    is_hash_digits,
    is_hex_byte,
    same_ignoring_ascii_case,
};

verus! {

broadcast use vstd::seq_lib::group_seq_properties;

/// A path to a file whose name is text. On Windows a join takes the name for one
/// name and not for a drive, and leaves the prefix of the path alone.
pub open spec fn nameable(p: PathView) -> bool {
    file_name(p) matches Some(name) && {
        &&& valid_utf8(stem_of(name))
        &&& (extension_of(name) matches Some(e) ==> valid_utf8(e))
        &&& joinable(p, name)
    }
}

pub open spec fn joinable(p: PathView, name: Seq<u8>) -> bool {
    &&& prefix(PathView { bytes: name, platform: p.platform }) is None
    &&& forall|i: int| 0 <= i < name.len() ==> !p.platform.is_separator(#[trigger] name[i])
    &&& settled(p)
}

/// A hash at the end of the stem of the name stays there: the extension is text,
/// or the stem that is left without it holds no dot that would end it sooner.
pub open spec fn keeps_stem(name: Seq<u8>) -> bool {
    extension_of(name) matches Some(e) ==> valid_utf8(e) || last_position(stem_of(name), 0x2e) <= 0
}

/// Where the file has a name, a hash that it gets there lasts. On Windows the
/// name holds no separator, and leaves the prefix of the path alone.
pub open spec fn lasting(p: PathView) -> bool {
    file_name(p) matches Some(name) ==> {
        &&& keeps_stem(name)
        &&& forall|i: int| 0 <= i < name.len() ==> !p.platform.is_separator(#[trigger] name[i])
        &&& settled(p)
    }
}

/// A path to a file that can get a hash into its name, where it lasts.
pub open spec fn bears_hash(p: PathView) -> bool {
    lasting(p) && (file_name(p) matches Some(name) && valid_utf8(stem_of(name)))
}

/// But for Windows, every file whose name is text can be named.
pub proof fn law_text_names_are_nameable(p: PathView)
    requires
        !(p.platform is Windows),
        file_name(p) matches Some(name) && valid_utf8(name),
    ensures
        nameable(p),
{
    lemma_file_name(p);
    let name = file_name(p)->0;
    let dot = last_position(name, 0x2e);
    lemma_last_position(name, 0x2e);
    if dot > 0 {
        let n = name.len() as int;
        is_char_boundary_iff_is_leading_byte(name, dot);
        assert(is_leading_byte_width_1(name[dot])) by {
            assert(0x2eu8 >> 7 == 0) by (bit_vector);
            assert(0x2eu8 & 0x80 == 0) by (bit_vector);
        }
        valid_utf8_split(name, dot);
        assert(name.subrange(0, dot) =~= name.take(dot));
        let rest = name.subrange(dot, n);
        is_char_boundary_start_end_of_seq(rest);
        reveal_with_fuel(is_char_boundary, 3);
        assert(rest[0] == 0x2e);
        valid_utf8_split(rest, 1);
        assert(rest.subrange(1, n - dot) =~= name.skip(dot + 1));
    }
}

/// An underscore and a hash, as bytes.
pub open spec fn hash_suffix(hash: Seq<char>) -> Seq<u8> {
    encode_utf8("_"@) + encode_utf8(hash)
}

/// The bytes of a hash are its digits, and no dot or separator is among them.
pub proof fn lemma_hash_suffix(hash: Seq<char>)
    requires
        is_hash_digits(hash),
    ensures
        hash_suffix(hash).len() == 17,
        hash_suffix(hash)[0] == 0x5f,
        encode_utf8(hash).len() == 16,
        hash_suffix(hash) == seq![0x5fu8] + encode_utf8(hash),
        forall|i: int| 1 <= i < 17 ==> is_hex_byte(#[trigger] hash_suffix(hash)[i]),
        forall|i: int|
            0 <= i < 17 ==> (#[trigger] hash_suffix(hash)[i]) != 0x2e && hash_suffix(hash)[i]
                != 0x2f && hash_suffix(hash)[i] != 0x5c && hash_suffix(hash)[i] != 0x3a,
        valid_utf8(hash_suffix(hash)),
{
    reveal_strlit("_");
    assert(is_ascii_chars("_"@));
    is_ascii_chars_encode_utf8("_"@);
    assert(encode_utf8("_"@) =~= seq![0x5fu8]) by {
        assert("_"@[0] as u8 == encode_utf8("_"@)[0]);
    }
    assert forall|i: int| 0 <= i < 16 implies '\0' <= #[trigger] hash[i] <= '\u{7f}' by {
        assert(crate::text::is_hex_char(hash[i]));
    }
    assert(is_ascii_chars(hash));
    is_ascii_chars_encode_utf8(hash);
    let s = hash_suffix(hash);
    assert forall|i: int| 1 <= i < 17 implies is_hex_byte(#[trigger] s[i]) by {
        assert(s[i] == encode_utf8(hash)[i - 1]);
        assert(hash[i - 1] as u8 == encode_utf8(hash)[i - 1]);
        assert(crate::text::is_hex_char(hash[i - 1]));
    }
    encode_utf8_valid_utf8("_"@);
    encode_utf8_valid_utf8(hash);
    valid_utf8_concat(encode_utf8("_"@), encode_utf8(hash));
}

/// Stem and extension of a name with a hash in it; an extension that is no text
/// is gone.
pub proof fn lemma_suffixed_name(name: Seq<u8>, hash: Seq<char>)
    requires
        name.len() > 0,
        is_hash_digits(hash),
        keeps_stem(name),
    ensures
        ({
            let new = suffixed_name(name, hash_suffix(hash));
            let is_text = extension_of(name) matches Some(e) ==> valid_utf8(e);
            &&& stem_of(new) == stem_of(name) + hash_suffix(hash)
            &&& is_text ==> extension_of(new) == extension_of(name)
            &&& is_text ==> new.len() == name.len() + 17
            &&& !is_text ==> extension_of(new) is None
            &&& new.len() >= stem_of(name).len() + 17
            &&& stem_of(name).len() > 0
        }),
{
    lemma_hash_suffix(hash);
    let suffix = hash_suffix(hash);
    let new = suffixed_name(name, suffix);
    let dot = last_position(name, 0x2e);
    lemma_last_position(name, 0x2e);
    if dot > 0 {
        let stem = name.take(dot);
        let ext = name.skip(dot + 1);
        if valid_utf8(ext) {
            assert(new == (stem + suffix).push(0x2e) + ext);
            assert forall|k: int| dot + 17 < k < new.len() implies #[trigger] new[k] != 0x2e by {
                assert(new[k] == ext[k - dot - 18]);
                assert(name[k - 17] != 0x2e);
            }
            assert(new[dot + 17] == 0x2e);
            lemma_last_position_is(new, 0x2e, dot + 17);
            assert(new.take(dot + 17) =~= stem + suffix);
            assert(new.skip(dot + 18) =~= ext);
        } else {
            lemma_last_position_behind(stem, suffix);
        }
    } else {
        assert(new == name + suffix);
        lemma_last_position_behind(name, suffix);
    }
}

/// What holds no dot does not move the last one.
proof fn lemma_last_position_behind(head: Seq<u8>, tail: Seq<u8>)
    requires
        head.len() > 0,
        forall|k: int| 0 <= k < tail.len() ==> #[trigger] tail[k] != 0x2e,
    ensures
        last_position(head + tail, 0x2e) == last_position(head, 0x2e),
{
    lemma_last_position(head, 0x2e);
    let all = head + tail;
    let dot = last_position(head, 0x2e);
    assert forall|k: int| dot < k < all.len() implies #[trigger] all[k] != 0x2e by {
        if k < head.len() {
            assert(all[k] == head[k]);
        } else {
            assert(all[k] == tail[k - head.len()]);
        }
    }
    if dot >= 0 {
        assert(all[dot] == head[dot]);
    }
    lemma_last_position_is(all, 0x2e, dot);
}

/// A name with a hash in it is one name again, and taken for a drive exactly if
/// the name was.
proof fn lemma_suffixed_name_is_one(name: Seq<u8>, hash: Seq<char>, platform: Platform)
    requires
        name.len() > 0,
        forall|i: int| 0 <= i < name.len() ==> !platform.is_separator(#[trigger] name[i]),
        is_hash_digits(hash),
        keeps_stem(name),
    ensures
        ({
            let new = suffixed_name(name, hash_suffix(hash));
            &&& new.len() > 2
            &&& forall|i: int| 0 <= i < new.len() ==> !platform.is_separator(#[trigger] new[i])
            &&& segment_kind(new) is Normal
            &&& prefix(PathView { bytes: new, platform }) is None <==> prefix(
                PathView { bytes: name, platform },
            ) is None
            &&& prefix(PathView { bytes: new, platform }) is Some ==> {
                &&& platform is Windows
                &&& drive_at(new, 0)
                &&& stem_of(name).len() >= 2
            }
        }),
{
    reveal(windows_prefix);
    lemma_hash_suffix(hash);
    lemma_suffixed_name(name, hash);
    lemma_last_position(name, 0x2e);
    let suffix = hash_suffix(hash);
    let new = suffixed_name(name, suffix);
    let stem = stem_of(name);
    let n = stem.len() as int;
    assert(forall|k: int| 0 <= k < n ==> #[trigger] new[k] == name[k]);
    assert(forall|k: int| n <= k < n + 17 ==> #[trigger] new[k] == suffix[k - n]);
    assert forall|i: int| 0 <= i < new.len() implies !platform.is_separator(
        #[trigger] new[i],
    ) by {
        if i < n {
            assert(new[i] == name[i]);
        } else if i < n + 17 {
            assert(new[i] == suffix[i - n]);
        } else if i > n + 17 {
            assert(new[i] == name[i - 17]);
        }
    }
    assert(new.len() > 2);
    assert(segment_kind(new) is Normal);
    assert(new[0] == name[0]);
    assert(!platform.is_separator(name[0]) && !platform.is_separator(new[0]));
    if n == 1 {
        assert(new[1] == suffix[0]);
        assert(name.len() > 1 ==> name[1] == 0x2e);
    } else {
        assert(new[1] == name[1]);
    }
}

/// A name with a hash in it is a name again.
proof fn lemma_suffixed_name_is_plain(name: Seq<u8>, hash: Seq<char>, platform: Platform)
    requires
        name.len() > 0,
        forall|i: int| 0 <= i < name.len() ==> !platform.is_separator(#[trigger] name[i]),
        prefix(PathView { bytes: name, platform }) is None,
        is_hash_digits(hash),
        keeps_stem(name),
    ensures
        plain_name(suffixed_name(name, hash_suffix(hash)), platform),
{
    lemma_suffixed_name_is_one(name, hash, platform);
}

/// A name that is taken for a drive is a path of that drive and the rest of the
/// name.
proof fn lemma_drive_name(name: Seq<u8>)
    requires
        name.len() > 3,
        forall|i: int|
            0 <= i < name.len() ==> !Platform::Windows.is_separator(#[trigger] name[i]),
        drive_at(name, 0),
        segment_kind(name.skip(2)) is Normal,
    ensures
        prefix(PathView { bytes: name, platform: Platform::Windows }) is Some,
        file_name(PathView { bytes: name, platform: Platform::Windows }) == Some(name.skip(2)),
{
    reveal(windows_prefix);
    let p = PathView { bytes: name, platform: Platform::Windows };
    let by = Separators::Either;
    let rest = name.skip(2);
    assert(!Platform::Windows.is_separator(name[0]) && !Platform::Windows.is_separator(name[2]));
    assert(!Platform::Windows.is_separator(name[3]));
    assert(!starts_at_root(p) && !starts_with_dot(p));
    let head = name.take(2);
    lemma_body_join(head, name, 2, 2, by);
    assert(body_from(head, 2, by) =~= Seq::<Span>::empty());
    assert(body(p).last() == name_span(2, name.len() as int));
    assert(parts(p).last() == body(p).last());
    assert(name.subrange(2, name.len() as int) =~= rest);
}

/// What the drive leaves of a name whose stem ends in a hash.
proof fn lemma_drive_rest(new: Seq<u8>, n: int)
    requires
        drive_at(new, 0),
        n >= 19,
        stem_of(new).len() == n,
        valid_utf8(stem_of(new)),
    ensures
        stem_of(new.skip(2)) == stem_of(new).skip(2),
        extension_of(new.skip(2)) == extension_of(new),
        valid_utf8(stem_of(new).skip(2)),
        segment_kind(new.skip(2)) is Normal,
{
    let rest = new.skip(2);
    let stem = stem_of(new);
    let dot = last_position(new, 0x2e);
    lemma_last_position(new, 0x2e);
    assert(stem[0] == new[0] && stem[1] == new[1]);
    assert forall|k: int| dot - 2 < k < rest.len() && 0 <= k implies #[trigger] rest[k]
        != 0x2e by {
        assert(rest[k] == new[k + 2]);
    }
    if dot > 0 {
        assert(dot == n);
        assert(rest[dot - 2] == new[dot]);
        lemma_last_position_is(rest, 0x2e, dot - 2);
        assert(rest.take(dot - 2) =~= stem.skip(2));
        assert(rest.skip(dot - 1) =~= new.skip(dot + 1));
    } else {
        assert(dot == -1);
        lemma_last_position_is(rest, 0x2e, -1);
    }
    assert(rest.len() >= 17);
    let one = stem.subrange(1, n);
    lemma_ascii_first(stem);
    assert(one[0] == stem[1]);
    lemma_ascii_first(one);
    assert(one.subrange(1, n - 1) =~= stem.skip(2));
}

/// A plain first byte is a character of its own.
proof fn lemma_ascii_first(b: Seq<u8>)
    requires
        b.len() > 0,
        b[0] < 0x80,
        valid_utf8(b),
    ensures
        valid_utf8(b.subrange(1, b.len() as int)),
{
    let c = b[0];
    assert(is_leading_byte_width_1(c)) by {
        assert(c < 0x80 ==> c >> 7 == 0) by (bit_vector);
        assert(c < 0x80 ==> c & 0x80 == 0) by (bit_vector);
    }
    is_char_boundary_start_end_of_seq(b);
    reveal_with_fuel(is_char_boundary, 3);
    valid_utf8_split(b, 1);
}

/// The name of a file with its hash in it, without a drive that it is taken for,
/// has the hash at the end of its stem, and keeps an extension that is text.
proof fn lemma_target_name(p: PathView, hash: Seq<char>)
    requires
        bears_hash(p),
        is_hash_digits(hash),
    ensures
        ({
            let name = file_name(p)->0;
            let t = target(p, hash, "_"@);
            let stem = file_stem(t)->0;
            &&& file_name(t) is Some
            &&& stem.len() >= 17
            &&& stem.skip(stem.len() - 17) == hash_suffix(hash)
            &&& valid_utf8(stem)
            &&& extension(t) == (match extension_of(name) {
                Some(e) if valid_utf8(e) => Some(e),
                _ => None,
            })
        }),
{
    let name = file_name(p)->0;
    lemma_file_name(p);
    lemma_suffixed_name(name, hash);
    lemma_suffixed_name_is_one(name, hash, p.platform);
    lemma_hash_suffix(hash);
    let suffix = hash_suffix(hash);
    let new = suffixed_name(name, suffix);
    valid_utf8_concat(stem_of(name), suffix);
    let stem = stem_of(new);
    assert(stem.skip(stem.len() - 17) =~= suffix);
    if prefix(PathView { bytes: new, platform: p.platform }) is None {
        lemma_with_file_name(p, new);
    } else {
        lemma_drive_rest(new, stem.len() as int);
        lemma_drive_name(new);
        assert(target(p, hash, "_"@) == PathView { bytes: new, platform: p.platform }) by {
            reveal(join);
            lemma_named_path_has_parent(p);
        }
        let rest = stem.skip(2);
        assert(rest.skip(rest.len() - 17) =~= suffix);
    }
}

/// A file that gets its hash into its name stays in its directory, which is
/// written out anew only where the path is taken as it stands, and keeps its
/// extension; its stem is the old one with an underscore and the hash.
pub proof fn law_target_keeps_place_and_extension(p: PathView, hash: Seq<char>)
    requires
        nameable(p),
        is_hash_digits(hash),
    ensures
        file_name(target(p, hash, "_"@)) == Some(
            suffixed_name(file_name(p)->0, hash_suffix(hash)),
        ),
        parent(target(p, hash, "_"@)) == Some(tidied(parent(p)->0)),
        equal_paths(parent(target(p, hash, "_"@))->0, parent(p)->0),
        !is_verbatim(p) ==> parent(target(p, hash, "_"@)) == parent(p),
        extension(target(p, hash, "_"@)) == extension(p),
        file_stem(target(p, hash, "_"@)) == Some(file_stem(p)->0 + hash_suffix(hash)),
        target(p, hash, "_"@).platform == p.platform,
{
    let name = file_name(p)->0;
    lemma_file_name(p);
    lemma_suffixed_name(name, hash);
    lemma_suffixed_name_is_plain(name, hash, p.platform);
    lemma_with_file_name(p, suffixed_name(name, hash_suffix(hash)));
    lemma_parent(p);
    let q = parent(p)->0;
    assert forall|i: int| 0 <= i < parts(q).len() implies same_part(
        tidied(q),
        #[trigger] parts(tidied(q))[i],
        q,
        parts(q)[i],
    ) by {
        lemma_tidied_part(q, i);
    }
    if is_verbatim(q) {
        lemma_tidied(q);
    } else {
        assert(tidied(q) =~= q);
    }
}

/// A file that got its hash into its name carries it there: it is known to have
/// this hash, and to have some hash. So it is not renamed again.
pub proof fn law_target_carries_hash(p: PathView, hash: Seq<char>)
    requires
        bears_hash(p),
        is_hash_digits(hash),
    ensures
        suffixed_with(target(p, hash, "_"@), hash),
        hash_suffixed(target(p, hash, "_"@)),
{
    lemma_target_name(p, hash);
    lemma_hash_suffix(hash);
    let suffix = hash_suffix(hash);
    let stem = file_stem(target(p, hash, "_"@))->0;
    let tail = stem.skip(stem.len() - 17);
    assert forall|i: int| stem.len() - 16 <= i < stem.len() implies is_hex_byte(
        #[trigger] stem[i],
    ) by {
        assert(tail[i - (stem.len() - 17)] == stem[i]);
        assert(stem[i] == suffix[i - (stem.len() - 17)]);
    }
    assert(tail[0] == stem[stem.len() - 17]);
}

/// Names with hashes tell hashes apart: two files get the same name exactly if
/// they have the same hash and had the same name before. So files with different
/// hashes never get the same name, wherever they are.
pub proof fn law_new_names_tell_hashes_apart(
    p: PathView,
    p_hash: Seq<char>,
    q: PathView,
    q_hash: Seq<char>,
)
    requires
        nameable(p),
        nameable(q),
        is_hash_digits(p_hash),
        is_hash_digits(q_hash),
    ensures
        file_name(target(p, p_hash, "_"@)) == file_name(target(q, q_hash, "_"@)) <==> p_hash
            == q_hash && file_name(p) == file_name(q),
{
    law_target_keeps_place_and_extension(p, p_hash);
    law_target_keeps_place_and_extension(q, q_hash);
    if file_name(target(p, p_hash, "_"@)) == file_name(target(q, q_hash, "_"@)) {
        lemma_same_new_name(p, p_hash, q, q_hash);
    }
}

proof fn lemma_same_new_name(p: PathView, p_hash: Seq<char>, q: PathView, q_hash: Seq<char>)
    requires
        nameable(p),
        nameable(q),
        is_hash_digits(p_hash),
        is_hash_digits(q_hash),
        file_name(target(p, p_hash, "_"@)) == file_name(target(q, q_hash, "_"@)),
    ensures
        p_hash == q_hash,
        file_name(p) == file_name(q),
{
    law_target_keeps_place_and_extension(p, p_hash);
    law_target_keeps_place_and_extension(q, q_hash);
    lemma_file_name(p);
    lemma_file_name(q);
    let a = file_name(p)->0;
    let b = file_name(q)->0;
    lemma_suffixed_name(a, p_hash);
    lemma_suffixed_name(b, q_hash);
    lemma_hash_suffix(p_hash);
    lemma_hash_suffix(q_hash);
    lemma_last_position(a, 0x2e);
    lemma_last_position(b, 0x2e);
    let x = stem_of(a) + hash_suffix(p_hash);
    let y = stem_of(b) + hash_suffix(q_hash);
    assert(x == y);
    assert(x.len() == stem_of(a).len() + 17 && y.len() == stem_of(b).len() + 17);
    assert(stem_of(a) =~= x.take(x.len() - 17));
    assert(stem_of(b) =~= y.take(y.len() - 17));
    assert(encode_utf8(p_hash) =~= x.skip(x.len() - 16));
    assert(encode_utf8(q_hash) =~= y.skip(y.len() - 16));
    crate::index::lemma_text_bytes_injective(p_hash, q_hash);
    assert(extension_of(a) == extension_of(b));
    let dot = last_position(a, 0x2e);
    if dot > 0 {
        let e = extension_of(a)->0;
        let c = last_position(b, 0x2e);
        assert(c > 0);
        assert(a =~= stem_of(a).push(0x2e) + e);
        assert(b =~= stem_of(b).push(0x2e) + e);
    }
}

/// A file that got its hash into its name is known to have no other hash: the
/// hash is found there in either case, and a different one is not.
pub proof fn law_target_carries_no_other_hash(p: PathView, hash: Seq<char>, other: Seq<char>)
    requires
        bears_hash(p),
        is_hash_digits(hash),
        is_hash_digits(other),
    ensures
        suffixed_with(target(p, hash, "_"@), other) <==> same_ignoring_ascii_case(
            encode_utf8(hash),
            encode_utf8(other),
        ),
{
    lemma_target_name(p, hash);
    lemma_hash_suffix(hash);
    lemma_hash_suffix(other);
    let stem = file_stem(target(p, hash, "_"@))->0;
    let tail = stem.skip(stem.len() - 17);
    let a = encode_utf8(hash);
    let b = encode_utf8(other);
    assert(tail =~= seq![0x5fu8] + a);
    let suffix = seq![0x5fu8] + b;
    if same_ignoring_ascii_case(tail, suffix) {
        assert forall|i: int| 0 <= i < 16 implies crate::text::lower_byte(#[trigger] a[i])
            == crate::text::lower_byte(b[i]) by {
            assert(tail[i + 1] == a[i] && suffix[i + 1] == b[i]);
        }
    }
    if same_ignoring_ascii_case(a, b) {
        assert forall|i: int| 0 <= i < 17 implies crate::text::lower_byte(#[trigger] tail[i])
            == crate::text::lower_byte(suffix[i]) by {
            if i > 0 {
                assert(tail[i] == a[i - 1] && suffix[i] == b[i - 1]);
            }
        }
    }
}

/// Different files never go to the same place: two paths lead to the same target
/// exactly if they are the same path and the hashes are the same.
pub proof fn law_targets_tell_paths_apart(
    p: PathView,
    p_hash: Seq<char>,
    q: PathView,
    q_hash: Seq<char>,
)
    requires
        nameable(p),
        nameable(q),
        is_hash_digits(p_hash),
        is_hash_digits(q_hash),
    ensures
        equal_paths(target(p, p_hash, "_"@), target(q, q_hash, "_"@)) <==> equal_paths(p, q)
            && p_hash == q_hash,
        target(p, p_hash, "_"@) == target(q, q_hash, "_"@) ==> equal_paths(p, q) && p_hash
            == q_hash,
{
    law_new_names_tell_hashes_apart(p, p_hash, q, q_hash);
    law_target_keeps_place_and_extension(p, p_hash);
    law_target_keeps_place_and_extension(q, q_hash);
    let a = suffixed_name(file_name(p)->0, hash_suffix(p_hash));
    let b = suffixed_name(file_name(q)->0, hash_suffix(q_hash));
    lemma_file_name(p);
    lemma_file_name(q);
    lemma_suffixed_name_is_plain(file_name(p)->0, p_hash, p.platform);
    lemma_suffixed_name_is_plain(file_name(q)->0, q_hash, q.platform);
    lemma_same_but_for_names(p, a, q, b);
}

/// All components but the last are the same.
spec fn same_directory(p: PathView, q: PathView) -> bool {
    parts(p).len() == parts(q).len() && forall|i: int|
        0 <= i < parts(p).len() - 1 ==> same_part(p, #[trigger] parts(p)[i], q, parts(q)[i])
}

proof fn lemma_equal_by_name(p: PathView, q: PathView)
    requires
        file_name(p) is Some,
        file_name(q) is Some,
    ensures
        equal_paths(p, q) <==> same_directory(p, q) && file_name(p) == file_name(q),
{
    let n = parts(p).len();
    if n == parts(q).len() {
        assert(parts(p).last() == parts(p)[n - 1] && parts(q).last() == parts(q)[n - 1]);
        assert(same_part(p, parts(p)[n - 1], q, parts(q)[n - 1]) == (file_name(p) == file_name(
            q,
        )));
    }
}

/// With other names in their places, two paths are the same exactly if they were
/// in the same directory and the new names are the same.
proof fn lemma_same_but_for_names(p: PathView, a: Seq<u8>, q: PathView, b: Seq<u8>)
    requires
        nameable(p),
        nameable(q),
        plain_name(a, p.platform),
        plain_name(b, q.platform),
    ensures
        equal_paths(with_file_name(p, a), with_file_name(q, b)) <==> same_directory(p, q) && a == b,
        equal_paths(p, q) <==> same_directory(p, q) && file_name(p) == file_name(q),
        with_file_name(p, a) == with_file_name(q, b) ==> equal_paths(
            with_file_name(p, a),
            with_file_name(q, b),
        ),
{
    lemma_equal_by_name(p, q);
    lemma_with_file_name(p, a);
    lemma_with_file_name(q, b);
    let t = with_file_name(p, a);
    let u = with_file_name(q, b);
    lemma_equal_by_name(t, u);
    if parts(p).len() == parts(q).len() {
        assert forall|i: int| 0 <= i < parts(p).len() - 1 implies same_part(
            t,
            #[trigger] parts(t)[i],
            u,
            parts(u)[i],
        ) == same_part(p, parts(p)[i], q, parts(q)[i]) by {
            lemma_kept_part(p, a, i);
            lemma_kept_part(q, b, i);
        }
    }
    if same_directory(t, u) {
        assert forall|i: int| 0 <= i < parts(p).len() - 1 implies same_part(
            p,
            #[trigger] parts(p)[i],
            q,
            parts(q)[i],
        ) by {
            assert(same_part(t, parts(t)[i], u, parts(u)[i]));
        }
    }
    if same_directory(p, q) {
        assert forall|i: int| 0 <= i < parts(t).len() - 1 implies same_part(
            t,
            #[trigger] parts(t)[i],
            u,
            parts(u)[i],
        ) by {
            assert(same_part(p, parts(p)[i], q, parts(q)[i]));
        }
    }
    if t == u {
        assert forall|i: int| 0 <= i < parts(t).len() implies same_part(
            t,
            #[trigger] parts(t)[i],
            u,
            parts(u)[i],
        ) by {
            crate::path_facts::lemma_parts(t);
        }
    }
}

/// A file that gets its hash into its name is of the same kind as before: a
/// system file if it was one, a video if it was one.
pub proof fn law_target_keeps_kind(p: PathView, hash: Seq<char>, exts: Seq<&str>)
    requires
        bears_hash(p),
        is_hash_digits(hash),
    ensures
        system_file(target(p, hash, "_"@)) == system_file(p),
        video_file(target(p, hash, "_"@), exts) == video_file(p, exts),
{
    lemma_target_name(p, hash);
}

/// The key by which files share a name does not depend on where they are: it is
/// that of the name.
pub proof fn law_names_do_not_depend_on_directories(d: PathView, n: Seq<u8>)
    requires
        settled(d),
        plain_name(n, d.platform),
    ensures
        name_key_text(join(d, n)) == name_key_text(PathView { bytes: n, platform: d.platform }),
        name_key_text(join(d, n)) == folded(shown(n, d.platform), d.platform),
{
    lemma_join_file_name(d, n);
    lemma_join_platform(d, n);
    lemma_plain_name_parts(n, d.platform);
    let p = PathView { bytes: n, platform: d.platform };
    assert(parts(p).last() == name_span(0, n.len() as int));
    assert(n.subrange(0, n.len() as int) =~= n);
    assert(file_name(p) == Some(n));
}

/// A path without a file name has an empty key.
pub proof fn law_no_name_no_key(p: PathView)
    requires
        file_name(p) is None,
    ensures
        name_key_text(p) == Seq::<char>::empty(),
{
    let none = Seq::<char>::empty();
    assert(is_ascii_chars(none));
    assert(ascii_lower(none) =~= none);
}

/// A time stamp as it stands in the name of a file: plain characters, none of
/// which separates.
pub open spec fn is_stamp(stamp: Seq<char>) -> bool {
    is_ascii_chars(stamp) && !stamp.contains('/') && !stamp.contains('\\')
}

pub proof fn lemma_output_name(kind: Output, stamp: Seq<char>, platform: Platform)
    requires
        is_stamp(stamp),
    ensures
        ({
            let text = output_name(kind, stamp);
            let name = encode_utf8(text);
            &&& plain_name(name, platform)
            &&& valid_utf8(name)
            &&& is_ascii_chars(text)
            &&& text.len() >= 16
            &&& name.len() == text.len()
            &&& forall|i: int|
                0 <= i < text.len() ==> #[trigger] name[i] == text[i] as u8
            &&& has_prefix(text, "dups-"@)
            &&& !(kind is Manifest) ==> has_suffix(text, ".csv"@)
            &&& kind is Manifest ==> has_suffix(text, ".xxh3"@)
        }),
{
    reveal(windows_prefix);
    let text = output_name(kind, stamp);
    let name = encode_utf8(text);
    reveal_strlit("dups-dryrun-");
    reveal_strlit("dups-applied-");
    reveal_strlit("dups-manifest-");
    reveal_strlit(".csv");
    reveal_strlit(".xxh3");
    reveal_strlit("dups-");
    let (head, tail) = match kind {
        Output::DryRun => ("dups-dryrun-"@, ".csv"@),
        Output::Applied => ("dups-applied-"@, ".csv"@),
        Output::Manifest => ("dups-manifest-"@, ".xxh3"@),
    };
    assert(text == head + stamp + tail);
    assert forall|i: int| 0 <= i < text.len() implies '\0' <= #[trigger] text[i] <= '\u{7f}'
        && text[i] != '/' && text[i] != '\\' by {
        if i < head.len() {
            assert(text[i] == head[i]);
        } else if i < head.len() + stamp.len() {
            assert(text[i] == stamp[i - head.len()]);
            assert(stamp.contains(stamp[i - head.len()]));
        } else {
            assert(text[i] == tail[i - head.len() - stamp.len()]);
        }
    }
    assert(is_ascii_chars(text));
    is_ascii_chars_encode_utf8(text);
    encode_utf8_valid_utf8(text);
    assert forall|i: int| 0 <= i < name.len() implies !platform.is_separator(
        #[trigger] name[i],
    ) by {
        assert(text[i] as u8 == name[i]);
    }
    assert(name[1] == text[1] as u8);
    assert(text.take(5) =~= "dups-"@);
    assert(text.skip(text.len() - tail.len()) =~= tail);
    assert(name.len() > 2);
}

proof fn lemma_ascii_prefix(text: Seq<char>, part: Seq<char>)
    requires
        is_ascii_chars(text),
        is_ascii_chars(part),
    ensures
        has_prefix(text, part) ==> has_prefix(encode_utf8(text), encode_utf8(part)),
        has_suffix(text, part) ==> has_suffix(encode_utf8(text), encode_utf8(part)),
{
    is_ascii_chars_encode_utf8(text);
    is_ascii_chars_encode_utf8(part);
    let t = encode_utf8(text);
    let s = encode_utf8(part);
    if has_prefix(text, part) {
        assert forall|i: int| 0 <= i < s.len() implies t[i] == s[i] by {
            assert(text.take(part.len() as int)[i] == part[i]);
        }
        assert(t.take(s.len() as int) =~= s);
    }
    if has_suffix(text, part) {
        let d = text.len() - part.len();
        assert forall|i: int| 0 <= i < s.len() implies t[d + i] == s[i] by {
            assert(text.skip(d)[i] == part[i]);
            assert(text[d + i] == part[i]);
        }
        assert(t.skip(d) =~= s);
    }
}

/// What the tool writes into a directory is never among the files that it looks
/// at there.
pub proof fn law_outputs_are_passed_over(
    dir: PathView,
    kind: Output,
    stamp: Seq<char>,
    is_file: bool,
    all_files: bool,
)
    requires
        is_stamp(stamp),
        settled(dir),
    ensures
        !passes(join(dir, encode_utf8(output_name(kind, stamp))), is_file, all_files),
{
    let text = output_name(kind, stamp);
    let name = encode_utf8(text);
    lemma_output_name(kind, stamp, dir.platform);
    lemma_join_file_name(dir, name);
    let p = join(dir, name);
    reveal_strlit("dups-");
    reveal_strlit(".csv");
    reveal_strlit(".xxh3");
    reveal_strlit("xxh3");
    if kind is Manifest {
        let n = text.len() as int;
        let d = n - 5;
        assert forall|i: int| d <= i < n implies #[trigger] text[i] == ".xxh3"@[i - d] by {
            assert(text.skip(d)[i - d] == ".xxh3"@[i - d]);
        }
        is_ascii_chars_encode_utf8("xxh3"@);
        let short = encode_utf8("xxh3"@);
        assert(name[d] == text[d] as u8);
        assert forall|k: int| d < k < n implies #[trigger] name[k] != 0x2e && name[k] == short[k - d
            - 1] by {
            assert(name[k] == text[k] as u8);
            assert("xxh3"@[k - d - 1] as u8 == short[k - d - 1]);
            assert(text[k] == ".xxh3"@[k - d]);
        }
        lemma_last_position_is(name, 0x2e, d);
        let e = name.skip(d + 1);
        assert(e =~= short);
        encode_utf8_valid_utf8("xxh3"@);
        assert(same_ignoring_ascii_case(e, short));
    } else {
        lemma_ascii_prefix(text, "dups-"@);
        lemma_ascii_prefix(text, ".csv"@);
        assert(own_log(p));
    }
}

} // verus!
