//! A list of distinct keys in which a key is found without walking the list.

use std::collections::HashMap;
use vstd::prelude::*;
use vstd::utf8::*;
use crate::text::same_bytes;

verus! {

broadcast use vstd::std_specs::hash::group_hash_axioms;

pub open spec fn mix(h: u64, b: u8) -> u64 {
    h.wrapping_mul(0x100_0000_01b3) ^ (b as u64)
}

/// The bucket number of a key.
pub open spec fn bucket_of(key: Seq<u8>) -> u64
    decreases key.len(),
{
    if key.len() == 0 {
        0xcbf2_9ce4_8422_2325
    } else {
        mix(bucket_of(key.drop_last()), key.last())
    }
}

fn bucket_number(key: &[u8]) -> (h: u64)
    ensures
        h == bucket_of(key@),
{
    let mut h: u64 = 0xcbf2_9ce4_8422_2325;
    let mut i: usize = 0;
    assert(key@.take(0) =~= Seq::<u8>::empty());
    while i < key.len()
        invariant
            i <= key@.len(),
            h == bucket_of(key@.take(i as int)),
        decreases key@.len() - i,
    {
        h = h.wrapping_mul(0x100_0000_01b3) ^ (key[i] as u64);
        i += 1;
        assert(key@.take(i as int).drop_last() =~= key@.take(i - 1));
    }
    assert(key@.take(i as int) =~= key@);
    h
}

/// Distinct keys in the order in which they were added.
pub struct KeyIndex {
    keys: Vec<Vec<u8>>,
    buckets: HashMap<u64, Vec<usize>>,
}

impl View for KeyIndex {
    type V = Seq<Seq<u8>>;

    closed spec fn view(&self) -> Seq<Seq<u8>> {
        Seq::new(self.keys@.len(), |i: int| self.keys@[i]@)
    }
}

impl KeyIndex {
    /// No key is listed twice, and every key stands in its bucket.
    pub closed spec fn wf(&self) -> bool {
        &&& forall|i: int, j: int|
            0 <= i < j < self.keys@.len() ==> (#[trigger] self.keys@[i])@ != (
            #[trigger] self.keys@[j])@
        &&& forall|i: int|
            0 <= i < self.keys@.len() ==> {
                let h = bucket_of((#[trigger] self.keys@[i])@);
                self.buckets@.dom().contains(h) && self.buckets@[h]@.contains(i as usize)
            }
        &&& forall|h: u64, k: int|
            self.buckets@.dom().contains(h) && 0 <= k < self.buckets@[h]@.len() ==> (
            #[trigger] self.buckets@[h]@[k]) < self.keys@.len()
    }

    pub proof fn lemma_distinct(&self)
        requires
            self.wf(),
        ensures
            forall|i: int, j: int| 0 <= i < j < self@.len() ==> self@[i] != self@[j],
    {
    }

    pub fn new() -> (r: KeyIndex)
        ensures
            r.wf(),
            r@ == Seq::<Seq<u8>>::empty(),
    {
        let r = KeyIndex { keys: Vec::new(), buckets: HashMap::new() };
        assert(r@ =~= Seq::<Seq<u8>>::empty());
        r
    }

    pub fn len(&self) -> (r: usize)
        ensures
            r == self@.len(),
    {
        self.keys.len()
    }

    /// The position of `key`, if it is listed.
    pub fn find(&self, key: &[u8]) -> (r: Option<usize>)
        requires
            self.wf(),
        ensures
            match r {
                Some(i) => i < self@.len() && self@[i as int] == key@,
                None => !self@.contains(key@),
            },
    {
        let h = bucket_number(key);
        let n = self.keys.len();
        match self.buckets.get(&h) {
            Some(bucket) => {
                let mut k: usize = 0;
                while k < bucket.len()
                    invariant
                        self.wf(),
                        self.buckets@.dom().contains(h),
                        self.buckets@[h] == *bucket,
                        k <= bucket@.len(),
                        forall|m: int|
                            0 <= m < k ==> self.keys@[(#[trigger] bucket@[m]) as int]@ != key@,
                    decreases bucket@.len() - k,
                {
                    let i = bucket[k];
                    assert(self.buckets@[h]@[k as int] < self.keys@.len());
                    if same_bytes(self.keys[i].as_slice(), key) {
                        return Some(i);
                    }
                    k += 1;
                }
                assert forall|i: int| 0 <= i < self@.len() implies self@[i] != key@ by {
                    if self.keys@[i]@ == key@ {
                        assert(i < n && (i as usize) as int == i);
                        assert(bucket@.contains(i as usize));
                        let m = choose|m: int| 0 <= m < bucket@.len() && bucket@[m] == i as usize;
                        assert(self.keys@[bucket@[m] as int]@ != key@);
                    }
                }
                None
            },
            None => {
                assert forall|i: int| 0 <= i < self@.len() implies self@[i] != key@ by {
                    assert(self@[i] == self.keys@[i]@);
                }
                None
            },
        }
    }

    /// The position of `key`, which is added at the end if it is not listed.
    pub fn find_or_add(&mut self, key: &[u8]) -> (r: usize)
        requires
            old(self).wf(),
        ensures
            final(self).wf(),
            r < final(self)@.len(),
            final(self)@[r as int] == key@,
            old(self)@.contains(key@) ==> final(self)@ == old(self)@,
            !old(self)@.contains(key@) ==> final(self)@ == old(self)@.push(key@) && r == old(
                self,
            )@.len(),
    {
        match self.find(key) {
            Some(i) => i,
            None => {
                let h = bucket_number(key);
                let at = self.keys.len();
                let ghost before = self.buckets@;
                let mut bucket: Vec<usize> = match self.buckets.remove(&h) {
                    Some(b) => b,
                    None => Vec::new(),
                };
                let ghost old_bucket = bucket@;
                bucket.push(at);
                self.buckets.insert(h, bucket);
                self.keys.push(vstd::slice::slice_to_vec(key));
                proof {
                    assert(old(self)@.len() == at);
                    assert forall|i: int| 0 <= i < at implies self.keys@[i]@ != key@ by {
                        assert(old(self)@[i] == self.keys@[i]@);
                        if self.keys@[i]@ == key@ {
                            assert(old(self)@.contains(key@));
                        }
                    }
                    assert forall|i: int| 0 <= i < self.keys@.len() implies {
                        let g = bucket_of((#[trigger] self.keys@[i])@);
                        self.buckets@.dom().contains(g) && self.buckets@[g]@.contains(i as usize)
                    } by {
                        let g = bucket_of(self.keys@[i]@);
                        if i < at {
                            assert(old(self).keys@[i] == self.keys@[i]);
                            assert(before.dom().contains(g) && before[g]@.contains(i as usize));
                            if g == h {
                                let m = choose|m: int|
                                    0 <= m < old_bucket.len() && old_bucket[m] == i as usize;
                                assert(self.buckets@[h]@[m] == i as usize);
                            }
                        } else {
                            assert(self.buckets@[h]@[old_bucket.len() as int] == at);
                        }
                    }
                    assert forall|g: u64, k: int|
                        self.buckets@.dom().contains(g) && 0 <= k < self.buckets@[g]@.len() implies (
                    #[trigger] self.buckets@[g]@[k]) < self.keys@.len() by {
                        if g == h {
                            if k < old_bucket.len() {
                                assert(before.dom().contains(h));
                                assert(before[h]@[k] < at);
                            }
                        } else {
                            assert(before[g]@[k] < at);
                        }
                    }
                    assert(self@ =~= old(self)@.push(key@));
                }
                at
            },
        }
    }
}

/// Different texts have different bytes.
pub proof fn lemma_text_bytes_injective(a: Seq<char>, b: Seq<char>)
    requires
        encode_utf8(a) == encode_utf8(b),
    ensures
        a == b,
{
    encode_utf8_decode_utf8(a);
    encode_utf8_decode_utf8(b);
}

// ---------------------------------------------------------------------------
// First occurrences
// ---------------------------------------------------------------------------

pub open spec fn text_views(v: Seq<String>) -> Seq<Seq<char>> {
    Seq::new(v.len(), |i: int| v[i]@)
}

/// The first position from `from` on at which `key` stands; the length if none.
pub open spec fn position_from(keys: Seq<Seq<char>>, key: Seq<char>, from: int) -> int
    decreases keys.len() - from,
{
    if from < 0 || from >= keys.len() {
        keys.len() as int
    } else if keys[from] == key {
        from
    } else {
        position_from(keys, key, from + 1)
    }
}

/// The first position that holds the same key as position `i`.
pub open spec fn first_position(keys: Seq<Seq<char>>, i: int) -> int {
    position_from(keys, keys[i], 0)
}

proof fn lemma_position_from(keys: Seq<Seq<char>>, key: Seq<char>, from: int, at: int)
    requires
        0 <= from <= at < keys.len(),
        keys[at] == key,
        forall|k: int| from <= k < at ==> keys[k] != key,
    ensures
        position_from(keys, key, from) == at,
    decreases at - from,
{
    if from < at {
        lemma_position_from(keys, key, from + 1, at);
    }
}

/// A position is the first with its key exactly when no position before it
/// holds that key.
pub proof fn lemma_first_position_is(keys: Seq<Seq<char>>, i: int, at: int)
    requires
        0 <= at <= i < keys.len(),
        keys[at] == keys[i],
        forall|k: int| 0 <= k < at ==> keys[k] != keys[i],
    ensures
        first_position(keys, i) == at,
{
    lemma_position_from(keys, keys[i], 0, at);
}

proof fn lemma_position_found(keys: Seq<Seq<char>>, key: Seq<char>, from: int, i: int)
    requires
        0 <= from <= i < keys.len(),
        keys[i] == key,
    ensures
        from <= position_from(keys, key, from) <= i,
        keys[position_from(keys, key, from)] == key,
        forall|k: int| from <= k < position_from(keys, key, from) ==> keys[k] != key,
    decreases i - from,
{
    if keys[from] != key {
        lemma_position_found(keys, key, from + 1, i);
    }
}

pub proof fn lemma_first_position(keys: Seq<Seq<char>>, i: int)
    requires
        0 <= i < keys.len(),
    ensures
        0 <= first_position(keys, i) <= i,
        keys[first_position(keys, i)] == keys[i],
        forall|k: int| 0 <= k < first_position(keys, i) ==> keys[k] != keys[i],
{
    lemma_position_found(keys, keys[i], 0, i);
}

/// For each key, the first position that holds the same key.
pub fn first_positions(keys: &Vec<String>) -> (r: Vec<usize>)
    ensures
        r@.len() == keys@.len(),
        forall|i: int|
            0 <= i < keys@.len() ==> #[trigger] r@[i] == first_position(text_views(keys@), i),
{
    let ghost texts = text_views(keys@);
    let mut index = KeyIndex::new();
    let mut at: Vec<usize> = Vec::new();
    let mut r: Vec<usize> = Vec::new();
    let mut i: usize = 0;
    while i < keys.len()
        invariant
            texts == text_views(keys@),
            index.wf(),
            i <= keys@.len(),
            at@.len() == index@.len(),
            r@.len() == i,
            forall|k: int|
                0 <= k < at@.len() ==> (#[trigger] at@[k]) < i && index@[k] == encode_utf8(
                    texts[at@[k] as int],
                ) && first_position(texts, at@[k] as int) == at@[k],
            forall|k: int| 0 <= k < i ==> index@.contains(encode_utf8(#[trigger] texts[k])),
            forall|k: int| 0 <= k < i ==> #[trigger] r@[k] == first_position(texts, k),
        decreases keys@.len() - i,
    {
        let ghost known = index@;
        let ghost key = encode_utf8(texts[i as int]);
        let n = index.len();
        let pos = index.find_or_add(keys[i].as_str().as_bytes());
        proof {
            if known.contains(key) {
                let f = at@[pos as int] as int;
                lemma_text_bytes_injective(texts[f], texts[i as int]);
                lemma_first_position(texts, f);
                lemma_first_position_is(texts, i as int, f);
            } else {
                assert forall|k: int| 0 <= k < i implies texts[k] != texts[i as int] by {
                    assert(known.contains(encode_utf8(texts[k])));
                }
                lemma_first_position_is(texts, i as int, i as int);
            }
        }
        if pos == n {
            assert(!known.contains(key)) by {
                if known.contains(key) {
                    assert(pos < known.len());
                }
            }
            at.push(i);
        }
        r.push(at[pos]);
        assert forall|k: int| 0 <= k < i + 1 implies index@.contains(
            encode_utf8(#[trigger] texts[k]),
        ) by {
            if k < i {
                let c = choose|c: int| 0 <= c < known.len() && known[c] == encode_utf8(texts[k]);
                assert(index@[c] == encode_utf8(texts[k]));
            } else {
                assert(index@[pos as int] == key);
            }
        }
        i += 1;
    }
    r
}

// ---------------------------------------------------------------------------
// Positions by key
// ---------------------------------------------------------------------------

/// The positions at which `key` stands, in ascending order.
pub open spec fn positions_of(all: Seq<Seq<u8>>, key: Seq<u8>) -> Seq<usize>
    decreases all.len(),
{
    if all.len() == 0 {
        Seq::empty()
    } else {
        let before = positions_of(all.drop_last(), key);
        if all.last() == key {
            before.push((all.len() - 1) as usize)
        } else {
            before
        }
    }
}

/// The keys in the order in which they first occur.
pub open spec fn distinct(all: Seq<Seq<u8>>) -> Seq<Seq<u8>>
    decreases all.len(),
{
    if all.len() == 0 {
        Seq::empty()
    } else {
        let before = distinct(all.drop_last());
        if before.contains(all.last()) {
            before
        } else {
            before.push(all.last())
        }
    }
}

/// The positions of a key are all of its positions, and in ascending order.
pub proof fn lemma_positions(all: Seq<Seq<u8>>, key: Seq<u8>)
    requires
        all.len() <= usize::MAX,
    ensures
        positions_of(all, key).len() <= all.len(),
        forall|i: int|
            0 <= i < positions_of(all, key).len() ==> (#[trigger] positions_of(all, key)[i])
                < all.len() && all[positions_of(all, key)[i] as int] == key,
        forall|i: int, j: int|
            0 <= i < j < positions_of(all, key).len() ==> (#[trigger] positions_of(all, key)[i])
                < (#[trigger] positions_of(all, key)[j]),
        forall|k: int|
            0 <= k < all.len() && all[k] == key ==> positions_of(all, key).contains(
                #[trigger] (k as usize),
            ),
    decreases all.len(),
{
    if all.len() > 0 {
        let front = all.drop_last();
        lemma_positions(front, key);
        let before = positions_of(front, key);
        let here = positions_of(all, key);
        assert forall|k: int| 0 <= k < all.len() && all[k] == key implies here.contains(
            #[trigger] (k as usize),
        ) by {
            if k < front.len() {
                assert(front[k] == key);
                let i = choose|i: int| 0 <= i < before.len() && before[i] == k as usize;
                assert(here[i] == k as usize);
            } else {
                assert(here[before.len() as int] == k as usize);
            }
        }
        assert forall|i: int| 0 <= i < here.len() implies (#[trigger] here[i]) < all.len()
            && all[here[i] as int] == key by {
            if i < before.len() {
                assert(here[i] == before[i]);
                assert(front[before[i] as int] == key);
            }
        }
    }
}

/// The distinct keys are the keys, each once.
pub proof fn lemma_distinct_keys(all: Seq<Seq<u8>>)
    ensures
        forall|key: Seq<u8>| distinct(all).contains(key) <==> all.contains(key),
        forall|i: int, j: int|
            0 <= i < j < distinct(all).len() ==> distinct(all)[i] != distinct(all)[j],
    decreases all.len(),
{
    if all.len() > 0 {
        let front = all.drop_last();
        lemma_distinct_keys(front);
        let before = distinct(front);
        assert forall|key: Seq<u8>| distinct(all).contains(key) <==> all.contains(key) by {
            if all.contains(key) && key != all.last() {
                let k = choose|k: int| 0 <= k < all.len() && all[k] == key;
                assert(front[k] == key);
                assert(front.contains(key));
                assert(before.contains(key));
                let c = choose|c: int| 0 <= c < before.len() && before[c] == key;
                assert(distinct(all)[c] == key);
            } else if key == all.last() {
                assert(all[all.len() - 1] == key);
                if !before.contains(key) {
                    assert(distinct(all)[before.len() as int] == key);
                }
            }
            if distinct(all).contains(key) && key != all.last() {
                let c = choose|c: int| 0 <= c < distinct(all).len() && distinct(all)[c] == key;
                assert(before[c] == key);
                assert(before.contains(key));
                assert(front.contains(key));
                let k = choose|k: int| 0 <= k < front.len() && front[k] == key;
                assert(all[k] == key);
            }
        }
        assert forall|i: int, j: int| 0 <= i < j < distinct(all).len() implies distinct(all)[i]
            != distinct(all)[j] by {
            if j == before.len() {
                assert(before[i] == distinct(all)[i]);
                assert(before.contains(before[i]));
            }
        }
    }
}

/// A list of keys, with the positions of each.
pub struct Grouping {
    index: KeyIndex,
    groups: Vec<Vec<usize>>,
    count: usize,
    all: Ghost<Seq<Seq<u8>>>,
}

impl View for Grouping {
    type V = Seq<Seq<u8>>;

    closed spec fn view(&self) -> Seq<Seq<u8>> {
        self.all@
    }
}

impl Grouping {
    pub closed spec fn wf(&self) -> bool {
        &&& self.index.wf()
        &&& self.all@.len() == self.count
        &&& self.index@ == distinct(self.all@)
        &&& self.groups@.len() == self.index@.len()
        &&& forall|g: int|
            0 <= g < self.groups@.len() ==> (#[trigger] self.groups@[g])@ == positions_of(
                self.all@,
                self.index@[g],
            )
    }

    pub fn new() -> (r: Grouping)
        ensures
            r.wf(),
            r@ == Seq::<Seq<u8>>::empty(),
    {
        let r = Grouping {
            index: KeyIndex::new(),
            groups: Vec::new(),
            count: 0,
            all: Ghost(Seq::empty()),
        };
        assert(r.index@ =~= distinct(r.all@));
        r
    }

    /// Adds a key at the end of the list.
    pub fn push(&mut self, key: &[u8])
        requires
            old(self).wf(),
            old(self)@.len() < usize::MAX,
        ensures
            final(self).wf(),
            final(self)@ == old(self)@.push(key@),
    {
        let ghost before = self.all@;
        let ghost known = self.index@;
        let ghost next = before.push(key@);
        let at = self.count;
        let n = self.index.len();
        let g = self.index.find_or_add(key);
        proof {
            assert(next.drop_last() =~= before);
            assert(next.last() == key@);
            old(self).index.lemma_distinct();
        }
        if g == n {
            assert(!known.contains(key@)) by {
                if known.contains(key@) {
                    assert(g < known.len());
                }
            }
            assert(positions_of(before, key@) =~= Seq::<usize>::empty()) by {
                lemma_positions(before, key@);
                lemma_distinct_keys(before);
                if positions_of(before, key@).len() > 0 {
                    assert(before[positions_of(before, key@)[0] as int] == key@);
                    assert(before.contains(key@));
                }
            }
            let mut group: Vec<usize> = Vec::new();
            group.push(at);
            assert(group@ =~= positions_of(next, key@));
            self.groups.push(group);
        } else {
            assert(known.contains(key@)) by {
                if !known.contains(key@) {
                    assert(g == known.len());
                }
            }
            let mut group = self.groups.remove(g);
            group.push(at);
            assert(group@ =~= positions_of(next, key@));
            self.groups.insert(g, group);
        }
        self.count = at + 1;
        self.all = Ghost(next);
        proof {
            assert(self.index@ =~= distinct(next));
            assert forall|k: int| 0 <= k < self.groups@.len() implies (
            #[trigger] self.groups@[k])@ == positions_of(next, self.index@[k]) by {
                if k != g {
                    assert(self.groups@[k] == old(self).groups@[k]);
                    assert(self.index@[k] == known[k]);
                    assert(self.index@[k] != key@) by {
                        self.index.lemma_distinct();
                        assert(self.index@[g as int] == key@);
                    }
                }
            }
        }
    }

    /// The positions of `key`.
    pub fn positions(&self, key: &[u8]) -> (r: Vec<usize>)
        requires
            self.wf(),
        ensures
            r@ == positions_of(self@, key@),
    {
        match self.index.find(key) {
            Some(g) => vstd::slice::slice_to_vec(self.groups[g].as_slice()),
            None => {
                assert(positions_of(self@, key@) =~= Seq::<usize>::empty()) by {
                    lemma_positions(self@, key@);
                    lemma_distinct_keys(self@);
                    if positions_of(self@, key@).len() > 0 {
                        assert(self@[positions_of(self@, key@)[0] as int] == key@);
                        assert(self@.contains(key@));
                    }
                }
                Vec::new()
            },
        }
    }

    /// Whether `key` is listed.
    pub fn has(&self, key: &[u8]) -> (r: bool)
        requires
            self.wf(),
        ensures
            r == self@.contains(key@),
    {
        proof {
            lemma_distinct_keys(self@);
        }
        match self.index.find(key) {
            Some(g) => {
                assert(self.index@.contains(key@));
                true
            },
            None => false,
        }
    }

    /// How many distinct keys there are.
    pub fn group_count(&self) -> (r: usize)
        requires
            self.wf(),
        ensures
            r == distinct(self@).len(),
    {
        self.index.len()
    }

    /// The positions of the distinct key at `g`.
    pub fn group(&self, g: usize) -> (r: Vec<usize>)
        requires
            self.wf(),
            g < distinct(self@).len(),
        ensures
            r@ == positions_of(self@, distinct(self@)[g as int]),
    {
        vstd::slice::slice_to_vec(self.groups[g].as_slice())
    }
}

/// The bytes of the texts.
pub open spec fn text_bytes(keys: Seq<Seq<char>>) -> Seq<Seq<u8>> {
    Seq::new(keys.len(), |i: int| encode_utf8(keys[i]))
}

} // verus!
