use vstd::prelude::*;
use vstd::string::{StringSliceAdditionalSpecFns, StrSliceExecFns};
use crate::bytes::bytes_eq;
use crate::codec::{dec_list, encode_list, decode_list, lemma_list_round};
use crate::errors::CacheError;
use crate::wrappers::string_bytes;
use vstd::slice::slice_to_vec;

verus! {

/// A value the cache can persist: it can be written to bytes and read
/// back, and `of_bytes` says which value a byte string denotes. What
/// `encode` returns always denotes the encoded value, so persisting and
/// restoring is lossless by contract.
pub trait Storable: View + Sized {
    /// The value a byte string denotes, if any.
    spec fn of_bytes(s: Seq<u8>) -> Option<Self::V>;

    fn encode(&self) -> (r: Vec<u8>)
        ensures
            Self::of_bytes(r@) == Some(self@),
    ;

    fn decode(s: &[u8]) -> (r: Option<Self>)
        ensures
            match r {
                Some(v) => Self::of_bytes(s@) == Some(v@),
                None => Self::of_bytes(s@) is None,
            },
    ;
}

/// The map a table of keyed pairs denotes; a later pair with the same
/// key wins, as repeated `insert` calls would have it.
pub open spec fn table_map<T: Storable>(s: Seq<(Vec<u8>, T)>) -> Map<Seq<u8>, T::V>
    decreases s.len(),
{
    if s.len() == 0 {
        Map::empty()
    } else {
        table_map(s.drop_last()).insert(s.last().0@, s.last().1@)
    }
}

pub proof fn lemma_table_map_contains<T: Storable>(s: Seq<(Vec<u8>, T)>, k: Seq<u8>)
    ensures
        table_map::<T>(s).contains_key(k) <==> exists|i: int|
            0 <= i < s.len() && (#[trigger] s[i]).0@ == k,
    decreases s.len(),
{
    if s.len() > 0 {
        lemma_table_map_contains::<T>(s.drop_last(), k);
        if table_map::<T>(s).contains_key(k) {
            if s.last().0@ != k {
                let i = choose|i: int|
                    0 <= i < s.drop_last().len() && (#[trigger] s.drop_last()[i]).0@ == k;
                assert(s[i].0@ == k);
            } else {
                assert(s[s.len() - 1].0@ == k);
            }
        }
        if exists|i: int| 0 <= i < s.len() && (#[trigger] s[i]).0@ == k {
            let i = choose|i: int| 0 <= i < s.len() && (#[trigger] s[i]).0@ == k;
            if i < s.len() - 1 {
                assert(s.drop_last()[i].0@ == k);
            }
        }
    }
}

/// Where a key occurs nowhere later, the pair at `i` decides its value.
pub proof fn lemma_table_map_get<T: Storable>(s: Seq<(Vec<u8>, T)>, i: int)
    requires
        0 <= i < s.len(),
        forall|j: int| i < j < s.len() ==> (#[trigger] s[j]).0@ != s[i].0@,
    ensures
        table_map::<T>(s).contains_key(s[i].0@),
        table_map::<T>(s)[s[i].0@] == s[i].1@,
    decreases s.len(),
{
    if i == s.len() - 1 {
    } else {
        assert(s.drop_last()[i] == s[i]);
        assert(forall|j: int|
            i < j < s.drop_last().len() ==> (#[trigger] s.drop_last()[j]).0@ != s[i].0@);
        lemma_table_map_get::<T>(s.drop_last(), i);
        assert(s.last().0@ != s[i].0@);
    }
}

/// The in-memory store: ordered pairs with pairwise distinct keys.
pub struct Cache<T: Storable> {
    data: Vec<(Vec<u8>, T)>,
    cache_dir: String,
}

impl<T: Storable> Cache<T> {
    /// Pairwise distinct keys.
    pub closed spec fn wf(self) -> bool {
        forall|i: int, j: int|
            0 <= i < j < self.data@.len() ==> (#[trigger] self.data@[i]).0@ != (
            #[trigger] self.data@[j]).0@
    }

    /// What the cache holds, as a map from key bytes to value models.
    pub closed spec fn contents(self) -> Map<Seq<u8>, T::V> {
        table_map::<T>(self.data@)
    }

    /// The directory the hosting application keeps the files in.
    pub closed spec fn dir(self) -> Seq<char> {
        self.cache_dir@
    }

    pub fn new(cache_dir: String) -> (c: Self)
        ensures
            c.wf(),
            c.contents() == Map::<Seq<u8>, T::V>::empty(),
            c.dir() == cache_dir@,
    {
        Cache { data: Vec::new(), cache_dir }
    }

    fn find(&self, key: &[u8]) -> (r: Option<usize>)
        ensures
            match r {
                Some(i) => i < self.data@.len() && self.data@[i as int].0@ == key@,
                None => forall|i: int|
                    0 <= i < self.data@.len() ==> (#[trigger] self.data@[i]).0@ != key@,
            },
    {
        let mut i: usize = 0;
        while i < self.data.len()
            invariant
                i <= self.data@.len(),
                forall|j: int| 0 <= j < i ==> (#[trigger] self.data@[j]).0@ != key@,
            decreases self.data@.len() - i,
        {
            if bytes_eq(self.data[i].0.as_slice(), key) {
                return Some(i);
            }
            i = i + 1;
        }
        None
    }

    /// The stored value under this key, if any.
    pub fn get(&self, key: &str) -> (r: Option<&T>)
        requires
            self.wf(),
        ensures
            match r {
                Some(v) => self.contents().contains_key(key.spec_bytes()) && v@
                    == self.contents()[key.spec_bytes()],
                None => !self.contents().contains_key(key.spec_bytes()),
            },
    {
        match self.find(key.as_bytes()) {
            Some(i) => {
                proof {
                    lemma_table_map_get::<T>(self.data@, i as int);
                }
                Some(&self.data[i].1)
            },
            None => {
                proof {
                    lemma_table_map_contains::<T>(self.data@, key.spec_bytes());
                }
                None
            },
        }
    }

    /// Stores the value under the key, replacing what was there.
    pub fn insert(&mut self, key: String, value: T)
        requires
            old(self).wf(),
        ensures
            final(self).wf(),
            final(self).contents() == old(self).contents().insert(string_bytes(key), value@),
            final(self).dir() == old(self).dir(),
    {
        let kb = key.as_str().as_bytes_vec();
        let ghost k = kb@;
        let ghost v = value@;
        let ghost s0 = self.data@;
        match self.find(kb.as_slice()) {
            Some(i) => {
                self.data.remove(i);
                let ghost s1 = self.data@;
                self.data.push((kb, value));
                proof {
                    let s2 = self.data@;
                    assert(s1 =~= s0.remove(i as int));
                    assert forall|a: int, b: int| 0 <= a < b < s1.len() implies (
                    #[trigger] s1[a]).0@ != (#[trigger] s1[b]).0@ by {
                        let a0: int = if a < i {
                            a
                        } else {
                            a + 1
                        };
                        let b0: int = if b < i {
                            b
                        } else {
                            b + 1
                        };
                        assert(s1[a] == s0[a0]);
                        assert(s1[b] == s0[b0]);
                    }
                    assert forall|a: int| 0 <= a < s1.len() implies (#[trigger] s1[a]).0@ != k by {
                        let a0: int = if a < i {
                            a
                        } else {
                            a + 1
                        };
                        assert(s1[a] == s0[a0]);
                        assert(s0[i as int].0@ == k);
                    }
                    assert(s2.drop_last() =~= s1);
                    lemma_insert_shape::<T>(s0, s1, s2, i as int, k, v);
                }
            },
            None => {
                self.data.push((kb, value));
                proof {
                    let s2 = self.data@;
                    assert(s2.drop_last() =~= s0);
                    assert(table_map::<T>(s2) == table_map::<T>(s0).insert(k, v));
                    assert forall|a: int, b: int| 0 <= a < b < s2.len() implies (
                    #[trigger] s2[a]).0@ != (#[trigger] s2[b]).0@ by {
                        if b < s2.len() - 1 {
                            assert(s2[a] == s0[a] && s2[b] == s0[b]);
                        } else {
                            assert(s2[a] == s0[a]);
                        }
                    }
                }
            },
        }
    }

    /// The directory the hosting application keeps the files in.
    pub fn directory(&self) -> (r: &str)
        ensures
            r@ == self.dir(),
    {
        self.cache_dir.as_str()
    }

    /// Forgets everything; the directory stays.
    pub fn clear(&mut self)
        ensures
            final(self).wf(),
            final(self).contents() == Map::<Seq<u8>, T::V>::empty(),
            final(self).dir() == old(self).dir(),
    {
        self.data = Vec::new();
    }
}

/// After removing the old pair for `k` and pushing the new one, the
/// table denotes the old map with `k` set to the new value.
proof fn lemma_insert_shape<T: Storable>(
    s0: Seq<(Vec<u8>, T)>,
    s1: Seq<(Vec<u8>, T)>,
    s2: Seq<(Vec<u8>, T)>,
    i: int,
    k: Seq<u8>,
    v: T::V,
)
    requires
        forall|a: int, b: int| 0 <= a < b < s0.len() ==> (#[trigger] s0[a]).0@ != (
        #[trigger] s0[b]).0@,
        0 <= i < s0.len(),
        s0[i].0@ == k,
        s1 == s0.remove(i),
        s2.len() == s1.len() + 1,
        s2.drop_last() == s1,
        s2.last().0@ == k,
        s2.last().1@ == v,
    ensures
        table_map::<T>(s2) == table_map::<T>(s0).insert(k, v),
{
    let m2 = table_map::<T>(s2);
    let mt = table_map::<T>(s0).insert(k, v);
    assert(m2 == table_map::<T>(s1).insert(k, v));
    assert forall|k2: Seq<u8>| m2.contains_key(k2) <==> mt.contains_key(k2) by {
        lemma_table_map_contains::<T>(s1, k2);
        lemma_table_map_contains::<T>(s0, k2);
        if k2 != k {
            if exists|a: int| 0 <= a < s1.len() && (#[trigger] s1[a]).0@ == k2 {
                let a = choose|a: int| 0 <= a < s1.len() && (#[trigger] s1[a]).0@ == k2;
                let a0: int = if a < i {
                    a
                } else {
                    a + 1
                };
                assert(s0[a0].0@ == k2);
            }
            if exists|a: int| 0 <= a < s0.len() && (#[trigger] s0[a]).0@ == k2 {
                let a0 = choose|a: int| 0 <= a < s0.len() && (#[trigger] s0[a]).0@ == k2;
                assert(a0 != i);
                let a: int = if a0 < i {
                    a0
                } else {
                    a0 - 1
                };
                assert(s1[a].0@ == k2);
            }
        }
    }
    assert forall|k2: Seq<u8>| m2.contains_key(k2) implies m2[k2] == mt[k2] by {
        if k2 != k {
            lemma_table_map_contains::<T>(s1, k2);
            let a = choose|a: int| 0 <= a < s1.len() && (#[trigger] s1[a]).0@ == k2;
            assert forall|b: int| a < b < s1.len() implies (#[trigger] s1[b]).0@ != s1[a].0@ by {
                let a0: int = if a < i {
                    a
                } else {
                    a + 1
                };
                let b0: int = if b < i {
                    b
                } else {
                    b + 1
                };
                assert(s1[a] == s0[a0]);
                assert(s1[b] == s0[b0]);
            }
            lemma_table_map_get::<T>(s1, a);
            assert(m2[k2] == s1[a].1@);
            let a0: int = if a < i {
                a
            } else {
                a + 1
            };
            assert(s1[a] == s0[a0]);
            assert forall|b: int| a0 < b < s0.len() implies (#[trigger] s0[b]).0@ != s0[a0].0@ by {}
            lemma_table_map_get::<T>(s0, a0);
            assert(mt[k2] == s0[a0].1@);
        }
    }
    assert(m2 =~= mt);
}

// ---------------------------------------------------------------------------
// Persistence
// ---------------------------------------------------------------------------

/// The map a flat list of alternating key and value byte strings
/// denotes, from position `i` on. A repeated key or an undecodable
/// value makes the whole table malformed.
pub open spec fn load_pairs<T: Storable>(items: Seq<Seq<u8>>, i: int) -> Option<
    Map<Seq<u8>, T::V>,
>
    decreases items.len() - i,
{
    if i >= items.len() {
        Some(Map::empty())
    } else if i + 2 > items.len() {
        None
    } else {
        match T::of_bytes(items[i + 1]) {
            None => None,
            Some(v) => match load_pairs::<T>(items, i + 2) {
                None => None,
                Some(m) => if m.contains_key(items[i]) {
                    None
                } else {
                    Some(m.insert(items[i], v))
                },
            },
        }
    }
}

/// The table a persisted byte string denotes, if it is well formed.
/// This is the whole meaning of the on-disk format: what `save_bytes`
/// writes denotes exactly the saved table, and `load_bytes` restores
/// exactly what the bytes denote.
pub open spec fn spec_load_table<T: Storable>(bytes: Seq<u8>) -> Option<Map<Seq<u8>, T::V>> {
    match dec_list(bytes) {
        None => None,
        Some(items) => if items.len() % 2 == 0 {
            load_pairs::<T>(items, 0)
        } else {
            None
        },
    }
}

/// Law: a table written as alternating key and value blobs, with
/// distinct keys and every value denoting its record, reads back as
/// exactly the written table.
pub proof fn lemma_save_pairs<T: Storable>(
    items: Seq<Seq<u8>>,
    data: Seq<(Vec<u8>, T)>,
    t: int,
)
    requires
        items.len() == 2 * data.len(),
        0 <= t <= data.len(),
        forall|u: int| 0 <= u < data.len() ==> items[2 * u] == (#[trigger] data[u]).0@,
        forall|u: int|
            0 <= u < data.len() ==> T::of_bytes(items[2 * u + 1]) == Some((#[trigger] data[u]).1@),
        forall|a: int, b: int|
            0 <= a < b < data.len() ==> (#[trigger] data[a]).0@ != (#[trigger] data[b]).0@,
    ensures
        load_pairs::<T>(items, 2 * t) is Some,
        forall|k: Seq<u8>|
            #[trigger] load_pairs::<T>(items, 2 * t)->Some_0.contains_key(k) <==> exists|u: int|
                t <= u < data.len() && (#[trigger] data[u]).0@ == k,
        forall|u: int|
            t <= u < data.len() ==> load_pairs::<T>(items, 2 * t)->Some_0[(
            #[trigger] data[u]).0@] == data[u].1@,
    decreases data.len() - t,
{
    if t < data.len() {
        lemma_save_pairs::<T>(items, data, t + 1);
        let rest = load_pairs::<T>(items, 2 * t + 2)->Some_0;
        assert(2 * (t + 1) == 2 * t + 2);
        assert(items[2 * t] == data[t].0@);
        assert(T::of_bytes(items[2 * t + 1]) == Some(data[t].1@));
        assert(!rest.contains_key(items[2 * t])) by {
            if rest.contains_key(data[t].0@) {
                let u = choose|u: int| t + 1 <= u < data.len() && (#[trigger] data[u]).0@ == data[
                    t
                ].0@;
                assert(false);
            }
        }
        assert(load_pairs::<T>(items, 2 * t) == Some(rest.insert(data[t].0@, data[t].1@)));
        let m = load_pairs::<T>(items, 2 * t)->Some_0;
        assert forall|k: Seq<u8>| m.contains_key(k) <==> exists|u: int|
            t <= u < data.len() && (#[trigger] data[u]).0@ == k by {
            if m.contains_key(k) {
                if k == data[t].0@ {
                    assert(t <= t < data.len() && data[t].0@ == k);
                } else {
                    let u = choose|u: int|
                        t + 1 <= u < data.len() && (#[trigger] data[u]).0@ == k;
                    assert(t <= u < data.len() && data[u].0@ == k);
                }
            }
            if exists|u: int| t <= u < data.len() && (#[trigger] data[u]).0@ == k {
                let u = choose|u: int| t <= u < data.len() && (#[trigger] data[u]).0@ == k;
                if u > t {
                    assert(rest.contains_key(k));
                }
            }
        }
    }
}

impl<T: Storable> Cache<T> {
    /// The whole table as one byte string. What comes back denotes
    /// exactly the current contents, so restoring it (into this or a
    /// fresh cache) yields an equal table: the round trip loses
    /// nothing.
    pub fn save_bytes(&self) -> (r: Vec<u8>)
        requires
            self.wf(),
        ensures
            spec_load_table::<T>(r@) == Some(self.contents()),
    {
        let mut items: Vec<Vec<u8>> = Vec::new();
        let mut t: usize = 0;
        while t < self.data.len()
            invariant
                t <= self.data@.len(),
                items.deep_view().len() == 2 * t,
                forall|u: int|
                    0 <= u < t ==> items.deep_view()[2 * u] == (#[trigger] self.data@[u]).0@,
                forall|u: int|
                    0 <= u < t ==> T::of_bytes(items.deep_view()[2 * u + 1]) == Some(
                        (#[trigger] self.data@[u]).1@,
                    ),
            decreases self.data@.len() - t,
        {
            let ghost before = items.deep_view();
            let kcopy = slice_to_vec(self.data[t].0.as_slice());
            let vbytes = self.data[t].1.encode();
            let ghost kv = kcopy@;
            let ghost vv = vbytes@;
            items.push(kcopy);
            items.push(vbytes);
            proof {
                let after = items.deep_view();
                assert(after.len() == before.len() + 2);
                assert forall|w: int| 0 <= w < after.len() implies after[w] == (before + seq![
                    kv,
                    vv,
                ])[w] by {
                    assert(after[w] == items@[w]@);
                    if w < before.len() {
                        assert(before[w] == items@[w]@);
                    } else if w == before.len() {
                        assert(items@[w]@ == kv);
                    } else {
                        assert(items@[w]@ == vv);
                    }
                }
                assert(after =~= before + seq![kv, vv]);
            }
            t = t + 1;
        }
        let out = encode_list(&items);
        proof {
            let dv = items.deep_view();
            assert forall|k: int| 0 <= k < dv.len() implies (#[trigger] dv[k]).len()
                < 100000000000000000000 by {
                assert(dv[k] == items@[k]@);
                vstd::std_specs::vec::axiom_spec_len(&items@[k]);
            }
            vstd::std_specs::vec::axiom_spec_len(&items);
            lemma_list_round(dv);
            lemma_save_pairs::<T>(dv, self.data@, 0);
            let m = load_pairs::<T>(dv, 0)->Some_0;
            assert forall|k: Seq<u8>| m.contains_key(k) <==> self.contents().contains_key(k) by {
                lemma_table_map_contains::<T>(self.data@, k);
            }
            assert forall|k: Seq<u8>| m.contains_key(k) implies m[k] == self.contents()[k] by {
                lemma_table_map_contains::<T>(self.data@, k);
                let u = choose|u: int|
                    0 <= u < self.data@.len() && (#[trigger] self.data@[u]).0@ == k;
                lemma_table_map_get::<T>(self.data@, u);
            }
            assert(m =~= self.contents());
        }
        out
    }

    /// Restores the table that `content` denotes; `None` stands for a
    /// store that does not exist yet and leaves everything as it is.
    pub fn load_bytes(&mut self, content: Option<&[u8]>) -> (r: Result<(), CacheError>)
        requires
            old(self).wf(),
        ensures
            final(self).wf(),
            final(self).dir() == old(self).dir(),
            match content {
                None => r is Ok && final(self).contents() == old(self).contents(),
                Some(b) => match spec_load_table::<T>(b@) {
                    None => r == Err::<(), CacheError>(CacheError::Malformed)
                        && final(self).contents() == old(self).contents(),
                    Some(m) => r is Ok && final(self).contents() == m,
                },
            },
    {
        match content {
            None => Ok(()),
            Some(b) => match decode_list(b) {
                None => Err(CacheError::Malformed),
                Some(items) => {
                    if items.len() % 2 != 0 {
                        proof {
                            assert(items.deep_view().len() == items@.len());
                        }
                        return Err(CacheError::Malformed);
                    }
                    match load_pairs_exec::<T>(&items, 0) {
                        None => Err(CacheError::Malformed),
                        Some(d) => {
                            self.data = d;
                            Ok(())
                        },
                    }
                },
            },
        }
    }
}

fn load_pairs_exec<T: Storable>(items: &Vec<Vec<u8>>, i: usize) -> (r: Option<
    Vec<(Vec<u8>, T)>,
>)
    requires
        i <= items@.len(),
    ensures
        match r {
            Some(d) => load_pairs::<T>(items.deep_view(), i as int) == Some(table_map::<T>(d@))
                && (forall|a: int, b: int|
                0 <= a < b < d@.len() ==> (#[trigger] d@[a]).0@ != (#[trigger] d@[b]).0@),
            None => load_pairs::<T>(items.deep_view(), i as int) is None,
        },
    decreases items@.len() - i,
{
    proof {
        assert(items.deep_view().len() == items@.len());
    }
    if i >= items.len() {
        let d: Vec<(Vec<u8>, T)> = Vec::new();
        proof {
            assert(table_map::<T>(d@) =~= Map::<Seq<u8>, T::V>::empty());
        }
        Some(d)
    } else if items.len() - i < 2 {
        None
    } else {
        proof {
            assert(items.deep_view()[i + 1] == items@[i + 1]@);
            assert(items.deep_view()[i as int] == items@[i as int]@);
        }
        match T::decode(items[i + 1].as_slice()) {
            None => None,
            Some(v) => match load_pairs_exec::<T>(items, i + 2) {
                None => None,
                Some(d) => {
                    let ghost d0 = d@;
                    let key = slice_to_vec(items[i].as_slice());
                    let mut dup = false;
                    let mut j: usize = 0;
                    while j < d.len()
                        invariant
                            j <= d0.len(),
                            d@ == d0,
                            key@ == items@[i as int]@,
                            dup <==> exists|w: int|
                                0 <= w < j && (#[trigger] d0[w]).0@ == key@,
                        decreases d0.len() - j,
                    {
                        if bytes_eq(d[j].0.as_slice(), key.as_slice()) {
                            dup = true;
                        }
                        j = j + 1;
                    }
                    proof {
                        lemma_table_map_contains::<T>(d0, key@);
                    }
                    if dup {
                        None
                    } else {
                        let mut d = d;
                        d.push((key, v));
                        proof {
                            assert(d@.drop_last() =~= d0);
                            assert(table_map::<T>(d@) == table_map::<T>(d0).insert(key@, v@));
                            assert forall|a: int, b: int|
                                0 <= a < b < d@.len() implies (#[trigger] d@[a]).0@ != (
                            #[trigger] d@[b]).0@ by {
                                if b < d@.len() - 1 {
                                    assert(d@[a] == d0[a] && d@[b] == d0[b]);
                                } else {
                                    assert(d@[a] == d0[a]);
                                }
                            }
                        }
                        Some(d)
                    }
                },
            },
        }
    }
}

/// Law: a table saved and then restored — into this or a fresh cache —
/// holds every saved key with an equal record. The premises are exactly
/// what `save_bytes` ensures of its result and `load_bytes` ensures of
/// the cache it filled.
pub proof fn lemma_store_round_trip<T: Storable>(
    saved: Map<Seq<u8>, T::V>,
    bytes: Seq<u8>,
    restored: Map<Seq<u8>, T::V>,
    k: Seq<u8>,
)
    requires
        spec_load_table::<T>(bytes) == Some(saved),
        spec_load_table::<T>(bytes) == Some(restored),
        saved.contains_key(k),
    ensures
        restored.contains_key(k),
        restored[k] == saved[k],
{
}

} // verus!
