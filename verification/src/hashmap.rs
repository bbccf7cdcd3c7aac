use vstd::prelude::*;

verus! {

use crate::hash_key::HashKey;
use crate::linked_list::LinkedList;

/// One key-value pair stored in a bucket's chain. Two entries are equal
/// exactly when their keys are (their key views coincide); the value plays
/// no part, since the map addresses entries by key alone.
struct Entry<K: HashKey, V> {
    key: K,
    value: V,
}

impl<K: HashKey, V> PartialEq for Entry<K, V> {
    fn eq(&self, other: &Self) -> (r: bool) {
        self.key.key_eq(&other.key)
    }
}

impl<K: HashKey, V> vstd::std_specs::cmp::PartialEqSpecImpl for Entry<K, V> {
    closed spec fn obeys_eq_spec() -> bool {
        true
    }

    closed spec fn eq_spec(&self, other: &Self) -> bool {
        self.key@ == other.key@
    }
}

/// Whether some entry of the chain `s` has key view `kv`.
spec fn chain_has_key<K: HashKey, V>(s: Seq<Entry<K, V>>, kv: K::V) -> bool {
    exists|i: int| 0 <= i < s.len() && (#[trigger] s[i]).key@ == kv
}

/// All entries of the chain `s` have pairwise distinct key views.
spec fn chain_distinct<K: HashKey, V>(s: Seq<Entry<K, V>>) -> bool {
    forall|i: int, j: int|
        0 <= i < j < s.len() ==> (#[trigger] s[i]).key@ != (#[trigger] s[j]).key@
}

/// The map described by the entries of one chain (later entries win, which
/// is irrelevant once keys are distinct).
spec fn chain_map<K: HashKey, V>(s: Seq<Entry<K, V>>) -> Map<K::V, V>
    decreases s.len(),
{
    if s.len() == 0 {
        Map::empty()
    } else {
        chain_map(s.drop_last()).insert(s.last().key@, s.last().value)
    }
}

/// The map described by the first `m` buckets together.
spec fn buckets_map_up_to<K: HashKey, V>(bs: Seq<LinkedList<Entry<K, V>>>, m: int) -> Map<
    K::V,
    V,
>
    decreases m,
{
    if m <= 0 {
        Map::empty()
    } else {
        buckets_map_up_to(bs, m - 1).union_prefer_right(chain_map(bs[m - 1]@))
    }
}

/// Every entry sits in the bucket its key hashes to.
spec fn buckets_placed<K: HashKey, V>(bs: Seq<LinkedList<Entry<K, V>>>) -> bool {
    forall|b: int, i: int|
        0 <= b < bs.len() && 0 <= i < bs[b]@.len() ==> K::hash_of(
            (#[trigger] bs[b]@[i]).key@,
        ) as int % (bs.len() as int) == b
}

/// Every bucket's chain is duplicate-free.
spec fn buckets_distinct<K: HashKey, V>(bs: Seq<LinkedList<Entry<K, V>>>) -> bool {
    forall|b: int| 0 <= b < bs.len() ==> chain_distinct((#[trigger] bs[b])@)
}

/// A chain's map has a finite domain: exactly the key views in the chain.
proof fn lemma_chain_map_dom<K: HashKey, V>(s: Seq<Entry<K, V>>)
    ensures
        chain_map(s).dom().finite(),
        forall|kv: K::V| #[trigger]
            chain_map(s).dom().contains(kv) <==> chain_has_key(s, kv),
    decreases s.len(),
{
    if s.len() == 0 {
        assert(chain_map(s).dom() =~= Set::<K::V>::empty());
        assert forall|kv: K::V| #[trigger]
            chain_map(s).dom().contains(kv) <==> chain_has_key(s, kv) by {}
    } else {
        let prefix = s.drop_last();
        lemma_chain_map_dom(prefix);
        assert forall|kv: K::V| #[trigger]
            chain_map(s).dom().contains(kv) <==> chain_has_key(s, kv) by {
            if chain_map(s).dom().contains(kv) {
                if kv == s.last().key@ {
                    assert(s[s.len() - 1].key@ == kv);
                } else {
                    let i = choose|i: int| 0 <= i < prefix.len() && (#[trigger] prefix[i]).key@
                        == kv;
                    assert(s[i].key@ == kv);
                }
            }
            if chain_has_key(s, kv) {
                let i = choose|i: int| 0 <= i < s.len() && (#[trigger] s[i]).key@ == kv;
                if i < s.len() - 1 {
                    assert(prefix[i].key@ == kv);
                }
            }
        }
    }
}

/// In a duplicate-free chain, each entry's key looks up that entry's value.
proof fn lemma_chain_map_value<K: HashKey, V>(s: Seq<Entry<K, V>>)
    requires
        chain_distinct(s),
    ensures
        forall|i: int|
            0 <= i < s.len() ==> chain_map(s)[(#[trigger] s[i]).key@] == s[i].value,
    decreases s.len(),
{
    if s.len() > 0 {
        let prefix = s.drop_last();
        assert(chain_distinct(prefix));
        lemma_chain_map_value(prefix);
        assert forall|i: int|
            0 <= i < s.len() implies chain_map(s)[(#[trigger] s[i]).key@] == s[i].value by {
            if i < s.len() - 1 {
                assert(s[i].key@ != s[s.len() - 1].key@);
                assert(prefix[i] == s[i]);
                assert(chain_map(prefix)[s[i].key@] == s[i].value);
            }
        }
    }
}

/// A duplicate-free chain describes a map with one key per entry.
proof fn lemma_chain_map_card<K: HashKey, V>(s: Seq<Entry<K, V>>)
    requires
        chain_distinct(s),
    ensures
        chain_map(s).dom().len() == s.len(),
    decreases s.len(),
{
    if s.len() > 0 {
        let prefix = s.drop_last();
        assert(chain_distinct(prefix));
        lemma_chain_map_card(prefix);
        lemma_chain_map_dom(prefix);
        assert(!chain_has_key(prefix, s.last().key@)) by {
            if chain_has_key(prefix, s.last().key@) {
                let i = choose|i: int|
                    0 <= i < prefix.len() && (#[trigger] prefix[i]).key@ == s.last().key@;
                assert(s[i].key@ == s[s.len() - 1].key@);
            }
        }
        assert(chain_map(s).dom() =~= chain_map(prefix).dom().insert(s.last().key@));
    }
}

/// Appending an entry inserts its pair into the chain's map.
proof fn lemma_chain_map_push<K: HashKey, V>(s: Seq<Entry<K, V>>, e: Entry<K, V>)
    ensures
        chain_map(s.push(e)) == chain_map(s).insert(e.key@, e.value),
{
    assert(s.push(e).drop_last() =~= s);
    assert(s.push(e).last() == e);
}

/// Removing an entry of a duplicate-free chain removes its key from the
/// chain's map.
proof fn lemma_chain_map_remove<K: HashKey, V>(s: Seq<Entry<K, V>>, i: int)
    requires
        chain_distinct(s),
        0 <= i < s.len(),
    ensures
        chain_map(s.remove(i)) == chain_map(s).remove(s[i].key@),
    decreases s.len(),
{
    let prefix = s.drop_last();
    assert(chain_distinct(prefix));
    if i == s.len() - 1 {
        assert(s.remove(i) =~= prefix);
        lemma_chain_map_dom(prefix);
        assert(!chain_has_key(prefix, s.last().key@)) by {
            if chain_has_key(prefix, s.last().key@) {
                let j = choose|j: int|
                    0 <= j < prefix.len() && (#[trigger] prefix[j]).key@ == s.last().key@;
                assert(s[j].key@ == s[s.len() - 1].key@);
            }
        }
        assert(chain_map(s).remove(s[i].key@) =~= chain_map(prefix));
    } else {
        lemma_chain_map_remove(prefix, i);
        assert(s.remove(i) =~= prefix.remove(i).push(s.last()));
        lemma_chain_map_push(prefix.remove(i), s.last());
        assert(prefix[i] == s[i]);
        assert(s[i].key@ != s.last().key@) by {
            assert(s[i].key@ != s[s.len() - 1].key@);
        }
        assert(chain_map(prefix.remove(i)).insert(s.last().key@, s.last().value) =~= chain_map(
            s,
        ).remove(s[i].key@));
    }
}

/// Removing an entry keeps a chain duplicate-free.
proof fn lemma_chain_distinct_remove<K: HashKey, V>(s: Seq<Entry<K, V>>, i: int)
    requires
        chain_distinct(s),
        0 <= i < s.len(),
    ensures
        chain_distinct(s.remove(i)),
{
    let r = s.remove(i);
    assert forall|p: int, q: int|
        0 <= p < q < r.len() implies (#[trigger] r[p]).key@ != (#[trigger] r[q]).key@ by {
        let a: int = if p < i {
            p
        } else {
            p + 1
        };
        let b: int = if q < i {
            q
        } else {
            q + 1
        };
        assert(r[p] == s[a]);
        assert(r[q] == s[b]);
    }
}

/// What the first `m` buckets say about a key is decided by the key's home
/// bucket alone, once every entry sits in its home bucket.
proof fn lemma_lookup<K: HashKey, V>(bs: Seq<LinkedList<Entry<K, V>>>, m: int, kv: K::V)
    requires
        bs.len() >= 1,
        buckets_placed(bs),
        0 <= m <= bs.len(),
    ensures
        buckets_map_up_to(bs, m).dom().contains(kv) <==> (K::hash_of(kv) as int % (
        bs.len() as int) < m && chain_has_key(bs[K::hash_of(kv) as int % (bs.len() as int)]@, kv)),
        buckets_map_up_to(bs, m).dom().contains(kv) ==> buckets_map_up_to(bs, m)[kv] == chain_map(
            bs[K::hash_of(kv) as int % (bs.len() as int)]@,
        )[kv],
    decreases m,
{
    let h = K::hash_of(kv) as int % (bs.len() as int);
    if m > 0 {
        lemma_lookup(bs, m - 1, kv);
        lemma_chain_map_dom(bs[m - 1]@);
        if chain_has_key(bs[m - 1]@, kv) {
            let i = choose|i: int| 0 <= i < bs[m - 1]@.len() && (#[trigger] bs[m - 1]@[i]).key@
                == kv;
            assert(K::hash_of(bs[m - 1]@[i].key@) as int % (bs.len() as int) == m - 1);
            assert(h == m - 1);
        }
    }
}

/// Replacing the home bucket of `kv` with one whose map gains the pair
/// `(kv, v)` makes the whole map gain exactly that pair.
proof fn lemma_update_insert<K: HashKey, V>(
    bs: Seq<LinkedList<Entry<K, V>>>,
    h: int,
    c2: LinkedList<Entry<K, V>>,
    kv: K::V,
    v: V,
    m: int,
)
    requires
        bs.len() >= 1,
        buckets_placed(bs),
        0 <= h < bs.len(),
        0 <= m <= bs.len(),
        K::hash_of(kv) as int % (bs.len() as int) == h,
        chain_map(c2@) == chain_map(bs[h]@).insert(kv, v),
    ensures
        m <= h ==> buckets_map_up_to(bs.update(h, c2), m) == buckets_map_up_to(bs, m),
        m > h ==> buckets_map_up_to(bs.update(h, c2), m) == buckets_map_up_to(bs, m).insert(
            kv,
            v,
        ),
    decreases m,
{
    let bs2 = bs.update(h, c2);
    if m > 0 {
        lemma_update_insert(bs, h, c2, kv, v, m - 1);
        if m - 1 < h {
        } else if m - 1 == h {
            assert(buckets_map_up_to(bs2, m) =~= buckets_map_up_to(bs, m).insert(kv, v));
        } else {
            lemma_chain_map_dom(bs[m - 1]@);
            assert(!chain_has_key(bs[m - 1]@, kv)) by {
                if chain_has_key(bs[m - 1]@, kv) {
                    let i = choose|i: int|
                        0 <= i < bs[m - 1]@.len() && (#[trigger] bs[m - 1]@[i]).key@ == kv;
                    assert(K::hash_of(bs[m - 1]@[i].key@) as int % (bs.len() as int) == m - 1);
                }
            }
            assert(buckets_map_up_to(bs2, m) =~= buckets_map_up_to(bs, m).insert(kv, v));
        }
    }
}

/// Replacing the home bucket of `kv` with one whose map loses the key `kv`
/// makes the whole map lose exactly that key.
proof fn lemma_update_remove<K: HashKey, V>(
    bs: Seq<LinkedList<Entry<K, V>>>,
    h: int,
    c2: LinkedList<Entry<K, V>>,
    kv: K::V,
    m: int,
)
    requires
        bs.len() >= 1,
        buckets_placed(bs),
        0 <= h < bs.len(),
        0 <= m <= bs.len(),
        K::hash_of(kv) as int % (bs.len() as int) == h,
        chain_map(c2@) == chain_map(bs[h]@).remove(kv),
    ensures
        m <= h ==> buckets_map_up_to(bs.update(h, c2), m) == buckets_map_up_to(bs, m),
        m > h ==> buckets_map_up_to(bs.update(h, c2), m) == buckets_map_up_to(bs, m).remove(kv),
    decreases m,
{
    let bs2 = bs.update(h, c2);
    if m > 0 {
        lemma_update_remove(bs, h, c2, kv, m - 1);
        if m - 1 < h {
        } else if m - 1 == h {
            lemma_lookup(bs, m - 1, kv);
            assert(buckets_map_up_to(bs2, m) =~= buckets_map_up_to(bs, m).remove(kv));
        } else {
            lemma_chain_map_dom(bs[m - 1]@);
            assert(!chain_has_key(bs[m - 1]@, kv)) by {
                if chain_has_key(bs[m - 1]@, kv) {
                    let i = choose|i: int|
                        0 <= i < bs[m - 1]@.len() && (#[trigger] bs[m - 1]@[i]).key@ == kv;
                    assert(K::hash_of(bs[m - 1]@[i].key@) as int % (bs.len() as int) == m - 1);
                }
            }
            assert(buckets_map_up_to(bs2, m) =~= buckets_map_up_to(bs, m).remove(kv));
        }
    }
}

/// Map uniqueness: a key holds one binding, so binding it twice is the same
/// as binding it once to the later value, and a lookup sees that value.
/// With `put`'s contract (the view gains `insert(key, value)`) and `get`'s
/// (a lookup returns the view's value), this is what two `put` calls on one
/// key followed by a `get` observe.
pub proof fn lemma_map_uniqueness<KV, V>(m: Map<KV, V>, k: KV, v1: V, v2: V)
    ensures
        m.insert(k, v1).insert(k, v2).dom().contains(k),
        m.insert(k, v1).insert(k, v2)[k] == v2,
        m.insert(k, v1).insert(k, v2) == m.insert(k, v2),
{
    assert(m.insert(k, v1).insert(k, v2) =~= m.insert(k, v2));
}

/// Round trip: after binding a key, removing it yields the bound value and
/// a further lookup finds nothing. With the contracts of `put` (view gains
/// the binding), `remove` (view loses the key, the bound value comes back)
/// and `get` (a lookup follows the view), this is the exec-level sequence
/// `put(k, v); remove(k) == Some(v); get(k) == None`.
pub proof fn lemma_map_round_trip<KV, V>(m: Map<KV, V>, k: KV, v: V)
    ensures
        m.insert(k, v).dom().contains(k),
        m.insert(k, v)[k] == v,
        !m.insert(k, v).remove(k).dom().contains(k),
        m.insert(k, v).remove(k) == m.remove(k),
{
    assert(m.insert(k, v).remove(k) =~= m.remove(k));
}

/// A bucketed hash map: a fixed array of chains ("buckets"), each holding
/// the entries whose key hashes to that bucket's index, plus a maintained
/// entry count. Collisions are resolved by chaining; the bucket count is
/// fixed at construction and the map never rehashes, so a skewed key
/// distribution degrades lookups to linear scans and nothing more.
///
/// The view is the `Map` from key views to values.
pub struct HashMap<K: HashKey, V> {
    buckets: Vec<LinkedList<Entry<K, V>>>,
    size: usize,
}

/// The bucket count used by `HashMap::new`.
pub const DEFAULT_BUCKET_COUNT: usize = 32;

impl<K: HashKey, V> View for HashMap<K, V> {
    type V = Map<K::V, V>;

    closed spec fn view(&self) -> Map<K::V, V> {
        buckets_map_up_to(self.buckets@, self.buckets@.len() as int)
    }
}

impl<K: HashKey, V> HashMap<K, V> {
    /// The bucket an entry with key view `kv` belongs in.
    spec fn bucket_index(self, kv: K::V) -> int {
        K::hash_of(kv) as int % (self.buckets@.len() as int)
    }

    /// At least one bucket exists; every entry sits in the bucket its key
    /// hashes to; no key occurs twice in a chain; every chain's length
    /// counter is sound; and the entry counter equals the number of keys.
    pub closed spec fn well_formed(self) -> bool {
        &&& self.buckets@.len() >= 1
        &&& (forall|b: int|
            0 <= b < self.buckets@.len() ==> (#[trigger] self.buckets@[b]).well_formed())
        &&& buckets_placed(self.buckets@)
        &&& buckets_distinct(self.buckets@)
        &&& self@.dom().finite()
        &&& self.size == self@.dom().len()
    }

    /// An empty map with exactly `initial_capacity` buckets; the bucket
    /// count never changes afterwards. At least one bucket is needed, since
    /// every entry lives in the bucket its key hashes to by modulo.
    pub fn with_capacity(initial_capacity: usize) -> (map: Self)
        requires
            initial_capacity >= 1,
        ensures
            map.well_formed(),
            map@ == Map::<K::V, V>::empty(),
    {
        let mut buckets: Vec<LinkedList<Entry<K, V>>> = Vec::new();
        let mut i: usize = 0;
        while i < initial_capacity
            invariant
                buckets@.len() == i,
                forall|b: int|
                    0 <= b < i ==> ((#[trigger] buckets@[b]).well_formed() && buckets@[b]@.len()
                        == 0),
            decreases initial_capacity - i,
        {
            buckets.push(LinkedList::new());
            i = i + 1;
        }
        let map = HashMap { buckets, size: 0 };
        proof {
            Self::lemma_empty_buckets(map.buckets@, map.buckets@.len() as int);
            assert(map@.dom() =~= Set::<K::V>::empty());
        }
        map
    }

    /// An empty map with a default number of buckets.
    pub fn new() -> (map: Self)
        ensures
            map.well_formed(),
            map@ == Map::<K::V, V>::empty(),
    {
        Self::with_capacity(DEFAULT_BUCKET_COUNT)
    }

    /// Buckets without entries describe the empty map.
    proof fn lemma_empty_buckets(bs: Seq<LinkedList<Entry<K, V>>>, m: int)
        requires
            forall|b: int| 0 <= b < bs.len() ==> (#[trigger] bs[b])@.len() == 0,
            m <= bs.len(),
        ensures
            buckets_map_up_to(bs, m) == Map::<K::V, V>::empty(),
        decreases m,
    {
        if m > 0 {
            Self::lemma_empty_buckets(bs, m - 1);
            assert(buckets_map_up_to(bs, m) =~= Map::<K::V, V>::empty());
        }
    }

    /// The number of entries, in constant time.
    pub fn len(&self) -> (r: usize)
        requires
            self.well_formed(),
        ensures
            r == self@.dom().len(),
    {
        self.size
    }

    /// Binds `key` to `value`. An entry with this key (anywhere in its home
    /// bucket's chain) has its value overwritten and the entry count stays;
    /// otherwise a new entry joins that chain and the count grows by one.
    pub fn put(&mut self, key: K, value: V)
        requires
            old(self).well_formed(),
            old(self)@.dom().len() < usize::MAX,
        ensures
            final(self).well_formed(),
            final(self)@ == old(self)@.insert(key@, value),
            final(self)@.dom().len() == old(self)@.dom().len() + (if old(self)@.dom().contains(
                key@,
            ) {
                0int
            } else {
                1int
            }),
    {
        let ghost old_bs = self.buckets@;
        let ghost n = old_bs.len() as int;
        let ghost kv = key@;
        let ghost old_map = self@;
        let idx = self.key_to_index(&key);
        proof {
            lemma_lookup(old_bs, n, kv);
            lemma_chain_map_dom(old_bs[idx as int]@);
            lemma_chain_map_card(old_bs[idx as int]@);
            assert(chain_map(old_bs[idx as int]@).dom() <= old_map.dom()) by {
                assert forall|k2: K::V|
                    chain_map(old_bs[idx as int]@).dom().contains(k2) implies old_map.dom().contains(
                    k2,
                ) by {
                    let i = choose|i: int|
                        0 <= i < old_bs[idx as int]@.len() && (#[trigger] old_bs[idx as int]@[i]).key@
                            == k2;
                    assert(K::hash_of(k2) as int % n == idx as int);
                    lemma_lookup(old_bs, n, k2);
                }
            }
            vstd::set_lib::lemma_len_subset(chain_map(old_bs[idx as int]@).dom(), old_map.dom());
        }
        let bucket = &mut self.buckets[idx];
        let ghost old_chain = bucket@;
        let pred = |e: &Entry<K, V>| -> (b: bool)
            ensures
                b == (e.key@ == key@),
            { e.key.key_eq(&key) };
        let ghost gpred = pred;
        let removed = bucket.delete_match(pred);
        let ghost mid_chain = bucket@;
        proof {
            assert(old_chain == old_bs[idx as int]@);
            if removed is Some {
                let i = choose|i: int|
                    {
                        &&& 0 <= i < old_chain.len()
                        &&& removed->Some_0 == old_chain[i]
                        &&& mid_chain == #[trigger] old_chain.remove(i)
                        &&& call_ensures(gpred, (&old_chain[i],), true)
                    };
                assert(old_chain[i].key@ == kv);
                lemma_chain_distinct_remove(old_chain, i);
                lemma_chain_map_remove(old_chain, i);
                assert(!chain_has_key(mid_chain, kv)) by {
                    if chain_has_key(mid_chain, kv) {
                        let p = choose|p: int|
                            0 <= p < mid_chain.len() && (#[trigger] mid_chain[p]).key@ == kv;
                        let a: int = if p < i {
                            p
                        } else {
                            p + 1
                        };
                        assert(mid_chain[p] == old_chain[a]);
                        assert(old_chain[a].key@ == old_chain[i].key@);
                    }
                }
                assert(mid_chain.len() < old_chain.len());
                assert(forall|p: int|
                    0 <= p < mid_chain.len() ==> #[trigger] mid_chain[p] == old_chain[
                        (if p < i {
                            p
                        } else {
                            p + 1
                        })]);
            } else {
                assert(mid_chain == old_chain);
                assert(!chain_has_key(old_chain, kv)) by {
                    if chain_has_key(old_chain, kv) {
                        let p = choose|p: int|
                            0 <= p < old_chain.len() && (#[trigger] old_chain[p]).key@ == kv;
                        assert(call_ensures(gpred, (&old_chain[p],), false));
                    }
                }
                assert(!old_map.dom().contains(kv));
                assert(forall|p: int|
                    0 <= p < mid_chain.len() ==> #[trigger] mid_chain[p] == old_chain[p]);
            }
            assert(chain_distinct(mid_chain));
            assert(!chain_has_key(mid_chain, kv));
        }
        let entry = Entry { key, value };
        let ghost e = entry;
        bucket.add(entry);
        if removed.is_none() {
            self.size = self.size + 1;
        }
        proof {
            let bs2 = self.buckets@;
            let c2 = bs2[idx as int];
            assert(bs2 == old_bs.update(idx as int, c2));
            assert(c2@ == mid_chain.push(e));
            lemma_chain_map_push(mid_chain, e);
            assert(chain_map(c2@) == chain_map(old_bs[idx as int]@).insert(kv, value)) by {
                if removed is Some {
                    assert(chain_map(mid_chain) == chain_map(old_chain).remove(kv));
                    assert(chain_map(old_chain).remove(kv).insert(kv, value) =~= chain_map(
                        old_chain,
                    ).insert(kv, value));
                }
            }
            lemma_update_insert(old_bs, idx as int, c2, kv, value, n);
            assert(self@ == old_map.insert(kv, value));
            // the new chain is duplicate-free and each of its entries,
            // like those of every other bucket, sits in its home bucket
            assert(chain_distinct(c2@)) by {
                assert forall|p: int, q: int|
                    0 <= p < q < c2@.len() implies (#[trigger] c2@[p]).key@ != (
                #[trigger] c2@[q]).key@ by {
                    if q == c2@.len() - 1 {
                        assert(c2@[q] == e);
                        if c2@[p].key@ == kv {
                            assert(chain_has_key(mid_chain, kv));
                        }
                    } else {
                        assert(c2@[p] == mid_chain[p]);
                        assert(c2@[q] == mid_chain[q]);
                    }
                }
            }
            assert(buckets_placed(bs2)) by {
                assert forall|b: int, i: int|
                    0 <= b < bs2.len() && 0 <= i < bs2[b]@.len() implies K::hash_of(
                    (#[trigger] bs2[b]@[i]).key@,
                ) as int % (bs2.len() as int) == b by {
                    if b == idx as int {
                        if i == c2@.len() - 1 {
                            assert(bs2[b]@[i] == e);
                        } else {
                            assert(bs2[b]@[i] == mid_chain[i]);
                            assert(chain_has_key(old_chain, mid_chain[i].key@)) by {
                                let a: int = choose|a: int|
                                    0 <= a < old_chain.len() && mid_chain[i] == old_chain[a];
                                assert((#[trigger] old_chain[a]).key@ == mid_chain[i].key@);
                            }
                            let a = choose|a: int|
                                0 <= a < old_chain.len() && (#[trigger] old_chain[a]).key@
                                    == mid_chain[i].key@;
                            assert(K::hash_of(old_chain[a].key@) as int % n == idx as int);
                        }
                    } else {
                        assert(bs2[b]@[i] == old_bs[b]@[i]);
                    }
                }
            }
            assert(buckets_distinct(bs2)) by {
                assert forall|b: int| 0 <= b < bs2.len() implies chain_distinct(
                    (#[trigger] bs2[b])@,
                ) by {
                    if b != idx as int {
                        assert(bs2[b] == old_bs[b]);
                    }
                }
            }
            // entry count: inserting an absent key grows the domain by one,
            // overwriting a present one leaves it unchanged
            if old_map.dom().contains(kv) {
                assert(removed is Some) by {
                    if removed is None {
                        assert(!old_map.dom().contains(kv));
                    }
                }
                assert(self@.dom() =~= old_map.dom());
            } else {
                assert(removed is None) by {
                    if removed is Some {
                        let i = choose|i: int|
                            0 <= i < old_chain.len() && (#[trigger] old_chain[i]).key@ == kv
                                && mid_chain == old_chain.remove(i);
                        assert(chain_has_key(old_chain, kv));
                    }
                }
                assert(self@.dom() =~= old_map.dom().insert(kv));
            }
        }
    }

    /// The value bound to `key`, or `None` when the key is absent.
    pub fn get(&self, key: &K) -> (result: Option<&V>)
        requires
            self.well_formed(),
        ensures
            self@.dom().contains(key@) ==> (result matches Some(v) && *v == self@[key@]),
            !self@.dom().contains(key@) ==> result is None,
    {
        let idx = self.key_to_index(key);
        let bucket = &self.buckets[idx];
        let pred = |e: &Entry<K, V>| -> (b: bool)
            ensures
                b == (e.key@ == key@),
            { e.key.key_eq(key) };
        let ghost gpred = pred;
        let found = bucket.find_match(&pred);
        proof {
            let bs = self.buckets@;
            let n = bs.len() as int;
            let chain = bs[idx as int]@;
            lemma_lookup(bs, n, key@);
            lemma_chain_map_dom(chain);
            lemma_chain_map_value(chain);
            match found {
                Some(v) => {
                    let i = choose|i: int|
                        {
                            &&& 0 <= i < chain.len()
                            &&& *v == chain[i]
                            &&& #[trigger] call_ensures(gpred, (&chain[i],), true)
                            &&& forall|j: int|
                                0 <= j < i ==> call_ensures(gpred, (&chain[j],), false)
                        };
                    assert(chain[i].key@ == key@);
                    assert(chain_has_key(chain, key@));
                    assert(chain_map(chain)[chain[i].key@] == chain[i].value);
                },
                None => {
                    assert(!chain_has_key(chain, key@)) by {
                        if chain_has_key(chain, key@) {
                            let p = choose|p: int|
                                0 <= p < chain.len() && (#[trigger] chain[p]).key@ == key@;
                            assert(call_ensures(gpred, (&chain[p],), false));
                        }
                    }
                },
            }
        }
        match found {
            Some(entry) => Some(&entry.value),
            None => None,
        }
    }

    /// Unbinds `key` and returns the value it was bound to, or `None` (with
    /// the map unchanged) when the key is absent; the entry count shrinks by
    /// one exactly on success.
    pub fn remove(&mut self, key: &K) -> (result: Option<V>)
        requires
            old(self).well_formed(),
        ensures
            final(self).well_formed(),
            final(self)@ == old(self)@.remove(key@),
            old(self)@.dom().contains(key@) ==> (result matches Some(v) && v == old(self)@[key@]
                && final(self)@.dom().len() + 1 == old(self)@.dom().len()),
            !old(self)@.dom().contains(key@) ==> result is None && final(self)@ == old(self)@,
    {
        let ghost old_bs = self.buckets@;
        let ghost n = old_bs.len() as int;
        let ghost kv = key@;
        let ghost old_map = self@;
        let idx = self.key_to_index(key);
        proof {
            lemma_lookup(old_bs, n, kv);
        }
        let bucket = &mut self.buckets[idx];
        let ghost old_chain = bucket@;
        let pred = |e: &Entry<K, V>| -> (b: bool)
            ensures
                b == (e.key@ == key@),
            { e.key.key_eq(key) };
        let ghost gpred = pred;
        let removed = bucket.delete_match(pred);
        let ghost mid_chain = bucket@;
        let result = match removed {
            Some(entry) => {
                self.size = self.size - 1;
                Some(entry.value)
            },
            None => None,
        };
        proof {
            let bs2 = self.buckets@;
            let c2 = bs2[idx as int];
            assert(old_chain == old_bs[idx as int]@);
            assert(bs2 =~= old_bs.update(idx as int, c2));
            lemma_chain_map_value(old_chain);
            match &result {
                Some(v) => {
                    let i = choose|i: int|
                        {
                            &&& 0 <= i < old_chain.len()
                            &&& *v == old_chain[i].value
                            &&& mid_chain == #[trigger] old_chain.remove(i)
                            &&& call_ensures(gpred, (&old_chain[i],), true)
                        };
                    assert(old_chain[i].key@ == kv);
                    assert(chain_has_key(old_chain, kv));
                    assert(old_map.dom().contains(kv));
                    assert(*v == old_map[kv]);
                    lemma_chain_distinct_remove(old_chain, i);
                    lemma_chain_map_remove(old_chain, i);
                    lemma_update_remove(old_bs, idx as int, c2, kv, n);
                    assert(self@ == old_map.remove(kv));
                    assert(buckets_placed(bs2)) by {
                        assert forall|b: int, p: int|
                            0 <= b < bs2.len() && 0 <= p < bs2[b]@.len() implies K::hash_of(
                            (#[trigger] bs2[b]@[p]).key@,
                        ) as int % (bs2.len() as int) == b by {
                            if b == idx as int {
                                let a: int = if p < i {
                                    p
                                } else {
                                    p + 1
                                };
                                assert(bs2[b]@[p] == old_chain[a]);
                                assert(bs2[b]@[p] == old_bs[b]@[a]);
                            } else {
                                assert(bs2[b]@[p] == old_bs[b]@[p]);
                            }
                        }
                    }
                    assert(buckets_distinct(bs2)) by {
                        assert forall|b: int| 0 <= b < bs2.len() implies chain_distinct(
                            (#[trigger] bs2[b])@,
                        ) by {
                            if b != idx as int {
                                assert(bs2[b] == old_bs[b]);
                            }
                        }
                    }
                    assert(self@.dom() =~= old_map.dom().remove(kv));
                },
                None => {
                    assert(mid_chain == old_chain);
                    assert(!chain_has_key(old_chain, kv)) by {
                        if chain_has_key(old_chain, kv) {
                            let p = choose|p: int|
                                0 <= p < old_chain.len() && (#[trigger] old_chain[p]).key@ == kv;
                            assert(call_ensures(gpred, (&old_chain[p],), false));
                        }
                    }
                    assert(!old_map.dom().contains(kv));
                    assert(bs2 =~= old_bs);
                    assert(self@ == old_map);
                    assert(self@ =~= old_map.remove(kv));
                },
            }
        }
        result
    }

    fn keys_contains(keys: &Vec<&K>, key: &K) -> (r: bool)
        ensures
            r == exists|i: int| 0 <= i < keys@.len() && (#[trigger] keys@[i])@ == key@,
    {
        let mut i: usize = 0;
        while i < keys.len()
            invariant
                i <= keys@.len(),
                forall|j: int| 0 <= j < i ==> (#[trigger] keys@[j])@ != key@,
            decreases keys@.len() - i,
        {
            if keys[i].key_eq(key) {
                return true;
            }
            i = i + 1;
        }
        false
    }

    /// All keys present in the map, each exactly once, in unspecified
    /// (bucket-traversal) order. The duplicate check along the way is
    /// defensive: the bucket invariants already keep keys unique.
    pub fn keys(&self) -> (result: Vec<&K>)
        requires
            self.well_formed(),
        ensures
            forall|i: int| 0 <= i < result@.len() ==> self@.dom().contains((#[trigger] result@[i])@),
            forall|i: int, j: int| 0 <= i < j < result@.len() ==> (#[trigger] result@[i])@ != (
            #[trigger] result@[j])@,
            forall|kv: K::V| #[trigger]
                self@.dom().contains(kv) ==> exists|i: int|
                    0 <= i < result@.len() && (#[trigger] result@[i])@ == kv,
            result@.len() == self@.dom().len(),
    {
        let ghost n = self.buckets@.len() as int;
        let mut result: Vec<&K> = Vec::new();
        let mut b: usize = 0;
        while b < self.buckets.len()
            invariant
                self.well_formed(),
                b <= self.buckets@.len(),
                n == self.buckets@.len() as int,
                forall|i: int|
                    0 <= i < result@.len() ==> self@.dom().contains((#[trigger] result@[i])@),
                forall|i: int, j: int|
                    0 <= i < j < result@.len() ==> (#[trigger] result@[i])@ != (
                #[trigger] result@[j])@,
                forall|kv: K::V| #[trigger]
                    self@.dom().contains(kv) && K::hash_of(kv) as int % n < b ==> exists|i: int|
                        0 <= i < result@.len() && (#[trigger] result@[i])@ == kv,
            decreases n - b,
        {
            let bucket = &self.buckets[b];
            let ghost chain = bucket@;
            let chain_len = bucket.len();
            let mut it = bucket.iter();
            let mut p: usize = 0;
            while p < chain_len
                invariant
                    self.well_formed(),
                    b < self.buckets@.len(),
                    n == self.buckets@.len() as int,
                    chain == self.buckets@[b as int]@,
                    chain_len == chain.len(),
                    p <= chain.len(),
                    it.remaining() == chain.subrange(p as int, chain.len() as int),
                    forall|i: int|
                        0 <= i < result@.len() ==> self@.dom().contains((#[trigger] result@[i])@),
                    forall|i: int, j: int|
                        0 <= i < j < result@.len() ==> (#[trigger] result@[i])@ != (
                    #[trigger] result@[j])@,
                    forall|kv: K::V| #[trigger]
                        self@.dom().contains(kv) && K::hash_of(kv) as int % n < b ==> exists|
                        i: int,
                    |
                        0 <= i < result@.len() && (#[trigger] result@[i])@ == kv,
                    forall|q: int|
                        0 <= q < p ==> exists|i: int|
                            0 <= i < result@.len() && (#[trigger] result@[i])@ == (
                            #[trigger] chain[q]).key@,
                decreases chain.len() - p,
            {
                let ghost before_remaining = it.remaining();
                let entry = it.next().unwrap();
                proof {
                    assert(before_remaining[0] == chain[p as int]);
                    assert(it.remaining() =~= chain.subrange(p as int + 1, chain.len() as int));
                    assert(K::hash_of(chain[p as int].key@) as int % n == b as int);
                    lemma_lookup(self.buckets@, n, entry.key@);
                    assert(chain_has_key(chain, entry.key@)) by {
                        assert((#[trigger] chain[p as int]).key@ == entry.key@);
                    }
                }
                let dup = Self::keys_contains(&result, &entry.key);
                let ghost rbefore = result@;
                if !dup {
                    result.push(&entry.key);
                }
                proof {
                    if !dup {
                        assert(result@[result@.len() - 1]@ == entry.key@);
                        assert forall|i: int, j: int|
                            0 <= i < j < result@.len() implies (#[trigger] result@[i])@ != (
                        #[trigger] result@[j])@ by {
                            if j == result@.len() - 1 {
                                assert((#[trigger] rbefore[i])@ != entry.key@);
                            } else {
                                assert(result@[i] == rbefore[i]);
                                assert(result@[j] == rbefore[j]);
                            }
                        }
                    }
                    assert(exists|i: int|
                        0 <= i < result@.len() && (#[trigger] result@[i])@ == entry.key@) by {
                        if dup {
                            let i = choose|i: int|
                                0 <= i < rbefore.len() && (#[trigger] rbefore[i])@ == entry.key@;
                            assert(result@[i]@ == entry.key@);
                        } else {
                            assert(result@[result@.len() - 1]@ == entry.key@);
                        }
                    }
                    assert forall|q: int| 0 <= q < p + 1 implies exists|i: int|
                        0 <= i < result@.len() && (#[trigger] result@[i])@ == (
                        #[trigger] chain[q]).key@ by {
                        if q < p {
                            let i = choose|i: int|
                                0 <= i < rbefore.len() && (#[trigger] rbefore[i])@ == chain[q].key@;
                            assert(result@[i]@ == chain[q].key@);
                        } else {
                            assert(chain[q].key@ == entry.key@);
                        }
                    }
                    assert forall|kv: K::V| #[trigger]
                        self@.dom().contains(kv) && K::hash_of(kv) as int % n < b implies exists|
                        i: int,
                    |
                        0 <= i < result@.len() && (#[trigger] result@[i])@ == kv by {
                        let i = choose|i: int|
                            0 <= i < rbefore.len() && (#[trigger] rbefore[i])@ == kv;
                        assert(result@[i]@ == kv);
                    }
                }
                p = p + 1;
            }
            proof {
                assert forall|kv: K::V| #[trigger]
                    self@.dom().contains(kv) && K::hash_of(kv) as int % n < b + 1 implies exists|
                    i: int,
                |
                    0 <= i < result@.len() && (#[trigger] result@[i])@ == kv by {
                    if K::hash_of(kv) as int % n == b as int {
                        lemma_lookup(self.buckets@, n, kv);
                        let q = choose|q: int|
                            0 <= q < chain.len() && (#[trigger] chain[q]).key@ == kv;
                    }
                }
            }
            b = b + 1;
        }
        proof {
            let views = result@.map_values(|k: &K| k@);
            assert(views.no_duplicates());
            assert(views.to_set() =~= self@.dom()) by {
                assert forall|kv: K::V| views.to_set().contains(kv) implies self@.dom().contains(
                    kv,
                ) by {
                    let i = choose|i: int| 0 <= i < views.len() && views[i] == kv;
                    assert(result@[i]@ == kv);
                }
                assert forall|kv: K::V| self@.dom().contains(kv) implies views.to_set().contains(
                    kv,
                ) by {
                    let i = choose|i: int|
                        0 <= i < result@.len() && (#[trigger] result@[i])@ == kv;
                    assert(views[i] == kv);
                }
            }
            views.unique_seq_to_set();
        }
        result
    }

    fn key_to_index(&self, key: &K) -> (index: usize)
        requires
            self.buckets@.len() >= 1,
        ensures
            index as int == self.bucket_index(key@),
            index < self.buckets@.len(),
    {
        let h = key.hash_code();
        let n = self.buckets.len() as u64;
        (h % n) as usize
    }
}

} // verus!
