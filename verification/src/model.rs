use vstd::arithmetic::power2::pow2;
use vstd::prelude::*;

verus! {

/// A load factor as the ratio `num / den`. A zero denominator stands for a
/// threshold that no table ever reaches.
#[derive(Clone, Copy, Debug, PartialEq, Eq, Structural)]
pub struct LoadFactor {
    pub num: u64,
    pub den: u64,
}

impl LoadFactor {
    /// The load factor 1: as many entries as buckets.
    pub open spec fn one() -> Self {
        LoadFactor { num: 1, den: 1 }
    }

    /// Whether `entries / buckets` is at least this load factor.
    pub open spec fn reached_by(self, entries: nat, buckets: nat) -> bool {
        self.den != 0 && entries * self.den >= self.num * buckets
    }

    /// Tells whether `entries / buckets` is at least this load factor.
    pub fn is_reached_by(&self, entries: usize, buckets: usize) -> (b: bool)
        ensures
            b == self.reached_by(entries as nat, buckets as nat),
    {
        if self.den == 0 {
            return false;
        }
        assert(entries * self.den <= 0xffff_ffff_ffff_ffff * 0xffff_ffff_ffff_ffff) by (nonlinear_arith)
            requires
                entries <= 0xffff_ffff_ffff_ffff,
                self.den <= 0xffff_ffff_ffff_ffff,
        ;
        assert(self.num * buckets <= 0xffff_ffff_ffff_ffff * 0xffff_ffff_ffff_ffff) by (nonlinear_arith)
            requires
                buckets <= 0xffff_ffff_ffff_ffff,
                self.num <= 0xffff_ffff_ffff_ffff,
        ;
        let filled: u128 = (entries as u128) * (self.den as u128);
        let limit: u128 = (self.num as u128) * (buckets as u128);
        filled >= limit
    }
}

/// What a hash table is to its users: the entries it maps, the number of
/// buckets it spreads them over, and the load factor at which it grows.
#[verifier::reject_recursive_types(K)]
pub struct TableModel<K, V> {
    pub entries: Map<K, V>,
    pub buckets: nat,
    pub load_factor: LoadFactor,
}

impl<K, V> TableModel<K, V> {
    /// The table with `buckets` buckets and no entry.
    pub open spec fn empty(buckets: nat, load_factor: LoadFactor) -> Self {
        TableModel { entries: Map::empty(), buckets, load_factor }
    }

    /// The model describes a table: finitely many entries, at least one bucket.
    pub open spec fn valid(self) -> bool {
        &&& self.entries.dom().finite()
        &&& self.buckets >= 1
    }

    /// The number of entries.
    pub open spec fn len(self) -> nat {
        self.entries.len()
    }

    /// The value stored under `key`, if there is one.
    pub open spec fn get(self, key: K) -> Option<V> {
        if self.entries.contains_key(key) {
            Some(self.entries[key])
        } else {
            None
        }
    }

    /// Whether the entries per bucket have reached the load factor.
    pub open spec fn at_threshold(self) -> bool {
        self.load_factor.reached_by(self.len(), self.buckets)
    }

    /// The table with `value` stored under `key`, whatever was there before,
    /// and as many buckets as before.
    pub open spec fn store(self, key: K, value: V) -> Self {
        TableModel { entries: self.entries.insert(key, value), ..self }
    }

    /// The table with twice the buckets and the same entries.
    pub open spec fn grow(self) -> Self {
        TableModel { buckets: 2 * self.buckets, ..self }
    }

    /// The table after `put(key, value)`: the value is stored, and if that
    /// added an entry and brought the table to its threshold, the buckets
    /// are doubled, once.
    pub open spec fn put(self, key: K, value: V) -> Self {
        let stored = self.store(key, value);
        if !self.entries.contains_key(key) && stored.at_threshold() {
            stored.grow()
        } else {
            stored
        }
    }

    /// The table after the puts of `ops`, made in order.
    pub open spec fn put_all(self, ops: Seq<(K, V)>) -> Self
        decreases ops.len(),
    {
        if ops.len() == 0 {
            self
        } else {
            self.put_all(ops.drop_last()).put(ops.last().0, ops.last().1)
        }
    }

    /// The load factor allows more than half an entry in the buckets there
    /// are: `load_factor * buckets > 1/2`. Then one entry in twice the
    /// buckets is below the load factor.
    pub open spec fn admits_an_entry(self) -> bool {
        self.load_factor.den == 0 || 2 * (self.load_factor.num * self.buckets)
            > self.load_factor.den
    }
}

/// The value that the last put under `key` in `ops` stored, if `ops` has one.
pub open spec fn last_put<K, V>(ops: Seq<(K, V)>, key: K) -> Option<V>
    decreases ops.len(),
{
    if ops.len() == 0 {
        None
    } else if ops.last().0 == key {
        Some(ops.last().1)
    } else {
        last_put(ops.drop_last(), key)
    }
}

/// The keys that `ops` puts under.
pub open spec fn keys_put<K, V>(ops: Seq<(K, V)>) -> Set<K> {
    Set::new(|k: K| exists|i: int| 0 <= i < ops.len() && (#[trigger] ops[i]).0 == k)
}

/// The puts of `ops` have a last put under `key` exactly when `key` is one
/// of the keys they put under.
pub proof fn lemma_last_put_of_keys_put<K, V>(ops: Seq<(K, V)>, key: K)
    ensures
        last_put(ops, key).is_some() <==> keys_put(ops).contains(key),
    decreases ops.len(),
{
    if ops.len() > 0 {
        let front = ops.drop_last();
        lemma_last_put_of_keys_put(front, key);
        if ops.last().0 == key {
            assert(ops[ops.len() - 1].0 == key);
        } else if keys_put(ops).contains(key) {
            let i = choose|i: int| 0 <= i < ops.len() && (#[trigger] ops[i]).0 == key;
            assert(front[i].0 == key);
        } else if keys_put(front).contains(key) {
            let i = choose|i: int| 0 <= i < front.len() && (#[trigger] front[i]).0 == key;
            assert(ops[i].0 == key);
        }
    }
}

/// A put keeps a table a table, stores the value under the key, leaves
/// every other key as it was, and keeps the buckets or doubles them.
pub proof fn lemma_put<K, V>(t: TableModel<K, V>, key: K, value: V)
    requires
        t.valid(),
    ensures
        t.put(key, value).valid(),
        t.put(key, value).get(key) == Some(value),
        forall|other: K| other != key ==> t.put(key, value).get(other) == t.get(other),
        t.put(key, value).len() == (if t.entries.contains_key(key) {
            t.len()
        } else {
            t.len() + 1
        }),
        t.put(key, value).buckets == t.buckets || t.put(key, value).buckets == 2 * t.buckets,
        t.put(key, value).load_factor == t.load_factor,
{
}

/// Putting a second value under a key replaces the first: the key then
/// gives the second value, and the table has as many entries and buckets
/// as after the first put.
pub proof fn lemma_put_twice<K, V>(t: TableModel<K, V>, key: K, first: V, second: V)
    requires
        t.valid(),
    ensures
        t.put(key, first).put(key, second).get(key) == Some(second),
        t.put(key, first).put(key, second).len() == t.put(key, first).len(),
        t.put(key, first).put(key, second).buckets == t.put(key, first).buckets,
{
    lemma_put(t, key, first);
    lemma_put(t.put(key, first), key, second);
}

/// After a run of puts a key gives the value of the last put under it; a
/// key that the run never put under gives what it gave before, so nothing
/// when the run began with an empty table.
pub proof fn lemma_get_after_puts<K, V>(t: TableModel<K, V>, ops: Seq<(K, V)>, key: K)
    requires
        t.valid(),
    ensures
        t.put_all(ops).valid(),
        t.put_all(ops).get(key) == (match last_put(ops, key) {
            Some(v) => Some(v),
            None => t.get(key),
        }),
        t.entries == Map::<K, V>::empty() && !keys_put(ops).contains(key) ==> t.put_all(ops).get(
            key,
        ).is_none(),
    decreases ops.len(),
{
    lemma_last_put_of_keys_put(ops, key);
    if ops.len() > 0 {
        lemma_get_after_puts(t, ops.drop_last(), key);
        lemma_put(t.put_all(ops.drop_last()), ops.last().0, ops.last().1);
    }
}

/// A run of puts leaves the keys that were there and the keys it put under.
pub proof fn lemma_keys_after_puts<K, V>(t: TableModel<K, V>, ops: Seq<(K, V)>)
    requires
        t.valid(),
    ensures
        t.put_all(ops).valid(),
        t.put_all(ops).entries.dom() == t.entries.dom().union(keys_put(ops)),
        t.put_all(ops).load_factor == t.load_factor,
        t.put_all(ops).buckets >= t.buckets,
    decreases ops.len(),
{
    if ops.len() == 0 {
        assert(t.entries.dom().union(keys_put(ops)) =~= t.entries.dom());
    } else {
        let front = ops.drop_last();
        lemma_keys_after_puts(t, front);
        lemma_put(t.put_all(front), ops.last().0, ops.last().1);
        assert forall|k: K| keys_put(ops).contains(k) <==> (keys_put(front).contains(k) || k
            == ops.last().0) by {
            if keys_put(ops).contains(k) {
                let i = choose|i: int| 0 <= i < ops.len() && (#[trigger] ops[i]).0 == k;
                if i < front.len() {
                    assert(front[i].0 == k);
                }
            }
            if keys_put(front).contains(k) {
                let i = choose|i: int| 0 <= i < front.len() && (#[trigger] front[i]).0 == k;
                assert(ops[i].0 == k);
            }
            if k == ops.last().0 {
                assert(ops[ops.len() - 1].0 == k);
            }
        }
        assert(t.put_all(ops).entries.dom() =~= t.entries.dom().union(keys_put(ops)));
    }
}

/// A run of puts doubles the buckets some number of times and never takes
/// any away.
pub proof fn lemma_buckets_after_puts<K, V>(t: TableModel<K, V>, ops: Seq<(K, V)>) -> (doublings:
    nat)
    requires
        t.valid(),
    ensures
        doublings <= ops.len(),
        t.put_all(ops).buckets == t.buckets * pow2(doublings),
    decreases ops.len(),
{
    broadcast use vstd::arithmetic::power2::lemma_pow2_unfold;

    if ops.len() == 0 {
        vstd::arithmetic::power2::lemma2_to64();
        0
    } else {
        let front = ops.drop_last();
        let before = lemma_buckets_after_puts(t, front);
        if t.put_all(ops).buckets == t.put_all(front).buckets {
            before
        } else {
            assert(t.buckets * (2 * pow2(before)) == 2 * (t.buckets * pow2(before)))
                by (nonlinear_arith);
            assert(pow2(before + 1) == 2 * pow2(before));
            before + 1
        }
    }
}

/// A table that began empty holds, after any run of puts, exactly as many
/// entries as the run has distinct keys, however often it put under each.
pub proof fn lemma_count_after_puts<K, V>(buckets: nat, load_factor: LoadFactor, ops: Seq<(K, V)>)
    requires
        buckets >= 1,
    ensures
        keys_put(ops).finite(),
        TableModel::<K, V>::empty(buckets, load_factor).put_all(ops).len() == keys_put(ops).len(),
{
    let t = TableModel::<K, V>::empty(buckets, load_factor);
    lemma_keys_after_puts(t, ops);
    assert(t.entries.dom().union(keys_put(ops)) =~= keys_put(ops));
}

/// A put that adds an entry and brings the table to its threshold doubles
/// the buckets and loses nothing: the new key gives its value and every
/// other key gives what it gave before.
pub proof fn lemma_growth_keeps_entries<K, V>(t: TableModel<K, V>, key: K, value: V)
    requires
        t.valid(),
        !t.entries.contains_key(key),
        t.store(key, value).at_threshold(),
    ensures
        t.put(key, value).buckets == 2 * t.buckets,
        t.put(key, value).entries == t.entries.insert(key, value),
        t.put(key, value).len() == t.len() + 1,
        t.put(key, value).get(key) == Some(value),
        forall|other: K| other != key ==> t.put(key, value).get(other) == t.get(other),
{
    lemma_put(t, key, value);
}

/// When a put leaves the table below its threshold: under a key that was
/// there, when the table was below it before; under a new key, when one
/// more entry stays below the load factor in twice the buckets.
pub proof fn lemma_load_after_put<K, V>(t: TableModel<K, V>, key: K, value: V)
    requires
        t.valid(),
    ensures
        !t.put(key, value).at_threshold() <==> (if t.entries.contains_key(key) {
            !t.at_threshold()
        } else {
            !t.load_factor.reached_by(t.len() + 1, 2 * t.buckets)
        }),
{
    lemma_put(t, key, value);
    let num = t.load_factor.num as int;
    let den = t.load_factor.den as int;
    let buckets = t.buckets as int;
    if den != 0 && !t.entries.contains_key(key) {
        assert(num * (2 * buckets) == 2 * (num * buckets)) by (nonlinear_arith);
        assert(num * buckets >= 0) by (nonlinear_arith)
            requires
                num >= 0,
                buckets >= 0,
        ;
    }
}

/// Where the load factor allows more than half an entry in the buckets
/// there are, a put keeps the table below its threshold: afterwards
/// `entries / buckets < load_factor`. Where it allows no more than half an
/// entry, the first put under a new key leaves one entry in twice the
/// buckets, which has reached the load factor.
pub proof fn lemma_put_keeps_load<K, V>(t: TableModel<K, V>, key: K, value: V)
    requires
        t.valid(),
        t.admits_an_entry(),
        !t.at_threshold(),
    ensures
        t.put(key, value).admits_an_entry(),
        !t.put(key, value).at_threshold(),
{
    lemma_put(t, key, value);
    let num = t.load_factor.num as int;
    let den = t.load_factor.den as int;
    let len = t.len() as int;
    let buckets = t.buckets as int;
    if den != 0 {
        assert(num * (2 * buckets) == 2 * (num * buckets)) by (nonlinear_arith);
        assert(2 * (num * (2 * buckets)) >= 2 * (num * buckets)) by (nonlinear_arith)
            requires
                num >= 0,
                buckets >= 0,
        ;
        if !t.entries.contains_key(key) && t.store(key, value).at_threshold() {
            assert((len + 1) * den == len * den + den) by (nonlinear_arith);
            if len >= 1 {
                assert(len * den >= den) by (nonlinear_arith)
                    requires
                        len >= 1,
                        den >= 0,
                ;
            } else {
                assert(len * den == 0) by (nonlinear_arith)
                    requires
                        len == 0,
                ;
            }
        }
    }
}

/// A table that begins empty, with a load factor that allows more than
/// half an entry in its buckets, is below its threshold after every run of
/// puts.
pub proof fn lemma_load_after_puts<K, V>(buckets: nat, load_factor: LoadFactor, ops: Seq<(K, V)>)
    requires
        buckets >= 1,
        TableModel::<K, V>::empty(buckets, load_factor).admits_an_entry(),
    ensures
        TableModel::<K, V>::empty(buckets, load_factor).put_all(ops).valid(),
        TableModel::<K, V>::empty(buckets, load_factor).put_all(ops).admits_an_entry(),
        !TableModel::<K, V>::empty(buckets, load_factor).put_all(ops).at_threshold(),
    decreases ops.len(),
{
    let t = TableModel::<K, V>::empty(buckets, load_factor);
    if ops.len() == 0 {
        assert(t.len() == 0);
        if load_factor.den != 0 {
            assert(0 * load_factor.den == 0) by (nonlinear_arith);
        }
    } else {
        lemma_load_after_puts::<K, V>(buckets, load_factor, ops.drop_last());
        lemma_put_keeps_load(t.put_all(ops.drop_last()), ops.last().0, ops.last().1);
    }
}

/// Where the load factor allows no more than half an entry in the buckets
/// of an empty table, the first put leaves the table at its threshold.
pub proof fn lemma_first_put_reaches_load<K, V>(
    buckets: nat,
    load_factor: LoadFactor,
    key: K,
    value: V,
)
    requires
        buckets >= 1,
        load_factor.den != 0,
        !TableModel::<K, V>::empty(buckets, load_factor).admits_an_entry(),
    ensures
        TableModel::<K, V>::empty(buckets, load_factor).put(key, value).at_threshold(),
{
    let t = TableModel::<K, V>::empty(buckets, load_factor);
    lemma_put(t, key, value);
    let num = load_factor.num as int;
    let den = load_factor.den as int;
    let b = buckets as int;
    assert(t.store(key, value).len() == 1);
    assert(num * (2 * b) == 2 * (num * b)) by (nonlinear_arith);
    assert(num * b <= 2 * (num * b)) by (nonlinear_arith)
        requires
            num >= 0,
            b >= 0,
    ;
}

} // verus!
