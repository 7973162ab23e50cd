use crate::key::HashKey;
use crate::model::LoadFactor;
use crate::model::TableModel;
use crate::text::DebugText;
use std::fmt::Debug;
use vstd::prelude::*;
use vstd::string::StringExecFns;

verus! {

/// Internal struct for storing key-value pairs
/// along with their hash so that we don't
/// need to recompute the hashes for all our
/// keys while expanding the hashtable
#[derive(Debug, Clone)]
struct HashNode<K, V> {
    key: K,
    value: V,
    hash: u64,
}

/// Public facing HashTable struct containing
/// a vector of node buckets while keeping
/// track of a target max load factor as
/// well as the amount of entries
#[derive(Debug)]
pub struct HashTable<K: HashKey + Clone + Debug, V: Clone + Debug> {
    buckets: Vec<Vec<HashNode<K, V>>>,
    load_factor: LoadFactor,
    pub size: usize,
}

/// The bucket that a key with this digest belongs to, among `n` buckets.
pub open spec fn slot_of(digest: u64, n: nat) -> int {
    digest as int % n as int
}

/// Whether some node of the chain holds `key`.
spec fn chain_has<K, V>(chain: Seq<HashNode<K, V>>, key: K) -> bool {
    exists|j: int| 0 <= j < chain.len() && (#[trigger] chain[j]).key == key
}

/// A position in the chain at which `key` stands, if the chain holds `key`.
spec fn chain_pos<K, V>(chain: Seq<HashNode<K, V>>, key: K) -> int {
    choose|j: int| 0 <= j < chain.len() && (#[trigger] chain[j]).key == key
}

/// The chain may stand at bucket `i` of `n`: each node remembers its key's
/// digest, the digest leads to bucket `i`, and no key stands twice.
spec fn chain_ok<K: HashKey, V>(chain: Seq<HashNode<K, V>>, i: int, n: nat) -> bool {
    &&& forall|j: int|
        0 <= j < chain.len() ==> (#[trigger] chain[j]).hash == chain[j].key.digest() && slot_of(
            chain[j].hash,
            n,
        ) == i
    &&& forall|a: int, b: int|
        0 <= a < b < chain.len() ==> (#[trigger] chain[a]).key != (#[trigger] chain[b]).key
}

/// Every chain may stand where it stands, and there is at least one.
spec fn chains_ok<K: HashKey, V>(chains: Seq<Seq<HashNode<K, V>>>) -> bool {
    &&& chains.len() >= 1
    &&& forall|i: int| 0 <= i < chains.len() ==> chain_ok(#[trigger] chains[i], i, chains.len())
}

/// The chain in which `key` is looked for.
spec fn home<K: HashKey, V>(chains: Seq<Seq<HashNode<K, V>>>, key: K) -> Seq<
    HashNode<K, V>,
> {
    chains[slot_of(key.digest(), chains.len())]
}

/// The value of the node that holds `key` in the key's own bucket.
spec fn value_in<K: HashKey, V>(chains: Seq<Seq<HashNode<K, V>>>, key: K) -> V {
    home(chains, key)[chain_pos(home(chains, key), key)].value
}

/// The entries that the chains hold: the keys found in their own buckets,
/// each with the value of the node that holds it.
spec fn entries_of<K: HashKey, V>(chains: Seq<Seq<HashNode<K, V>>>) -> Map<K, V> {
    Map::new(|k: K| chain_has(home(chains, k), k), |k: K| value_in(chains, k))
}

/// The sum of the chains' lengths.
spec fn total_len<K, V>(chains: Seq<Seq<HashNode<K, V>>>) -> nat
    decreases chains.len(),
{
    if chains.len() == 0 {
        0
    } else {
        total_len(chains.drop_last()) + chains.last().len()
    }
}

/// In a chain without repeated keys, a key is found where it stands.
proof fn lemma_chain_pos<K: HashKey, V>(chain: Seq<HashNode<K, V>>, i: int, n: nat, j: int)
    requires
        chain_ok(chain, i, n),
        0 <= j < chain.len(),
    ensures
        chain_has(chain, chain[j].key),
        chain_pos(chain, chain[j].key) == j,
{
    let p = chain_pos(chain, chain[j].key);
    assert(chain[p].key == chain[j].key);
}

/// Replacing one chain changes the sum of lengths by the difference.
proof fn lemma_total_len_update<K, V>(
    chains: Seq<Seq<HashNode<K, V>>>,
    i: int,
    chain: Seq<HashNode<K, V>>,
)
    requires
        0 <= i < chains.len(),
    ensures
        total_len(chains.update(i, chain)) + chains[i].len() == total_len(chains) + chain.len(),
    decreases chains.len(),
{
    let updated = chains.update(i, chain);
    if i == chains.len() - 1 {
        assert(updated.drop_last() =~= chains.drop_last());
    } else {
        assert(updated.drop_last() =~= chains.drop_last().update(i, chain));
        lemma_total_len_update(chains.drop_last(), i, chain);
    }
}

/// Chains that are all empty hold nothing.
proof fn lemma_empty_chains<K: HashKey, V>(chains: Seq<Seq<HashNode<K, V>>>)
    requires
        chains.len() >= 1,
        forall|i: int| 0 <= i < chains.len() ==> (#[trigger] chains[i]).len() == 0,
    ensures
        chains_ok(chains),
        entries_of(chains) == Map::<K, V>::empty(),
        total_len(chains) == 0,
    decreases chains.len(),
{
    assert forall|k: K| !chain_has(home(chains, k), k) by {
        lemma_slot_in_range(k.digest(), chains.len());
    }
    if chains.len() > 1 {
        lemma_empty_chains::<K, V>(chains.drop_last());
    } else {
        assert(total_len(chains.drop_last()) == 0);
    }
}

/// Giving a new value to the node at position `j` of chain `i` stores that
/// value under the node's key and changes nothing else.
proof fn lemma_replace<K: HashKey, V>(
    chains: Seq<Seq<HashNode<K, V>>>,
    i: int,
    j: int,
    node: HashNode<K, V>,
)
    requires
        chains_ok(chains),
        0 <= i < chains.len(),
        0 <= j < chains[i].len(),
        node.key == chains[i][j].key,
        node.hash == chains[i][j].hash,
    ensures
        chains_ok(chains.update(i, chains[i].update(j, node))),
        entries_of(chains.update(i, chains[i].update(j, node))) == entries_of(chains).insert(
            node.key,
            node.value,
        ),
        entries_of(chains).contains_key(node.key),
        total_len(chains.update(i, chains[i].update(j, node))) == total_len(chains),
{
    let n = chains.len();
    let chain = chains[i].update(j, node);
    let after = chains.update(i, chain);
    assert(chain_ok(chain, i, n));
    assert(chains_ok(after));
    lemma_chain_pos(chains[i], i, n, j);
    lemma_chain_pos(chain, i, n, j);
    lemma_same_keys(chains, after, i, node);
    lemma_total_len_update(chains, i, chain);
}

/// Appending a node with a new key to the chain of its bucket stores its
/// value under its key and changes nothing else.
proof fn lemma_append<K: HashKey, V>(chains: Seq<Seq<HashNode<K, V>>>, i: int, node: HashNode<K, V>)
    requires
        chains_ok(chains),
        node.hash == node.key.digest(),
        i == slot_of(node.hash, chains.len()),
        forall|j: int| 0 <= j < chains[i].len() ==> (#[trigger] chains[i][j]).key != node.key,
    ensures
        0 <= i < chains.len(),
        chains_ok(chains.update(i, chains[i].push(node))),
        entries_of(chains.update(i, chains[i].push(node))) == entries_of(chains).insert(
            node.key,
            node.value,
        ),
        !entries_of(chains).contains_key(node.key),
        total_len(chains.update(i, chains[i].push(node))) == total_len(chains) + 1,
{
    let n = chains.len();
    lemma_slot_in_range(node.hash, n);
    let chain = chains[i].push(node);
    let after = chains.update(i, chain);
    assert(chain_ok(chain, i, n));
    assert(chains_ok(after));
    lemma_chain_pos(chain, i, n, chains[i].len() as int);
    lemma_same_keys(chains, after, i, node);
    lemma_total_len_update(chains, i, chain);
}

/// Where chain `i` has changed so that it holds the node's key with the
/// node's value, keeps the keys it held where they stood, with their values
/// but for the node's key, and holds no further key, the chains hold what
/// they held before and the node's entry.
proof fn lemma_same_keys<K: HashKey, V>(
    chains: Seq<Seq<HashNode<K, V>>>,
    after: Seq<Seq<HashNode<K, V>>>,
    i: int,
    node: HashNode<K, V>,
)
    requires
        chains_ok(chains),
        chains_ok(after),
        0 <= i < chains.len(),
        after == chains.update(i, after[i]),
        slot_of(node.key.digest(), chains.len()) == i,
        chain_has(after[i], node.key),
        after[i][chain_pos(after[i], node.key)].value == node.value,
        chains[i].len() <= after[i].len(),
        forall|p: int|
            #![trigger after[i][p]]
            #![trigger chains[i][p]]
            0 <= p < chains[i].len() ==> after[i][p].key == chains[i][p].key && (after[i][p].key
                != node.key ==> after[i][p].value == chains[i][p].value),
        forall|p: int|
            chains[i].len() <= p < after[i].len() ==> (#[trigger] after[i][p]).key == node.key,
    ensures
        entries_of(after) == entries_of(chains).insert(node.key, node.value),
{
    let n = chains.len();
    assert forall|k: K| k != node.key implies (chain_has(home(after, k), k) <==> chain_has(
        home(chains, k),
        k,
    )) && (chain_has(home(after, k), k) ==> value_in(after, k) == value_in(chains, k)) by {
        if slot_of(k.digest(), n) == i {
            if chain_has(chains[i], k) {
                let p = chain_pos(chains[i], k);
                assert(after[i][p].key == k);
            }
            if chain_has(after[i], k) {
                let p = chain_pos(after[i], k);
                assert(chains[i][p].key == k);
                lemma_chain_pos(chains[i], i, n, p);
            }
        }
    }
}

/// The entries of the nodes that stand before position `j` of chain `i`,
/// going through the chains in order and through each chain in order.
spec fn entries_before<K: HashKey, V>(chains: Seq<Seq<HashNode<K, V>>>, i: int, j: int) -> Map<
    K,
    V,
> {
    Map::new(
        |k: K|
            {
                let s = slot_of(k.digest(), chains.len());
                chain_has(home(chains, k), k) && (s < i || (s == i && chain_pos(home(chains, k), k)
                    < j))
            },
        |k: K| value_in(chains, k),
    )
}

/// Before the first position there is nothing, and before the end there is
/// everything.
proof fn lemma_before_ends<K: HashKey, V>(chains: Seq<Seq<HashNode<K, V>>>)
    requires
        chains_ok(chains),
    ensures
        entries_before(chains, 0, 0) == Map::<K, V>::empty(),
        entries_before(chains, chains.len() as int, 0) == entries_of(chains),
{
    assert forall|k: K| 0 <= #[trigger] slot_of(k.digest(), chains.len()) < chains.len() by {
        lemma_slot_in_range(k.digest(), chains.len());
    }
    assert forall|k: K| chain_has(home(chains, k), k) implies 0 <= chain_pos(home(chains, k), k) by {}
}

/// A slot is the index of a bucket.
proof fn lemma_slot_in_range(digest: u64, n: nat)
    requires
        n >= 1,
    ensures
        0 <= slot_of(digest, n) < n,
{
    let d = digest as int;
    let m = n as int;
    assert(0 <= d % m && d % m < m) by (nonlinear_arith)
        requires
            m >= 1,
            d >= 0,
    ;
}

/// What stands before the end of one chain stands before the start of the
/// next.
proof fn lemma_before_next<K: HashKey, V>(chains: Seq<Seq<HashNode<K, V>>>, i: int)
    requires
        chains_ok(chains),
        0 <= i < chains.len(),
    ensures
        entries_before(chains, i, chains[i].len() as int) == entries_before(chains, i + 1, 0),
{
    assert forall|k: K| chain_has(home(chains, k), k) implies 0 <= chain_pos(home(chains, k), k)
        < home(chains, k).len() by {}
}

/// Going one node further adds that node's entry, which was not there, and
/// stays within the entries of the chains.
proof fn lemma_before_step<K: HashKey, V>(chains: Seq<Seq<HashNode<K, V>>>, i: int, j: int)
    requires
        chains_ok(chains),
        0 <= i < chains.len(),
        0 <= j < chains[i].len(),
    ensures
        entries_before(chains, i, j + 1) == entries_before(chains, i, j).insert(
            chains[i][j].key,
            chains[i][j].value,
        ),
        !entries_before(chains, i, j).contains_key(chains[i][j].key),
        entries_before(chains, i, j + 1).dom().subset_of(entries_of(chains).dom()),
        chains[i][j].hash == chains[i][j].key.digest(),
{
    let n = chains.len();
    let node = chains[i][j];
    lemma_chain_pos(chains[i], i, n, j);
    assert forall|k: K| chain_has(home(chains, k), k) && slot_of(k.digest(), n) == i && chain_pos(
        home(chains, k),
        k,
    ) == j implies k == node.key by {}
    assert(entries_before(chains, i, j + 1) =~= entries_before(chains, i, j).insert(
        node.key,
        node.value,
    ));
}

/// The sum of the lengths of the first `i` chains counts up to the whole sum.
proof fn lemma_total_len_take<K, V>(chains: Seq<Seq<HashNode<K, V>>>, i: int)
    requires
        0 <= i < chains.len(),
    ensures
        total_len(chains.take(i + 1)) == total_len(chains.take(i)) + chains[i].len(),
        total_len(chains.take(0)) == 0,
        chains.take(chains.len() as int) == chains,
{
    assert(chains.take(i + 1).drop_last() =~= chains.take(i));
}

/// One line of the dump: the text so far, a line break, the key's text, a
/// colon between spaces, and the value's text.
pub open spec fn dump_line(so_far: Seq<char>, key: Seq<char>, value: Seq<char>) -> Seq<char> {
    so_far + seq!['\n'] + key + seq![' ', ':', ' '] + value
}

/// The dump of a table whose entries have these texts, in this order.
pub open spec fn dump(texts: Seq<(Seq<char>, Seq<char>)>) -> Seq<char>
    decreases texts.len(),
{
    if texts.len() == 0 {
        Seq::empty()
    } else {
        dump_line(dump(texts.drop_last()), texts.last().0, texts.last().1)
    }
}

/// Adds one line to a dump: a line break, the key's text, a colon between
/// spaces, and the value's text.
pub fn append_line(s: &mut String, key: &str, value: &str)
    ensures
        final(s)@ == dump_line(old(s)@, key@, value@),
{
    proof {
        reveal_strlit("\n");
        reveal_strlit(" : ");
    }
    s.append("\n");
    s.append(key);
    s.append(" : ");
    s.append(value);
}

/// The texts of dump lines as plain sequences.
pub open spec fn texts_of(texts: Seq<(String, String)>) -> Seq<(Seq<char>, Seq<char>)> {
    Seq::new(texts.len(), |a: int| (texts[a].0@, texts[a].1@))
}

/// The dump of the lines whose key and value have these texts, in this
/// order.
pub fn dump_texts(texts: &Vec<(String, String)>) -> (s: String)
    ensures
        s@ == dump(texts_of(texts@)),
{
    let mut s = String::new();
    for a in 0..texts.len()
        invariant
            s@ == dump(texts_of(texts@).take(a as int)),
    {
        append_line(&mut s, texts[a].0.as_str(), texts[a].1.as_str());
        assert(texts_of(texts@).take(a + 1).drop_last() =~= texts_of(texts@).take(a as int));
    }
    assert(texts_of(texts@).take(texts@.len() as int) =~= texts_of(texts@));
    s
}

/// The keys and values that a list of borrowed entries points to.
pub open spec fn pairs_of<K, V>(es: Seq<(&K, &V)>) -> Seq<(K, V)> {
    Seq::new(es.len(), |a: int| (*es[a].0, *es[a].1))
}

/// The texts of the keys and values of a list of entries.
pub open spec fn entry_texts<K: DebugText, V: DebugText>(entries: Seq<(K, V)>) -> Seq<
    (Seq<char>, Seq<char>),
> {
    Seq::new(entries.len(), |a: int| (entries[a].0.text(), entries[a].1.text()))
}

/// The list holds every entry of the map once: it is as long as the map,
/// each item is a key of the map with its value, and no key comes twice.
pub open spec fn lists_each_once<K, V>(list: Seq<(K, V)>, entries: Map<K, V>) -> bool {
    &&& list.len() == entries.len()
    &&& forall|a: int| 0 <= a < list.len() ==> entries.contains_pair(list[a].0, list[a].1)
    &&& forall|a: int, b: int| 0 <= a < b < list.len() ==> list[a].0 != list[b].0
}

/// The key and value of each node of a chain, in the chain's order.
spec fn chain_pairs<K, V>(chain: Seq<HashNode<K, V>>) -> Seq<(K, V)> {
    Seq::new(chain.len(), |j: int| (chain[j].key, chain[j].value))
}

/// The key and value of every node: the chains in order, and each chain in
/// its own order.
spec fn listed<K, V>(chains: Seq<Seq<HashNode<K, V>>>) -> Seq<(K, V)>
    decreases chains.len(),
{
    if chains.len() == 0 {
        Seq::empty()
    } else {
        listed(chains.drop_last()) + chain_pairs(chains.last())
    }
}

/// The chains after a node was put: where its bucket holds its key, the
/// node takes that node's place; where not, it comes last in its bucket.
spec fn placed<K: HashKey, V>(chains: Seq<Seq<HashNode<K, V>>>, n: HashNode<K, V>) -> Seq<
    Seq<HashNode<K, V>>,
> {
    let i = slot_of(n.hash, chains.len());
    if chain_has(chains[i], n.key) {
        chains.update(i, chains[i].update(chain_pos(chains[i], n.key), n))
    } else {
        chains.update(i, chains[i].push(n))
    }
}

/// The chains after the nodes were put, one after the other.
spec fn placed_all<K: HashKey, V>(
    chains: Seq<Seq<HashNode<K, V>>>,
    nodes: Seq<HashNode<K, V>>,
) -> Seq<Seq<HashNode<K, V>>>
    decreases nodes.len(),
{
    if nodes.len() == 0 {
        chains
    } else {
        placed(placed_all(chains, nodes.drop_last()), nodes.last())
    }
}

/// Every node: the chains in order, and each chain in its own order.
spec fn nodes_of<K, V>(chains: Seq<Seq<HashNode<K, V>>>) -> Seq<HashNode<K, V>>
    decreases chains.len(),
{
    if chains.len() == 0 {
        Seq::empty()
    } else {
        nodes_of(chains.drop_last()) + chains.last()
    }
}

/// The chains after growth: twice as many, empty at first, into which every
/// node was put with the hash it holds, in the order of `nodes_of`.
spec fn regrown<K: HashKey, V>(chains: Seq<Seq<HashNode<K, V>>>) -> Seq<Seq<HashNode<K, V>>> {
    placed_all(
        Seq::new(2 * chains.len(), |i: int| Seq::<HashNode<K, V>>::empty()),
        nodes_of(chains),
    )
}

/// The layout of `n` empty buckets.
pub open spec fn empty_layout<K, V>(n: nat) -> Seq<Seq<(K, V)>> {
    Seq::new(n, |i: int| Seq::<(K, V)>::empty())
}

/// The key and value of every node, chain by chain.
spec fn layout_of<K, V>(chains: Seq<Seq<HashNode<K, V>>>) -> Seq<Seq<(K, V)>> {
    Seq::new(chains.len(), |i: int| chain_pairs(chains[i]))
}

/// The pairs listed are the layout's buckets, one after the other.
proof fn lemma_listed_is_flat<K, V>(chains: Seq<Seq<HashNode<K, V>>>)
    ensures
        listed(chains) == layout_of(chains).flatten_alt(),
    decreases chains.len(),
{
    if chains.len() > 0 {
        lemma_listed_is_flat(chains.drop_last());
        assert(layout_of(chains).drop_last() =~= layout_of(chains.drop_last()));
    }
}

/// The chains that a vector of buckets holds.
spec fn chains_in<K, V>(buckets: Seq<Vec<HashNode<K, V>>>) -> Seq<Seq<HashNode<K, V>>> {
    Seq::new(buckets.len(), |i: int| buckets[i]@)
}

impl<K: HashKey + Clone + Debug, V: Clone + Debug> View for HashTable<K, V> {
    type V = TableModel<K, V>;

    closed spec fn view(&self) -> TableModel<K, V> {
        TableModel {
            entries: entries_of(chains_in(self.buckets@)),
            buckets: self.buckets@.len(),
            load_factor: self.load_factor,
        }
    }
}

impl<K: HashKey + Clone + Debug, V: Clone + Debug> HashTable<K, V> {
    /// The layout of the buckets is sound: every node stands in the bucket
    /// that its stored hash, the digest of its key, leads to; no bucket
    /// holds a key twice; and `size` is the sum of the buckets' lengths.
    pub closed spec fn inv(&self) -> bool {
        &&& chains_ok(chains_in(self.buckets@))
        &&& self.size == total_len(chains_in(self.buckets@))
    }

    /// What the field `size` holds.
    pub closed spec fn count(&self) -> nat {
        self.size as nat
    }

    /// The table is sound, and `size` counts its entries.
    pub open spec fn wf(&self) -> bool {
        &&& self.inv()
        &&& self@.valid()
        &&& self.count() == self@.len()
    }

    /// Computes and returns the hash of
    /// a key using the stdlib default
    /// hasher
    fn hash_of(&self, key: &K) -> (h: u64)
        ensures
            h == key.digest(),
    {
        key.compute_digest()
    }

    /// Hashes a key and mods it by the length of the buckets
    /// vector to get the index of the bucket a key should be
    /// placed in
    fn index_of(&self, key: &K) -> (i: usize)
        requires
            self.buckets@.len() >= 1,
        ensures
            i == slot_of(key.digest(), self.buckets@.len()),
            i < self.buckets@.len(),
    {
        (self.hash_of(key) % (self.buckets.len() as u64)) as usize
    }

    /// Initializes and returns a new HashTable
    /// with an initial capacity of 16 buckets
    /// and a target max load factor of 1.0
    pub fn new() -> (t: Self)
        ensures
            t.wf(),
            t@ == TableModel::<K, V>::empty(16, LoadFactor::one()),
            t.layout() == empty_layout::<K, V>(16),
    {
        let t = HashTable {
            buckets: vec![vec![]; 16],
            load_factor: LoadFactor { num: 1, den: 1 },
            size: 0,
        };
        proof {
            lemma_empty_chains::<K, V>(chains_in(t.buckets@));
            assert(t.layout() =~~= empty_layout::<K, V>(t.buckets@.len()));
        }
        t
    }

    /// Initializes and returns a new HashTable
    /// with the specified amount of buckets
    /// and target max load factor.
    ///
    /// There must be at least one bucket: with none, no key has a bucket to
    /// go to, and the first `put` would divide by zero. A load factor of
    /// zero is legal, if of little use: every new key then doubles the
    /// buckets.
    pub fn with(buckets: usize, load_factor: LoadFactor) -> (t: Self)
        requires
            buckets >= 1,
        ensures
            t.wf(),
            t@ == TableModel::<K, V>::empty(buckets as nat, load_factor),
            t.layout() == empty_layout::<K, V>(buckets as nat),
    {
        let t = HashTable { buckets: vec![vec![]; buckets], load_factor, size: 0 };
        proof {
            lemma_empty_chains::<K, V>(chains_in(t.buckets@));
            assert(t.layout() =~~= empty_layout::<K, V>(t.buckets@.len()));
        }
        t
    }

    /// The buckets in order, each with the keys and values of its nodes in
    /// order.
    pub closed spec fn layout(&self) -> Seq<Seq<(K, V)>> {
        layout_of(chains_in(self.buckets@))
    }

    /// The layout after `put(key, value)`. In its own bucket the entry takes
    /// the place of the entry with its key, or comes last. If the table then
    /// grows, the buckets are twice as many, and the entries were put into
    /// them one after the other, in the order of `listing`, each into the
    /// bucket that its stored hash leads to.
    pub closed spec fn layout_after_put(&self, key: K, value: V) -> Seq<Seq<(K, V)>> {
        let stored = placed(
            chains_in(self.buckets@),
            HashNode { key, value, hash: key.digest() },
        );
        if !self@.entries.contains_key(key) && self@.store(key, value).at_threshold() {
            layout_of(regrown(stored))
        } else {
            layout_of(stored)
        }
    }

    /// The number of entries, which the field `size` holds.
    pub fn len(&self) -> (n: usize)
        requires
            self.wf(),
        ensures
            n == self@.len(),
    {
        self.size
    }

    /// The entries in the order of the dump: bucket after bucket, and each
    /// bucket in its own order.
    pub closed spec fn listing(&self) -> Seq<(K, V)> {
        listed(chains_in(self.buckets@))
    }

    /// The listing is the layout's buckets, one after the other.
    pub proof fn lemma_listing_is_layout(&self)
        ensures
            self.listing() == self.layout().flatten(),
    {
        lemma_listed_is_flat(chains_in(self.buckets@));
        self.layout().lemma_flatten_and_flatten_alt_are_equivalent();
    }

    /// Lists the entries in the order of the dump. Every entry of the table
    /// is there once.
    #[verifier::rlimit(50)]
    pub fn entries(&self) -> (es: Vec<(&K, &V)>)
        requires
            self.wf(),
        ensures
            pairs_of(es@) == self.listing(),
            lists_each_once(self.listing(), self@.entries),
    {
        let mut es: Vec<(&K, &V)> = Vec::new();
        let ghost chains = chains_in(self.buckets@);
        proof {
            lemma_total_len_take(chains, 0);
            lemma_before_ends(chains);
            assert(pairs_of(es@) =~= listed(chains.take(0)));
        }

        for i in 0..self.buckets.len()
            invariant
                self.wf(),
                chains == chains_in(self.buckets@),
                chains_ok(chains),
                es@.len() == total_len(chains.take(i as int)),
                pairs_of(es@) == listed(chains.take(i as int)),
                forall|a: int|
                    0 <= a < es@.len() ==> entries_before(chains, i as int, 0).contains_pair(
                        *(#[trigger] es@[a]).0,
                        *es@[a].1,
                    ),
                forall|a: int, b: int| 0 <= a < b < es@.len() ==> *es@[a].0 != *es@[b].0,
        {
            let bucket = &self.buckets[i];
            let ghost front = pairs_of(es@);
            assert(chain_pairs(chains[i as int].take(0)) =~= Seq::<(K, V)>::empty());
            for j in 0..bucket.len()
                invariant
                    i < self.buckets@.len(),
                    *bucket == self.buckets@[i as int],
                    chains == chains_in(self.buckets@),
                    chains_ok(chains),
                    es@.len() == total_len(chains.take(i as int)) + j,
                    pairs_of(es@) == front + chain_pairs(chains[i as int].take(j as int)),
                    forall|a: int|
                        0 <= a < es@.len() ==> entries_before(
                            chains,
                            i as int,
                            j as int,
                        ).contains_pair(*(#[trigger] es@[a]).0, *es@[a].1),
                    forall|a: int, b: int| 0 <= a < b < es@.len() ==> *es@[a].0 != *es@[b].0,
            {
                let n = &bucket[j];
                proof {
                    lemma_before_step(chains, i as int, j as int);
                }
                let ghost listed_so_far = es@;
                es.push((&n.key, &n.value));
                proof {
                    let chain = chains[i as int];
                    let pair = (chain[j as int].key, chain[j as int].value);
                    assert(pairs_of(es@) =~= pairs_of(listed_so_far).push(pair));
                    assert(chain_pairs(chain.take(j + 1)) =~= chain_pairs(chain.take(j as int)).push(
                        pair,
                    ));
                    assert(pairs_of(es@) =~= front + chain_pairs(chain.take(j + 1)));
                    assert forall|a: int| 0 <= a < es@.len() implies entries_before(
                        chains,
                        i as int,
                        j + 1,
                    ).contains_pair(*(#[trigger] es@[a]).0, *es@[a].1) by {
                        if a < listed_so_far.len() {
                            assert(es@[a] == listed_so_far[a]);
                        }
                    }
                    assert forall|a: int, b: int| 0 <= a < b < es@.len() implies *es@[a].0
                        != *es@[b].0 by {
                        assert(es@[a] == listed_so_far[a]);
                        if b < listed_so_far.len() {
                            assert(es@[b] == listed_so_far[b]);
                        }
                    }
                }
            }
            proof {
                lemma_total_len_take(chains, i as int);
                lemma_before_next(chains, i as int);
                assert(chains[i as int].take(chains[i as int].len() as int) =~= chains[i as int]);
                assert(chains.take(i + 1).drop_last() =~= chains.take(i as int));
            }
        }

        proof {
            lemma_total_len_take(chains, 0);
            assert(pairs_of(es@).len() == es@.len());
            assert forall|a: int| 0 <= a < self.listing().len() implies self@.entries.contains_pair(
                self.listing()[a].0,
                self.listing()[a].1,
            ) by {
                assert(pairs_of(es@)[a] == (*es@[a].0, *es@[a].1));
            }
            assert forall|a: int, b: int| 0 <= a < b < self.listing().len() implies self.listing()[a].0
                != self.listing()[b].0 by {
                assert(pairs_of(es@)[a] == (*es@[a].0, *es@[a].1));
                assert(pairs_of(es@)[b] == (*es@[b].0, *es@[b].1));
            }
        }
        es
    }

    /// The number of buckets that the entries are spread over.
    pub fn bucket_count(&self) -> (n: usize)
        ensures
            n == self@.buckets,
    {
        self.buckets.len()
    }

    /// Internal put method that accepts a HashNode instead
    /// of a regular key-value pair. The reason for implementing
    /// this separately is that when rehashing the table, we can
    /// simply pass all the old nodes into this method internally
    /// so that hashcodes don't need to be recomputed.
    fn _put(&mut self, n: HashNode<K, V>)
        requires
            old(self).wf(),
            n.hash == n.key.digest(),
            old(self)@.store(n.key, n.value).len() <= usize::MAX,
        ensures
            final(self).wf(),
            final(self)@ == old(self)@.store(n.key, n.value),
            chains_in(final(self).buckets@) == placed(chains_in(old(self).buckets@), n),
    {
        let index = (n.hash % self.buckets.len() as u64) as usize;
        let ghost chains = chains_in(self.buckets@);
        let len = self.buckets[index].len();
        let mut j: usize = 0;

        while j < len
            invariant
                *self == *old(self),
                self.wf(),
                n.hash == n.key.digest(),
                self@.store(n.key, n.value).len() <= usize::MAX,
                chains == chains_in(self.buckets@),
                index == slot_of(n.hash, self.buckets@.len()),
                index < self.buckets@.len(),
                j <= len,
                len == self.buckets@[index as int]@.len(),
                forall|a: int| 0 <= a < j ==> (#[trigger] self.buckets@[index as int]@[a]).key != n.key,
            decreases len - j,
        {
            if n.key.same(&self.buckets[index][j].key) {
                let ghost found = HashNode { key: n.key, value: n.value, hash: n.hash };
                proof {
                    lemma_replace(chains, index as int, j as int, found);
                }
                self.buckets[index][j].value = n.value;
                assert(chains_in(self.buckets@) =~= chains.update(
                    index as int,
                    chains[index as int].update(j as int, found),
                ));
                return ;
            }
            j += 1;
        }

        proof {
            assert forall|a: int| 0 <= a < chains[index as int].len() implies (
            #[trigger] chains[index as int][a]).key != n.key by {}
            lemma_append(chains, index as int, n);
        }
        self.buckets[index].push(n);
        assert(chains_in(self.buckets@) =~= chains.update(index as int, chains[index as int].push(n)));
        self.size += 1;
    }

    /// Inserts a key-value pair into the HashTable and
    /// returns the updated HashTable. If the target
    /// maximum load factor is surpassed, rehashing
    /// automatically occurs.
    ///
    /// A value put under a key that is there replaces the old value and
    /// never grows the table. A new key adds an entry; if the entries per
    /// bucket then reach the load factor, the buckets are doubled, once,
    /// and every entry moves to the bucket that its stored hash leads to.
    /// The table after the put must fit the machine: its entries and its
    /// buckets are counted in `usize`.
    #[verifier::rlimit(50)]
    pub fn put(self, key: K, value: V) -> (t: Self)
        requires
            self.wf(),
            self@.put(key, value).len() <= usize::MAX,
            self@.put(key, value).buckets <= usize::MAX,
        ensures
            t.wf(),
            t@ == self@.put(key, value),
            t.layout() == self.layout_after_put(key, value),
    {
        let mut table = self;
        let hash = table.hash_of(&key);

        let hash_node = HashNode { key, value, hash };

        let before = table.size;
        table._put(hash_node);

        // Rehashing if the max load factor is surpassed
        if table.size != before && table.load_factor.is_reached_by(table.size, table.buckets.len()) {
            let ghost stored = table@;
            let ghost chains = chains_in(table.buckets@);
            // Create a new bucket vector that's twice as large as the previous one
            let new_buckets = vec![vec![]; table.buckets.len() * 2];
            // Take ownership of all the old nodes. This is why this method
            // requires ownership of self.
            let old = table.buckets;

            table.buckets = new_buckets;
            table.size = 0;
            let ghost fresh = chains_in(table.buckets@);
            proof {
                lemma_empty_chains::<K, V>(fresh);
                lemma_before_ends(chains);
                assert(fresh =~= Seq::new(
                    2 * chains.len(),
                    |i: int| Seq::<HashNode<K, V>>::empty(),
                )) by {
                    assert forall|i: int| 0 <= i < fresh.len() implies #[trigger] fresh[i]
                        =~= Seq::<HashNode<K, V>>::empty() by {}
                }
                assert(chains.take(0) =~= Seq::<Seq<HashNode<K, V>>>::empty());
            }

            for bucket in buckets: old
                invariant
                    chains_in(table.buckets@) == placed_all(
                        fresh,
                        nodes_of(chains.take(buckets.index() as int)),
                    ),
                    chains_ok(chains),
                    chains == chains_in(buckets.seq()),
                    stored.entries == entries_of(chains),
                    stored.entries.dom().finite(),
                    stored.len() <= usize::MAX,
                    table.wf(),
                    table@.buckets == 2 * stored.buckets,
                    table@.load_factor == stored.load_factor,
                    table@.entries == entries_before(chains, buckets.index() as int, 0),
            {
                let ghost i = buckets.index() as int;
                let ghost front = nodes_of(chains.take(i));
                assert(front + chains[i].take(0) =~= front);
                for node in nodes: bucket
                    invariant
                        front == nodes_of(chains.take(i)),
                        chains_in(table.buckets@) == placed_all(
                            fresh,
                            front + chains[i].take(nodes.index() as int),
                        ),
                        chains_ok(chains),
                        0 <= i < chains.len(),
                        chains[i] == nodes.seq(),
                        stored.entries == entries_of(chains),
                        stored.entries.dom().finite(),
                        stored.len() <= usize::MAX,
                        table.wf(),
                        table@.buckets == 2 * stored.buckets,
                        table@.load_factor == stored.load_factor,
                        table@.entries == entries_before(chains, i, nodes.index() as int),
                {
                    proof {
                        lemma_before_step(chains, i, nodes.index() as int);
                        vstd::set_lib::lemma_len_subset(
                            entries_before(chains, i, nodes.index() + 1).dom(),
                            stored.entries.dom(),
                        );
                    }
                    table._put(node);
                    proof {
                        let so_far = front + chains[i].take(nodes.index() as int);
                        let further = front + chains[i].take(nodes.index() + 1);
                        assert(further.drop_last() =~= so_far);
                        assert(further.last() == node);
                    }
                }
                proof {
                    lemma_before_next(chains, i);
                    assert(chains[i].take(chains[i].len() as int) =~= chains[i]);
                    assert(chains.take(i + 1).drop_last() =~= chains.take(i));
                }
            }
            assert(chains.take(chains.len() as int) =~= chains);
        }

        table
    }

    /// Retrieves an optional read-only reference to a value from
    /// the HashTable corresponding to the given key. If the key
    /// doesn't exist in the table, None is returned.
    pub fn get(&self, key: K) -> (r: Option<&V>)
        requires
            self.wf(),
        ensures
            self@.get(key) == (match r {
                Some(v) => Some(*v),
                None => None,
            }),
    {
        let index = self.index_of(&key);
        let bucket = &self.buckets[index];
        let ghost chains = chains_in(self.buckets@);

        for j in 0..bucket.len()
            invariant
                self.wf(),
                chains == chains_in(self.buckets@),
                index == slot_of(key.digest(), self.buckets@.len()),
                index < self.buckets@.len(),
                *bucket == self.buckets@[index as int],
                forall|a: int| 0 <= a < j ==> (#[trigger] bucket@[a]).key != key,
        {
            if bucket[j].key.same(&key) {
                proof {
                    lemma_chain_pos(chains[index as int], index as int, chains.len(), j as int);
                }
                return Some(&bucket[j].value);
            }
        }

        None
    }
}

impl<K: HashKey + Clone + Debug + DebugText, V: Clone + Debug + DebugText> HashTable<K, V> {
    /// Produces and returns a String representing the HashTable,
    /// displaying all key-value pairs.
    ///
    /// Every entry has one line, made of the text of its key, a colon
    /// between spaces, and the text of its value; the lines come in the
    /// order of `entries`.
    pub fn to_string(&self) -> (s: String)
        requires
            self.wf(),
        ensures
            lists_each_once(self.listing(), self@.entries),
            s@ == dump(entry_texts(self.listing())),
    {
        let es = self.entries();
        let mut texts: Vec<(String, String)> = Vec::new();

        for a in 0..es.len()
            invariant
                pairs_of(es@) == self.listing(),
                texts@.len() == a,
                forall|b: int|
                    0 <= b < a ==> (#[trigger] texts@[b]).0@ == es@[b].0.text() && texts@[b].1@
                        == es@[b].1.text(),
        {
            let key = es[a].0.debug_text();
            let value = es[a].1.debug_text();
            texts.push((key, value));
        }

        proof {
            assert forall|b: int| 0 <= b < es@.len() implies texts_of(texts@)[b] == entry_texts(
                self.listing(),
            )[b] by {
                assert(pairs_of(es@)[b] == (*es@[b].0, *es@[b].1));
            }
            assert(texts_of(texts@) =~= entry_texts(self.listing()));
        }
        dump_texts(&texts)
    }
}

} // verus!
