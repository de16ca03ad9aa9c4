//! The ordered map.
//!
//! Nodes are kept in ascending key order, one node per key. Each node is
//! backed by one block of memory of the node layout. The map does not reach
//! for an allocator: `insert` is given the address that the allocator
//! returned for the new node, and `insert` and `remove` return the block of
//! every node they unlink, to be released by the caller.

use crate::key_order::{
    key_lt, lemma_lt_connected, lemma_lt_irreflexive, lemma_lt_transitive, less, total_order,
};
use crate::layout::{Block, Layout};
use vstd::layout::{align_of, size_of};
use vstd::prelude::*;

verus! {

/// What the map holds for one key: the value, and the address of the block
/// that backs the key's node.
pub struct Entry<V> {
    pub value: V,
    pub addr: usize,
}

/// Why an insertion did not take place.
#[derive(Clone, Copy, Debug, PartialEq, Eq, Structural)]
pub enum InsertError {
    /// The allocator had no block for the new node: the address handed in
    /// was null.
    OutOfMemory,
}

struct IntrusivePair<K, V> {
    key: K,
    value: V,
    addr: usize,
}

/// An ordered map with one node per key.
pub struct IntrusiveMap<K, V> {
    nodes: Vec<IntrusivePair<K, V>>,
}

spec fn ascending<K: Ord, V>(s: Seq<IntrusivePair<K, V>>) -> bool {
    forall|i: int, j: int| 0 <= i < j < s.len() ==> key_lt(#[trigger] s[i].key, #[trigger] s[j].key)
}

spec fn backed<K, V>(s: Seq<IntrusivePair<K, V>>) -> bool {
    forall|i: int| 0 <= i < s.len() ==> (#[trigger] s[i]).addr != 0
}

spec fn holds<K, V>(s: Seq<IntrusivePair<K, V>>, key: K) -> bool {
    exists|i: int| 0 <= i < s.len() && (#[trigger] s[i]).key == key
}

spec fn index_of<K, V>(s: Seq<IntrusivePair<K, V>>, key: K) -> int {
    choose|i: int| 0 <= i < s.len() && (#[trigger] s[i]).key == key
}

spec fn entry_of<K, V>(node: IntrusivePair<K, V>) -> Entry<V> {
    Entry { value: node.value, addr: node.addr }
}

spec fn entries<K, V>(s: Seq<IntrusivePair<K, V>>) -> Map<K, Entry<V>> {
    Map::new(|key: K| holds(s, key), |key: K| entry_of(s[index_of(s, key)]))
}

proof fn lemma_one_node_per_key<K: Ord, V>(s: Seq<IntrusivePair<K, V>>, i: int, j: int)
    requires
        total_order::<K>(),
        ascending(s),
        0 <= i < s.len(),
        0 <= j < s.len(),
        s[i].key == s[j].key,
    ensures
        i == j,
{
    lemma_lt_irreflexive(s[i].key);
}

proof fn lemma_entry_at<K: Ord, V>(s: Seq<IntrusivePair<K, V>>, i: int)
    requires
        total_order::<K>(),
        ascending(s),
        0 <= i < s.len(),
    ensures
        entries(s).contains_key(s[i].key),
        entries(s)[s[i].key] == entry_of(s[i]),
{
    assert(holds(s, s[i].key));
    lemma_one_node_per_key(s, i, index_of(s, s[i].key));
}

proof fn lemma_absent<K: Ord, V>(s: Seq<IntrusivePair<K, V>>, at: int, key: K)
    requires
        total_order::<K>(),
        ascending(s),
        0 <= at <= s.len(),
        forall|j: int| 0 <= j < at ==> key_lt((#[trigger] s[j]).key, key),
        at < s.len() ==> key_lt(key, s[at].key),
    ensures
        forall|j: int| at <= j < s.len() ==> key_lt(key, (#[trigger] s[j]).key),
        !entries(s).contains_key(key),
{
    assert forall|j: int| at <= j < s.len() implies key_lt(key, (#[trigger] s[j]).key) by {
        if at < j {
            lemma_lt_transitive(key, s[at].key, s[j].key);
        }
    }
    if holds(s, key) {
        let j = index_of(s, key);
        lemma_lt_irreflexive(key);
    }
}

proof fn lemma_link<K: Ord, V>(s: Seq<IntrusivePair<K, V>>, at: int, node: IntrusivePair<K, V>)
    requires
        total_order::<K>(),
        ascending(s),
        0 <= at <= s.len(),
        forall|j: int| 0 <= j < at ==> key_lt((#[trigger] s[j]).key, node.key),
        forall|j: int| at <= j < s.len() ==> key_lt(node.key, (#[trigger] s[j]).key),
    ensures
        ascending(s.insert(at, node)),
        entries(s.insert(at, node)) == entries(s).insert(node.key, entry_of(node)),
{
    let t = s.insert(at, node);
    s.insert_ensures(at, node);
    assert forall|j: int| at < j < t.len() implies #[trigger] t[j] == s[j - 1] by {
        assert(t[(j - 1) + 1] == s[j - 1]);
    }
    assert forall|i: int, j: int| 0 <= i < j < t.len() implies key_lt(
        #[trigger] t[i].key,
        #[trigger] t[j].key,
    ) by {
        if i < at && j > at {
            assert(key_lt(s[i].key, s[j - 1].key) || i == j - 1);
        }
    }
    assert(ascending(t));
    lemma_entry_at(t, at);
    assert forall|key: K| #[trigger]
        entries(t).contains_key(key) == entries(s).insert(node.key, entry_of(node)).contains_key(
            key,
        ) by {
        if holds(s, key) {
            let i = index_of(s, key);
            if i < at {
                assert(t[i].key == key);
            } else {
                assert(t[i + 1].key == key);
            }
        }
        if holds(t, key) && key != node.key {
            let i = index_of(t, key);
            if i < at {
                assert(s[i].key == key);
            } else {
                assert(s[i - 1].key == key);
            }
        }
    }
    assert forall|key: K| #[trigger] entries(t).contains_key(key) implies entries(t)[key]
        == entries(s).insert(node.key, entry_of(node))[key] by {
        if key != node.key {
            let i = index_of(s, key);
            lemma_entry_at(s, i);
            if i < at {
                lemma_entry_at(t, i);
            } else {
                lemma_entry_at(t, i + 1);
            }
        }
    }
    assert(entries(t) =~= entries(s).insert(node.key, entry_of(node)));
}

proof fn lemma_relink<K: Ord, V>(s: Seq<IntrusivePair<K, V>>, at: int, node: IntrusivePair<K, V>)
    requires
        total_order::<K>(),
        ascending(s),
        0 <= at < s.len(),
        s[at].key == node.key,
    ensures
        ascending(s.update(at, node)),
        entries(s.update(at, node)) == entries(s).insert(node.key, entry_of(node)),
{
    let t = s.update(at, node);
    assert forall|i: int, j: int| 0 <= i < j < t.len() implies key_lt(
        #[trigger] t[i].key,
        #[trigger] t[j].key,
    ) by {
        assert(t[i].key == s[i].key);
        assert(t[j].key == s[j].key);
    }
    assert(ascending(t));
    lemma_entry_at(t, at);
    assert forall|key: K| #[trigger]
        entries(t).contains_key(key) == entries(s).insert(node.key, entry_of(node)).contains_key(
            key,
        ) by {
        if holds(s, key) {
            let i = index_of(s, key);
            assert(t[i].key == key);
        }
        if holds(t, key) {
            let i = index_of(t, key);
            assert(s[i].key == key);
        }
    }
    assert forall|key: K| #[trigger] entries(t).contains_key(key) implies entries(t)[key]
        == entries(s).insert(node.key, entry_of(node))[key] by {
        if key != node.key {
            let i = index_of(s, key);
            lemma_entry_at(s, i);
            lemma_entry_at(t, i);
        }
    }
    assert(entries(t) =~= entries(s).insert(node.key, entry_of(node)));
}

proof fn lemma_unlink<K: Ord, V>(s: Seq<IntrusivePair<K, V>>, at: int)
    requires
        total_order::<K>(),
        ascending(s),
        0 <= at < s.len(),
    ensures
        ascending(s.remove(at)),
        entries(s.remove(at)) == entries(s).remove(s[at].key),
{
    let t = s.remove(at);
    s.remove_ensures(at);
    assert forall|i: int, j: int| 0 <= i < j < t.len() implies key_lt(
        #[trigger] t[i].key,
        #[trigger] t[j].key,
    ) by {
        let si = if i < at { i } else { i + 1 };
        let sj = if j < at { j } else { j + 1 };
        assert(t[i] == s[si]);
        assert(t[j] == s[sj]);
        assert(key_lt(s[si].key, s[sj].key));
    }
    assert(ascending(t));
    assert forall|key: K| #[trigger]
        entries(t).contains_key(key) == entries(s).remove(s[at].key).contains_key(key) by {
        if holds(s, key) && key != s[at].key {
            let i = index_of(s, key);
            if i < at {
                assert(t[i].key == key);
            } else {
                assert(t[i - 1].key == key);
            }
        }
        if holds(t, key) {
            let i = index_of(t, key);
            let si = if i < at { i } else { i + 1 };
            assert(t[i] == s[si]);
            assert(s[si].key == key);
            if key == s[at].key {
                lemma_one_node_per_key(s, si, at);
            }
        }
    }
    assert forall|key: K| #[trigger] entries(t).contains_key(key) implies entries(t)[key]
        == entries(s).remove(s[at].key)[key] by {
        let i = index_of(t, key);
        let si = if i < at { i } else { i + 1 };
        assert(t[i] == s[si]);
        lemma_entry_at(t, i);
        lemma_entry_at(s, si);
    }
    assert(entries(t) =~= entries(s).remove(s[at].key));
}

impl<K, V> View for IntrusiveMap<K, V> {
    type V = Map<K, Entry<V>>;

    /// The entry of every key that has a node.
    closed spec fn view(&self) -> Map<K, Entry<V>> {
        entries(self.nodes@)
    }
}

impl<K, V> IntrusiveMap<K, V> {
    /// The layout of one node: what every block that backs a node was
    /// requested with, and what it is released with.
    pub closed spec fn spec_node_layout() -> Layout {
        Layout {
            size: size_of::<IntrusivePair<K, V>>() as usize,
            align: align_of::<IntrusivePair<K, V>>() as usize,
        }
    }

    /// The layout to request a block with before an insertion.
    pub fn node_layout() -> (l: Layout)
        ensures
            l == Self::spec_node_layout(),
            vstd::layout::valid_layout(l.size, l.align),
            l.align > 0,
            l.size % l.align == 0,
    {
        Layout::of::<IntrusivePair<K, V>>()
    }

    /// The keys of the nodes, in the order in which the nodes are linked.
    pub closed spec fn key_seq(self) -> Seq<K> {
        self.nodes@.map_values(|node: IntrusivePair<K, V>| node.key)
    }

    /// The block of the node of `key` in a map with the entries `m`.
    pub open spec fn block_of(m: Map<K, Entry<V>>, key: K) -> Block {
        Block { addr: m[key].addr, layout: Self::spec_node_layout() }
    }

    /// The entries after `insert(key, value, addr)` on a map with the
    /// entries `m`: unchanged where `addr` is null, else `key` holds `value`
    /// and is backed by the block at `addr`.
    pub open spec fn after_insert(m: Map<K, Entry<V>>, key: K, value: V, addr: usize) -> Map<
        K,
        Entry<V>,
    > {
        if addr == 0 {
            m
        } else {
            m.insert(key, Entry { value, addr })
        }
    }

    /// What `insert(key, _, addr)` returns on a map with the entries `m`:
    /// the failure where `addr` is null, else the block of the node that
    /// `key` had before, if it had one.
    pub open spec fn insert_outcome(m: Map<K, Entry<V>>, key: K, addr: usize) -> Result<
        Option<Block>,
        InsertError,
    > {
        if addr == 0 {
            Err(InsertError::OutOfMemory)
        } else if m.contains_key(key) {
            Ok(Some(Self::block_of(m, key)))
        } else {
            Ok(None)
        }
    }

    /// The entries after `remove(key)` on a map with the entries `m`.
    pub open spec fn after_remove(m: Map<K, Entry<V>>, key: K) -> Map<K, Entry<V>> {
        m.remove(key)
    }

    /// What `remove(key)` returns on a map with the entries `m`: the value
    /// of `key` and the block of its node, or nothing where `key` has none.
    pub open spec fn remove_outcome(m: Map<K, Entry<V>>, key: K) -> Option<(V, Block)> {
        if m.contains_key(key) {
            Some((m[key].value, Self::block_of(m, key)))
        } else {
            None
        }
    }
}

impl<K: Ord, V> IntrusiveMap<K, V> {
    /// The nodes are linked in strictly ascending key order, and each is
    /// backed by a block.
    pub closed spec fn wf(self) -> bool {
        &&& ascending(self.nodes@)
        &&& backed(self.nodes@)
    }

    /// An empty map. It holds no block.
    pub fn new() -> (m: Self)
        ensures
            m.wf(),
            m@ == Map::<K, Entry<V>>::empty(),
    {
        let m = IntrusiveMap { nodes: Vec::new() };
        assert(m@ =~= Map::<K, Entry<V>>::empty());
        m
    }
}

impl<K: Ord + Copy, V: Copy> IntrusiveMap<K, V> {
    fn lower_bound(&self, key: &K) -> (at: usize)
        requires
            total_order::<K>(),
            self.wf(),
        ensures
            at <= self.nodes@.len(),
            forall|j: int| 0 <= j < at ==> key_lt((#[trigger] self.nodes@[j]).key, *key),
            forall|j: int|
                at <= j < self.nodes@.len() ==> !key_lt((#[trigger] self.nodes@[j]).key, *key),
    {
        let mut lo: usize = 0;
        let mut hi: usize = self.nodes.len();
        while lo < hi
            invariant
                total_order::<K>(),
                self.wf(),
                lo <= hi <= self.nodes@.len(),
                forall|j: int| 0 <= j < lo ==> key_lt((#[trigger] self.nodes@[j]).key, *key),
                forall|j: int|
                    hi <= j < self.nodes@.len() ==> !key_lt((#[trigger] self.nodes@[j]).key, *key),
            decreases hi - lo,
        {
            let mid: usize = lo + (hi - lo) / 2;
            if less(&self.nodes[mid].key, key) {
                assert forall|j: int| 0 <= j < mid + 1 implies key_lt(
                    (#[trigger] self.nodes@[j]).key,
                    *key,
                ) by {
                    if j < mid {
                        lemma_lt_transitive(self.nodes@[j].key, self.nodes@[mid as int].key, *key);
                    }
                }
                lo = mid + 1;
            } else {
                assert forall|j: int| mid <= j < self.nodes@.len() implies !key_lt(
                    (#[trigger] self.nodes@[j]).key,
                    *key,
                ) by {
                    if mid < j && key_lt(self.nodes@[j].key, *key) {
                        lemma_lt_transitive(self.nodes@[mid as int].key, self.nodes@[j].key, *key);
                    }
                }
                hi = mid;
            }
        }
        lo
    }

    /// Links a node for `key` that holds `value` and is backed by the block
    /// at `addr`, the address that the allocator returned for a request of
    /// `node_layout()`.
    ///
    /// A null `addr` reports that the allocator had no block: the insertion
    /// fails and the map is unchanged. Otherwise `key` holds `value` from
    /// now on. Where `key` had a node before, that node is unlinked and its
    /// block is returned for release.
    pub fn insert(&mut self, key: K, value: V, addr: usize) -> (r: Result<
        Option<Block>,
        InsertError,
    >)
        requires
            total_order::<K>(),
            old(self).wf(),
        ensures
            final(self).wf(),
            final(self)@ == Self::after_insert(old(self)@, key, value, addr),
            r == Self::insert_outcome(old(self)@, key, addr),
    {
        if addr == 0 {
            return Err(InsertError::OutOfMemory);
        }
        let at = self.lower_bound(&key);
        let node = IntrusivePair { key, value, addr };
        if at < self.nodes.len() && !less(&key, &self.nodes[at].key) {
            let stale = self.nodes[at].addr;
            proof {
                if self.nodes@[at as int].key != key {
                    lemma_lt_connected(self.nodes@[at as int].key, key);
                }
                lemma_entry_at(self.nodes@, at as int);
                lemma_relink(self.nodes@, at as int, node);
            }
            self.nodes.set(at, node);
            Ok(Some(Block { addr: stale, layout: Self::node_layout() }))
        } else {
            proof {
                lemma_absent(self.nodes@, at as int, key);
                lemma_link(self.nodes@, at as int, node);
                self.nodes@.insert_ensures(at as int, node);
            }
            self.nodes.insert(at, node);
            assert forall|i: int| 0 <= i < self.nodes@.len() implies (#[trigger] self.nodes@[i]).addr
                != 0 by {
                if i > at {
                    assert(self.nodes@[(i - 1) + 1] == old(self).nodes@[i - 1]);
                }
            }
            Ok(None)
        }
    }

    /// In every well-formed map the keys of the nodes, taken in link order,
    /// are strictly ascending. So no two nodes have the same key, and the
    /// keys of the nodes are exactly the keys that have an entry.
    pub proof fn lemma_keys_ascending(self)
        requires
            total_order::<K>(),
            self.wf(),
        ensures
            forall|i: int, j: int|
                0 <= i < j < self.key_seq().len() ==> key_lt(
                    #[trigger] self.key_seq()[i],
                    #[trigger] self.key_seq()[j],
                ),
            self.key_seq().no_duplicates(),
            self.key_seq().to_set() == self@.dom(),
            self@.dom().finite(),
            self@.dom().len() == self.key_seq().len(),
    {
        let s = self.nodes@;
        let ks = self.key_seq();
        assert forall|i: int, j: int| 0 <= i < j < ks.len() implies key_lt(
            #[trigger] ks[i],
            #[trigger] ks[j],
        ) by {
            assert(key_lt(s[i].key, s[j].key));
        }
        assert forall|i: int, j: int| 0 <= i < ks.len() && 0 <= j < ks.len() && i != j implies ks[i]
            != ks[j] by {
            if ks[i] == ks[j] {
                lemma_one_node_per_key(s, i, j);
            }
        }
        assert forall|key: K| ks.to_set().contains(key) == self@.dom().contains(key) by {
            if ks.contains(key) {
                let i = choose|i: int| 0 <= i < ks.len() && ks[i] == key;
                assert(s[i].key == key);
            }
            if holds(s, key) {
                let i = index_of(s, key);
                assert(ks[i] == key);
            }
        }
        assert(ks.to_set() =~= self@.dom());
        ks.unique_seq_to_set();
        vstd::seq_lib::seq_to_set_is_finite(ks);
    }

    /// Every entry is backed by a block: its address is not null.
    pub proof fn lemma_entries_backed(self, key: K)
        requires
            total_order::<K>(),
            self.wf(),
            self@.contains_key(key),
        ensures
            self@[key].addr != 0,
    {
        let i = index_of(self.nodes@, key);
        lemma_entry_at(self.nodes@, i);
    }

    /// The number of nodes, which is the number of keys that have an entry.
    pub fn len(&self) -> (n: usize)
        requires
            total_order::<K>(),
            self.wf(),
        ensures
            n == self.key_seq().len(),
            n == self@.dom().len(),
    {
        proof {
            self.lemma_keys_ascending();
        }
        self.nodes.len()
    }

    /// The keys of the nodes, walked in link order: strictly ascending.
    pub fn keys(&self) -> (ks: Vec<K>)
        requires
            total_order::<K>(),
            self.wf(),
        ensures
            ks@ == self.key_seq(),
            forall|i: int, j: int|
                0 <= i < j < ks@.len() ==> key_lt(#[trigger] ks@[i], #[trigger] ks@[j]),
            ks@.no_duplicates(),
            ks@.to_set() == self@.dom(),
    {
        let mut ks: Vec<K> = Vec::new();
        let mut i: usize = 0;
        while i < self.nodes.len()
            invariant
                i <= self.nodes@.len(),
                ks@.len() == i,
                forall|j: int| 0 <= j < i ==> ks@[j] == (#[trigger] self.nodes@[j]).key,
            decreases self.nodes@.len() - i,
        {
            ks.push(self.nodes[i].key);
            i += 1;
        }
        proof {
            assert(ks@ =~= self.key_seq());
            self.lemma_keys_ascending();
        }
        ks
    }

    /// Unlinks every node and returns their blocks, in ascending order of
    /// their keys, for release. The map is empty afterwards.
    pub fn clear(&mut self) -> (blocks: Vec<Block>)
        requires
            total_order::<K>(),
            old(self).wf(),
        ensures
            final(self).wf(),
            final(self)@ == Map::<K, Entry<V>>::empty(),
            blocks@ == old(self).key_seq().map_values(|key: K| Self::block_of(old(self)@, key)),
            blocks@.len() == old(self)@.dom().len(),
    {
        let layout = Self::node_layout();
        let mut blocks: Vec<Block> = Vec::new();
        let mut i: usize = 0;
        while i < self.nodes.len()
            invariant
                total_order::<K>(),
                self.wf(),
                layout == Self::spec_node_layout(),
                i <= self.nodes@.len(),
                blocks@.len() == i,
                forall|j: int|
                    0 <= j < i ==> #[trigger] blocks@[j] == Self::block_of(
                        self@,
                        self.nodes@[j].key,
                    ),
            decreases self.nodes@.len() - i,
        {
            proof {
                lemma_entry_at(self.nodes@, i as int);
            }
            blocks.push(Block { addr: self.nodes[i].addr, layout });
            i += 1;
        }
        proof {
            assert(blocks@ =~= self.key_seq().map_values(|key: K| Self::block_of(self@, key)));
            self.lemma_keys_ascending();
        }
        self.nodes.clear();
        assert(self@ =~= Map::<K, Entry<V>>::empty());
        blocks
    }

    /// Unlinks the node of `key`, if it has one, and returns its value
    /// together with its block, which is to be released. Where `key` has no
    /// node, nothing is returned and the map is unchanged.
    pub fn remove(&mut self, key: &K) -> (r: Option<(V, Block)>)
        requires
            total_order::<K>(),
            old(self).wf(),
        ensures
            final(self).wf(),
            final(self)@ == Self::after_remove(old(self)@, *key),
            r == Self::remove_outcome(old(self)@, *key),
    {
        let at = self.lower_bound(key);
        if at < self.nodes.len() && !less(key, &self.nodes[at].key) {
            proof {
                if self.nodes@[at as int].key != *key {
                    lemma_lt_connected(self.nodes@[at as int].key, *key);
                }
                lemma_entry_at(self.nodes@, at as int);
                lemma_unlink(self.nodes@, at as int);
                self.nodes@.remove_ensures(at as int);
            }
            let node = self.nodes.remove(at);
            Some((node.value, Block { addr: node.addr, layout: Self::node_layout() }))
        } else {
            proof {
                lemma_absent(self.nodes@, at as int, *key);
                assert(self@.remove(*key) =~= self@);
            }
            None
        }
    }
}

} // verus!
