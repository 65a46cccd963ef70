//! Byte-keyed trie used as the intermediate form of the double array.

use vstd::prelude::*;

verus! {

/// Value of a trie node that holds no key.
pub const NOT_TERMINAL: i32 = i32::MIN;

/// A node of the trie: its outgoing edges sorted by byte, and its value.
pub struct TrieNode {
    /// Outgoing edges `(byte, child index)`, strictly increasing by byte.
    pub children: Vec<(u8, usize)>,
    /// Value stored at this node; [`NOT_TERMINAL`] when no key ends here.
    pub value: i32,
}

impl TrieNode {
    /// Whether a key ends at this node.
    pub fn is_terminal(&self) -> (r: bool)
        ensures
            r == (self.value != NOT_TERMINAL),
    {
        self.value != NOT_TERMINAL
    }
}

/// A trie mapping byte strings to `i32` values. Node 0 is the root.
pub struct TrieBuilder {
    nodes: Vec<TrieNode>,
    /// The byte string that leads from the root to each node.
    paths: Ghost<Seq<Seq<u8>>>,
    /// The parent of each non-root node.
    parent: Ghost<Seq<int>>,
    /// The position of each non-root node in its parent's edge list.
    edge: Ghost<Seq<int>>,
}

impl TrieBuilder {
    pub closed spec fn len(&self) -> nat {
        self.nodes@.len()
    }

    pub closed spec fn path(&self, i: int) -> Seq<u8> {
        self.paths@[i]
    }

    pub closed spec fn value(&self, i: int) -> i32 {
        self.nodes@[i].value
    }

    pub closed spec fn edges(&self, i: int) -> Seq<(u8, usize)> {
        self.nodes@[i].children@
    }

    pub closed spec fn parent_of(&self, i: int) -> int {
        self.parent@[i]
    }

    pub closed spec fn edge_of(&self, i: int) -> int {
        self.edge@[i]
    }

    /// Structural invariant: node paths are distinct, the root has the empty
    /// path, every edge extends its node's path by its byte, edges are sorted,
    /// and every non-root node hangs below its parent.
    pub closed spec fn wf(&self) -> bool {
        let n = self.nodes@.len();
        &&& n >= 1
        &&& self.paths@.len() == n
        &&& self.parent@.len() == n
        &&& self.edge@.len() == n
        &&& self.paths@[0] == Seq::<u8>::empty()
        &&& forall|i: int, k: int| 0 <= i < n && 0 <= k < self.nodes@[i].children@.len() ==>
            (#[trigger] self.nodes@[i].children@[k]).1 < n
            && self.paths@[self.nodes@[i].children@[k].1 as int] == self.paths@[i].push(self.nodes@[i].children@[k].0)
        &&& forall|i: int, k1: int, k2: int| 0 <= i < n && 0 <= k1 < k2 < self.nodes@[i].children@.len() ==>
            (#[trigger] self.nodes@[i].children@[k1]).0 < (#[trigger] self.nodes@[i].children@[k2]).0
        &&& forall|j: int| 1 <= j < n ==> {
            &&& 0 <= #[trigger] self.parent@[j] < n
            &&& 0 <= self.edge@[j] < self.nodes@[self.parent@[j]].children@.len()
            &&& self.nodes@[self.parent@[j]].children@[self.edge@[j]].0 == self.paths@[j].last()
            &&& self.nodes@[self.parent@[j]].children@[self.edge@[j]].1 == j
            &&& self.paths@[j].len() > 0
        }
        &&& forall|i: int, j: int| 0 <= i < n && 0 <= j < n && i != j ==> self.paths@[i] != self.paths@[j]
    }

    /// Whether some node has path `p`.
    pub closed spec fn has_node(&self, p: Seq<u8>) -> bool {
        exists|i: int| 0 <= i < self.nodes@.len() && self.paths@[i] == p
    }

    /// The node with path `p` (meaningful when [`Self::has_node`]).
    pub closed spec fn node_of(&self, p: Seq<u8>) -> int {
        choose|i: int| 0 <= i < self.nodes@.len() && self.paths@[i] == p
    }

    /// The value stored under key `p`, if any.
    pub open spec fn get(&self, p: Seq<u8>) -> Option<i32> {
        if self.has_node(p) && self.value(self.node_of(p)) != NOT_TERMINAL {
            Some(self.value(self.node_of(p)))
        } else {
            None
        }
    }

    proof fn lemma_node_of(&self, i: int)
        requires
            self.wf(),
            0 <= i < self.len(),
        ensures
            self.has_node(self.path(i)),
            self.node_of(self.path(i)) == i,
    {
        assert(self.paths@[i] == self.path(i));
    }

    /// An empty trie: only the root, holding no value.
    pub fn new() -> (t: Self)
        ensures
            t.wf(),
            t.len() == 1,
            forall|p: Seq<u8>| t.get(p) is None,
    {
        let root = TrieNode { children: Vec::new(), value: NOT_TERMINAL };
        let mut nodes: Vec<TrieNode> = Vec::new();
        nodes.push(root);
        let ghost paths = seq![Seq::<u8>::empty()];
        let ghost zero = seq![0int];
        let t = TrieBuilder { nodes, paths: Ghost(paths), parent: Ghost(zero), edge: Ghost(zero) };
        assert forall|p: Seq<u8>| t.get(p) is None by {
            if t.has_node(p) {
                let i = t.node_of(p);
                assert(i == 0);
            }
        }
        t
    }

    /// The edges leaving node `i`, sorted by byte.
    pub fn node_edges(&self, i: usize) -> (r: &Vec<(u8, usize)>)
        requires
            i < self.len(),
        ensures
            r@ == self.edges(i as int),
    {
        &self.nodes[i].children
    }

    /// The value stored at node `i`.
    pub fn node_value(&self, i: usize) -> (r: i32)
        requires
            i < self.len(),
        ensures
            r == self.value(i as int),
    {
        self.nodes[i].value
    }

    /// Whether a key ends at node `i`.
    pub fn node_is_terminal(&self, i: usize) -> (r: bool)
        requires
            i < self.len(),
        ensures
            r == (self.value(i as int) != NOT_TERMINAL),
    {
        self.nodes[i].is_terminal()
    }

    /// The root exists and has the empty path; node paths are distinct.
    pub proof fn lemma_root(&self)
        requires
            self.wf(),
        ensures
            self.len() >= 1,
            self.path(0) == Seq::<u8>::empty(),
            forall|i: int, j: int| 0 <= i < self.len() && 0 <= j < self.len() && i != j ==> self.path(i) != self.path(j),
    {
    }

    /// A key with a value has a node holding that value.
    pub proof fn lemma_get_node(&self, key: Seq<u8>)
        requires
            self.wf(),
            self.get(key) is Some,
        ensures
            0 <= self.node_of(key) < self.len(),
            self.path(self.node_of(key)) == key,
            self.value(self.node_of(key)) == self.get(key)->0,
            self.value(self.node_of(key)) != NOT_TERMINAL,
    {
    }

    /// Every prefix of a node's path is the path of some node.
    pub proof fn lemma_parent(&self, j: int)
        requires
            self.wf(),
            1 <= j < self.len(),
        ensures
            0 <= self.parent_of(j) < self.len(),
            0 <= self.edge_of(j) < self.edges(self.parent_of(j)).len(),
            self.edges(self.parent_of(j))[self.edge_of(j)].1 == j,
            self.edges(self.parent_of(j))[self.edge_of(j)].0 == self.path(j).last(),
            self.path(j).len() > 0,
            self.path(self.parent_of(j)) == self.path(j).drop_last(),
            self.path(self.parent_of(j)).len() + 1 == self.path(j).len(),
    {
        let p = self.parent@[j];
        let e = self.edge@[j];
        let c = self.nodes@[p].children@[e];
        assert(self.paths@[c.1 as int] == self.paths@[p].push(c.0));
        assert(self.paths@[j].drop_last() =~= self.paths@[p]);
    }

    /// Edges of node `i` lead to nodes whose parent is `i`.
    pub proof fn lemma_edge(&self, i: int, k: int)
        requires
            self.wf(),
            0 <= i < self.len(),
            0 <= k < self.edges(i).len(),
        ensures
            1 <= self.edges(i)[k].1 < self.len(),
            self.parent_of(self.edges(i)[k].1 as int) == i,
            self.edge_of(self.edges(i)[k].1 as int) == k,
            self.path(self.edges(i)[k].1 as int) == self.path(i).push(self.edges(i)[k].0),
            forall|k2: int| 0 <= k2 < self.edges(i).len() && k2 != k ==> self.edges(i)[k2].0 != self.edges(i)[k].0,
    {
        let c = self.nodes@[i].children@[k];
        let j = c.1 as int;
        assert(self.paths@[j] == self.paths@[i].push(c.0));
        assert(j != 0) by {
            assert(self.paths@[0].len() == 0);
        }
        self.lemma_parent(j);
        let p = self.parent@[j];
        assert(self.paths@[j].drop_last() =~= self.paths@[i]);
        assert(self.paths@[p] == self.paths@[i]);
        assert(p == i);
        let e = self.edge@[j];
        assert forall|k2: int| 0 <= k2 < self.edges(i).len() && k2 != k implies self.edges(i)[k2].0 != self.edges(i)[k].0 by {
            if k2 < k {
                assert(self.nodes@[i].children@[k2].0 < self.nodes@[i].children@[k].0);
            } else {
                assert(self.nodes@[i].children@[k].0 < self.nodes@[i].children@[k2].0);
            }
        }
        if e != k {
            assert(self.edges(i)[e].0 == self.path(j).last());
            assert(self.path(j).last() == c.0);
        }
    }

    /// The empty key is the root's.
    pub proof fn lemma_root_node(&self)
        requires
            self.wf(),
        ensures
            self.has_node(Seq::<u8>::empty()),
            self.node_of(Seq::<u8>::empty()) == 0,
    {
        self.lemma_node_of(0);
    }

    /// The keys with a node are closed under dropping the last byte.
    pub proof fn lemma_prefix(&self, key: Seq<u8>)
        requires
            self.wf(),
            self.has_node(key),
            key.len() > 0,
        ensures
            self.has_node(key.drop_last()),
    {
        let j = self.node_of(key);
        assert(0 <= j < self.len() && self.path(j) == key);
        assert(j != 0) by {
            assert(self.path(0).len() == 0);
        }
        self.lemma_parent(j);
        self.lemma_node_of(self.parent_of(j));
    }

    /// One more byte: `k.push(c)` has a node exactly when the node of `k`
    /// has an edge on `c`, and then it is that edge's child.
    pub proof fn lemma_step(&self, k: Seq<u8>, c: u8)
        requires
            self.wf(),
            self.has_node(k),
        ensures
            0 <= self.node_of(k) < self.len(),
            self.path(self.node_of(k)) == k,
            self.has_node(k.push(c)) <==> exists|e: int| 0 <= e < self.edges(self.node_of(k)).len()
                && (#[trigger] self.edges(self.node_of(k))[e]).0 == c,
            forall|e: int| 0 <= e < self.edges(self.node_of(k)).len() && (#[trigger] self.edges(self.node_of(k))[e]).0 == c
                ==> self.node_of(k.push(c)) == self.edges(self.node_of(k))[e].1,
    {
        let x = self.node_of(k);
        assert(0 <= x < self.len() && self.path(x) == k);
        assert forall|e: int| 0 <= e < self.edges(x).len() && (#[trigger] self.edges(x)[e]).0 == c
            implies self.has_node(k.push(c)) && self.node_of(k.push(c)) == self.edges(x)[e].1 by {
            self.lemma_edge(x, e);
            let j = self.edges(x)[e].1 as int;
            self.lemma_node_of(j);
        }
        if self.has_node(k.push(c)) {
            let j = self.node_of(k.push(c));
            assert(0 <= j < self.len() && self.path(j) == k.push(c));
            assert(j != 0) by {
                assert(self.path(0).len() == 0);
            }
            self.lemma_parent(j);
            let p = self.parent_of(j);
            assert(self.path(p) == k) by {
                assert(k.push(c).drop_last() =~= k);
            }
            self.lemma_node_of(p);
            self.lemma_node_of(x);
            assert(p == x);
            let e = self.edge_of(j);
            assert(self.edges(x)[e].0 == c);
        }
    }

    /// Number of nodes.
    pub fn node_count(&self) -> (r: usize)
        ensures
            r == self.len(),
    {
        self.nodes.len()
    }

    /// The child of `node` along `byte`, if any.
    pub fn child(&self, node: usize, byte: u8) -> (r: Option<usize>)
        requires
            self.wf(),
            node < self.len(),
        ensures
            r matches Some(c) ==> c < self.len() && self.path(c as int) == self.path(node as int).push(byte),
            r is None ==> !self.has_node(self.path(node as int).push(byte)),
    {
        let (found, pos) = self.find_edge(node, byte);
        if found {
            Some(self.nodes[node].children[pos].1)
        } else {
            None
        }
    }

    /// Position of `byte` in the edge list of `node`: `(true, k)` when edge
    /// `k` carries `byte`, otherwise `(false, k)` with `k` the sorted
    /// insertion position.
    fn find_edge(&self, node: usize, byte: u8) -> (r: (bool, usize))
        requires
            self.wf(),
            node < self.len(),
        ensures
            r.1 <= self.edges(node as int).len(),
            r.0 ==> r.1 < self.edges(node as int).len() && self.edges(node as int)[r.1 as int].0 == byte,
            !r.0 ==> (forall|k: int| 0 <= k < r.1 ==> self.edges(node as int)[k].0 < byte),
            !r.0 ==> (forall|k: int| r.1 <= k < self.edges(node as int).len() ==> self.edges(node as int)[k].0 > byte),
            !r.0 ==> !self.has_node(self.path(node as int).push(byte)),
    {
        let children = &self.nodes[node].children;
        let mut k: usize = 0;
        while k < children.len()
            invariant
                self.wf(),
                node < self.len(),
                k <= children@.len(),
                children@ == self.edges(node as int),
                forall|m: int| 0 <= m < k ==> children@[m].0 < byte,
            decreases children.len() - k,
        {
            let (b, _) = children[k];
            if b == byte {
                return (true, k);
            }
            if b > byte {
                proof {
                    assert forall|m: int| k <= m < children@.len() implies children@[m].0 > byte by {
                        if m > k {
                            assert(self.nodes@[node as int].children@[k as int].0 < self.nodes@[node as int].children@[m].0);
                        }
                    }
                    self.lemma_no_child(node as int, byte);
                }
                return (false, k);
            }
            k += 1;
        }
        proof {
            self.lemma_no_child(node as int, byte);
        }
        (false, k)
    }

    proof fn lemma_no_child(&self, node: int, byte: u8)
        requires
            self.wf(),
            0 <= node < self.len(),
            forall|k: int| 0 <= k < self.edges(node).len() ==> self.edges(node)[k].0 != byte,
        ensures
            !self.has_node(self.path(node).push(byte)),
    {
        if self.has_node(self.path(node).push(byte)) {
            let j = self.node_of(self.path(node).push(byte));
            assert(self.paths@[j] == self.path(node).push(byte));
            assert(j != 0) by {
                assert(self.paths@[0].len() == 0);
            }
            let p = self.parent@[j];
            let e = self.edge@[j];
            let c = self.nodes@[p].children@[e];
            assert(c.0 == self.paths@[j].last() && c.1 == j);
            assert(self.paths@[c.1 as int] == self.paths@[p].push(c.0));
            assert(self.paths@[j] == self.paths@[p].push(self.paths@[j].last()));
            assert(self.paths@[p] =~= self.paths@[j].drop_last());
            assert(self.path(node).push(byte).drop_last() =~= self.path(node));
            assert(p == node);
            assert(c.0 == byte);
            assert(self.edges(node)[e].0 == byte);
        }
    }

    /// Store `value` under `key`, creating the missing nodes on its path.
    ///
    /// Afterwards `key` maps to `value` (to nothing when `value` is
    /// [`NOT_TERMINAL`]) and every other key keeps its value.
    pub fn insert(&mut self, key: &[u8], value: i32)
        requires
            old(self).wf(),
            old(self).len() + key@.len() < usize::MAX,
        ensures
            final(self).wf(),
            final(self).len() <= old(self).len() + key@.len(),
            final(self).get(key@) == (if value == NOT_TERMINAL { None::<i32> } else { Some(value) }),
            forall|p: Seq<u8>| p != key@ ==> final(self).get(p) == old(self).get(p),
    {
        let ghost old_self = *old(self);
        let mut state: usize = 0;
        let mut t: usize = 0;
        while t < key.len()
            invariant
                self.wf(),
                t <= key@.len(),
                state < self.len(),
                self.path(state as int) == key@.take(t as int),
                old_self.len() <= self.len() <= old_self.len() + t,
                self.len() + key@.len() - t < usize::MAX,
                forall|i: int| 0 <= i < old_self.len() ==> self.path(i) == old_self.path(i) && self.value(i) == old_self.value(i),
                forall|i: int| old_self.len() <= i < self.len() ==> self.value(i) == NOT_TERMINAL && key@.take(self.path(i).len() as int) == self.path(i) && self.path(i).len() <= t,
            decreases key.len() - t,
        {
            let byte = key[t];
            assert(key@.take(t + 1) =~= key@.take(t as int).push(byte));
            let ghost iter_start = *self;
            let (found, pos) = self.find_edge(state, byte);
            if found {
                let c = self.nodes[state].children[pos].1;
                state = c;
            } else {
                let new_id = self.nodes.len();
                let ghost pre = *self;
                let ghost new_path = key@.take(t + 1);
                self.nodes.push(TrieNode { children: Vec::new(), value: NOT_TERMINAL });
                self.nodes[state].children.insert(pos, (byte, new_id));
                proof {
                    self.paths@ = self.paths@.push(new_path);
                    self.parent@ = self.parent@.push(state as int);
                    self.edge@ = self.edge@.map(|j: int, e: int| if j < pre.len() && j >= 1 && pre.parent@[j] == state && e >= pos { e + 1 } else { e }).push(pos as int);
                }
                proof {
                    self.lemma_after_new_node(pre, state as int, pos as int, byte);
                    assert forall|i: int| 0 <= i < pre.len() implies self.path(i) == pre.path(i) && self.value(i) == pre.value(i) by {
                        if i != state {
                            assert(self.nodes@[i] == pre.nodes@[i]);
                        }
                    }
                    assert(self.path(new_id as int) == new_path);
                    assert(self.value(new_id as int) == NOT_TERMINAL);
                }
                state = new_id;
            }
            t += 1;
            proof {
                assert forall|i: int| old_self.len() <= i < self.len() implies self.value(i) == NOT_TERMINAL && key@.take(self.path(i).len() as int) == self.path(i) && self.path(i).len() <= t by {
                    if i < iter_start.len() {
                        assert(iter_start.value(i) == NOT_TERMINAL);
                        assert(iter_start.path(i).len() <= t - 1);
                    }
                }
            }
        }
        assert(key@.take(t as int) =~= key@);
        let ghost pre = *self;
        self.nodes[state].value = value;
        proof {
            assert forall|i: int| 0 <= i < self.len() implies #[trigger] self.nodes@[i].children@ == pre.nodes@[i].children@ by {
                if i != state {
                    assert(self.nodes@[i] == pre.nodes@[i]);
                }
            }
            assert(self.wf());
            self.lemma_node_of(state as int);
            assert forall|p: Seq<u8>| p != key@ implies self.get(p) == old_self.get(p) by {
                if self.has_node(p) {
                    let i = self.node_of(p);
                    self.lemma_node_of(i);
                    if i < old_self.len() {
                        old_self.lemma_node_of(i);
                    } else {
                        assert(self.path(i) != self.path(state as int));
                        assert(i != state);
                        assert(self.nodes@[i] == pre.nodes@[i]);
                        assert(pre.value(i) == NOT_TERMINAL);
                        assert(self.value(i) == NOT_TERMINAL);
                        if old_self.has_node(p) {
                            let oi = old_self.node_of(p);
                            assert(self.path(oi) == p);
                            assert(oi == i);
                        }
                    }
                } else if old_self.has_node(p) {
                    let oi = old_self.node_of(p);
                    assert(self.paths@[oi] == p);
                }
            }
        }
    }

    proof fn lemma_after_new_node(&self, pre: TrieBuilder, state: int, pos: int, byte: u8)
        requires
            pre.wf(),
            0 <= state < pre.len(),
            0 <= pos <= pre.edges(state).len(),
            forall|k: int| 0 <= k < pos ==> pre.edges(state)[k].0 < byte,
            forall|k: int| pos <= k < pre.edges(state).len() ==> pre.edges(state)[k].0 > byte,
            !pre.has_node(pre.path(state).push(byte)),
            pre.len() + 1 <= usize::MAX,
            self.nodes@.len() == pre.len() + 1,
            self.paths@ == pre.paths@.push(pre.path(state).push(byte)),
            self.parent@ == pre.parent@.push(state),
            self.edge@ == pre.edge@.map(|j: int, e: int| if j < pre.len() && j >= 1 && pre.parent@[j] == state && e >= pos { e + 1 } else { e }).push(pos),
            forall|i: int| 0 <= i < pre.len() && i != state ==> self.nodes@[i] == pre.nodes@[i],
            self.nodes@[state].value == pre.nodes@[state].value,
            self.nodes@[state].children@ == pre.nodes@[state].children@.insert(pos, (byte, pre.len() as usize)),
            self.nodes@[pre.len() as int].value == NOT_TERMINAL,
            self.nodes@[pre.len() as int].children@.len() == 0,
        ensures
            self.wf(),
    {
        let n = self.nodes@.len();
        let new_id = pre.len() as int;
        assert(self.paths@[new_id].drop_last() =~= pre.path(state));
        assert forall|i: int, k: int| 0 <= i < n && 0 <= k < self.nodes@[i].children@.len() implies
            (#[trigger] self.nodes@[i].children@[k]).1 < n
            && self.paths@[self.nodes@[i].children@[k].1 as int] == self.paths@[i].push(self.nodes@[i].children@[k].0) by {
            if i == state {
                if k < pos {
                    assert(self.nodes@[i].children@[k] == pre.nodes@[i].children@[k]);
                    assert(pre.paths@[pre.nodes@[i].children@[k].1 as int] == pre.paths@[i].push(pre.nodes@[i].children@[k].0));
                } else if k > pos {
                    assert(self.nodes@[i].children@[k] == pre.nodes@[i].children@[k - 1]);
                    assert(pre.paths@[pre.nodes@[i].children@[k - 1].1 as int] == pre.paths@[i].push(pre.nodes@[i].children@[k - 1].0));
                } else {
                    assert(self.nodes@[i].children@[k].0 == byte && self.nodes@[i].children@[k].1 == new_id);
                }
            } else if i < pre.len() {
                assert(self.nodes@[i].children@[k] == pre.nodes@[i].children@[k]);
                assert(pre.paths@[pre.nodes@[i].children@[k].1 as int] == pre.paths@[i].push(pre.nodes@[i].children@[k].0));
            }
        }
        assert forall|i: int, k1: int, k2: int| 0 <= i < n && 0 <= k1 < k2 < self.nodes@[i].children@.len() implies
            (#[trigger] self.nodes@[i].children@[k1]).0 < (#[trigger] self.nodes@[i].children@[k2]).0 by {
            if i == state {
                if k2 < pos {
                    assert(pre.nodes@[i].children@[k1].0 < pre.nodes@[i].children@[k2].0);
                } else if k1 > pos {
                    assert(pre.nodes@[i].children@[k1 - 1].0 < pre.nodes@[i].children@[k2 - 1].0);
                } else if k1 == pos {
                    assert(self.nodes@[i].children@[k2] == pre.nodes@[i].children@[k2 - 1]);
                } else if k2 == pos {
                    assert(self.nodes@[i].children@[k1] == pre.nodes@[i].children@[k1]);
                } else {
                    assert(self.nodes@[i].children@[k1] == pre.nodes@[i].children@[k1]);
                    assert(self.nodes@[i].children@[k2] == pre.nodes@[i].children@[k2 - 1]);
                }
            }
        }
        assert forall|j: int| 1 <= j < n implies {
            &&& 0 <= #[trigger] self.parent@[j] < n
            &&& 0 <= self.edge@[j] < self.nodes@[self.parent@[j]].children@.len()
            &&& self.nodes@[self.parent@[j]].children@[self.edge@[j]].0 == self.paths@[j].last()
            &&& self.nodes@[self.parent@[j]].children@[self.edge@[j]].1 == j
            &&& self.paths@[j].len() > 0
        } by {
            if j < new_id {
                let p = pre.parent@[j];
                let e = pre.edge@[j];
                assert(self.parent@[j] == p);
                if p == state {
                    if e >= pos {
                        assert(self.edge@[j] == e + 1);
                        assert(self.nodes@[p].children@[e + 1] == pre.nodes@[p].children@[e]);
                    } else {
                        assert(self.edge@[j] == e);
                        assert(self.nodes@[p].children@[e] == pre.nodes@[p].children@[e]);
                    }
                } else {
                    assert(self.edge@[j] == e);
                }
            } else {
                assert(self.nodes@[state].children@[pos].0 == byte && self.nodes@[state].children@[pos].1 == new_id);
            }
        }
        assert forall|i: int, j: int| 0 <= i < n && 0 <= j < n && i != j implies self.paths@[i] != self.paths@[j] by {
            if i == new_id && j < new_id {
                if self.paths@[j] == self.paths@[i] {
                    assert(pre.paths@[j] == pre.path(state).push(byte));
                }
            } else if j == new_id && i < new_id {
                if self.paths@[j] == self.paths@[i] {
                    assert(pre.paths@[i] == pre.path(state).push(byte));
                }
            }
        }
    }
}

} // verus!
