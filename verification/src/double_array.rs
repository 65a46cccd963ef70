//! Double-array construction from a [`TrieBuilder`].
//!
//! Reader semantics: `b = units[0].base`; the transition along byte `c` goes
//! to slot `p = b + c + 1`, valid when `units[p].check == b`, and continues
//! with `b = units[p].base`. A key ends at `b` when `units[b].check == b` and
//! `units[b].base < 0`; its value is `-units[b].base - 1`.

use vstd::prelude::*;
use vstd::set_lib::{set_int_range, lemma_int_range, lemma_len_subset};
use crate::error::BuildError;
use crate::trie::{TrieBuilder, NOT_TERMINAL};

verus! {

/// Check value of a slot no node has claimed.
pub const FREE_CHECK: u32 = u32::MAX;

/// Initial number of slots.
pub const INITIAL_UNITS: usize = 65536;

/// Largest base the 32-bit signed `base` field can hold.
pub const MAX_BASE: usize = 0x7fff_ffff;

/// One double-array slot.
#[derive(Clone, Copy, Debug)]
pub struct DaUnit {
    pub base: i32,
    pub check: u32,
}

/// One transition of the reader from base `b` along byte `c`.
pub open spec fn da_step(units: Seq<DaUnit>, b: int, c: u8) -> Option<int> {
    let p = b + c + 1;
    if 0 <= p < units.len() && units[p].check == b as u32 {
        Some(units[p].base as int)
    } else {
        None
    }
}

/// The base reached from `b` by following `key`.
pub open spec fn da_walk(units: Seq<DaUnit>, b: int, key: Seq<u8>) -> Option<int>
    decreases key.len(),
{
    if key.len() == 0 {
        Some(b)
    } else {
        match da_walk(units, b, key.drop_last()) {
            Some(b2) => da_step(units, b2, key.last()),
            None => None,
        }
    }
}

/// What a reader finds for `key`.
pub open spec fn da_lookup(units: Seq<DaUnit>, key: Seq<u8>) -> Option<int> {
    if units.len() == 0 {
        None
    } else {
        match da_walk(units, units[0].base as int, key) {
            Some(b) => if 0 <= b < units.len() && units[b].check == b as u32 && units[b].base < 0 {
                Some(-units[b].base - 1)
            } else {
                None
            },
            None => None,
        }
    }
}

/// A trie small enough that its double array always fits the 32-bit base
/// field: placing a node raises the highest used slot by at most 257.
pub open spec fn fits_base_range(nodes: int) -> bool {
    257 * nodes + 1 <= MAX_BASE && 257 * nodes + 301 < usize::MAX / 4
}

/// Whether slot `idx` is unclaimed.
pub open spec fn slot_free(units: Seq<DaUnit>, idx: int) -> bool {
    idx >= units.len() || units[idx].check == FREE_CHECK
}

/// Whether base `b` leaves every slot a node with these child bytes (and,
/// when terminal, its value slot) needs free.
pub open spec fn base_fits(units: Seq<DaUnit>, b: int, child_bytes: Seq<u8>, need_terminal: bool) -> bool {
    &&& need_terminal ==> slot_free(units, b)
    &&& forall|k: int| 0 <= k < child_bytes.len() ==> slot_free(units, b + child_bytes[k] + 1)
}

/// A node that takes part in the array: it has children or holds a value.
pub open spec fn active(trie: TrieBuilder, n: int) -> bool {
    trie.edges(n).len() > 0 || trie.value(n) != NOT_TERMINAL
}

/// Builder state: the slot array being filled, and the smallest base not
/// yet given out (bases are given out in increasing order, so no two nodes
/// share one).
pub struct DaBuilder {
    pub units: Vec<DaUnit>,
    pub next_base: usize,
}

impl DaBuilder {
    /// A builder with [`INITIAL_UNITS`] free slots.
    pub fn new() -> (r: Self)
        ensures
            r.units@.len() == INITIAL_UNITS,
            forall|i: int| 0 <= i < r.units@.len() ==> r.units@[i].check == FREE_CHECK && r.units@[i].base == 0,
            r.next_base == 1,
    {
        let mut units: Vec<DaUnit> = Vec::new();
        let mut i: usize = 0;
        while i < INITIAL_UNITS
            invariant
                i <= INITIAL_UNITS,
                units@.len() == i,
                forall|k: int| 0 <= k < i ==> units@[k].check == FREE_CHECK && units@[k].base == 0,
            decreases INITIAL_UNITS - i,
        {
            units.push(DaUnit { base: 0, check: FREE_CHECK });
            i += 1;
        }
        DaBuilder { units, next_base: 1 }
    }

    /// Grow the array (doubling) until slot `idx` exists; new slots are free.
    pub fn ensure_capacity(&mut self, idx: usize)
        requires
            old(self).units@.len() >= 1,
            idx < usize::MAX / 4 || idx < old(self).units@.len(),
            old(self).units@.len() <= usize::MAX / 2,
        ensures
            final(self).units@.len() > idx,
            final(self).units@.len() >= old(self).units@.len(),
            final(self).next_base == old(self).next_base,
            final(self).units@.len() <= if idx < old(self).units@.len() { old(self).units@.len() as int } else { 2 * idx + 2 },
            forall|i: int| 0 <= i < old(self).units@.len() ==> final(self).units@[i] == old(self).units@[i],
            forall|i: int| old(self).units@.len() <= i < final(self).units@.len() ==> final(self).units@[i].check == FREE_CHECK,
    {
        let len = self.units.len();
        if idx >= len {
            let mut new_size: usize = len;
            while new_size <= idx
                invariant
                    len <= new_size <= 2 * idx + 2,
                    new_size >= 1,
                    idx < usize::MAX / 4,
                decreases 2 * idx + 2 - new_size,
            {
                new_size = new_size * 2;
            }
            while self.units.len() < new_size
                invariant
                    len <= self.units@.len() <= new_size,
                    forall|i: int| 0 <= i < len ==> self.units@[i] == old(self).units@[i],
                    forall|i: int| len <= i < self.units@.len() ==> self.units@[i].check == FREE_CHECK,
                    self.next_base == old(self).next_base,
                decreases new_size - self.units@.len(),
            {
                self.units.push(DaUnit { base: 0, check: FREE_CHECK });
            }
        }
    }

    /// Whether slot `idx` is unclaimed (slots past the end count as free).
    pub fn is_free(&self, idx: usize) -> (r: bool)
        ensures
            r == slot_free(self.units@, idx as int),
    {
        idx >= self.units.len() || self.units[idx].check == FREE_CHECK
    }

    fn fits(&self, b: usize, child_bytes: &[u8], need_terminal: bool) -> (r: bool)
        requires
            b + 257 < usize::MAX,
        ensures
            r == base_fits(self.units@, b as int, child_bytes@, need_terminal),
    {
        if need_terminal && !self.is_free(b) {
            return false;
        }
        let mut k: usize = 0;
        while k < child_bytes.len()
            invariant
                k <= child_bytes@.len(),
                b + 257 < usize::MAX,
                need_terminal ==> slot_free(self.units@, b as int),
                forall|j: int| 0 <= j < k ==> slot_free(self.units@, b + child_bytes@[j] + 1),
            decreases child_bytes.len() - k,
        {
            let slot: usize = b + child_bytes[k] as usize + 1;
            if !self.is_free(slot) {
                return false;
            }
            k += 1;
        }
        true
    }

    /// The smallest base not below `next_base` whose needed slots are all
    /// free.
    pub fn find_base(&self, child_bytes: &[u8], need_terminal: bool) -> (r: usize)
        requires
            self.units@.len() + 300 < usize::MAX,
            1 <= self.next_base,
            self.next_base + 300 < usize::MAX,
        ensures
            self.next_base <= r,
            r <= if self.units@.len() >= self.next_base { self.units@.len() as int } else { self.next_base as int },
            base_fits(self.units@, r as int, child_bytes@, need_terminal),
            forall|b: int| self.next_base <= b < r ==> !base_fits(self.units@, b, child_bytes@, need_terminal),
    {
        let mut b: usize = self.next_base;
        let ghost limit: int = if self.units@.len() >= self.next_base { self.units@.len() as int } else { self.next_base as int };
        loop
            invariant
                self.next_base <= b <= limit,
                limit == (if self.units@.len() >= self.next_base { self.units@.len() as int } else { self.next_base as int }),
                self.units@.len() + 300 < usize::MAX,
                self.next_base + 300 < usize::MAX,
                forall|b2: int| self.next_base <= b2 < b ==> !base_fits(self.units@, b2, child_bytes@, need_terminal),
            decreases limit - b,
        {
            if self.fits(b, child_bytes, need_terminal) {
                return b;
            }
            proof {
                if b >= self.units@.len() {
                    assert(base_fits(self.units@, b as int, child_bytes@, need_terminal));
                }
            }
            b += 1;
        }
    }
}


/// The facts a processed node `x` has written into the array; for the node
/// being processed (`x == cur`) only its first `kcur` children are placed.
pub open spec fn placed(trie: TrieBuilder, units: Seq<DaUnit>, st: Seq<int>, sl: Seq<int>, bs: Seq<int>, own: Map<int, int>, x: int, kmax: int) -> bool {
    &&& 1 <= bs[x] <= MAX_BASE
    &&& 0 <= sl[x] < units.len()
    &&& units[sl[x]].base == bs[x]
    &&& forall|k: int| 0 <= k < kmax && k < trie.edges(x).len() ==> {
        let m = (#[trigger] trie.edges(x)[k]).1 as int;
        &&& st[m] >= 1
        &&& sl[m] == bs[x] + trie.edges(x)[k].0 + 1
        &&& sl[m] < units.len()
        &&& units[sl[m]].check == bs[x] as u32
    }
    &&& trie.value(x) != NOT_TERMINAL ==> {
        &&& bs[x] < units.len()
        &&& units[bs[x]].check == bs[x] as u32
        &&& units[bs[x]].base == -trie.value(x) - 1
        &&& own.dom().contains(bs[x])
        &&& own[bs[x]] == 2 * x + 1
    }
}

/// Slot ownership: every claimed slot belongs to exactly one node, either as
/// the transition slot of a node (code `2m`) or as the value slot of a
/// terminal node (code `2n + 1`).
pub open spec fn ownership(trie: TrieBuilder, units: Seq<DaUnit>, st: Seq<int>, sl: Seq<int>, bs: Seq<int>, own: Map<int, int>) -> bool {
    let n = trie.len() as int;
    &&& forall|s: int| #[trigger] own.dom().contains(s) ==> 1 <= s < units.len() && units[s].check != FREE_CHECK
    &&& forall|s: int| #[trigger] own.dom().contains(s) && own[s] % 2 == 0 ==> 1 <= own[s] / 2 < n && st[own[s] / 2] >= 1 && sl[own[s] / 2] == s
    &&& forall|s: int| #[trigger] own.dom().contains(s) && own[s] % 2 == 1 ==> 0 <= own[s] / 2 < n && st[own[s] / 2] == 2 && bs[own[s] / 2] == s && trie.value(own[s] / 2) != NOT_TERMINAL
    &&& forall|s: int| 0 <= s < units.len() && (#[trigger] units[s]).check != FREE_CHECK ==> own.dom().contains(s)
    &&& forall|x: int| 1 <= x < n && #[trigger] st[x] >= 1 ==> own.dom().contains(sl[x]) && own[sl[x]] == 2 * x
}

/// Invariant of the breadth-first construction.
pub open spec fn bfs_inv(trie: TrieBuilder, units: Seq<DaUnit>, queue: Seq<(usize, usize)>, head: int,
    st: Seq<int>, sl: Seq<int>, bs: Seq<int>, own: Map<int, int>, seen: Set<int>, qpos: Seq<int>, cur: int, kcur: int) -> bool {
    let n = trie.len() as int;
    &&& trie.wf()
    &&& st.len() == n && sl.len() == n && bs.len() == n && qpos.len() == n
    &&& 1 <= units.len() <= usize::MAX / 2
    &&& 0 <= head <= queue.len()
    &&& seen.finite() && seen.len() == queue.len()
    &&& forall|x: int| #[trigger] seen.contains(x) ==> 0 <= x < n
    &&& forall|x: int| 0 <= x < n ==> (seen.contains(x) <==> #[trigger] st[x] >= 1)
    &&& forall|x: int| 0 <= x < n ==> 0 <= #[trigger] st[x] <= 2
    &&& forall|q: int| 0 <= q < queue.len() ==> (#[trigger] queue[q]).0 < n && qpos[queue[q].0 as int] == q
    &&& forall|q: int| head <= q < queue.len() ==> st[(#[trigger] queue[q]).0 as int] == 1 && sl[queue[q].0 as int] == queue[q].1
    &&& forall|q: int| 0 <= q < head ==> st[(#[trigger] queue[q]).0 as int] == 2
    &&& forall|x: int| 0 <= x < n && st[x] >= 1 ==> 0 <= #[trigger] qpos[x] < queue.len() && queue[qpos[x]].0 == x
    &&& st[0] >= 1 && sl[0] == 0
    &&& forall|x: int| 1 <= x < n && #[trigger] st[x] >= 1 ==> st[trie.parent_of(x)] == 2 && active(trie, trie.parent_of(x))
        && (trie.parent_of(x) == cur ==> trie.edge_of(x) < kcur)
    &&& forall|x: int| 0 <= x < n && #[trigger] st[x] == 2 && active(trie, x) ==> placed(trie, units, st, sl, bs, own, x, if x == cur { kcur } else { trie.edges(x).len() as int })
    &&& ownership(trie, units, st, sl, bs, own)
}

/// The layout the reader relies on: for every node that takes part, its
/// transition slot holds its base, its children's slots are checked against
/// that base, and a terminal node's value slot encodes its value.
pub open spec fn layout_ok(trie: TrieBuilder, units: Seq<DaUnit>, sl: Seq<int>, bs: Seq<int>) -> bool {
    let n = trie.len() as int;
    &&& trie.wf()
    &&& sl.len() == n && bs.len() == n
    &&& sl[0] == 0
    &&& forall|x: int| 0 <= x < n && #[trigger] active(trie, x) ==> {
        &&& 1 <= bs[x] <= MAX_BASE
        &&& 0 <= sl[x] < units.len()
        &&& units[sl[x]].base == bs[x]
        &&& forall|k: int| 0 <= k < trie.edges(x).len() ==> {
            let m = (#[trigger] trie.edges(x)[k]).1 as int;
            &&& sl[m] == bs[x] + trie.edges(x)[k].0 + 1
            &&& sl[m] < units.len()
            &&& units[sl[m]].check == bs[x] as u32
        }
        &&& trie.value(x) != NOT_TERMINAL ==> {
            &&& bs[x] < units.len()
            &&& units[bs[x]].check == bs[x] as u32
            &&& units[bs[x]].base == -trie.value(x) - 1
        }
    }
}

/// The layout together with what makes the reader find nothing else: no two
/// nodes that take part share a base, the slot of a node that takes no part
/// holds base 0, and every claimed slot is owned (code `2m`) as the
/// transition slot of node `m`, or (code `2x + 1`) as the value slot of the
/// terminal node `x`.
pub open spec fn layout_exact(trie: TrieBuilder, units: Seq<DaUnit>, sl: Seq<int>, bs: Seq<int>, own: Map<int, int>) -> bool {
    let n = trie.len() as int;
    &&& layout_ok(trie, units, sl, bs)
    &&& forall|x: int, y: int| 0 <= x < n && 0 <= y < n && active(trie, x) && active(trie, y) && x != y
        ==> #[trigger] bs[x] != #[trigger] bs[y]
    &&& forall|m: int| 0 <= m < n && !active(trie, m) && sl[m] < units.len() ==> 0 <= sl[m] && units[#[trigger] sl[m]].base == 0
    &&& forall|i: int| 0 <= i < units.len() && (#[trigger] units[i]).check != FREE_CHECK ==> own.dom().contains(i)
    &&& forall|i: int| #[trigger] own.dom().contains(i) ==> 1 <= i
    &&& forall|i: int| #[trigger] own.dom().contains(i) && own[i] % 2 == 0 ==> 1 <= own[i] / 2 < n && sl[own[i] / 2] == i
    &&& forall|i: int| #[trigger] own.dom().contains(i) && own[i] % 2 == 1 ==> 0 <= own[i] / 2 < n && bs[own[i] / 2] == i
        && trie.value(own[i] / 2) != NOT_TERMINAL
}

/// Dropping a tail of free slots keeps the exact layout.
pub proof fn lemma_layout_exact_trim(trie: TrieBuilder, units: Seq<DaUnit>, sl: Seq<int>, bs: Seq<int>, own: Map<int, int>, len: int)
    requires
        layout_exact(trie, units, sl, bs, own),
        0 <= len <= units.len(),
        forall|i: int| len <= i < units.len() ==> units[i].check == FREE_CHECK,
    ensures
        layout_exact(trie, units.take(len), sl, bs, own),
{
    lemma_layout_trim(trie, units, sl, bs, len);
    let t = units.take(len);
    assert forall|m: int| 0 <= m < trie.len() && !active(trie, m) && sl[m] < t.len() implies 0 <= sl[m] && t[#[trigger] sl[m]].base == 0 by {
        assert(t[sl[m]] == units[sl[m]]);
    }
    assert forall|i: int| 0 <= i < t.len() && (#[trigger] t[i]).check != FREE_CHECK implies own.dom().contains(i) by {
        assert(t[i] == units[i]);
    }
}

/// A claimed slot whose check is the base of an active node `x` is one of
/// `x`'s own slots: its value slot, or the transition slot along one of its
/// edges.
proof fn lemma_check_owner(trie: TrieBuilder, units: Seq<DaUnit>, sl: Seq<int>, bs: Seq<int>, own: Map<int, int>, x: int, p: int)
    requires
        layout_exact(trie, units, sl, bs, own),
        0 <= x < trie.len(),
        active(trie, x),
        0 <= p < units.len(),
        units[p].check == bs[x] as u32,
    ensures
        (p == bs[x] && trie.value(x) != NOT_TERMINAL)
            || exists|e: int| 0 <= e < trie.edges(x).len() && p == bs[x] + (#[trigger] trie.edges(x)[e]).0 + 1,
{
    assert(units[p].check != FREE_CHECK);
    assert(own.dom().contains(p));
    let code = own[p];
    if code % 2 == 0 {
        let m = code / 2;
        trie.lemma_parent(m);
        let q = trie.parent_of(m);
        let e = trie.edge_of(m);
        assert(trie.edges(q)[e].1 == m);
        assert(active(trie, q));
        assert(sl[m] == bs[q] + trie.edges(q)[e].0 + 1);
        assert(units[sl[m]].check == bs[q] as u32);
        assert(bs[q] == bs[x]);
        assert(q == x);
    } else {
        let y = code / 2;
        assert(active(trie, y));
        assert(units[bs[y]].check == bs[y] as u32);
        assert(bs[y] == bs[x]);
        assert(y == x);
    }
}

/// No claimed slot has the check 0: checks are bases, which are positive.
proof fn lemma_no_zero_check(trie: TrieBuilder, units: Seq<DaUnit>, sl: Seq<int>, bs: Seq<int>, own: Map<int, int>, p: int)
    requires
        layout_exact(trie, units, sl, bs, own),
        0 <= p < units.len(),
    ensures
        units[p].check != 0,
{
    if units[p].check != FREE_CHECK {
        assert(own.dom().contains(p));
        let code = own[p];
        if code % 2 == 0 {
            let m = code / 2;
            trie.lemma_parent(m);
            let q = trie.parent_of(m);
            let e = trie.edge_of(m);
            assert(trie.edges(q)[e].1 == m);
            assert(active(trie, q));
            assert(units[sl[m]].check == bs[q] as u32);
        } else {
            let y = code / 2;
            assert(active(trie, y));
            assert(units[bs[y]].check == bs[y] as u32);
        }
    }
}

/// The reader's walk follows the trie exactly: it reaches a base for a key
/// exactly when the key has a node, and the base is the node's (0 for a
/// node that takes no part).
pub proof fn lemma_exact_walk(trie: TrieBuilder, units: Seq<DaUnit>, sl: Seq<int>, bs: Seq<int>, own: Map<int, int>, key: Seq<u8>)
    requires
        layout_exact(trie, units, sl, bs, own),
        units.len() > 0,
    ensures
        match da_walk(units, units[0].base as int, key) {
            Some(b) => trie.has_node(key) && 0 <= trie.node_of(key) < trie.len()
                && b == (if active(trie, trie.node_of(key)) { bs[trie.node_of(key)] } else { 0 }),
            None => !trie.has_node(key),
        },
    decreases key.len(),
{
    trie.lemma_root();
    if key.len() == 0 {
        trie.lemma_root_node();
        assert(key =~= Seq::<u8>::empty());
    } else {
        let k = key.drop_last();
        let c = key.last();
        assert(k.push(c) =~= key);
        lemma_exact_walk(trie, units, sl, bs, own, k);
        match da_walk(units, units[0].base as int, k) {
            None => {
                if trie.has_node(key) {
                    trie.lemma_prefix(key);
                }
            },
            Some(b) => {
                trie.lemma_step(k, c);
                let x = trie.node_of(k);
                let p = b + c + 1;
                if active(trie, x) {
                    if exists|e: int| 0 <= e < trie.edges(x).len() && (#[trigger] trie.edges(x)[e]).0 == c {
                        let e = choose|e: int| 0 <= e < trie.edges(x).len() && (#[trigger] trie.edges(x)[e]).0 == c;
                        let m = trie.edges(x)[e].1 as int;
                        trie.lemma_edge(x, e);
                        assert(sl[m] == p);
                        assert(units[p].check == b as u32);
                        if active(trie, m) {
                            assert(units[sl[m]].base == bs[m]);
                        }
                    } else {
                        if 0 <= p < units.len() && units[p].check == b as u32 {
                            lemma_check_owner(trie, units, sl, bs, own, x, p);
                            if p != bs[x] || trie.value(x) == NOT_TERMINAL {
                                let e = choose|e: int| 0 <= e < trie.edges(x).len() && p == bs[x] + (#[trigger] trie.edges(x)[e]).0 + 1;
                                assert(trie.edges(x)[e].0 == c);
                            }
                        }
                    }
                } else {
                    assert(trie.edges(x).len() == 0);
                    if 0 <= p < units.len() {
                        lemma_no_zero_check(trie, units, sl, bs, own, p);
                    }
                }
            },
        }
    }
}

/// The law of the finished array: the reader finds a key exactly when the
/// trie holds it with a non-negative value, and then finds that value.
pub proof fn lemma_exact_lookup(trie: TrieBuilder, units: Seq<DaUnit>, sl: Seq<int>, bs: Seq<int>, own: Map<int, int>, key: Seq<u8>)
    requires
        layout_exact(trie, units, sl, bs, own),
    ensures
        da_lookup(units, key) == (if trie.get(key) is Some && trie.get(key)->0 >= 0 { Some(trie.get(key)->0 as int) } else { None }),
{
    if trie.get(key) is Some {
        trie.lemma_get_node(key);
        assert(active(trie, trie.node_of(key)));
    }
    if units.len() > 0 {
        lemma_exact_walk(trie, units, sl, bs, own, key);
        match da_walk(units, units[0].base as int, key) {
            Some(b) => {
                let x = trie.node_of(key);
                if active(trie, x) {
                    if trie.value(x) == NOT_TERMINAL && 0 <= b < units.len() && units[b].check == b as u32 {
                        lemma_check_owner(trie, units, sl, bs, own, x, b);
                    }
                } else {
                    lemma_no_zero_check(trie, units, sl, bs, own, 0);
                }
            },
            None => {},
        }
    }
}

/// A slot the construction has not claimed is not the transition slot of a
/// queued or placed node.
proof fn lemma_free_slot_unowned(trie: TrieBuilder, units: Seq<DaUnit>, queue: Seq<(usize, usize)>, head: int,
    st: Seq<int>, sl: Seq<int>, bs: Seq<int>, own: Map<int, int>, seen: Set<int>, qpos: Seq<int>, cur: int, kcur: int, w: int)
    requires
        bfs_inv(trie, units, queue, head, st, sl, bs, own, seen, qpos, cur, kcur),
        slot_free(units, w),
        1 <= w,
    ensures
        forall|m: int| 0 <= m < trie.len() && #[trigger] st[m] >= 1 ==> sl[m] != w,
{
    assert forall|m: int| 0 <= m < trie.len() && #[trigger] st[m] >= 1 implies sl[m] != w by {
        if m >= 1 {
            assert(own.dom().contains(sl[m]));
        }
    }
}

/// Distinct queued or placed nodes have distinct transition slots.
proof fn lemma_slots_distinct(trie: TrieBuilder, units: Seq<DaUnit>, queue: Seq<(usize, usize)>, head: int,
    st: Seq<int>, sl: Seq<int>, bs: Seq<int>, own: Map<int, int>, seen: Set<int>, qpos: Seq<int>, cur: int, kcur: int, a: int)
    requires
        bfs_inv(trie, units, queue, head, st, sl, bs, own, seen, qpos, cur, kcur),
        0 <= a < trie.len(),
        st[a] >= 1,
    ensures
        forall|m: int| 0 <= m < trie.len() && #[trigger] st[m] >= 1 && m != a ==> sl[m] != sl[a],
{
    assert forall|m: int| 0 <= m < trie.len() && #[trigger] st[m] >= 1 && m != a implies sl[m] != sl[a] by {
        if m >= 1 {
            assert(own.dom().contains(sl[m]) && own[sl[m]] == 2 * m);
        }
        if a >= 1 {
            assert(own.dom().contains(sl[a]) && own[sl[a]] == 2 * a);
        }
    }
}

/// Following the path of an active node from the root base reaches the
/// node's base.
pub proof fn lemma_layout_walk(trie: TrieBuilder, units: Seq<DaUnit>, sl: Seq<int>, bs: Seq<int>, x: int)
    requires
        layout_ok(trie, units, sl, bs),
        0 <= x < trie.len(),
        active(trie, x),
    ensures
        units.len() > 0,
        da_walk(units, units[0].base as int, trie.path(x)) == Some(bs[x]),
    decreases trie.path(x).len(),
{
    trie.lemma_root();
    if x == 0 {
        assert(trie.path(0).len() == 0);
    } else {
        trie.lemma_parent(x);
        let p = trie.parent_of(x);
        let e = trie.edge_of(x);
        assert(trie.edges(p)[e].1 == x);
        assert(active(trie, p));
        lemma_layout_walk(trie, units, sl, bs, p);
        assert(trie.path(x).drop_last() == trie.path(p));
        let c = trie.edges(p)[e].0;
        assert(c == trie.path(x).last());
        assert(sl[x] == bs[p] + c + 1);
    }
}

/// The law of the double array: every key stored in the trie with a
/// non-negative value is found by the reader with that value.
pub proof fn lemma_layout_lookup(trie: TrieBuilder, units: Seq<DaUnit>, sl: Seq<int>, bs: Seq<int>, key: Seq<u8>)
    requires
        layout_ok(trie, units, sl, bs),
        trie.get(key) matches Some(v) && v >= 0,
    ensures
        da_lookup(units, key) == Some(trie.get(key)->0 as int),
{
    let x = trie.node_of(key);
    trie.lemma_get_node(key);
    assert(active(trie, x));
    lemma_layout_walk(trie, units, sl, bs, x);
}

/// Dropping a tail of free slots keeps the layout.
pub proof fn lemma_layout_trim(trie: TrieBuilder, units: Seq<DaUnit>, sl: Seq<int>, bs: Seq<int>, len: int)
    requires
        layout_ok(trie, units, sl, bs),
        0 <= len <= units.len(),
        forall|i: int| len <= i < units.len() ==> units[i].check == FREE_CHECK,
    ensures
        layout_ok(trie, units.take(len), sl, bs),
{
    let t = units.take(len);
    assert forall|x: int| 0 <= x < trie.len() && #[trigger] active(trie, x) implies {
        &&& 1 <= bs[x] <= MAX_BASE
        &&& 0 <= sl[x] < t.len()
        &&& t[sl[x]].base == bs[x]
        &&& forall|k: int| 0 <= k < trie.edges(x).len() ==> {
            let m = (#[trigger] trie.edges(x)[k]).1 as int;
            &&& sl[m] == bs[x] + trie.edges(x)[k].0 + 1
            &&& sl[m] < t.len()
            &&& t[sl[m]].check == bs[x] as u32
        }
        &&& trie.value(x) != NOT_TERMINAL ==> {
            &&& bs[x] < t.len()
            &&& t[bs[x]].check == bs[x] as u32
            &&& t[bs[x]].base == -trie.value(x) - 1
        }
    } by {
        if x == 0 {
            if trie.edges(0).len() > 0 {
                let m = trie.edges(0)[0].1 as int;
                assert(units[sl[m]].check == bs[0] as u32);
                assert(sl[m] < len);
            } else {
                assert(units[bs[0]].check == bs[0] as u32);
                assert(bs[0] < len);
            }
        } else {
            trie.lemma_parent(x);
            let p = trie.parent_of(x);
            let e = trie.edge_of(x);
            assert(trie.edges(p)[e].1 == x);
            assert(active(trie, p));
            assert(units[sl[x]].check == bs[p] as u32);
        }
        assert forall|k: int| 0 <= k < trie.edges(x).len() implies {
            let m = (#[trigger] trie.edges(x)[k]).1 as int;
            &&& sl[m] == bs[x] + trie.edges(x)[k].0 + 1
            &&& sl[m] < t.len()
            &&& t[sl[m]].check == bs[x] as u32
        } by {
            let m = trie.edges(x)[k].1 as int;
            assert(units[sl[m]].check == bs[x] as u32);
        }
        if trie.value(x) != NOT_TERMINAL {
            assert(units[bs[x]].check == bs[x] as u32);
        }
    }
}


/// Processing node `nd` at slot `s` with base `b`: writing the node's base and
/// (when terminal) its value slot keeps the invariant, with none of the
/// node's children placed yet.
proof fn lemma_node_step(trie: TrieBuilder, u0: Seq<DaUnit>, u1: Seq<DaUnit>, queue: Seq<(usize, usize)>, head: int,
    st: Seq<int>, sl: Seq<int>, bs: Seq<int>, own: Map<int, int>, seen: Set<int>, qpos: Seq<int>, nd: int, s: int, b: int, child_bytes: Seq<u8>)
    requires
        bfs_inv(trie, u0, queue, head - 1, st, sl, bs, own, seen, qpos, -1, 0),
        1 <= head <= queue.len(),
        queue[head - 1].0 == nd,
        queue[head - 1].1 == s,
        active(trie, nd),
        1 <= b <= MAX_BASE,
        b < usize::MAX / 4 - 300,
        child_bytes.len() == trie.edges(nd).len(),
        forall|j: int| 0 <= j < child_bytes.len() ==> child_bytes[j] == trie.edges(nd)[j].0,
        base_fits(u0, b, child_bytes, trie.value(nd) != NOT_TERMINAL),
        u0.len() <= u1.len() <= usize::MAX / 2,
        s < u0.len(),
        u1[s] == (DaUnit { base: b as i32, check: u0[s].check }),
        trie.value(nd) != NOT_TERMINAL ==> b < u1.len() && u1[b] == (DaUnit { base: (-trie.value(nd) - 1) as i32, check: b as u32 }),
        forall|i: int| 0 <= i < u0.len() && i != s && !(trie.value(nd) != NOT_TERMINAL && i == b) ==> u1[i] == u0[i],
        forall|i: int| u0.len() <= i < u1.len() && !(trie.value(nd) != NOT_TERMINAL && i == b) ==> u1[i].check == FREE_CHECK,
    ensures
        bfs_inv(trie, u1, queue, head, st.update(nd, 2), sl, bs.update(nd, b),
            if trie.value(nd) != NOT_TERMINAL { own.insert(b, 2 * nd + 1) } else { own }, seen, qpos, nd, 0),
        forall|j: int| 0 <= j < child_bytes.len() ==> slot_free(u1, b + child_bytes[j] + 1),
        forall|j: int| 0 <= j < trie.edges(nd).len() ==> st[trie.edges(nd)[j].1 as int] == 0,
        forall|j: int| 0 <= j < trie.edges(nd).len() ==> st.update(nd, 2)[trie.edges(nd)[j].1 as int] == 0,
{
    let n = trie.len() as int;
    let term = trie.value(nd) != NOT_TERMINAL;
    let st1 = st.update(nd, 2);
    let bs1 = bs.update(nd, b);
    let own1 = if term { own.insert(b, 2 * nd + 1) } else { own };
    assert(st[queue[head - 1].0 as int] == 1);
    assert(st[nd] == 1);
    assert(sl[nd] == s);
    // the node's own slot is not a free slot, and is owned by it (or is the root slot)
    if nd != 0 {
        assert(own.dom().contains(s) && own[s] == 2 * nd);
    }
    assert(!own.dom().contains(0));
    if term {
        assert(slot_free(u0, b));
        assert(!own.dom().contains(b));
        assert(b != s);
    }
    // children are unplaced
    assert forall|j: int| 0 <= j < trie.edges(nd).len() implies st[trie.edges(nd)[j].1 as int] == 0 by {
        trie.lemma_edge(nd, j);
        let m = trie.edges(nd)[j].1 as int;
        if st[m] >= 1 {
            assert(st[trie.parent_of(m)] == 2);
        }
        assert(trie.path(m).len() == trie.path(nd).len() + 1);
        assert(m != nd);
    }
    assert forall|j: int| 0 <= j < trie.edges(nd).len() implies st.update(nd, 2)[trie.edges(nd)[j].1 as int] == 0 by {
        trie.lemma_edge(nd, j);
        let m = trie.edges(nd)[j].1 as int;
        assert(trie.path(m).len() == trie.path(nd).len() + 1);
        assert(m != nd);
    }
    assert forall|j: int| 0 <= j < child_bytes.len() implies slot_free(u1, b + child_bytes[j] + 1) by {
        let t = b + child_bytes[j] + 1;
        assert(slot_free(u0, t));
        if t < u0.len() {
            assert(!own.dom().contains(t));
            if nd != 0 {
                assert(t != s);
            }
        }
    }
    // ownership
    assert forall|sx: int| #[trigger] own1.dom().contains(sx) implies 1 <= sx < u1.len() && u1[sx].check != FREE_CHECK by {
        if !(term && sx == b) {
            assert(own.dom().contains(sx));
            if sx == s {
                assert(u1[s].check == u0[s].check);
            }
        }
    }
    assert forall|sx: int| 0 <= sx < u1.len() && (#[trigger] u1[sx]).check != FREE_CHECK implies own1.dom().contains(sx) by {
        if !(term && sx == b) {
            if sx < u0.len() {
                if sx != s {
                    assert(u1[sx] == u0[sx]);
                } else {
                    assert(u1[s].check == u0[s].check);
                }
                assert(own.dom().contains(sx));
            }
        }
    }
    assert forall|sx: int| #[trigger] own1.dom().contains(sx) && own1[sx] % 2 == 1 implies 0 <= own1[sx] / 2 < n && st1[own1[sx] / 2] == 2 && bs1[own1[sx] / 2] == sx && trie.value(own1[sx] / 2) != NOT_TERMINAL by {
        if !(term && sx == b) {
            let o = own[sx] / 2;
            assert(st[o] == 2);
            assert(o != nd);
        }
    }
    assert forall|sx: int| #[trigger] own1.dom().contains(sx) && own1[sx] % 2 == 0 implies 1 <= own1[sx] / 2 < n && st1[own1[sx] / 2] >= 1 && sl[own1[sx] / 2] == sx by {
    }
    assert forall|x: int| 1 <= x < n && #[trigger] st1[x] >= 1 implies own1.dom().contains(sl[x]) && own1[sl[x]] == 2 * x by {
        assert(own.dom().contains(sl[x]) && own[sl[x]] == 2 * x);
        if term {
            assert(sl[x] != b);
        }
    }
    assert(ownership(trie, u1, st1, sl, bs1, own1));
    // queue facts
    assert forall|q: int| 0 <= q < head implies st1[(#[trigger] queue[q]).0 as int] == 2 by {
        if q < head - 1 {
        }
    }
    assert forall|q: int| head <= q < queue.len() implies st1[(#[trigger] queue[q]).0 as int] == 1 && sl[queue[q].0 as int] == queue[q].1 by {
        assert(qpos[queue[q].0 as int] == q);
        assert(qpos[nd] == head - 1);
        assert(queue[q].0 != nd);
    }
    assert forall|x: int| 1 <= x < n && #[trigger] st1[x] >= 1 implies st1[trie.parent_of(x)] == 2 && active(trie, trie.parent_of(x)) && (trie.parent_of(x) == nd ==> trie.edge_of(x) < 0) by {
        assert(st[x] >= 1);
        trie.lemma_parent(x);
        assert(st[trie.parent_of(x)] == 2);
    }
    // placed facts for done nodes
    assert forall|x: int| 0 <= x < n && #[trigger] st1[x] == 2 && active(trie, x) implies placed(trie, u1, st1, sl, bs1, own1, x, if x == nd { 0 } else { trie.edges(x).len() as int }) by {
        if x == nd {
            if term {
                assert(own1.dom().contains(b));
            }
        } else {
            assert(st[x] == 2);
            assert(placed(trie, u0, st, sl, bs, own, x, trie.edges(x).len() as int));
            assert(sl[x] != s) by {
                if x != 0 {
                    assert(own.dom().contains(sl[x]) && own[sl[x]] == 2 * x);
                }
            }
            if term {
                assert(sl[x] != b) by {
                    if x != 0 {
                        assert(own.dom().contains(sl[x]));
                    }
                }
            }
            assert forall|k: int| 0 <= k < trie.edges(x).len() implies {
                let m = (#[trigger] trie.edges(x)[k]).1 as int;
                &&& st1[m] >= 1
                &&& sl[m] == bs1[x] + trie.edges(x)[k].0 + 1
                &&& sl[m] < u1.len()
                &&& u1[sl[m]].check == bs1[x] as u32
            } by {
                let m = trie.edges(x)[k].1 as int;
                trie.lemma_edge(x, k);
                assert(st[m] >= 1);
                assert(own.dom().contains(sl[m]) && own[sl[m]] == 2 * m);
                if term {
                    assert(sl[m] != b);
                }
                if sl[m] == s {
                    assert(u1[s].check == u0[s].check);
                } else {
                    assert(u1[sl[m]] == u0[sl[m]]);
                }
            }
            if trie.value(x) != NOT_TERMINAL {
                assert(own.dom().contains(bs[x]) && own[bs[x]] == 2 * x + 1);
                if nd != 0 {
                    assert(bs[x] != s);
                }
                if term {
                    assert(bs[x] != b);
                }
            }
        }
    }
}

/// A node with no children and no value is marked processed without being
/// placed.
proof fn lemma_skip_node(trie: TrieBuilder, units: Seq<DaUnit>, queue: Seq<(usize, usize)>, head: int,
    st: Seq<int>, sl: Seq<int>, bs: Seq<int>, own: Map<int, int>, seen: Set<int>, qpos: Seq<int>, nd: int)
    requires
        bfs_inv(trie, units, queue, head - 1, st, sl, bs, own, seen, qpos, -1, 0),
        1 <= head <= queue.len(),
        queue[head - 1].0 == nd,
        !active(trie, nd),
    ensures
        bfs_inv(trie, units, queue, head, st.update(nd, 2), sl, bs, own, seen, qpos, -1, 0),
{
    let n = trie.len() as int;
    let st1 = st.update(nd, 2);
    assert(st[queue[head - 1].0 as int] == 1);
    assert forall|q: int| 0 <= q < head implies st1[(#[trigger] queue[q]).0 as int] == 2 by {
    }
    assert forall|q: int| head <= q < queue.len() implies st1[(#[trigger] queue[q]).0 as int] == 1 && sl[queue[q].0 as int] == queue[q].1 by {
        assert(qpos[queue[q].0 as int] == q);
        assert(qpos[nd] == head - 1);
        assert(queue[q].0 != nd);
    }
    assert forall|x: int| 1 <= x < n && #[trigger] st1[x] >= 1 implies st1[trie.parent_of(x)] == 2 && active(trie, trie.parent_of(x)) && (trie.parent_of(x) == -1 ==> trie.edge_of(x) < 0) by {
        trie.lemma_parent(x);
        assert(st[x] >= 1);
    }
    assert forall|x: int| 0 <= x < n && #[trigger] st1[x] == 2 && active(trie, x) implies placed(trie, units, st1, sl, bs, own, x, trie.edges(x).len() as int) by {
        assert(x != nd);
        assert(placed(trie, units, st, sl, bs, own, x, trie.edges(x).len() as int));
        assert forall|k: int| 0 <= k < trie.edges(x).len() implies st1[(#[trigger] trie.edges(x)[k]).1 as int] >= 1 by {
            trie.lemma_edge(x, k);
            assert(st[trie.edges(x)[k].1 as int] >= 1);
        }
    }
    assert forall|sx: int| #[trigger] own.dom().contains(sx) && own[sx] % 2 == 1 implies 0 <= own[sx] / 2 < n && st1[own[sx] / 2] == 2 && bs[own[sx] / 2] == sx && trie.value(own[sx] / 2) != NOT_TERMINAL by {
    }
    assert forall|sx: int| #[trigger] own.dom().contains(sx) && own[sx] % 2 == 0 implies 1 <= own[sx] / 2 < n && st1[own[sx] / 2] >= 1 && sl[own[sx] / 2] == sx by {
    }
    assert forall|x: int| 1 <= x < n && #[trigger] st1[x] >= 1 implies own.dom().contains(sl[x]) && own[sl[x]] == 2 * x by {
        assert(st[x] >= 1);
    }
    assert(ownership(trie, units, st1, sl, bs, own));
}

/// Placing the `k`-th child of `nd` at slot `b + c + 1` keeps the invariant
/// with one more child placed.
proof fn lemma_child_step(trie: TrieBuilder, u0: Seq<DaUnit>, u1: Seq<DaUnit>, q0: Seq<(usize, usize)>, q1: Seq<(usize, usize)>, head: int,
    st: Seq<int>, sl: Seq<int>, bs: Seq<int>, own: Map<int, int>, seen: Set<int>, qpos: Seq<int>, nd: int, k: int, b: int, child_bytes: Seq<u8>)
    requires
        bfs_inv(trie, u0, q0, head, st, sl, bs, own, seen, qpos, nd, k),
        0 <= nd < trie.len(),
        0 <= k < trie.edges(nd).len(),
        1 <= b <= MAX_BASE,
        child_bytes.len() == trie.edges(nd).len(),
        forall|j: int| 0 <= j < child_bytes.len() ==> child_bytes[j] == trie.edges(nd)[j].0,
        forall|j: int| k <= j < child_bytes.len() ==> slot_free(u0, b + child_bytes[j] + 1),
        forall|j: int| k <= j < trie.edges(nd).len() ==> st[trie.edges(nd)[j].1 as int] == 0,
        st[nd] == 2,
        bs[nd] == b,
        ({
            let slot = b + trie.edges(nd)[k].0 + 1;
            &&& u0.len() <= u1.len() <= usize::MAX / 2
            &&& slot < u1.len()
            &&& u1[slot] == (DaUnit { base: 0, check: b as u32 })
            &&& forall|i: int| 0 <= i < u0.len() && i != slot ==> u1[i] == u0[i]
            &&& forall|i: int| u0.len() <= i < u1.len() && i != slot ==> u1[i].check == FREE_CHECK
            &&& q1 == q0.push((trie.edges(nd)[k].1, slot as usize))
        }),
    ensures
        ({
            let m = trie.edges(nd)[k].1 as int;
            let slot = b + trie.edges(nd)[k].0 + 1;
            &&& bfs_inv(trie, u1, q1, head, st.update(m, 1), sl.update(m, slot), bs, own.insert(slot, 2 * m), seen.insert(m), qpos.update(m, q1.len() - 1), nd, k + 1)
            &&& forall|j: int| k + 1 <= j < child_bytes.len() ==> slot_free(u1, b + child_bytes[j] + 1)
            &&& forall|j: int| k + 1 <= j < trie.edges(nd).len() ==> st.update(m, 1)[trie.edges(nd)[j].1 as int] == 0
        }),
{
    let n = trie.len() as int;
    let m = trie.edges(nd)[k].1 as int;
    let c = trie.edges(nd)[k].0;
    let slot = b + c + 1;
    trie.lemma_edge(nd, k);
    let st1 = st.update(m, 1);
    let sl1 = sl.update(m, slot);
    let own1 = own.insert(slot, 2 * m);
    let seen1 = seen.insert(m);
    let qpos1 = qpos.update(m, q1.len() - 1);
    assert(child_bytes[k] == c);
    assert(st[m] == 0);
    lemma_int_range(0, n);
    assert(seen.subset_of(set_int_range(0, n).remove(m)));
    lemma_len_subset(seen, set_int_range(0, n).remove(m));
    assert(!seen.contains(m));
    assert(slot_free(u0, slot));
    assert(!own.dom().contains(slot));
    assert(m != nd);
    assert(m != 0);
    // later children: slots still free, still unplaced
    assert forall|j: int| k + 1 <= j < child_bytes.len() implies slot_free(u1, b + child_bytes[j] + 1) by {
        trie.lemma_edge(nd, j);
        assert(child_bytes[j] != c);
    }
    assert forall|j: int| k + 1 <= j < trie.edges(nd).len() implies st1[trie.edges(nd)[j].1 as int] == 0 by {
        trie.lemma_edge(nd, j);
    }
    // ownership
    assert forall|sx: int| #[trigger] own1.dom().contains(sx) implies 1 <= sx < u1.len() && u1[sx].check != FREE_CHECK by {
        if sx != slot {
            assert(own.dom().contains(sx));
        }
    }
    assert forall|sx: int| 0 <= sx < u1.len() && (#[trigger] u1[sx]).check != FREE_CHECK implies own1.dom().contains(sx) by {
        if sx != slot && sx < u0.len() {
            assert(u1[sx] == u0[sx]);
        }
    }
    assert forall|sx: int| #[trigger] own1.dom().contains(sx) && own1[sx] % 2 == 1 implies 0 <= own1[sx] / 2 < n && st1[own1[sx] / 2] == 2 && bs[own1[sx] / 2] == sx && trie.value(own1[sx] / 2) != NOT_TERMINAL by {
        if sx != slot {
            assert(own.dom().contains(sx));
            assert(st[own[sx] / 2] == 2);
        }
    }
    assert forall|sx: int| #[trigger] own1.dom().contains(sx) && own1[sx] % 2 == 0 implies 1 <= own1[sx] / 2 < n && st1[own1[sx] / 2] >= 1 && sl1[own1[sx] / 2] == sx by {
        if sx != slot {
            assert(own.dom().contains(sx));
            let o = own[sx] / 2;
            assert(st[o] >= 1);
            assert(o != m);
        }
    }
    assert forall|x: int| 1 <= x < n && #[trigger] st1[x] >= 1 implies own1.dom().contains(sl1[x]) && own1[sl1[x]] == 2 * x by {
        if x != m {
            assert(st[x] >= 1);
            assert(own.dom().contains(sl[x]));
            assert(sl[x] != slot);
        }
    }
    assert(ownership(trie, u1, st1, sl1, bs, own1));
    // seen / queue bookkeeping
    assert(seen1.len() == q1.len());
    assert forall|x: int| 0 <= x < n implies (seen1.contains(x) <==> #[trigger] st1[x] >= 1) by {
    }
    assert forall|q: int| 0 <= q < q1.len() implies (#[trigger] q1[q]).0 < n && qpos1[q1[q].0 as int] == q by {
        if q < q0.len() {
            assert(q1[q] == q0[q]);
            assert(st[q0[q].0 as int] >= 1) by {
                assert(qpos[q0[q].0 as int] == q);
                if q < head {
                } else {
                }
            }
            assert(q0[q].0 != m);
        }
    }
    assert forall|q: int| head <= q < q1.len() implies st1[(#[trigger] q1[q]).0 as int] == 1 && sl1[q1[q].0 as int] == q1[q].1 by {
        if q < q0.len() {
            assert(q1[q] == q0[q]);
            assert(q0[q].0 != m);
        }
    }
    assert forall|q: int| 0 <= q < head implies st1[(#[trigger] q1[q]).0 as int] == 2 by {
        assert(q1[q] == q0[q]);
        assert(q0[q].0 != m);
    }
    assert forall|x: int| 0 <= x < n && st1[x] >= 1 implies 0 <= #[trigger] qpos1[x] < q1.len() && q1[qpos1[x]].0 == x by {
        if x != m {
            assert(q1[qpos[x]] == q0[qpos[x]]);
        }
    }
    assert forall|x: int| 1 <= x < n && #[trigger] st1[x] >= 1 implies st1[trie.parent_of(x)] == 2 && active(trie, trie.parent_of(x)) && (trie.parent_of(x) == nd ==> trie.edge_of(x) < k + 1) by {
        if x != m {
            assert(st[x] >= 1);
            trie.lemma_parent(x);
        } else {
            assert(trie.edges(nd).len() > 0);
        }
    }
    assert forall|x: int| 0 <= x < n && #[trigger] st1[x] == 2 && active(trie, x) implies placed(trie, u1, st1, sl1, bs, own1, x, if x == nd { k + 1 } else { trie.edges(x).len() as int }) by {
        assert(x != m);
        assert(st[x] == 2);
        let km = if x == nd { k } else { trie.edges(x).len() as int };
        assert(placed(trie, u0, st, sl, bs, own, x, km));
        assert(sl[x] != slot) by {
            if x != 0 {
                assert(own.dom().contains(sl[x]));
            }
        }
        assert(sl1[x] == sl[x]);
        assert forall|kk: int| 0 <= kk < (if x == nd { k + 1 } else { trie.edges(x).len() as int }) && kk < trie.edges(x).len() implies {
            let mm = (#[trigger] trie.edges(x)[kk]).1 as int;
            &&& st1[mm] >= 1
            &&& sl1[mm] == bs[x] + trie.edges(x)[kk].0 + 1
            &&& sl1[mm] < u1.len()
            &&& u1[sl1[mm]].check == bs[x] as u32
        } by {
            let mm = trie.edges(x)[kk].1 as int;
            trie.lemma_edge(x, kk);
            if x == nd && kk == k {
            } else {
                assert(st[mm] >= 1);
                assert(mm != m) by {
                    if x == nd {
                        assert(trie.edges(nd)[kk].0 != trie.edges(nd)[k].0);
                    } else {
                        assert(trie.parent_of(m) == nd);
                    }
                }
                assert(own.dom().contains(sl[mm]));
                assert(sl[mm] != slot);
            }
        }
        if trie.value(x) != NOT_TERMINAL {
            assert(own.dom().contains(bs[x]));
            assert(bs[x] != slot);
        }
    }
}

/// After the last child of `nd` is placed, `nd` is an ordinary processed node.
proof fn lemma_node_finished(trie: TrieBuilder, units: Seq<DaUnit>, queue: Seq<(usize, usize)>, head: int,
    st: Seq<int>, sl: Seq<int>, bs: Seq<int>, own: Map<int, int>, seen: Set<int>, qpos: Seq<int>, nd: int)
    requires
        0 <= nd < trie.len(),
        bfs_inv(trie, units, queue, head, st, sl, bs, own, seen, qpos, nd, trie.edges(nd).len() as int),
    ensures
        bfs_inv(trie, units, queue, head, st, sl, bs, own, seen, qpos, -1, 0),
{
    assert forall|x: int| 1 <= x < trie.len() && #[trigger] st[x] >= 1 implies st[trie.parent_of(x)] == 2 && active(trie, trie.parent_of(x)) && (trie.parent_of(x) == -1 ==> trie.edge_of(x) < 0) by {
        trie.lemma_parent(x);
    }
}

/// When the queue is exhausted every node has been processed and the array
/// has the reader's layout.
proof fn lemma_bfs_done(trie: TrieBuilder, units: Seq<DaUnit>, queue: Seq<(usize, usize)>, head: int,
    st: Seq<int>, sl: Seq<int>, bs: Seq<int>, own: Map<int, int>, seen: Set<int>, qpos: Seq<int>)
    requires
        bfs_inv(trie, units, queue, head, st, sl, bs, own, seen, qpos, -1, 0),
        head == queue.len(),
    ensures
        layout_ok(trie, units, sl, bs),
{
    assert forall|x: int| 0 <= x < trie.len() implies #[trigger] st[x] == 2 by {
        lemma_all_done(trie, units, queue, head, st, sl, bs, own, seen, qpos, x);
    }
    assert forall|x: int| 0 <= x < trie.len() && #[trigger] active(trie, x) implies {
        &&& 1 <= bs[x] <= MAX_BASE
        &&& 0 <= sl[x] < units.len()
        &&& units[sl[x]].base == bs[x]
        &&& forall|k: int| 0 <= k < trie.edges(x).len() ==> {
            let m = (#[trigger] trie.edges(x)[k]).1 as int;
            &&& sl[m] == bs[x] + trie.edges(x)[k].0 + 1
            &&& sl[m] < units.len()
            &&& units[sl[m]].check == bs[x] as u32
        }
        &&& trie.value(x) != NOT_TERMINAL ==> {
            &&& bs[x] < units.len()
            &&& units[bs[x]].check == bs[x] as u32
            &&& units[bs[x]].base == -trie.value(x) - 1
        }
    } by {
        assert(st[x] == 2);
        assert(placed(trie, units, st, sl, bs, own, x, trie.edges(x).len() as int));
    }
}

proof fn lemma_all_done(trie: TrieBuilder, units: Seq<DaUnit>, queue: Seq<(usize, usize)>, head: int,
    st: Seq<int>, sl: Seq<int>, bs: Seq<int>, own: Map<int, int>, seen: Set<int>, qpos: Seq<int>, x: int)
    requires
        bfs_inv(trie, units, queue, head, st, sl, bs, own, seen, qpos, -1, 0),
        head == queue.len(),
        0 <= x < trie.len(),
    ensures
        st[x] == 2,
    decreases trie.path(x).len(),
{
    if x != 0 {
        trie.lemma_parent(x);
        let p = trie.parent_of(x);
        lemma_all_done(trie, units, queue, head, st, sl, bs, own, seen, qpos, p);
        let e = trie.edge_of(x);
        assert(trie.edges(p)[e].1 == x);
        assert(active(trie, p));
        assert(placed(trie, units, st, sl, bs, own, p, trie.edges(p).len() as int));
        assert(st[x] >= 1);
    }
    assert(st[x] >= 1);
    let q = qpos[x];
    assert(queue[q].0 == x);
    assert(st[queue[q].0 as int] == 2);
}

impl DaBuilder {
    /// Place every node of `trie`, parents before children, each at the
    /// smallest base above those already given out whose slots are free.
    ///
    /// Fails only when a base would not fit the 32-bit `base` field, that is
    /// when the array would need more than 2^31 slots.
    pub fn build_from_trie(&mut self, trie: &TrieBuilder) -> (r: Result<(), BuildError>)
        requires
            trie.wf(),
            old(self).units@.len() == INITIAL_UNITS,
            forall|i: int| 0 <= i < old(self).units@.len() ==> old(self).units@[i].check == FREE_CHECK && old(self).units@[i].base == 0,
            old(self).next_base == 1,
        ensures
            r is Ok ==> exists|sl: Seq<int>, bs: Seq<int>, own: Map<int, int>| layout_exact(*trie, final(self).units@, sl, bs, own),
            r matches Err(e) ==> e is InvalidInput,
            final(self).units@.len() <= usize::MAX / 2,
            fits_base_range(trie.len() as int) ==> r is Ok,
            r is Ok ==> final(self).units@.len() <= INITIAL_UNITS + 2 + 514 * trie.len(),
    {
        let n = trie.node_count();
        let mut queue: Vec<(usize, usize)> = Vec::new();
        queue.push((0, 0));
        let mut head: usize = 0;
        let ghost mut st: Seq<int> = Seq::new(n as nat, |x: int| if x == 0 { 1 } else { 0 });
        let ghost mut sl: Seq<int> = Seq::new(n as nat, |x: int| 0);
        let ghost mut bs: Seq<int> = Seq::new(n as nat, |x: int| 0);
        let ghost mut own: Map<int, int> = Map::empty();
        let ghost mut seen: Set<int> = Set::empty().insert(0);
        let ghost mut qpos: Seq<int> = Seq::new(n as nat, |x: int| 0);
        let ghost mut hi: int = 1;
        proof {
            assert(seen.len() == 1);
            trie.lemma_root();
        }
        while head < queue.len()
            invariant
                n == trie.len(),
                bfs_inv(*trie, self.units@, queue@, head as int, st, sl, bs, own, seen, qpos, -1, 0),
                1 <= hi <= 1 + 257 * head,
                forall|i: int| i >= hi ==> #[trigger] slot_free(self.units@, i),
                self.units@.len() <= INITIAL_UNITS + 2 * hi,
                1 <= self.next_base <= hi,
                self.next_base <= self.units@.len(),
                forall|x: int| 0 <= x < n && st[x] == 2 && active(*trie, x) ==> #[trigger] bs[x] < self.next_base,
                forall|x: int, y: int| 0 <= x < n && 0 <= y < n && st[x] == 2 && st[y] == 2 && active(*trie, x)
                    && active(*trie, y) && x != y ==> #[trigger] bs[x] != #[trigger] bs[y],
                forall|m: int| 0 <= m < n && #[trigger] st[m] >= 1 && !(st[m] == 2 && active(*trie, m))
                    ==> sl[m] < self.units@.len() && self.units@[sl[m]].base == 0,
            decreases n - head,
        {
            proof {
                lemma_int_range(0, n as int);
                assert(seen.subset_of(set_int_range(0, n as int)));
                lemma_len_subset(seen, set_int_range(0, n as int));
            }
            let (nd, s) = queue[head];
            head += 1;
            assert(bfs_inv(*trie, self.units@, queue@, head - 1, st, sl, bs, own, seen, qpos, -1, 0));
            let edges = trie.node_edges(nd);
            let value = trie.node_value(nd);
            let need_terminal = trie.node_is_terminal(nd);
            if edges.len() == 0 && !need_terminal {
                proof {
                    lemma_skip_node(*trie, self.units@, queue@, head as int, st, sl, bs, own, seen, qpos, nd as int);
                    st = st.update(nd as int, 2);
                    assert(!active(*trie, nd as int));
                }
                continue;
            }
            let mut child_bytes: Vec<u8> = Vec::new();
            let mut k: usize = 0;
            while k < edges.len()
                invariant
                    k <= edges@.len(),
                    child_bytes@.len() == k,
                    forall|j: int| 0 <= j < k ==> child_bytes@[j] == edges@[j].0,
                decreases edges.len() - k,
            {
                child_bytes.push(edges[k].0);
                k += 1;
            }
            let base = self.find_base(&child_bytes, need_terminal);
            proof {
                assert(base_fits(self.units@, hi, child_bytes@, need_terminal)) by {
                    if need_terminal {
                        assert(slot_free(self.units@, hi));
                    }
                    assert forall|k: int| 0 <= k < child_bytes@.len() implies slot_free(self.units@, hi + child_bytes@[k] + 1) by {
                        assert(hi + child_bytes@[k] + 1 >= hi);
                    }
                }
                assert(queue@.len() <= n);
            }
            if base > MAX_BASE || base >= usize::MAX / 4 - 300 {
                proof {
                    assert(base <= 1 + 257 * (n - 1));
                    assert(!fits_base_range(n as int));
                }
                return Err(BuildError::InvalidInput(String::from_str("double array exceeds the 32-bit base range")));
            }
            let ghost new_hi: int = if hi > base + 257 { hi } else { base + 257 };
            let ghost u0 = self.units@;
            let ghost bs0 = bs;
            let ghost own0 = own;
            let ghost st0 = st;
            let ghost nb0 = self.next_base as int;
            proof {
                assert(queue@[head - 1] == (nd, s));
                assert(st[nd as int] == 1 && sl[nd as int] == s);
                lemma_slots_distinct(*trie, u0, queue@, head - 1, st, sl, bs, own, seen, qpos, -1, 0, nd as int);
                if need_terminal {
                    lemma_free_slot_unowned(*trie, u0, queue@, head - 1, st, sl, bs, own, seen, qpos, -1, 0, base as int);
                }
            }
            self.next_base = base + 1;
            self.ensure_capacity(s);
            let old_check = self.units[s].check;
            self.units.set(s, DaUnit { base: base as i32, check: old_check });
            proof {
                bs = bs.update(nd as int, base as int);
            }
            if need_terminal {
                self.ensure_capacity(base);
                self.units.set(base, DaUnit { base: -value - 1, check: base as u32 });
                proof {
                    own = own.insert(base as int, 2 * nd + 1);
                }
            }
            proof {
                assert forall|i: int| i >= new_hi implies #[trigger] slot_free(self.units@, i) by {
                    assert(slot_free(u0, i));
                }
            }
            proof {
                lemma_node_step(*trie, u0, self.units@, queue@, head as int, st, sl, bs0, own0, seen, qpos, nd as int, s as int, base as int, child_bytes@);
                st = st.update(nd as int, 2);
                assert(active(*trie, nd as int));
                assert forall|m: int| 0 <= m < n && #[trigger] st[m] >= 1 && !(st[m] == 2 && active(*trie, m))
                    implies sl[m] < self.units@.len() && self.units@[sl[m]].base == 0 by {
                    assert(m != nd);
                    assert(st0[m] >= 1);
                    assert(sl[m] != s);
                    if need_terminal {
                        assert(sl[m] != base);
                    }
                    assert(sl[m] < u0.len() && u0[sl[m]].base == 0);
                    assert(self.units@[sl[m]] == u0[sl[m]]);
                }
                assert forall|x: int| 0 <= x < n && st[x] == 2 && active(*trie, x) implies #[trigger] bs[x] < self.next_base by {
                    if x != nd {
                        assert(st0[x] == 2 && bs0[x] < nb0);
                    }
                }
                assert forall|x: int, y: int| 0 <= x < n && 0 <= y < n && st[x] == 2 && st[y] == 2 && active(*trie, x)
                    && active(*trie, y) && x != y implies #[trigger] bs[x] != #[trigger] bs[y] by {
                    if x != nd && y != nd {
                        assert(st0[x] == 2 && st0[y] == 2);
                        assert(bs0[x] != bs0[y]);
                    } else if x == nd {
                        assert(st0[y] == 2 && bs0[y] < nb0);
                    } else {
                        assert(st0[x] == 2 && bs0[x] < nb0);
                    }
                }
            }
            let mut k: usize = 0;
            while k < edges.len()
                invariant
                    n == trie.len(),
                    0 <= nd < n,
                    edges@ == trie.edges(nd as int),
                    1 <= base <= MAX_BASE,
                    base < usize::MAX / 4 - 300,
                    k <= edges@.len(),
                    st[nd as int] == 2,
                    bs[nd as int] == base,
                    child_bytes@.len() == edges@.len(),
                    forall|j: int| 0 <= j < edges@.len() ==> child_bytes@[j] == edges@[j].0,
                    forall|j: int| k <= j < edges@.len() ==> slot_free(self.units@, base + child_bytes@[j] + 1),
                    forall|j: int| k <= j < edges@.len() ==> st[edges@[j].1 as int] == 0,
                    bfs_inv(*trie, self.units@, queue@, head as int, st, sl, bs, own, seen, qpos, nd as int, k as int),
                    base + 257 <= new_hi <= 1 + 257 * head,
                    forall|i: int| i >= new_hi ==> #[trigger] slot_free(self.units@, i),
                    self.units@.len() <= INITIAL_UNITS + 2 * new_hi,
                    self.next_base == base + 1,
                    active(*trie, nd as int),
                    need_terminal || k > 0 ==> self.units@.len() > base,
                    need_terminal || edges@.len() > 0,
                    forall|x: int| 0 <= x < n && st[x] == 2 && active(*trie, x) ==> #[trigger] bs[x] < self.next_base,
                    forall|x: int, y: int| 0 <= x < n && 0 <= y < n && st[x] == 2 && st[y] == 2 && active(*trie, x)
                        && active(*trie, y) && x != y ==> #[trigger] bs[x] != #[trigger] bs[y],
                    forall|m: int| 0 <= m < n && #[trigger] st[m] >= 1 && !(st[m] == 2 && active(*trie, m))
                        ==> sl[m] < self.units@.len() && self.units@[sl[m]].base == 0,
                decreases edges.len() - k,
            {
                let (c, m) = edges[k];
                let slot: usize = base + c as usize + 1;
                proof {
                    trie.lemma_edge(nd as int, k as int);
                }
                let ghost u0 = self.units@;
                let ghost q0 = queue@;
                let ghost st1 = st;
                proof {
                    assert(child_bytes@[k as int] == c);
                    assert(slot_free(u0, slot as int));
                    lemma_free_slot_unowned(*trie, u0, q0, head as int, st, sl, bs, own, seen, qpos, nd as int, k as int, slot as int);
                }
                self.ensure_capacity(slot);
                self.units.set(slot, DaUnit { base: 0, check: base as u32 });
                proof {
                    assert forall|i: int| i >= new_hi implies #[trigger] slot_free(self.units@, i) by {
                        assert(slot_free(u0, i));
                    }
                }
                queue.push((m, slot));
                proof {
                    lemma_child_step(*trie, u0, self.units@, q0, queue@, head as int, st, sl, bs, own, seen, qpos, nd as int, k as int, base as int, child_bytes@);
                    st = st.update(m as int, 1);
                    sl = sl.update(m as int, slot as int);
                    own = own.insert(slot as int, 2 * m);
                    seen = seen.insert(m as int);
                    qpos = qpos.update(m as int, queue@.len() - 1);
                    assert forall|m2: int| 0 <= m2 < n && #[trigger] st[m2] >= 1 && !(st[m2] == 2 && active(*trie, m2))
                        implies sl[m2] < self.units@.len() && self.units@[sl[m2]].base == 0 by {
                        if m2 != m as int {
                            assert(st1[m2] >= 1);
                            assert(sl[m2] != slot);
                            assert(self.units@[sl[m2]] == u0[sl[m2]]);
                        }
                    }
                    assert forall|x: int| 0 <= x < n && st[x] == 2 && active(*trie, x) implies #[trigger] bs[x] < self.next_base by {
                        assert(st1[x] == 2);
                    }
                    assert forall|x: int, y: int| 0 <= x < n && 0 <= y < n && st[x] == 2 && st[y] == 2 && active(*trie, x)
                        && active(*trie, y) && x != y implies #[trigger] bs[x] != #[trigger] bs[y] by {
                        assert(st1[x] == 2 && st1[y] == 2);
                    }
                }
                k += 1;
            }
            proof {
                lemma_node_finished(*trie, self.units@, queue@, head as int, st, sl, bs, own, seen, qpos, nd as int);
                hi = new_hi;
            }
        }
        proof {
            lemma_bfs_done(*trie, self.units@, queue@, head as int, st, sl, bs, own, seen, qpos);
            assert(queue@.len() <= n) by {
                lemma_int_range(0, n as int);
                lemma_len_subset(seen, set_int_range(0, n as int));
            }
            assert forall|x: int| 0 <= x < n implies #[trigger] st[x] == 2 by {
                lemma_all_done(*trie, self.units@, queue@, head as int, st, sl, bs, own, seen, qpos, x);
            }
            let u = self.units@;
            assert forall|x: int, y: int| 0 <= x < n && 0 <= y < n && active(*trie, x) && active(*trie, y) && x != y
                implies #[trigger] bs[x] != #[trigger] bs[y] by {
                assert(st[x] == 2 && st[y] == 2);
            }
            assert forall|m: int| 0 <= m < n && !active(*trie, m) && sl[m] < u.len() implies 0 <= sl[m] && u[#[trigger] sl[m]].base == 0 by {
                assert(st[m] == 2);
            }
            assert(layout_exact(*trie, u, sl, bs, own));
        }
        Ok(())
    }
}

impl DaBuilder {
    /// The finished array: trailing unclaimed slots are dropped; unclaimed
    /// slots inside keep the never-matching check `u32::MAX`.
    pub fn finish(self) -> (r: Vec<DaUnit>)
        ensures
            r@.len() <= self.units@.len(),
            r@ == self.units@.take(r@.len() as int),
            forall|i: int| r@.len() <= i < self.units@.len() ==> self.units@[i].check == FREE_CHECK,
            r@.len() > 0 ==> r@.last().check != FREE_CHECK,
    {
        let mut units = self.units;
        while units.len() > 0 && units[units.len() - 1].check == FREE_CHECK
            invariant
                units@.len() <= self.units@.len(),
                units@ == self.units@.take(units@.len() as int),
                forall|i: int| units@.len() <= i < self.units@.len() ==> self.units@[i].check == FREE_CHECK,
            decreases units@.len(),
        {
            units.pop();
        }
        let mut i: usize = 0;
        while i < units.len()
            invariant
                i <= units@.len(),
                units@.len() <= self.units@.len(),
                units@ == self.units@.take(units@.len() as int),
                forall|j: int| units@.len() <= j < self.units@.len() ==> self.units@[j].check == FREE_CHECK,
                units@.len() > 0 ==> units@.last().check != FREE_CHECK,
            decreases units@.len() - i,
        {
            if units[i].check == FREE_CHECK {
                let b = units[i].base;
                units.set(i, DaUnit { base: b, check: u32::MAX });
                assert(units@ =~= self.units@.take(units@.len() as int));
            }
            i += 1;
        }
        units
    }
}

/// Build the double array for `trie`.
///
/// The reader ([`da_lookup`]) finds exactly the keys the trie maps to a
/// non-negative value, each with that value, and nothing else. Fails only when a base would not
/// fit the 32-bit `base` field, which a trie of [`fits_base_range`] size
/// never needs.
pub fn build_double_array(trie: &TrieBuilder) -> (r: Result<Vec<DaUnit>, BuildError>)
    requires
        trie.wf(),
    ensures
        r matches Ok(units) ==> forall|key: Seq<u8>| #[trigger] da_lookup(units@, key)
            == (if trie.get(key) is Some && trie.get(key)->0 >= 0 { Some(trie.get(key)->0 as int) } else { None }),
        r matches Ok(units) ==> units@.len() <= INITIAL_UNITS + 2 + 514 * trie.len(),
        r matches Err(e) ==> e is InvalidInput,
        fits_base_range(trie.len() as int) ==> r is Ok,
{
    let mut builder = DaBuilder::new();
    match builder.build_from_trie(trie) {
        Ok(()) => {},
        Err(e) => return Err(e),
    }
    let ghost full = builder.units@;
    let units = builder.finish();
    proof {
        let (sl, bs, own) = choose|sl: Seq<int>, bs: Seq<int>, own: Map<int, int>| layout_exact(*trie, full, sl, bs, own);
        lemma_layout_exact_trim(*trie, full, sl, bs, own, units@.len() as int);
        assert(full.take(units@.len() as int) == units@);
        assert forall|key: Seq<u8>| #[trigger] da_lookup(units@, key)
            == (if trie.get(key) is Some && trie.get(key)->0 >= 0 { Some(trie.get(key)->0 as int) } else { None }) by {
            lemma_exact_lookup(*trie, units@, sl, bs, own, key);
        }
    }
    Ok(units)
}
} // verus!
