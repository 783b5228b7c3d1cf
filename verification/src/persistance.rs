//! In-memory persistence structures over raw fingerprints.
//!
//! A [`PositionTrie`] treats a fingerprint as sixteen 16-bit chunks and
//! reports, on insert, how deep the new address' chunk path was already
//! present — a clustering diagnostic, not a retrieval index.  A
//! [`PositionSegment`] buffers raw fingerprints and lays them out as an
//! append-only byte image with a byte-exact, round-tripping format.

use vstd::prelude::*;
use vstd::pervasive::VecAdditionalExecFns;

verus! {

/// A fingerprint reinterpreted as a trie path: sixteen 16-bit chunks, most
/// significant chunk of the first word first.  A traversal path only, never
/// storage.
pub struct PositionTrieAddress {
    pub value: [u16; 16],
}

/// Tuning knobs for a trie; reserved.
pub struct PositionTrieConfig {
    children_size: usize,
}

/// One trie node: a 16-bit chunk value and its exclusively owned children,
/// unique by value.  The terminal flag would mark depth 16; the walk stops a
/// level short (see [`PositionTrie::insert`]), so it stays clear.
#[derive(Debug)]
pub struct PositionTrieNode {
    pub value: u16,
    pub children: Vec<PositionTrieNode>,
    pub are_children_dirty: bool,
    pub is_terminal: bool,
}

impl PositionTrieNode {
    /// Well-formed: children carry pairwise distinct chunk values, at every
    /// level.
    pub open spec fn wf(self) -> bool
        decreases self,
    {
        &&& forall|i: int, j: int|
            0 <= j < i < self.children@.len() ==> (#[trigger] self.children@[i]).value != (
            #[trigger] self.children@[j]).value
        &&& forall|i: int| 0 <= i < self.children@.len() ==> (#[trigger] self.children@[i]).wf()
    }

    /// The subtree rooted here contains this chunk path: either the path is
    /// spent, or some child carries its first chunk and the rest of the path.
    pub open spec fn has_path(self, path: Seq<u16>) -> bool
        decreases self,
    {
        path.len() == 0 || exists|i: int|
            0 <= i < self.children@.len() && (#[trigger] self.children@[i]).value == path[0]
                && self.children@[i].has_path(path.skip(1))
    }

    /// A node with the given chunk value, no children yet.
    pub fn new(value: u16, terminal: bool) -> (r: Self)
        ensures
            r.value == value,
            r.is_terminal == terminal,
            r.are_children_dirty == false,
            r.children@.len() == 0,
            r.wf(),
    {
        PositionTrieNode {
            value: value,
            children: Vec::<PositionTrieNode>::new(),
            are_children_dirty: false,
            is_terminal: terminal,
        }
    }

    /// How many children this node holds.
    pub fn child_count(&self) -> (n: usize)
        ensures
            n == self.children@.len(),
    {
        self.children.len()
    }

    /// Finds the first child carrying `value` and returns its index, or the
    /// index the child would be appended at (the current child count).
    pub fn get_node_index_by_value(&self, value: u16) -> (r: Result<usize, usize>)
        ensures
            match r {
                Ok(i) => 0 <= i < self.children@.len() && self.children@[i as int].value == value
                    && forall|k: int| 0 <= k < i ==> (#[trigger] self.children@[k]).value != value,
                Err(i) => i == self.children@.len() && forall|k: int|
                    0 <= k < self.children@.len() ==> (#[trigger] self.children@[k]).value
                        != value,
            },
    {
        let mut index: usize = 0;
        while index < self.children.len()
            invariant
                index <= self.children@.len(),
                forall|k: int| 0 <= k < index ==> (#[trigger] self.children@[k]).value != value,
            decreases self.children@.len() - index,
        {
            if self.children[index].value == value {
                return Ok(index);
            }
            index += 1;
        }
        Err(index)
    }
}

impl Default for PositionTrieNode {
    /// The root node: chunk value zero, no children.
    fn default() -> (r: Self)
        ensures
            r.value == 0,
            r.is_terminal == false,
            r.are_children_dirty == false,
            r.children@.len() == 0,
            r.wf(),
    {
        PositionTrieNode::new(0, false)
    }
}

/// A prefix index over trie addresses.  Inserting an address walks its first
/// fifteen chunks and reports how many of them led through nodes that were
/// already present.
pub struct PositionTrie {
    root: PositionTrieNode,
}

impl PositionTrie {
    /// The trie is well formed.
    pub closed spec fn wf(self) -> bool {
        self.root.wf()
    }

    /// The trie contains this chunk path, starting from the root.
    pub closed spec fn has(self, path: Seq<u16>) -> bool {
        self.root.has_path(path)
    }

    /// An empty trie: it contains no path but the empty one.
    pub fn new() -> (r: Self)
        ensures
            r.wf(),
            forall|p: Seq<u16>| r.has(p) <==> p.len() == 0,
    {
        PositionTrie { root: PositionTrieNode::default() }
    }

    /// Walks the first fifteen chunks of `pos`, creating the missing nodes,
    /// and reports how many of those chunks were already present as the
    /// longest known prefix of the address.  The walk checks only fifteen
    /// of the sixteen levels — a deliberate asymmetry of this diagnostic —
    /// so a repeated address reports 15, never 16.
    pub fn insert(&mut self, pos: &PositionTrieAddress) -> (seen: i32)
        requires
            old(self).wf(),
        ensures
            final(self).wf(),
            insert_depth(*old(self), pos.value@, seen as int),
            inserted(*old(self), pos.value@, *final(self)),
    {
        let ghost a = pos.value@;
        let seen = insert_rec(&mut self.root, pos, 0);
        proof {
            assert forall|k: int| 0 <= k <= seen implies old(self).has(#[trigger] a.take(k)) by {
                assert(old(self).root.has_path(a.subrange(0 as int, 0 + k)));
                assert(a.take(k) =~= a.subrange(0 as int, 0 + k));
            }
            if seen < 15 {
                assert(!old(self).root.has_path(a.subrange(0 as int, 0 + seen + 1)));
                assert(a.take(seen as int + 1) =~= a.subrange(0 as int, 0 + seen + 1));
            }
            assert forall|p: Seq<u16>|
                #[trigger] self.has(p) <==> old(self).has(p) || (p.len() <= 15 && p == a.take(
                    p.len() as int,
                )) by {
                assert(a.take(p.len() as int) =~= a.subrange(0 as int, 0 + p.len() as int));
                assert(self.root.has_path(p) <==> old(self).root.has_path(p) || (p.len() <= 15 - 0
                    && p == a.subrange(0 as int, 0 + p.len() as int)));
            }
        }
        seen
    }

    /// How many trie nodes stand on level `d`, the root alone making up
    /// level 0.
    pub closed spec fn nodes_at(self, d: int) -> nat {
        self.root.count_at(d)
    }

    /// Per-level size report over the sixteen walked levels: how many nodes
    /// stand on each level and how many children they hold together — the
    /// node count of the next level down.  Counts clamp at the 64-bit
    /// maximum.  Read-only.
    pub fn statt(&self) -> (r: Vec<(u64, u64)>)
        ensures
            r@.len() == 16,
            forall|d: int|
                0 <= d < 16 ==> #[trigger] r@[d] == (
                    sat64(self.nodes_at(d) as int),
                    sat64(self.nodes_at(d + 1) as int),
                ),
    {
        let mut counts: Vec<u64> = vec![0u64; 17];
        add_counts(&self.root, 0, &mut counts);
        proof {
            assert forall|d: int| 0 <= d < 17 implies counts@[d] == sat64(self.nodes_at(d) as int) by {
                assert(counts@[d] == sat64(0 + self.root.count_at(d - 0) as int));
            }
        }
        let mut r: Vec<(u64, u64)> = Vec::new();
        let mut d: usize = 0;
        while d < 16
            invariant
                d <= 16,
                counts@.len() == 17,
                forall|e: int| 0 <= e < 17 ==> counts@[e] == sat64(self.nodes_at(e) as int),
                r@.len() == d,
                forall|e: int|
                    0 <= e < d ==> #[trigger] r@[e] == (
                        sat64(self.nodes_at(e) as int),
                        sat64(self.nodes_at(e + 1) as int),
                    ),
            decreases 16 - d,
        {
            r.push((counts[d], counts[d + 1]));
            d += 1;
        }
        r
    }
}

/// `n` clamped to the 64-bit range.
pub open spec fn sat64(n: int) -> u64 {
    if n > 0xffff_ffff_ffff_ffff {
        0xffff_ffff_ffff_ffffu64
    } else if n < 0 {
        0u64
    } else {
        n as u64
    }
}

/// Clamping commutes with accumulation: adding on top of a clamped sum
/// clamps the whole sum.
proof fn lemma_sat_chain(a: int, b: int)
    requires
        a >= 0,
        b >= 0,
    ensures
        sat64(sat64(a) + b) == sat64(a + b),
{
}

/// Total nodes standing `d` levels below the first `k` nodes of a sibling
/// row.
pub open spec fn count_seq_at(s: Seq<PositionTrieNode>, d: int, k: int) -> nat
    decreases s, k,
{
    if k <= 0 || k > s.len() {
        0
    } else {
        count_seq_at(s, d, k - 1) + s[k - 1].count_at(d)
    }
}

impl PositionTrieNode {
    /// How many nodes of the subtree rooted here stand `d` levels below it.
    pub open spec fn count_at(self, d: int) -> nat
        decreases self, 0int,
    {
        if d <= 0 {
            1
        } else {
            count_seq_at(self.children@, d - 1, self.children@.len() as int)
        }
    }
}

/// Adds this subtree's nodes into the per-level counters, the node itself
/// at index `depth`; counters clamp at the 64-bit maximum, and nothing
/// below the last counter is walked.
fn add_counts(node: &PositionTrieNode, depth: usize, counts: &mut Vec<u64>)
    requires
        old(counts)@.len() == 17,
        depth <= 16,
    ensures
        final(counts)@.len() == 17,
        forall|d: int| 0 <= d < depth ==> final(counts)@[d] == old(counts)@[d],
        forall|d: int|
            depth <= d < 17 ==> final(counts)@[d] == sat64(
                old(counts)@[d] + node.count_at(d - depth),
            ),
    decreases *node,
{
    let c = counts[depth];
    let c2 = if c == 0xffff_ffff_ffff_ffff {
        c
    } else {
        c + 1
    };
    counts.set(depth, c2);
    if depth == 16 {
        return ;
    }
    let ghost mid = counts@;
    let mut k: usize = 0;
    let n = node.children.len();
    while k < n
        invariant
            n == node.children@.len(),
            k <= n,
            depth < 16,
            old(counts)@.len() == 17,
            counts@.len() == 17,
            mid == old(counts)@.update(depth as int, sat64(old(counts)@[depth as int] + 1)),
            forall|d: int| 0 <= d <= depth ==> counts@[d] == mid[d],
            forall|d: int|
                depth < d < 17 ==> counts@[d] == sat64(
                    mid[d] + count_seq_at(node.children@, d - depth - 1, k as int),
                ),
        decreases n - k,
    {
        let ghost before = counts@;
        add_counts(&node.children[k], depth + 1, counts);
        proof {
            assert forall|d: int|
                depth < d < 17 implies counts@[d] == sat64(
                mid[d] + count_seq_at(node.children@, d - depth - 1, k + 1),
            ) by {
                assert(counts@[d] == sat64(
                    before[d] + node.children@[k as int].count_at(d - depth - 1),
                ));
                lemma_sat_chain(
                    mid[d] + count_seq_at(node.children@, d - depth - 1, k as int),
                    node.children@[k as int].count_at(d - depth - 1) as int,
                );
            }
        }
        k += 1;
    }
    proof {
        assert forall|d: int| 0 <= d < depth implies counts@[d] == old(counts)@[d] by {
            assert(counts@[d] == mid[d]);
            assert(mid[d] == old(counts)@[d]);
        }
        assert forall|d: int|
            depth <= d < 17 implies counts@[d] == sat64(
            old(counts)@[d] + node.count_at(d - depth),
        ) by {
            if d == depth {
                assert(counts@[d] == mid[d]);
            } else {
                assert(counts@[d] == sat64(
                    mid[d] + count_seq_at(node.children@, d - depth - 1, n as int),
                ));
                assert(node.count_at(d - depth) == count_seq_at(
                    node.children@,
                    d - depth - 1,
                    node.children@.len() as int,
                ));
            }
        }
    }
}

/// What the reported depth of an insert says of the trie as it stood before
/// the insert: every checked prefix up to `seen` chunks was present, and,
/// short of the fifteen-chunk cap, the next longer one was not.
pub open spec fn insert_depth(t: PositionTrie, a: Seq<u16>, seen: int) -> bool {
    &&& 0 <= seen <= 15
    &&& forall|k: int| 0 <= k <= seen ==> t.has(#[trigger] a.take(k))
    &&& seen < 15 ==> !t.has(a.take(seen + 1))
}

/// How an insert changes the trie's contents: afterwards it contains exactly
/// the paths it had before plus every prefix of the address' first fifteen
/// chunks.
pub open spec fn inserted(t: PositionTrie, a: Seq<u16>, t2: PositionTrie) -> bool {
    forall|p: Seq<u16>|
        #[trigger] t2.has(p) <==> t.has(p) || (p.len() <= 15 && p == a.take(p.len() as int))
}

/// Law: a first address into an empty trie reports depth 0; re-inserting
/// the very same address then reports depth 15, the deepest checked level.
pub proof fn lemma_trie_repeat_insert(
    t0: PositionTrie,
    t1: PositionTrie,
    a: Seq<u16>,
    s1: int,
    s2: int,
)
    requires
        a.len() == 16,
        forall|p: Seq<u16>| #[trigger] t0.has(p) <==> p.len() == 0,
        insert_depth(t0, a, s1),
        inserted(t0, a, t1),
        insert_depth(t1, a, s2),
    ensures
        s1 == 0,
        s2 == 15,
{
    if s1 >= 1 {
        assert(t0.has(a.take(1)));
        assert(a.take(1).len() == 1);
    }
    if s2 < 15 {
        let p = a.take(s2 + 1);
        assert(p.len() == s2 + 1);
        assert(p == a.take(p.len() as int));
        assert(t1.has(p));
        assert(false);
    }
}

/// Law: after an empty trie receives an address, a second address sharing
/// exactly the first of its sixteen chunks reports depth 1.
pub proof fn lemma_trie_shared_first_chunk(
    t0: PositionTrie,
    t1: PositionTrie,
    a: Seq<u16>,
    b: Seq<u16>,
    s2: int,
)
    requires
        a.len() == 16,
        b.len() == 16,
        forall|p: Seq<u16>| #[trigger] t0.has(p) <==> p.len() == 0,
        inserted(t0, a, t1),
        b[0] == a[0],
        b[1] != a[1],
        insert_depth(t1, b, s2),
    ensures
        s2 == 1,
{
    if s2 == 0 {
        let p = b.take(1);
        assert(p =~= a.take(1));
        assert(p == a.take(p.len() as int));
        assert(t1.has(p));
        assert(false);
    }
    if s2 >= 2 {
        let p = b.take(2);
        assert(t1.has(p));
        assert(p.len() == 2);
        if p == a.take(p.len() as int) {
            assert(p[1] == a[1] && p[1] == b[1]);
        }
        assert(false);
    }
}

/// A nonempty path matches a slice of the address exactly when its head is
/// the chunk at `level` and its tail matches the rest of the slice.
proof fn lemma_path_cons(a: Seq<u16>, level: int, p: Seq<u16>)
    requires
        0 <= level,
        1 <= p.len(),
        level + p.len() <= a.len(),
    ensures
        (p == a.subrange(level, level + p.len())) <==> (p[0] == a[level] && p.skip(1)
            == a.subrange(level + 1, level + p.len())),
{
    if p == a.subrange(level, level + p.len()) {
        assert(p.skip(1) =~= a.subrange(level + 1, level + p.len()));
    }
    if p[0] == a[level] && p.skip(1) == a.subrange(level + 1, level + p.len()) {
        assert forall|i: int| 0 <= i < p.len() implies p[i] == a.subrange(
            level,
            level + p.len(),
        )[i] by {
            if i >= 1 {
                assert(p[i] == p.skip(1)[i - 1]);
            }
        }
        assert(p =~= a.subrange(level, level + p.len()));
    }
}

/// Recursive worker for [`PositionTrie::insert`]: handles the chunks from
/// `level` up to the fifteenth, returning how many consecutive chunks from
/// `level` onwards were already present.
fn insert_rec(node: &mut PositionTrieNode, pos: &PositionTrieAddress, level: usize) -> (seen: i32)
    requires
        old(node).wf(),
        level <= 15,
    ensures
        final(node).wf(),
        final(node).value == old(node).value,
        final(node).is_terminal == old(node).is_terminal,
        0 <= seen <= 15 - level,
        forall|k: int|
            0 <= k <= seen ==> old(node).has_path(
                #[trigger] pos.value@.subrange(level as int, level + k),
            ),
        seen < 15 - level ==> !old(node).has_path(
            pos.value@.subrange(level as int, level + seen + 1),
        ),
        forall|p: Seq<u16>|
            #[trigger] final(node).has_path(p) <==> old(node).has_path(p) || (p.len() <= 15 - level
                && p == pos.value@.subrange(level as int, level + p.len() as int)),
    decreases 15 - level,
{
    if level >= 15 {
        assert(pos.value@.subrange(level as int, level as int).len() == 0);
        assert forall|p: Seq<u16>|
            #[trigger] node.has_path(p) <==> node.has_path(p) || (p.len() <= 15 - level && p
                == pos.value@.subrange(level as int, level + p.len() as int)) by {
            if p.len() <= 15 - level && p == pos.value@.subrange(
                level as int,
                level + p.len() as int,
            ) {
                assert(p.len() == 0);
            }
        }
        return 0;
    }
    let ghost a = pos.value@;
    let ghost lv = level as int;
    let v = pos.value[level];
    match node.get_node_index_by_value(v) {
        Ok(idx) => {
            let ghost c0 = node.children@[idx as int];
            let mut child = node.children.remove(idx);
            let s = insert_rec(&mut child, pos, level + 1);
            let ghost c1 = child;
            node.children.insert(idx, child);
            proof {
                assert(node.children@ =~= old(node).children@.update(idx as int, c1));
                lemma_insert_found(*old(node), c0, c1, *node, idx as int, a, lv, s as int);
            }
            1 + s
        },
        Err(_) => {
            let mut child = PositionTrieNode::new(v, false);
            let s = insert_rec(&mut child, pos, level + 1);
            let ghost c1 = child;
            proof {
                assert forall|q: Seq<u16>|
                    #[trigger] c1.has_path(q) <==> q.len() <= 14 - lv && q == a.subrange(
                        lv + 1,
                        lv + 1 + q.len() as int,
                    ) by {
                    if q.len() == 0 {
                        assert(a.subrange(lv + 1, lv + 1).len() == 0);
                        assert(q =~= a.subrange(lv + 1, lv + 1));
                    }
                }
            }
            node.children.push(child);
            proof {
                lemma_insert_fresh(*old(node), c1, *node, a, lv);
            }
            0
        },
    }
}

/// After recursing into the child that already carried the chunk at `lv`
/// (`c0` before, `c1` after, standing at `idx`), the rebuilt node `n1` is the
/// old node `n0` with the address' remaining chunks added, and the depth
/// report grows by the one level just matched.
proof fn lemma_insert_found(
    n0: PositionTrieNode,
    c0: PositionTrieNode,
    c1: PositionTrieNode,
    n1: PositionTrieNode,
    idx: int,
    a: Seq<u16>,
    lv: int,
    s: int,
)
    requires
        n0.wf(),
        0 <= lv <= 14,
        a.len() == 16,
        0 <= idx < n0.children@.len(),
        c0 == n0.children@[idx],
        c0.value == a[lv],
        c1.wf(),
        c1.value == c0.value,
        0 <= s <= 14 - lv,
        forall|k: int| 0 <= k <= s ==> c0.has_path(#[trigger] a.subrange(lv + 1, lv + 1 + k)),
        s < 14 - lv ==> !c0.has_path(a.subrange(lv + 1, lv + 1 + s + 1)),
        forall|q: Seq<u16>|
            #[trigger] c1.has_path(q) <==> c0.has_path(q) || (q.len() <= 14 - lv && q == a.subrange(
                lv + 1,
                lv + 1 + q.len() as int,
            )),
        n1.value == n0.value,
        n1.is_terminal == n0.is_terminal,
        n1.children@ == n0.children@.update(idx, c1),
    ensures
        n1.wf(),
        forall|k: int| 0 <= k <= s + 1 ==> n0.has_path(#[trigger] a.subrange(lv, lv + k)),
        s + 1 < 15 - lv ==> !n0.has_path(a.subrange(lv, lv + s + 2)),
        forall|p: Seq<u16>|
            #[trigger] n1.has_path(p) <==> n0.has_path(p) || (p.len() <= 15 - lv && p == a.subrange(
                lv,
                lv + p.len() as int,
            )),
{
    assert forall|i: int| 0 <= i < n1.children@.len() implies (#[trigger] n1.children@[i]).wf() by {
        if i != idx {
            assert(n1.children@[i] == n0.children@[i]);
        }
    }
    assert forall|i: int, j: int| 0 <= j < i < n1.children@.len() implies (
    #[trigger] n1.children@[i]).value != (#[trigger] n1.children@[j]).value by {
        assert(n1.children@[i].value == n0.children@[i].value);
        assert(n1.children@[j].value == n0.children@[j].value);
    }
    assert forall|k: int| 0 <= k <= s + 1 implies n0.has_path(#[trigger] a.subrange(lv, lv + k)) by {
        if k == 0 {
            assert(a.subrange(lv, lv).len() == 0);
        } else {
            let p = a.subrange(lv, lv + k);
            let kp = k - 1;
            assert(c0.has_path(a.subrange(lv + 1, lv + 1 + kp)));
            assert(p.skip(1) =~= a.subrange(lv + 1, lv + 1 + kp));
            assert(n0.children@[idx].value == p[0] && n0.children@[idx].has_path(p.skip(1)));
        }
    }
    if s + 1 < 15 - lv && n0.has_path(a.subrange(lv, lv + s + 2)) {
        let p = a.subrange(lv, lv + s + 2);
        let i = choose|i: int|
            0 <= i < n0.children@.len() && (#[trigger] n0.children@[i]).value == p[0]
                && n0.children@[i].has_path(p.skip(1));
        if i != idx {
            assert(n0.children@[i].value != n0.children@[idx].value);
        }
        assert(i == idx);
        assert(p.skip(1) =~= a.subrange(lv + 1, lv + 1 + s + 1));
        assert(false);
    }
    assert forall|p: Seq<u16>|
        #[trigger] n1.has_path(p) <==> n0.has_path(p) || (p.len() <= 15 - lv && p == a.subrange(
            lv,
            lv + p.len() as int,
        )) by {
        if p.len() > 0 {
            lemma_found_case(n0, c0, c1, n1, idx, a, lv, p);
        }
    }
}

/// The path-contents equivalence of [`lemma_insert_found`], one nonempty
/// path at a time.
proof fn lemma_found_case(
    n0: PositionTrieNode,
    c0: PositionTrieNode,
    c1: PositionTrieNode,
    n1: PositionTrieNode,
    idx: int,
    a: Seq<u16>,
    lv: int,
    p: Seq<u16>,
)
    requires
        n0.wf(),
        0 <= lv <= 14,
        a.len() == 16,
        0 <= idx < n0.children@.len(),
        c0 == n0.children@[idx],
        c0.value == a[lv],
        c1.value == c0.value,
        forall|q: Seq<u16>|
            #[trigger] c1.has_path(q) <==> c0.has_path(q) || (q.len() <= 14 - lv && q == a.subrange(
                lv + 1,
                lv + 1 + q.len() as int,
            )),
        n1.children@ == n0.children@.update(idx, c1),
        1 <= p.len(),
    ensures
        n1.has_path(p) <==> n0.has_path(p) || (p.len() <= 15 - lv && p == a.subrange(
            lv,
            lv + p.len() as int,
        )),
{
    if p.len() <= 15 - lv {
        lemma_path_cons(a, lv, p);
    }
    if n1.has_path(p) {
        let i = choose|i: int|
            0 <= i < n1.children@.len() && (#[trigger] n1.children@[i]).value == p[0]
                && n1.children@[i].has_path(p.skip(1));
        if i != idx {
            assert(n1.children@[i] == n0.children@[i]);
            assert(n0.has_path(p));
        } else {
            assert(c1.has_path(p.skip(1)));
            if c0.has_path(p.skip(1)) {
                assert(n0.children@[idx].value == p[0] && n0.children@[idx].has_path(p.skip(1)));
                assert(n0.has_path(p));
            } else {
                assert(p.skip(1).len() <= 14 - lv && p.skip(1) == a.subrange(
                    lv + 1,
                    lv + 1 + p.skip(1).len() as int,
                ));
                assert(p[0] == c1.value);
                assert(p.len() <= 15 - lv);
                assert(p == a.subrange(lv, lv + p.len() as int));
            }
        }
    }
    if n0.has_path(p) {
        let i = choose|i: int|
            0 <= i < n0.children@.len() && (#[trigger] n0.children@[i]).value == p[0]
                && n0.children@[i].has_path(p.skip(1));
        if i != idx {
            assert(n1.children@[i] == n0.children@[i]);
            assert(n1.children@[i].value == p[0] && n1.children@[i].has_path(p.skip(1)));
            assert(n1.has_path(p));
        } else {
            assert(c1.has_path(p.skip(1)));
            assert(n1.children@[idx].value == p[0] && n1.children@[idx].has_path(p.skip(1)));
            assert(n1.has_path(p));
        }
    }
    if p.len() <= 15 - lv && p == a.subrange(lv, lv + p.len() as int) {
        assert(p[0] == a[lv] && p.skip(1) == a.subrange(lv + 1, lv + p.len() as int));
        assert(p.skip(1).len() == p.len() - 1 <= 14 - lv);
        assert(c1.has_path(p.skip(1)));
        assert(n1.children@[idx].value == p[0] && n1.children@[idx].has_path(p.skip(1)));
        assert(n1.has_path(p));
    }
}

/// After hanging a freshly built chain for the address' remaining chunks
/// onto a node that lacked the chunk at `lv`, the rebuilt node `n1` is the
/// old node `n0` with those chunks added, and nothing of the address was
/// present at this level before.
proof fn lemma_insert_fresh(
    n0: PositionTrieNode,
    c1: PositionTrieNode,
    n1: PositionTrieNode,
    a: Seq<u16>,
    lv: int,
)
    requires
        n0.wf(),
        0 <= lv <= 14,
        a.len() == 16,
        forall|k: int| 0 <= k < n0.children@.len() ==> (#[trigger] n0.children@[k]).value != a[lv],
        c1.wf(),
        c1.value == a[lv],
        forall|q: Seq<u16>|
            #[trigger] c1.has_path(q) <==> q.len() <= 14 - lv && q == a.subrange(
                lv + 1,
                lv + 1 + q.len() as int,
            ),
        n1.value == n0.value,
        n1.is_terminal == n0.is_terminal,
        n1.children@ == n0.children@.push(c1),
    ensures
        n1.wf(),
        forall|k: int| 0 <= k <= 0 ==> n0.has_path(#[trigger] a.subrange(lv, lv + k)),
        !n0.has_path(a.subrange(lv, lv + 1)),
        forall|p: Seq<u16>|
            #[trigger] n1.has_path(p) <==> n0.has_path(p) || (p.len() <= 15 - lv && p == a.subrange(
                lv,
                lv + p.len() as int,
            )),
{
    let last = n0.children@.len() as int;
    assert forall|i: int| 0 <= i < n1.children@.len() implies (#[trigger] n1.children@[i]).wf() by {
        if i < last {
            assert(n1.children@[i] == n0.children@[i]);
        } else {
            assert(n1.children@[i] == c1);
        }
    }
    assert forall|i: int, j: int| 0 <= j < i < n1.children@.len() implies (
    #[trigger] n1.children@[i]).value != (#[trigger] n1.children@[j]).value by {
        if i < last {
            assert(n1.children@[i] == n0.children@[i]);
            assert(n1.children@[j] == n0.children@[j]);
        } else {
            assert(n1.children@[i] == c1);
            assert(n1.children@[j] == n0.children@[j]);
        }
    }
    assert(a.subrange(lv, lv).len() == 0);
    if n0.has_path(a.subrange(lv, lv + 1)) {
        let p = a.subrange(lv, lv + 1);
        assert(p[0] == a[lv]);
        let i = choose|i: int|
            0 <= i < n0.children@.len() && (#[trigger] n0.children@[i]).value == p[0]
                && n0.children@[i].has_path(p.skip(1));
        assert(false);
    }
    assert forall|p: Seq<u16>|
        #[trigger] n1.has_path(p) <==> n0.has_path(p) || (p.len() <= 15 - lv && p == a.subrange(
            lv,
            lv + p.len() as int,
        )) by {
        if p.len() > 0 {
            lemma_fresh_case(n0, c1, n1, a, lv, p);
        }
    }
}

/// The path-contents equivalence of [`lemma_insert_fresh`], one nonempty
/// path at a time.
proof fn lemma_fresh_case(
    n0: PositionTrieNode,
    c1: PositionTrieNode,
    n1: PositionTrieNode,
    a: Seq<u16>,
    lv: int,
    p: Seq<u16>,
)
    requires
        0 <= lv <= 14,
        a.len() == 16,
        c1.value == a[lv],
        forall|q: Seq<u16>|
            #[trigger] c1.has_path(q) <==> q.len() <= 14 - lv && q == a.subrange(
                lv + 1,
                lv + 1 + q.len() as int,
            ),
        n1.children@ == n0.children@.push(c1),
        1 <= p.len(),
    ensures
        n1.has_path(p) <==> n0.has_path(p) || (p.len() <= 15 - lv && p == a.subrange(
            lv,
            lv + p.len() as int,
        )),
{
    let last = n0.children@.len() as int;
    if p.len() <= 15 - lv {
        lemma_path_cons(a, lv, p);
    }
    if n1.has_path(p) {
        let i = choose|i: int|
            0 <= i < n1.children@.len() && (#[trigger] n1.children@[i]).value == p[0]
                && n1.children@[i].has_path(p.skip(1));
        if i < last {
            assert(n1.children@[i] == n0.children@[i]);
            assert(n0.has_path(p));
        } else {
            assert(n1.children@[i] == c1);
            assert(c1.has_path(p.skip(1)));
            assert(p.skip(1).len() <= 14 - lv && p.skip(1) == a.subrange(
                lv + 1,
                lv + 1 + p.skip(1).len() as int,
            ));
            assert(p[0] == c1.value);
            assert(p.len() <= 15 - lv);
            assert(p == a.subrange(lv, lv + p.len() as int));
        }
    }
    if n0.has_path(p) {
        let i = choose|i: int|
            0 <= i < n0.children@.len() && (#[trigger] n0.children@[i]).value == p[0]
                && n0.children@[i].has_path(p.skip(1));
        assert(n1.children@[i] == n0.children@[i]);
        assert(n1.children@[i].value == p[0] && n1.children@[i].has_path(p.skip(1)));
        assert(n1.has_path(p));
    }
    if p.len() <= 15 - lv && p == a.subrange(lv, lv + p.len() as int) {
        assert(p[0] == a[lv] && p.skip(1) == a.subrange(lv + 1, lv + p.len() as int));
        assert(p.skip(1).len() == p.len() - 1 <= 14 - lv);
        assert(c1.has_path(p.skip(1)));
        assert(n1.children@[last].value == p[0] && n1.children@[last].has_path(p.skip(1)));
        assert(n1.has_path(p));
    }
}

/// A raw 256-bit fingerprint: four 64-bit words, each covering sixteen
/// contiguous squares.
#[derive(Clone, Copy, Debug, PartialEq, Eq, Structural)]
pub struct Position {
    pub r12: u64,
    pub r34: u64,
    pub r56: u64,
    pub r78: u64,
}

/// Big-endian byte `i` of a word: bits `56 - 8i` and down.
pub open spec fn be_byte(w: u64, i: u64) -> u64 {
    (w >> ((56 - 8 * i) as u64)) & 0xff
}

/// A word as eight big-endian bytes.
pub open spec fn be64(w: u64) -> Seq<u8> {
    Seq::new(8, |i: int| be_byte(w, i as u64) as u8)
}

/// A word recombined from eight big-endian bytes.
pub open spec fn word_of_be(b: Seq<u8>) -> u64 {
    ((b[0] as u64) << 56) | ((b[1] as u64) << 48) | ((b[2] as u64) << 40) | ((b[3] as u64) << 32)
        | ((b[4] as u64) << 24) | ((b[5] as u64) << 16) | ((b[6] as u64) << 8) | (b[7] as u64)
}

/// Taking a word apart into big-endian bytes and recombining them gives the
/// word back.
proof fn lemma_be64_round(w: u64)
    ensures
        word_of_be(be64(w)) == w,
{
    let b = be64(w);
    let b0 = b[0];
    let b1 = b[1];
    let b2 = b[2];
    let b3 = b[3];
    let b4 = b[4];
    let b5 = b[5];
    let b6 = b[6];
    let b7 = b[7];
    assert(b0 == ((w >> 56) & 0xff) as u8);
    assert(b1 == ((w >> 48) & 0xff) as u8);
    assert(b2 == ((w >> 40) & 0xff) as u8);
    assert(b3 == ((w >> 32) & 0xff) as u8);
    assert(b4 == ((w >> 24) & 0xff) as u8);
    assert(b5 == ((w >> 16) & 0xff) as u8);
    assert(b6 == ((w >> 8) & 0xff) as u8);
    assert(b7 == ((w >> 0) & 0xff) as u8);
    assert((((b0 as u64) << 56) | ((b1 as u64) << 48) | ((b2 as u64) << 40) | ((b3 as u64) << 32)
        | ((b4 as u64) << 24) | ((b5 as u64) << 16) | ((b6 as u64) << 8) | (b7 as u64)) == w)
        by (bit_vector)
        requires
            b0 == ((w >> 56) & 0xff) as u8,
            b1 == ((w >> 48) & 0xff) as u8,
            b2 == ((w >> 40) & 0xff) as u8,
            b3 == ((w >> 32) & 0xff) as u8,
            b4 == ((w >> 24) & 0xff) as u8,
            b5 == ((w >> 16) & 0xff) as u8,
            b6 == ((w >> 8) & 0xff) as u8,
            b7 == ((w >> 0) & 0xff) as u8,
    ;
}

/// A count as four big-endian bytes.
pub open spec fn be32_bytes(n: u32) -> Seq<u8> {
    seq![
        ((n >> 24) & 0xff) as u8,
        ((n >> 16) & 0xff) as u8,
        ((n >> 8) & 0xff) as u8,
        (n & 0xff) as u8,
    ]
}

/// A count recombined from four big-endian bytes.
pub open spec fn be32_val(b0: u8, b1: u8, b2: u8, b3: u8) -> u32 {
    ((b0 as u32) << 24) | ((b1 as u32) << 16) | ((b2 as u32) << 8) | (b3 as u32)
}

/// Taking a count apart into big-endian bytes and recombining them gives the
/// count back.
proof fn lemma_be32_round(n: u32)
    ensures
        be32_val(
            ((n >> 24) & 0xff) as u8,
            ((n >> 16) & 0xff) as u8,
            ((n >> 8) & 0xff) as u8,
            (n & 0xff) as u8,
        ) == n,
{
    assert(((((((n >> 24) & 0xff) as u8) as u32) << 24) | (((((n >> 16) & 0xff) as u8) as u32)
        << 16) | (((((n >> 8) & 0xff) as u8) as u32) << 8) | (((n & 0xff) as u8) as u32)) == n)
        by (bit_vector);
}

/// One fingerprint's 32-byte record: its four words, big-endian, in order.
pub open spec fn record_bytes(p: Position) -> Seq<u8> {
    be64(p.r12) + be64(p.r34) + be64(p.r56) + be64(p.r78)
}

/// The records of the first `k` fingerprints, concatenated.
pub open spec fn records_bytes(rs: Seq<Position>, k: int) -> Seq<u8>
    decreases k,
{
    if k <= 0 {
        Seq::empty()
    } else {
        records_bytes(rs, k - 1) + record_bytes(rs[k - 1])
    }
}

/// The 8-byte segment header: the fixed 4-byte magic, then the record count,
/// big-endian.
pub open spec fn header_bytes(n: u32) -> Seq<u8> {
    seq![0xccu8, 0xddu8, 0x69u8, 0x42u8] + be32_bytes(n)
}

/// The full byte image of a segment holding these fingerprints.
pub open spec fn segment_bytes(rs: Seq<Position>) -> Seq<u8> {
    header_bytes(rs.len() as u32) + records_bytes(rs, rs.len() as int)
}

/// The first `k` records take `32 * k` bytes.
proof fn lemma_records_len(rs: Seq<Position>, k: int)
    ensures
        records_bytes(rs, k).len() == 32 * (if k <= 0 { 0int } else { k }),
    decreases k,
{
    if k > 0 {
        lemma_records_len(rs, k - 1);
    }
}

/// Every byte extracted from a word fits in eight bits.
proof fn lemma_u64_byte_masks(w: u64)
    by (bit_vector)
    ensures
        (w >> 56) & 0xff < 256,
        (w >> 48) & 0xff < 256,
        (w >> 40) & 0xff < 256,
        (w >> 32) & 0xff < 256,
        (w >> 24) & 0xff < 256,
        (w >> 16) & 0xff < 256,
        (w >> 8) & 0xff < 256,
        (w >> 0) & 0xff < 256,
{
}

/// Every byte extracted from a count fits in eight bits.
proof fn lemma_u32_byte_masks(n: u32)
    by (bit_vector)
    ensures
        (n >> 24) & 0xff < 256,
        (n >> 16) & 0xff < 256,
        (n >> 8) & 0xff < 256,
        n & 0xff < 256,
{
}

/// Every 16-bit chunk extracted from a word fits in sixteen bits.
proof fn lemma_u64_chunk_masks(w: u64)
    by (bit_vector)
    ensures
        (w >> 48) & 0xffff < 0x10000,
        (w >> 32) & 0xffff < 0x10000,
        (w >> 16) & 0xffff < 0x10000,
        (w >> 0) & 0xffff < 0x10000,
{
}

/// Record `j` sits at offset `32 * j` of the concatenated records.
proof fn lemma_records_index(rs: Seq<Position>, k: int, j: int)
    requires
        0 <= j < k,
    ensures
        records_bytes(rs, k).len() == 32 * k,
        forall|i: int|
            0 <= i < 32 ==> records_bytes(rs, k)[32 * j + i] == record_bytes(rs[j])[i],
    decreases k,
{
    lemma_records_len(rs, k);
    lemma_records_len(rs, k - 1);
    if j == k - 1 {
        assert forall|i: int|
            0 <= i < 32 implies records_bytes(rs, k)[32 * j + i] == record_bytes(rs[j])[i] by {
            assert(records_bytes(rs, k)[32 * (k - 1) + i] == (records_bytes(rs, k - 1)
                + record_bytes(rs[k - 1]))[32 * (k - 1) + i]);
        }
    } else {
        lemma_records_index(rs, k - 1, j);
        assert forall|i: int|
            0 <= i < 32 implies records_bytes(rs, k)[32 * j + i] == record_bytes(rs[j])[i] by {
            assert(records_bytes(rs, k)[32 * j + i] == records_bytes(rs, k - 1)[32 * j + i]);
        }
    }
}

impl Position {
    /// This fingerprint's 32-byte record: the four words, big-endian, in
    /// order.
    pub fn position_quad_to_bytes(&self) -> (r: [u8; 32])
        ensures
            r@ == record_bytes(*self),
    {
        proof {
            lemma_u64_byte_masks(self.r12);
            lemma_u64_byte_masks(self.r34);
            lemma_u64_byte_masks(self.r56);
            lemma_u64_byte_masks(self.r78);
        }
        let r: [u8; 32] = [
            ((self.r12 >> 56) & 0xff) as u8,
            ((self.r12 >> 48) & 0xff) as u8,
            ((self.r12 >> 40) & 0xff) as u8,
            ((self.r12 >> 32) & 0xff) as u8,
            ((self.r12 >> 24) & 0xff) as u8,
            ((self.r12 >> 16) & 0xff) as u8,
            ((self.r12 >> 8) & 0xff) as u8,
            ((self.r12 >> 0) & 0xff) as u8,
            ((self.r34 >> 56) & 0xff) as u8,
            ((self.r34 >> 48) & 0xff) as u8,
            ((self.r34 >> 40) & 0xff) as u8,
            ((self.r34 >> 32) & 0xff) as u8,
            ((self.r34 >> 24) & 0xff) as u8,
            ((self.r34 >> 16) & 0xff) as u8,
            ((self.r34 >> 8) & 0xff) as u8,
            ((self.r34 >> 0) & 0xff) as u8,
            ((self.r56 >> 56) & 0xff) as u8,
            ((self.r56 >> 48) & 0xff) as u8,
            ((self.r56 >> 40) & 0xff) as u8,
            ((self.r56 >> 32) & 0xff) as u8,
            ((self.r56 >> 24) & 0xff) as u8,
            ((self.r56 >> 16) & 0xff) as u8,
            ((self.r56 >> 8) & 0xff) as u8,
            ((self.r56 >> 0) & 0xff) as u8,
            ((self.r78 >> 56) & 0xff) as u8,
            ((self.r78 >> 48) & 0xff) as u8,
            ((self.r78 >> 40) & 0xff) as u8,
            ((self.r78 >> 32) & 0xff) as u8,
            ((self.r78 >> 24) & 0xff) as u8,
            ((self.r78 >> 16) & 0xff) as u8,
            ((self.r78 >> 8) & 0xff) as u8,
            ((self.r78 >> 0) & 0xff) as u8,
        ];
        proof {
            assert(r@ =~= record_bytes(*self));
        }
        r
    }
}

/// An append-only buffer of raw fingerprints bound for one segment file:
/// the high-throughput fallback when transactional interning cannot keep up.
/// The file's identity is its path; the byte image is produced whole by
/// [`PositionSegment::to_bytes`] and never mutated after writing.
pub struct PositionSegment {
    path: &'static str,
    roots: Vec<Position>,
}

impl PositionSegment {
    /// The buffered fingerprints, in insertion order.
    pub closed spec fn contents(self) -> Seq<Position> {
        self.roots@
    }

    /// The path the segment is bound for.
    pub closed spec fn spec_path(self) -> &'static str {
        self.path
    }

    /// The record count fits the header's 4-byte big-endian field.
    pub open spec fn wf(self) -> bool {
        self.contents().len() <= 0xffff_ffff
    }

    /// An empty segment bound for `path`.
    pub fn new(path: &'static str) -> (r: Self)
        ensures
            r.wf(),
            r.contents().len() == 0,
            r.spec_path() == path,
    {
        PositionSegment { path: path, roots: Vec::<Position>::new() }
    }

    /// The path the segment is bound for.
    pub fn path(&self) -> (p: &'static str)
        ensures
            p == self.spec_path(),
    {
        self.path
    }

    /// How many fingerprints are buffered.
    pub fn len(&self) -> (n: usize)
        ensures
            n == self.contents().len(),
    {
        self.roots.len()
    }

    /// Buffers one fingerprint; no I/O happens.  The count cap is forced by
    /// the header's 4-byte count field.
    pub fn insert(&mut self, r12: u64, r34: u64, r56: u64, r78: u64)
        requires
            old(self).wf(),
            old(self).contents().len() < 0xffff_ffff,
        ensures
            final(self).wf(),
            final(self).contents() == old(self).contents().push(
                Position { r12, r34, r56, r78 },
            ),
            final(self).spec_path() == old(self).spec_path(),
    {
        self.roots.push(Position { r12, r34, r56, r78 });
    }

    /// The 8-byte header: the fixed magic, then the current record count,
    /// big-endian.
    pub fn get_header(&self) -> (h: [u8; 8])
        requires
            self.wf(),
        ensures
            h@ == header_bytes(self.contents().len() as u32),
    {
        let len = self.roots.len() as u32;
        proof {
            lemma_u32_byte_masks(len);
        }
        let h: [u8; 8] = [
            0xcc,
            0xdd,
            0x69,
            0x42,
            ((len >> 24) & 0xff) as u8,
            ((len >> 16) & 0xff) as u8,
            ((len >> 8) & 0xff) as u8,
            (len & 0xff) as u8,
        ];
        proof {
            assert(h@ =~= header_bytes(len));
        }
        h
    }

    /// The segment's full byte image: the header, then each fingerprint as
    /// 32 big-endian bytes.  This is exactly what a segment file holds.
    pub fn to_bytes(&self) -> (r: Vec<u8>)
        requires
            self.wf(),
        ensures
            r@ == segment_bytes(self.contents()),
    {
        let mut out: Vec<u8> = Vec::new();
        let h = self.get_header();
        let mut i: usize = 0;
        while i < 8
            invariant
                i <= 8,
                h@ == header_bytes(self.contents().len() as u32),
                out@ == h@.subrange(0, i as int),
            decreases 8 - i,
        {
            out.push(h[i]);
            proof {
                assert(out@ =~= h@.subrange(0, i + 1));
            }
            i += 1;
        }
        proof {
            assert(h@.subrange(0, 8) =~= h@);
            assert(records_bytes(self.contents(), 0) =~= Seq::<u8>::empty());
            assert(out@ =~= h@ + records_bytes(self.contents(), 0));
        }
        let mut k: usize = 0;
        while k < self.roots.len()
            invariant
                self.wf(),
                k <= self.contents().len(),
                h@ == header_bytes(self.contents().len() as u32),
                out@ == h@ + records_bytes(self.contents(), k as int),
            decreases self.contents().len() - k,
        {
            let ghost before = out@;
            let p = &self.roots[k];
            push_word_be(&mut out, p.r12);
            push_word_be(&mut out, p.r34);
            push_word_be(&mut out, p.r56);
            push_word_be(&mut out, p.r78);
            proof {
                assert(out@ =~= before + record_bytes(self.contents()[k as int]));
                assert(out@ =~= h@ + records_bytes(self.contents(), k + 1));
            }
            k += 1;
        }
        out
    }

    /// The 32-byte record of a fingerprint given as four words.
    pub fn position_quad_to_bytes(r12: u64, r34: u64, r56: u64, r78: u64) -> (r: [u8; 32])
        ensures
            r@ == record_bytes(Position { r12, r34, r56, r78 }),
    {
        let p = Position { r12, r34, r56, r78 };
        p.position_quad_to_bytes()
    }

    /// Reinterprets a fingerprint as a trie path: each word contributes its
    /// four 16-bit chunks, most significant first.
    pub fn calculate_position_tree_address(r12: u64, r34: u64, r56: u64, r78: u64) -> (r:
        PositionTrieAddress)
        ensures
            r.value@ == address_chunks(r12, r34, r56, r78),
    {
        proof {
            lemma_u64_chunk_masks(r12);
            lemma_u64_chunk_masks(r34);
            lemma_u64_chunk_masks(r56);
            lemma_u64_chunk_masks(r78);
        }
        let r = PositionTrieAddress {
            value: [
                ((r12 >> 48) & 0xffff) as u16,
                ((r12 >> 32) & 0xffff) as u16,
                ((r12 >> 16) & 0xffff) as u16,
                ((r12 >> 0) & 0xffff) as u16,
                ((r34 >> 48) & 0xffff) as u16,
                ((r34 >> 32) & 0xffff) as u16,
                ((r34 >> 16) & 0xffff) as u16,
                ((r34 >> 0) & 0xffff) as u16,
                ((r56 >> 48) & 0xffff) as u16,
                ((r56 >> 32) & 0xffff) as u16,
                ((r56 >> 16) & 0xffff) as u16,
                ((r56 >> 0) & 0xffff) as u16,
                ((r78 >> 48) & 0xffff) as u16,
                ((r78 >> 32) & 0xffff) as u16,
                ((r78 >> 16) & 0xffff) as u16,
                ((r78 >> 0) & 0xffff) as u16,
            ],
        };
        proof {
            assert(r.value@ =~= address_chunks(r12, r34, r56, r78));
        }
        r
    }

    /// Parses a segment byte image back into its fingerprints.  Succeeds
    /// exactly on images of the segment shape: magic, big-endian count, then
    /// that many 32-byte records.
    pub fn read_positions(bytes: &[u8]) -> (r: Option<Vec<Position>>)
        ensures
            r is Some <==> segment_shape(bytes@),
            match r {
                Some(v) => v@.len() == segment_count(bytes@) && forall|k: int|
                    0 <= k < v@.len() ==> v@[k] == record_at(bytes@, k),
                None => true,
            },
    {
        if bytes.len() < 8 {
            return None;
        }
        if !(bytes[0] == 0xcc && bytes[1] == 0xdd && bytes[2] == 0x69 && bytes[3] == 0x42) {
            return None;
        }
        let count: u32 = ((bytes[4] as u32) << 24) | ((bytes[5] as u32) << 16) | ((
        bytes[6] as u32) << 8) | (bytes[7] as u32);
        proof {
            assert(count as int == segment_count(bytes@));
        }
        if (bytes.len() as u64) != 8 + 32 * (count as u64) {
            proof {
                assert(!segment_shape(bytes@));
            }
            return None;
        }
        let blen: usize = bytes.len();
        let mut v: Vec<Position> = Vec::new();
        let mut k: usize = 0;
        while k < count as usize
            invariant
                segment_shape(bytes@),
                count as int == segment_count(bytes@),
                bytes@.len() == 8 + 32 * (count as int),
                blen == bytes@.len(),
                k <= count,
                v@.len() == k,
                forall|j: int| 0 <= j < k ==> v@[j] == record_at(bytes@, j),
            decreases count - k,
        {
            proof {
                assert(8 + 32 * (k as int) + 32 <= blen);
            }
            let off = 8 + 32 * k;
            let r12 = read_word_be(bytes, off);
            let r34 = read_word_be(bytes, off + 8);
            let r56 = read_word_be(bytes, off + 16);
            let r78 = read_word_be(bytes, off + 24);
            v.push(Position { r12, r34, r56, r78 });
            k += 1;
        }
        Some(v)
    }
}

/// Appends a word's eight big-endian bytes.
fn push_word_be(out: &mut Vec<u8>, w: u64)
    ensures
        final(out)@ == old(out)@ + be64(w),
{
    proof {
        lemma_u64_byte_masks(w);
    }
    out.push(((w >> 56) & 0xff) as u8);
    out.push(((w >> 48) & 0xff) as u8);
    out.push(((w >> 40) & 0xff) as u8);
    out.push(((w >> 32) & 0xff) as u8);
    out.push(((w >> 24) & 0xff) as u8);
    out.push(((w >> 16) & 0xff) as u8);
    out.push(((w >> 8) & 0xff) as u8);
    out.push(((w >> 0) & 0xff) as u8);
    proof {
        assert(out@ =~= old(out)@ + be64(w));
    }
}

/// Reads the word stored big-endian at `off`.
fn read_word_be(bytes: &[u8], off: usize) -> (w: u64)
    requires
        off + 8 <= bytes@.len(),
    ensures
        w == word_of_be(bytes@.subrange(off as int, off as int + 8)),
{
    let w = ((bytes[off] as u64) << 56) | ((bytes[off + 1] as u64) << 48) | ((bytes[off
        + 2] as u64) << 40) | ((bytes[off + 3] as u64) << 32) | ((bytes[off + 4] as u64) << 24) | ((
    bytes[off + 5] as u64) << 16) | ((bytes[off + 6] as u64) << 8) | (bytes[off + 7] as u64);
    proof {
        let b = bytes@.subrange(off as int, off as int + 8);
        assert(b[0] == bytes@[off as int] && b[1] == bytes@[off as int + 1] && b[2] == bytes@[off
            as int + 2] && b[3] == bytes@[off as int + 3] && b[4] == bytes@[off as int + 4] && b[5]
            == bytes@[off as int + 5] && b[6] == bytes@[off as int + 6] && b[7] == bytes@[off
            as int + 7]);
    }
    w
}

/// A fingerprint's sixteen 16-bit address chunks, word by word, most
/// significant chunk of each word first.
pub open spec fn address_chunks(r12: u64, r34: u64, r56: u64, r78: u64) -> Seq<u16> {
    seq![
        (((r12 >> 48) & 0xffff) as u16),
        (((r12 >> 32) & 0xffff) as u16),
        (((r12 >> 16) & 0xffff) as u16),
        (((r12 >> 0) & 0xffff) as u16),
        (((r34 >> 48) & 0xffff) as u16),
        (((r34 >> 32) & 0xffff) as u16),
        (((r34 >> 16) & 0xffff) as u16),
        (((r34 >> 0) & 0xffff) as u16),
        (((r56 >> 48) & 0xffff) as u16),
        (((r56 >> 32) & 0xffff) as u16),
        (((r56 >> 16) & 0xffff) as u16),
        (((r56 >> 0) & 0xffff) as u16),
        (((r78 >> 48) & 0xffff) as u16),
        (((r78 >> 32) & 0xffff) as u16),
        (((r78 >> 16) & 0xffff) as u16),
        (((r78 >> 0) & 0xffff) as u16),
    ]
}

/// A byte sequence has the segment shape: at least a header, the fixed
/// magic, and exactly as many 32-byte records as the count field says.
pub open spec fn segment_shape(b: Seq<u8>) -> bool {
    &&& b.len() >= 8
    &&& b[0] == 0xcc && b[1] == 0xdd && b[2] == 0x69 && b[3] == 0x42
    &&& b.len() == 8 + 32 * segment_count(b)
}

/// The record count a segment image's header announces.
pub open spec fn segment_count(b: Seq<u8>) -> int {
    be32_val(b[4], b[5], b[6], b[7]) as int
}

/// Record `k` of a segment image, rebuilt from its 32 bytes.
pub open spec fn record_at(b: Seq<u8>, k: int) -> Position {
    Position {
        r12: word_of_be(b.subrange(8 + 32 * k, 16 + 32 * k)),
        r34: word_of_be(b.subrange(16 + 32 * k, 24 + 32 * k)),
        r56: word_of_be(b.subrange(24 + 32 * k, 32 + 32 * k)),
        r78: word_of_be(b.subrange(32 + 32 * k, 40 + 32 * k)),
    }
}

/// Law: a segment's byte image reads back to exactly the fingerprints
/// written, in their original order.
pub proof fn lemma_segment_round_trip(rs: Seq<Position>)
    requires
        rs.len() <= 0xffff_ffff,
    ensures
        segment_shape(segment_bytes(rs)),
        segment_count(segment_bytes(rs)) == rs.len(),
        forall|k: int| 0 <= k < rs.len() ==> record_at(segment_bytes(rs), k) == rs[k],
{
    let b = segment_bytes(rs);
    let n = rs.len() as u32;
    lemma_records_len(rs, rs.len() as int);
    lemma_be32_round(n);
    assert(segment_count(b) == rs.len());
    assert(b.len() == 8 + 32 * rs.len());
    assert forall|k: int| 0 <= k < rs.len() implies record_at(b, k) == rs[k] by {
        lemma_records_index(rs, rs.len() as int, k);
        lemma_be64_round(rs[k].r12);
        lemma_be64_round(rs[k].r34);
        lemma_be64_round(rs[k].r56);
        lemma_be64_round(rs[k].r78);
        let base = 8 + 32 * k;
        assert forall|i: int| 0 <= i < 32 implies b[base + i] == record_bytes(rs[k])[i] by {
            assert(records_bytes(rs, rs.len() as int)[32 * k + i] == record_bytes(rs[k])[i]);
            assert(b[8 + (32 * k + i)] == records_bytes(rs, rs.len() as int)[32 * k + i]);
        }
        assert forall|i: int| 0 <= i < 8 implies b.subrange(base, base + 8)[i] == be64(
            rs[k].r12,
        )[i] by {
            assert(b[base + i] == record_bytes(rs[k])[i]);
        }
        assert forall|i: int| 0 <= i < 8 implies b.subrange(base + 8, base + 16)[i] == be64(
            rs[k].r34,
        )[i] by {
            let ii = 8 + i;
            assert(b[base + ii] == record_bytes(rs[k])[ii]);
        }
        assert forall|i: int| 0 <= i < 8 implies b.subrange(base + 16, base + 24)[i] == be64(
            rs[k].r56,
        )[i] by {
            let ii = 16 + i;
            assert(b[base + ii] == record_bytes(rs[k])[ii]);
        }
        assert forall|i: int| 0 <= i < 8 implies b.subrange(base + 24, base + 32)[i] == be64(
            rs[k].r78,
        )[i] by {
            let ii = 24 + i;
            assert(b[base + ii] == record_bytes(rs[k])[ii]);
        }
        assert(b.subrange(8 + 32 * k, 16 + 32 * k) =~= be64(rs[k].r12));
        assert(b.subrange(16 + 32 * k, 24 + 32 * k) =~= be64(rs[k].r34));
        assert(b.subrange(24 + 32 * k, 32 + 32 * k) =~= be64(rs[k].r56));
        assert(b.subrange(32 + 32 * k, 40 + 32 * k) =~= be64(rs[k].r78));
    }
}

} // verus!
