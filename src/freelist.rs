//! Nodes and the large-object space that owns them.
use vstd::prelude::*;

verus! {

/// The liveness state of a node across collection cycles.
#[derive(PartialEq, Eq, Structural, Copy, Clone, Debug)]
pub enum NodeMark {
    /// Allocated since the last sweep and not yet proven reachable.
    FreshAlloc,
    /// Survived the previous sweep; must be proven reachable again.
    PrevLive,
    /// Proven reachable in the current cycle.
    Live,
}

/// The record of one block of memory owned by the space.
#[derive(Copy, Clone, Debug)]
pub struct FreeListNode {
    pub id: usize,
    pub start: usize,
    pub size: usize,
    pub align: usize,
    pub mark: NodeMark,
}

impl FreeListNode {
    /// Whether `addr` lies inside this node's block.
    pub open spec fn contains(self, addr: usize) -> bool {
        self.start <= addr && addr - self.start < self.size
    }

    pub open spec fn with_mark(self, mark: NodeMark) -> FreeListNode {
        FreeListNode { mark, ..self }
    }

    /// Replaces the mark and keeps every other field.
    pub fn set_mark(&mut self, mark: NodeMark)
        ensures
            *final(self) == old(self).with_mark(mark),
    {
        self.mark = mark;
    }

    fn with_live(self) -> (r: FreeListNode)
        ensures
            r == self.with_mark(NodeMark::Live),
    {
        FreeListNode { mark: NodeMark::Live, ..self }
    }

    fn with_prev_live(self) -> (r: FreeListNode)
        ensures
            r == self.with_mark(NodeMark::PrevLive),
    {
        FreeListNode { mark: NodeMark::PrevLive, ..self }
    }

    pub fn id(&self) -> (r: usize)
        ensures
            r == self.id,
    {
        self.id
    }

    pub fn start(&self) -> (r: usize)
        ensures
            r == self.start,
    {
        self.start
    }

    pub fn size(&self) -> (r: usize)
        ensures
            r == self.size,
    {
        self.size
    }

    pub fn align(&self) -> (r: usize)
        ensures
            r == self.align,
    {
        self.align
    }

    pub fn mark(&self) -> (r: NodeMark)
        ensures
            r == self.mark,
    {
        self.mark
    }
}


/// Whether `n` is a positive power of two.
pub open spec fn is_pow2(n: int) -> bool
    decreases n,
{
    if n <= 0 {
        false
    } else if n == 1 {
        true
    } else {
        n % 2 == 0 && is_pow2(n / 2)
    }
}

/// The total size of the blocks recorded in `nodes`.
pub open spec fn sum_sizes(nodes: Seq<FreeListNode>) -> int
    decreases nodes.len(),
{
    if nodes.len() == 0 {
        0
    } else {
        sum_sizes(nodes.drop_last()) + nodes.last().size
    }
}

/// The nodes of `nodes` that were marked `Live`, in order, each demoted to
/// `PrevLive`: what a sweep keeps.
pub open spec fn survivors(nodes: Seq<FreeListNode>) -> Seq<FreeListNode>
    decreases nodes.len(),
{
    if nodes.len() == 0 {
        seq![]
    } else if nodes.last().mark == NodeMark::Live {
        survivors(nodes.drop_last()).push(nodes.last().with_mark(NodeMark::PrevLive))
    } else {
        survivors(nodes.drop_last())
    }
}

/// The nodes of `nodes` that were not marked `Live`, in order: what a sweep
/// releases.
pub open spec fn reclaimed(nodes: Seq<FreeListNode>) -> Seq<FreeListNode>
    decreases nodes.len(),
{
    if nodes.len() == 0 {
        seq![]
    } else if nodes.last().mark == NodeMark::Live {
        reclaimed(nodes.drop_last())
    } else {
        reclaimed(nodes.drop_last()).push(nodes.last())
    }
}

/// `nodes` after marking `addr`: every node whose block holds it is `Live`.
pub open spec fn marked(nodes: Seq<FreeListNode>, addr: usize) -> Seq<FreeListNode> {
    nodes.map_values(
        |n: FreeListNode|
            if n.contains(addr) {
                n.with_mark(NodeMark::Live)
            } else {
                n
            },
    )
}

/// Ids decrease strictly from the front (newest) to the back (oldest), and
/// all lie below `bound`.
pub open spec fn ids_ordered(nodes: Seq<FreeListNode>, bound: int) -> bool {
    &&& forall|i: int, j: int| 0 <= i < j < nodes.len() ==> nodes[i].id > nodes[j].id
    &&& forall|i: int| 0 <= i < nodes.len() ==> nodes[i].id < bound
}

/// The abstract state of a space.
pub struct SpaceView {
    /// The nodes, newest first.
    pub nodes: Seq<FreeListNode>,
    /// The id the next allocation receives.
    pub next_id: nat,
    /// The byte budget fixed at construction.
    pub capacity: nat,
    /// The bytes held by the present nodes.
    pub used: nat,
}

impl SpaceView {
    pub open spec fn inv(self) -> bool {
        &&& self.used == sum_sizes(self.nodes)
        &&& self.used <= self.capacity
        &&& ids_ordered(self.nodes, self.next_id as int)
    }
}

/// The large-object space: a budget of bytes and the nodes allocated in it.
pub struct FreeListSpace {
    current_nodes: Vec<FreeListNode>,
    node_id: usize,
    size: usize,
    used_bytes: usize,
}

impl View for FreeListSpace {
    type V = SpaceView;

    closed spec fn view(&self) -> SpaceView {
        SpaceView {
            nodes: self.current_nodes@,
            next_id: self.node_id as nat,
            capacity: self.size as nat,
            used: self.used_bytes as nat,
        }
    }
}

impl FreeListSpace {
    pub open spec fn wf(&self) -> bool {
        self@.inv()
    }

    /// An empty space with a budget of `size` bytes.
    pub fn new(size: usize) -> (r: FreeListSpace)
        ensures
            r.wf(),
            r@.nodes == Seq::<FreeListNode>::empty(),
            r@.next_id == 0,
            r@.capacity == size,
            r@.used == 0,
    {
        FreeListSpace { current_nodes: Vec::new(), node_id: 0, size, used_bytes: 0 }
    }

    /// The nodes, newest first.
    pub fn current_nodes(&self) -> (r: &Vec<FreeListNode>)
        ensures
            r@ == self@.nodes,
    {
        &self.current_nodes
    }

    /// The byte budget.
    pub fn capacity(&self) -> (r: usize)
        ensures
            r == self@.capacity,
    {
        self.size
    }

    /// The bytes held by the present nodes.
    pub fn used_bytes(&self) -> (r: usize)
        ensures
            r == self@.used,
    {
        self.used_bytes
    }

    /// The id the next allocation receives.
    pub fn next_id(&self) -> (r: usize)
        ensures
            r == self@.next_id,
    {
        self.node_id
    }

    /// Whether `size` more bytes fit in the budget.
    pub fn fits(&self, size: usize) -> (r: bool)
        requires
            self.wf(),
        ensures
            r == (self@.used + size <= self@.capacity),
    {
        size <= self.size - self.used_bytes
    }

    /// Allocates a block of `size` bytes aligned to `align`, obtained from
    /// `obtain` only when the budget allows it. On success the new node,
    /// `FreshAlloc` with the next id, stands at the front.
    pub fn allocate<F: FnOnce(usize, usize) -> usize>(
        &mut self,
        size: usize,
        align: usize,
        obtain: F,
    ) -> (r: Option<usize>)
        requires
            old(self).wf(),
            size > 0,
            is_pow2(align as int),
            old(self)@.next_id < usize::MAX,
            obtain.requires((size, align)),
        ensures
            final(self).wf(),
            final(self)@.capacity == old(self)@.capacity,
            (r is Some) == (old(self)@.used + size <= old(self)@.capacity),
            r is None ==> final(self)@ == old(self)@,
            r matches Some(a) ==> {
                &&& obtain.ensures((size, align), a)
                &&& final(self)@.nodes == seq![
                    FreeListNode {
                        id: old(self)@.next_id as usize,
                        start: a,
                        size,
                        align,
                        mark: NodeMark::FreshAlloc,
                    },
                ] + old(self)@.nodes
                &&& final(self)@.next_id == old(self)@.next_id + 1
                &&& final(self)@.used == old(self)@.used + size
            },
    {
        if size > self.size - self.used_bytes {
            None
        } else {
            let addr = obtain(size, align);
            let node = FreeListNode {
                id: self.node_id,
                start: addr,
                size,
                align,
                mark: NodeMark::FreshAlloc,
            };
            let ghost before = self.current_nodes@;
            self.current_nodes.insert(0, node);
            proof {
                let nodes = self.current_nodes@;
                assert(nodes == seq![node] + before);
                lemma_sum_sizes_prepend(node, before);
            }
            self.node_id = self.node_id + 1;
            self.used_bytes = self.used_bytes + size;
            Some(addr)
        }
    }

    /// Marks `Live` the node whose block holds `addr`. An address that no
    /// present node holds changes nothing.
    pub fn mark(&mut self, addr: usize)
        requires
            old(self).wf(),
        ensures
            final(self).wf(),
            final(self)@.nodes == marked(old(self)@.nodes, addr),
            final(self)@.next_id == old(self)@.next_id,
            final(self)@.capacity == old(self)@.capacity,
            final(self)@.used == old(self)@.used,
    {
        let ghost orig = self.current_nodes@;
        let n = self.current_nodes.len();
        let mut i: usize = 0;
        while i < n
            invariant
                i <= n,
                n == orig.len(),
                self.current_nodes@.len() == n,
                self.node_id == old(self).node_id,
                self.size == old(self).size,
                self.used_bytes == old(self).used_bytes,
                forall|j: int| 0 <= j < i ==> self.current_nodes@[j] == marked(orig, addr)[j],
                forall|j: int| i <= j < n ==> self.current_nodes@[j] == orig[j],
            decreases n - i,
        {
            let node = self.current_nodes[i];
            if node.start <= addr && addr - node.start < node.size {
                self.current_nodes.set(i, node.with_live());
            }
            i = i + 1;
        }
        proof {
            assert(self.current_nodes@ =~= marked(orig, addr));
            lemma_sum_sizes_same_sizes(orig, self.current_nodes@);
        }
    }

    /// Releases every node that was not marked `Live` and demotes the others
    /// to `PrevLive`, keeping their order; the bytes in use become the sizes
    /// of those kept. Returns the released nodes, so that each block is
    /// handed back to its provider exactly once.
    pub fn sweep(&mut self) -> (r: Vec<FreeListNode>)
        requires
            old(self).wf(),
        ensures
            final(self).wf(),
            final(self)@.nodes == survivors(old(self)@.nodes),
            final(self)@.used == sum_sizes(survivors(old(self)@.nodes)),
            final(self)@.next_id == old(self)@.next_id,
            final(self)@.capacity == old(self)@.capacity,
            r@ == reclaimed(old(self)@.nodes),
    {
        let ghost orig = self.current_nodes@;
        let mut kept: Vec<FreeListNode> = Vec::new();
        let mut released: Vec<FreeListNode> = Vec::new();
        let mut used: usize = 0;
        let n = self.current_nodes.len();
        let mut i: usize = 0;
        while i < n
            invariant
                i <= n,
                n == orig.len(),
                self.current_nodes@ == orig,
                self@.inv(),
                kept@ == survivors(orig.subrange(0, i as int)),
                released@ == reclaimed(orig.subrange(0, i as int)),
                used == sum_sizes(kept@),
            decreases n - i,
        {
            let node = self.current_nodes[i];
            proof {
                assert(orig.subrange(0, i + 1).drop_last() =~= orig.subrange(0, i as int));
                assert(orig.subrange(0, i + 1).last() == node);
                lemma_sum_sizes_prefix(orig, i + 1);
                lemma_survivors_sum(orig.subrange(0, i as int));
                lemma_sum_sizes_prefix(orig, i as int);
                lemma_survivors_sum(orig.subrange(0, i + 1));
            }
            match node.mark {
                NodeMark::Live => {
                    let survivor = node.with_prev_live();
                    proof {
                        let next = kept@.push(survivor);
                        assert(next.drop_last() =~= kept@);
                        assert(survivors(orig.subrange(0, i + 1)) == next);
                        assert(sum_sizes(next) == used + node.size);
                    }
                    used = used + node.size;
                    kept.push(survivor);
                },
                _ => {
                    released.push(node);
                },
            }
            i = i + 1;
        }
        proof {
            assert(orig.subrange(0, n as int) =~= orig);
            lemma_survivors_sum(orig);
            lemma_survivors_ordered(orig, self.node_id as int);
        }
        self.current_nodes = kept;
        self.used_bytes = used;
        released
    }
}

/// In a well-formed space no two nodes share an id, and the id the next
/// allocation receives differs from every present one: ids never repeat.
pub proof fn lemma_ids_unique(s: SpaceView)
    requires
        s.inv(),
    ensures
        forall|i: int, j: int|
            0 <= i < s.nodes.len() && 0 <= j < s.nodes.len() && i != j ==> s.nodes[i].id
                != s.nodes[j].id,
        forall|i: int| 0 <= i < s.nodes.len() ==> s.nodes[i].id < s.next_id,
{
    assert forall|i: int, j: int|
        0 <= i < s.nodes.len() && 0 <= j < s.nodes.len() && i != j implies s.nodes[i].id
        != s.nodes[j].id by {
        if i < j {
            assert(s.nodes[i].id > s.nodes[j].id);
        } else {
            assert(s.nodes[j].id > s.nodes[i].id);
        }
    }
}

/// A sweep keeps exactly the nodes marked `Live`, each now `PrevLive`, and
/// releases exactly the others.
pub proof fn lemma_sweep_partition(s: Seq<FreeListNode>)
    ensures
        survivors(s).len() + reclaimed(s).len() == s.len(),
        forall|k: int| 0 <= k < survivors(s).len() ==> exists|j: int|
            0 <= j < s.len() && s[j].mark == NodeMark::Live && #[trigger] survivors(s)[k]
                == s[j].with_mark(NodeMark::PrevLive),
        forall|k: int| 0 <= k < reclaimed(s).len() ==> exists|j: int|
            0 <= j < s.len() && s[j].mark != NodeMark::Live && #[trigger] reclaimed(s)[k]
                == s[j],
        forall|j: int|
            0 <= j < s.len() && s[j].mark == NodeMark::Live ==> survivors(s).contains(
                #[trigger] s[j].with_mark(NodeMark::PrevLive),
            ),
        forall|j: int|
            0 <= j < s.len() && s[j].mark != NodeMark::Live ==> reclaimed(s).contains(
                #[trigger] s[j],
            ),
    decreases s.len(),
{
    if s.len() > 0 {
        let p = s.drop_last();
        let last = s.len() - 1;
        lemma_sweep_partition(p);
        let sp = survivors(p);
        let rp = reclaimed(p);
        assert forall|k: int| 0 <= k < survivors(s).len() implies exists|j: int|
            0 <= j < s.len() && s[j].mark == NodeMark::Live && #[trigger] survivors(s)[k]
                == s[j].with_mark(NodeMark::PrevLive) by {
            if k < sp.len() {
                let j = choose|j: int|
                    0 <= j < p.len() && p[j].mark == NodeMark::Live && #[trigger] sp[k]
                        == p[j].with_mark(NodeMark::PrevLive);
                assert(s[j] == p[j]);
                assert(survivors(s)[k] == sp[k]);
            } else {
                assert(survivors(s)[k] == s[last].with_mark(NodeMark::PrevLive));
            }
        }
        assert forall|k: int| 0 <= k < reclaimed(s).len() implies exists|j: int|
            0 <= j < s.len() && s[j].mark != NodeMark::Live && #[trigger] reclaimed(s)[k]
                == s[j] by {
            if k < rp.len() {
                let j = choose|j: int|
                    0 <= j < p.len() && p[j].mark != NodeMark::Live && #[trigger] rp[k] == p[j];
                assert(s[j] == p[j]);
                assert(reclaimed(s)[k] == rp[k]);
            } else {
                assert(reclaimed(s)[k] == s[last]);
            }
        }
        assert forall|j: int|
            0 <= j < s.len() && s[j].mark == NodeMark::Live implies survivors(s).contains(
            #[trigger] s[j].with_mark(NodeMark::PrevLive),
        ) by {
            if j < last {
                assert(s[j] == p[j]);
                let k = choose|k: int| 0 <= k < sp.len() && sp[k] == p[j].with_mark(NodeMark::PrevLive);
                assert(survivors(s)[k] == sp[k]);
            } else {
                assert(survivors(s)[survivors(s).len() - 1] == s[j].with_mark(NodeMark::PrevLive));
            }
        }
        assert forall|j: int|
            0 <= j < s.len() && s[j].mark != NodeMark::Live implies reclaimed(s).contains(
            #[trigger] s[j],
        ) by {
            if j < last {
                assert(s[j] == p[j]);
                let k = choose|k: int| 0 <= k < rp.len() && rp[k] == p[j];
                assert(reclaimed(s)[k] == rp[k]);
            } else {
                assert(reclaimed(s)[reclaimed(s).len() - 1] == s[j]);
            }
        }
    }
}

/// Marking the same address twice leaves the nodes as marking it once, and
/// so the following sweep keeps and releases the same nodes.
pub proof fn lemma_mark_idempotent(s: Seq<FreeListNode>, addr: usize)
    ensures
        marked(marked(s, addr), addr) == marked(s, addr),
        survivors(marked(marked(s, addr), addr)) == survivors(marked(s, addr)),
        reclaimed(marked(marked(s, addr), addr)) == reclaimed(marked(s, addr)),
{
    assert(marked(marked(s, addr), addr) =~= marked(s, addr));
}

/// A node that survived an earlier sweep (`PrevLive`) is kept by the next
/// sweep when its block is marked again, and released when it is not: its
/// earlier survival alone does not protect it.
pub proof fn lemma_prev_live_needs_mark(s: Seq<FreeListNode>, j: int, addr: usize)
    requires
        0 <= j < s.len(),
        s[j].mark == NodeMark::PrevLive,
    ensures
        s[j].contains(addr) ==> survivors(marked(s, addr)).contains(s[j]),
        reclaimed(s).contains(s[j]),
{
    lemma_sweep_partition(s);
    let m = marked(s, addr);
    lemma_sweep_partition(m);
    if s[j].contains(addr) {
        assert(m[j] == s[j].with_mark(NodeMark::Live));
        assert(m[j].with_mark(NodeMark::PrevLive) == s[j]);
    }
}

proof fn lemma_sum_sizes_same_sizes(a: Seq<FreeListNode>, b: Seq<FreeListNode>)
    requires
        a.len() == b.len(),
        forall|j: int| 0 <= j < a.len() ==> a[j].size == b[j].size,
    ensures
        sum_sizes(a) == sum_sizes(b),
    decreases a.len(),
{
    if a.len() > 0 {
        lemma_sum_sizes_same_sizes(a.drop_last(), b.drop_last());
    }
}

proof fn lemma_sum_sizes_nonneg(s: Seq<FreeListNode>)
    ensures
        sum_sizes(s) >= 0,
    decreases s.len(),
{
    if s.len() > 0 {
        lemma_sum_sizes_nonneg(s.drop_last());
    }
}

/// The sum over a prefix is at most the sum over the whole.
proof fn lemma_sum_sizes_prefix(s: Seq<FreeListNode>, i: int)
    requires
        0 <= i <= s.len(),
    ensures
        sum_sizes(s.subrange(0, i)) <= sum_sizes(s),
    decreases s.len() - i,
{
    if i < s.len() {
        lemma_sum_sizes_prefix(s, i + 1);
        assert(s.subrange(0, i + 1).drop_last() =~= s.subrange(0, i));
    } else {
        assert(s.subrange(0, i) =~= s);
    }
}

/// What a sweep keeps weighs no more than what was there.
proof fn lemma_survivors_sum(s: Seq<FreeListNode>)
    ensures
        0 <= sum_sizes(survivors(s)) <= sum_sizes(s),
    decreases s.len(),
{
    lemma_sum_sizes_nonneg(survivors(s));
    if s.len() > 0 {
        lemma_survivors_sum(s.drop_last());
        if s.last().mark == NodeMark::Live {
            let t = survivors(s);
            assert(t.drop_last() =~= survivors(s.drop_last()));
        }
    }
}

/// Every node that a sweep keeps carries the id of a node that was there.
proof fn lemma_survivors_ids(s: Seq<FreeListNode>)
    ensures
        forall|k: int|
            0 <= k < survivors(s).len() ==> exists|j: int|
                0 <= j < s.len() && #[trigger] survivors(s)[k].id == s[j].id,
    decreases s.len(),
{
    if s.len() > 0 {
        let p = s.drop_last();
        lemma_survivors_ids(p);
        assert forall|k: int| 0 <= k < survivors(s).len() implies exists|j: int|
            0 <= j < s.len() && #[trigger] survivors(s)[k].id == s[j].id by {
            if k < survivors(p).len() {
                let j = choose|j: int| 0 <= j < p.len() && survivors(p)[k].id == p[j].id;
                assert(s[j] == p[j]);
            } else {
                assert(survivors(s)[k].id == s[s.len() - 1].id);
            }
        }
    }
}

/// A sweep keeps the ids in their strict order and below the same bound.
proof fn lemma_survivors_ordered(s: Seq<FreeListNode>, bound: int)
    requires
        ids_ordered(s, bound),
    ensures
        ids_ordered(survivors(s), bound),
    decreases s.len(),
{
    lemma_survivors_ids(s);
    if s.len() > 0 {
        let p = s.drop_last();
        lemma_survivors_ordered(p, bound);
        lemma_survivors_ids(p);
        if s.last().mark == NodeMark::Live {
            let t = survivors(s);
            assert forall|i: int, j: int| 0 <= i < j < t.len() implies t[i].id > t[j].id by {
                if j < t.len() - 1 {
                    assert(t[i] == survivors(p)[i]);
                    assert(t[j] == survivors(p)[j]);
                } else {
                    let k = choose|k: int| 0 <= k < p.len() && #[trigger] survivors(p)[i].id == p[k].id;
                    assert(t[i] == survivors(p)[i]);
                    assert(p[k] == s[k]);
                }
            }
        }
    }
}

proof fn lemma_sum_sizes_prepend(n: FreeListNode, s: Seq<FreeListNode>)
    ensures
        sum_sizes(seq![n] + s) == n.size + sum_sizes(s),
    decreases s.len(),
{
    if s.len() == 0 {
        assert((seq![n] + s).drop_last() =~= seq![]);
        assert((seq![n] + s).last() == n);
        assert(sum_sizes((seq![n] + s).drop_last()) == 0);
    } else {
        assert((seq![n] + s).drop_last() =~= seq![n] + s.drop_last());
        assert((seq![n] + s).last() == s.last());
        lemma_sum_sizes_prepend(n, s.drop_last());
    }
}

} // verus!
