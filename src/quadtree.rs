use vstd::prelude::*;
use crate::geom::{Entry, Rect};

verus! {

broadcast use vstd::seq_lib::group_to_multiset_ensures;

/// Most entries a leaf holds before it is split into four quadrants.
pub const CAP: usize = 10;

/// A node of the quadtree. Its region is not stored: the root's region is the
/// index's, and a child's region is the matching quadrant of its parent's.
pub enum Node {
    Leaf(Vec<Entry>),
    Inner(Box<Node>, Box<Node>, Box<Node>, Box<Node>),
}

/// The selection predicate of a range query.
pub open spec fn in_window(w: Rect) -> spec_fn(Entry) -> bool {
    |e: Entry| w.holds(e)
}

impl Node {
    /// Entries of the subtree: leaves in quadrant order, each leaf in insertion order.
    pub open spec fn contents(self) -> Seq<Entry>
        decreases self,
    {
        match self {
            Node::Leaf(v) => v@,
            Node::Inner(a, b, c, d) => a.contents() + b.contents() + c.contents() + d.contents(),
        }
    }

    /// Every entry lies in the node's region `r`, and a leaf holds at most `CAP`
    /// entries unless its region cannot be split.
    pub open spec fn wf_in(self, r: Rect) -> bool
        decreases self,
    {
        match self {
            Node::Leaf(v) => (forall|i: int| 0 <= i < v@.len() ==> r.holds(#[trigger] v@[i])) && (
            v@.len() <= CAP || r.is_point()),
            Node::Inner(a, b, c, d) => r.nonempty() && !r.is_point() && a.wf_in(r.quadrant(0))
                && b.wf_in(r.quadrant(1)) && c.wf_in(r.quadrant(2)) && d.wf_in(r.quadrant(3)),
        }
    }

    /// No leaf of a region that can still be split holds more than `CAP` entries.
    pub open spec fn leaves_within_cap(self, r: Rect) -> bool
        decreases self,
    {
        match self {
            Node::Leaf(v) => !r.is_point() ==> v@.len() <= CAP,
            Node::Inner(a, b, c, d) => a.leaves_within_cap(r.quadrant(0)) && b.leaves_within_cap(
                r.quadrant(1),
            ) && c.leaves_within_cap(r.quadrant(2)) && d.leaves_within_cap(r.quadrant(3)),
        }
    }

    pub proof fn lemma_contents_in_region(self, r: Rect)
        requires
            r.wf(),
            self.wf_in(r),
        ensures
            forall|i: int| 0 <= i < self.contents().len() ==> r.holds(#[trigger] self.contents()[i]),
        decreases self,
    {
        match self {
            Node::Leaf(v) => {},
            Node::Inner(a, b, c, d) => {
                let s = self.contents();
                assert forall|i: int| 0 <= i < s.len() implies r.holds(#[trigger] s[i]) by {
                    let la = a.contents().len();
                    let lb = b.contents().len();
                    let lc = c.contents().len();
                    let k: int = if i < la {
                        0
                    } else if i < la + lb {
                        1
                    } else if i < la + lb + lc {
                        2
                    } else {
                        3
                    };
                    r.lemma_quadrant_wf(k);
                    a.lemma_contents_in_region(r.quadrant(0));
                    b.lemma_contents_in_region(r.quadrant(1));
                    c.lemma_contents_in_region(r.quadrant(2));
                    d.lemma_contents_in_region(r.quadrant(3));
                    if k == 0 {
                        assert(s[i] == a.contents()[i]);
                    } else if k == 1 {
                        assert(s[i] == b.contents()[i - la]);
                    } else if k == 2 {
                        assert(s[i] == c.contents()[i - la - lb]);
                    } else {
                        assert(s[i] == d.contents()[i - la - lb - lc]);
                    }
                }
            },
        }
    }

    pub proof fn lemma_within_cap(self, r: Rect)
        requires
            self.wf_in(r),
        ensures
            self.leaves_within_cap(r),
        decreases self,
    {
        match self {
            Node::Leaf(v) => {},
            Node::Inner(a, b, c, d) => {
                a.lemma_within_cap(r.quadrant(0));
                b.lemma_within_cap(r.quadrant(1));
                c.lemma_within_cap(r.quadrant(2));
                d.lemma_within_cap(r.quadrant(3));
            },
        }
    }
}

/// A sequence none of whose entries lies in `w` selects nothing.
pub proof fn lemma_select_none(s: Seq<Entry>, w: Rect)
    requires
        forall|i: int| 0 <= i < s.len() ==> !w.holds(#[trigger] s[i]),
    ensures
        s.filter(in_window(w)) == Seq::<Entry>::empty(),
    decreases s.len(),
{
    if s.len() == 0 {
        s.lemma_filter_len(in_window(w));
        assert(s.filter(in_window(w)) =~= Seq::<Entry>::empty());
    } else {
        let t = s.drop_last();
        lemma_select_none(t, w);
        assert(t.push(s.last()) =~= s);
        t.lemma_filter_push(s.last(), in_window(w));
    }
}

/// A sequence all of whose entries lie in `w` is selected whole.
pub proof fn lemma_select_all(s: Seq<Entry>, w: Rect)
    requires
        forall|i: int| 0 <= i < s.len() ==> w.holds(#[trigger] s[i]),
    ensures
        s.filter(in_window(w)) == s,
    decreases s.len(),
{
    if s.len() == 0 {
        s.lemma_filter_len(in_window(w));
        assert(s.filter(in_window(w)) =~= s);
    } else {
        let t = s.drop_last();
        lemma_select_all(t, w);
        assert(t.push(s.last()) =~= s);
        t.lemma_filter_push(s.last(), in_window(w));
    }
}

/// Hands the entries of a full leaf out to four fresh leaves, one per quadrant.
fn split_leaf(v: Vec<Entry>, r: Rect) -> (n: Node)
    requires
        r.wf(),
        r.nonempty(),
        !r.is_point(),
        v@.len() <= CAP,
        forall|i: int| 0 <= i < v@.len() ==> r.holds(#[trigger] v@[i]),
    ensures
        n.wf_in(r),
        n is Inner,
        n.contents().to_multiset() == v@.to_multiset(),
{
    let mut q0: Vec<Entry> = Vec::new();
    let mut q1: Vec<Entry> = Vec::new();
    let mut q2: Vec<Entry> = Vec::new();
    let mut q3: Vec<Entry> = Vec::new();
    let mut i: usize = 0;
    while i < v.len()
        invariant
            r.wf(),
            r.nonempty(),
            i <= v@.len() <= CAP,
            forall|j: int| 0 <= j < v@.len() ==> r.holds(#[trigger] v@[j]),
            q0@.len() + q1@.len() + q2@.len() + q3@.len() == i,
            forall|j: int| 0 <= j < q0@.len() ==> r.quadrant(0).holds(#[trigger] q0@[j]),
            forall|j: int| 0 <= j < q1@.len() ==> r.quadrant(1).holds(#[trigger] q1@[j]),
            forall|j: int| 0 <= j < q2@.len() ==> r.quadrant(2).holds(#[trigger] q2@[j]),
            forall|j: int| 0 <= j < q3@.len() ==> r.quadrant(3).holds(#[trigger] q3@[j]),
            (q0@ + q1@ + q2@ + q3@).to_multiset() == v@.subrange(0, i as int).to_multiset(),
        decreases v@.len() - i,
    {
        let e = v[i];
        proof {
            r.lemma_quadrant_of(e.x as int, e.y as int);
            assert(v@.subrange(0, i + 1) =~= v@.subrange(0, i as int).push(e));
            vstd::seq_lib::lemma_multiset_commutative(q0@ + q1@ + q2@, q3@);
            vstd::seq_lib::lemma_multiset_commutative(q0@ + q1@, q2@);
            vstd::seq_lib::lemma_multiset_commutative(q0@, q1@);
        }
        let k = r.quadrant_index(e.x, e.y);
        if k == 0 {
            q0.push(e);
        } else if k == 1 {
            q1.push(e);
        } else if k == 2 {
            q2.push(e);
        } else {
            q3.push(e);
        }
        proof {
            vstd::seq_lib::lemma_multiset_commutative(q0@ + q1@ + q2@, q3@);
            vstd::seq_lib::lemma_multiset_commutative(q0@ + q1@, q2@);
            vstd::seq_lib::lemma_multiset_commutative(q0@, q1@);
        }
        i = i + 1;
    }
    proof {
        assert(v@.subrange(0, v@.len() as int) =~= v@);
    }
    let ghost (s0, s1, s2, s3) = (q0@, q1@, q2@, q3@);
    let n = Node::Inner(
        Box::new(Node::Leaf(q0)),
        Box::new(Node::Leaf(q1)),
        Box::new(Node::Leaf(q2)),
        Box::new(Node::Leaf(q3)),
    );
    proof {
        reveal_with_fuel(Node::contents, 2);
        reveal_with_fuel(Node::wf_in, 2);
        assert(n.contents() == s0 + s1 + s2 + s3);
    }
    n
}

/// Inserts `e` into the subtree of region `r`, splitting a full leaf on the way.
fn insert_node(node: Node, r: Rect, e: Entry) -> (n: Node)
    requires
        r.wf(),
        node.wf_in(r),
        r.holds(e),
    ensures
        n.wf_in(r),
        n.contents().to_multiset() == node.contents().to_multiset().insert(e),
    decreases r.measure(), 1int,
{
    proof {
        r.lemma_quadrant_of(e.x as int, e.y as int);
    }
    match node {
        Node::Leaf(v) => {
            if v.len() < CAP || r.is_single_point() {
                let mut v = v;
                v.push(e);
                Node::Leaf(v)
            } else {
                match split_leaf(v, r) {
                    Node::Inner(a, b, c, d) => insert_inner(a, b, c, d, r, e),
                    Node::Leaf(w) => {
                        proof {
                            assert(false);
                        }
                        Node::Leaf(w)
                    },
                }
            }
        },
        Node::Inner(a, b, c, d) => insert_inner(a, b, c, d, r, e),
    }
}

/// Inserts `e` into the child of an inner node whose quadrant holds it.
fn insert_inner(a: Box<Node>, b: Box<Node>, c: Box<Node>, d: Box<Node>, r: Rect, e: Entry) -> (n:
    Node)
    requires
        r.wf(),
        Node::Inner(a, b, c, d).wf_in(r),
        r.holds(e),
    ensures
        n.wf_in(r),
        n.contents().to_multiset() == Node::Inner(a, b, c, d).contents().to_multiset().insert(e),
    decreases r.measure(), 0int,
{
    proof {
        r.lemma_quadrant_of(e.x as int, e.y as int);
    }
    let k = r.quadrant_index(e.x, e.y);
    proof {
        r.lemma_quadrant_wf(k as int);
        vstd::seq_lib::lemma_multiset_commutative(
            a.contents() + b.contents() + c.contents(),
            d.contents(),
        );
        vstd::seq_lib::lemma_multiset_commutative(a.contents() + b.contents(), c.contents());
        vstd::seq_lib::lemma_multiset_commutative(a.contents(), b.contents());
    }
    let q = r.quadrant_exec(k);
    let (a, b, c, d) = if k == 0 {
        (Box::new(insert_node(*a, q, e)), b, c, d)
    } else if k == 1 {
        (a, Box::new(insert_node(*b, q, e)), c, d)
    } else if k == 2 {
        (a, b, Box::new(insert_node(*c, q, e)), d)
    } else {
        (a, b, c, Box::new(insert_node(*d, q, e)))
    };
    proof {
        vstd::seq_lib::lemma_multiset_commutative(
            a.contents() + b.contents() + c.contents(),
            d.contents(),
        );
        vstd::seq_lib::lemma_multiset_commutative(a.contents() + b.contents(), c.contents());
        vstd::seq_lib::lemma_multiset_commutative(a.contents(), b.contents());
    }
    Node::Inner(a, b, c, d)
}

/// Appends to `out` the entries of the subtree that lie in `w`, in contents order.
/// Children whose region misses `w` are skipped.
fn query_node(node: &Node, r: Rect, w: &Rect, out: &mut Vec<Entry>)
    requires
        r.wf(),
        node.wf_in(r),
    ensures
        final(out)@ == old(out)@ + node.contents().filter(in_window(*w)),
    decreases node, 0int,
{
    match node {
        Node::Leaf(v) => {
            let ghost start = out@;
            let mut i: usize = 0;
            while i < v.len()
                invariant
                    i <= v@.len(),
                    out@ == start + v@.subrange(0, i as int).filter(in_window(*w)),
                decreases v@.len() - i,
            {
                let e = v[i];
                proof {
                    assert(v@.subrange(0, i + 1) =~= v@.subrange(0, i as int).push(e));
                    v@.subrange(0, i as int).lemma_filter_push(e, in_window(*w));
                }
                if w.contains_point(e.x, e.y) {
                    out.push(e);
                    proof {
                        assert(out@ =~= start + v@.subrange(0, i + 1).filter(in_window(*w)));
                    }
                }
                i = i + 1;
            }
            proof {
                assert(v@.subrange(0, v@.len() as int) =~= v@);
            }
        },
        Node::Inner(a, b, c, d) => {
            let ghost start = out@;
            let ghost p = in_window(*w);
            proof {
                Seq::filter_distributes_over_add(
                    a.contents() + b.contents() + c.contents(),
                    d.contents(),
                    p,
                );
                Seq::filter_distributes_over_add(a.contents() + b.contents(), c.contents(), p);
                Seq::filter_distributes_over_add(a.contents(), b.contents(), p);
            }
            query_child(a, r, 0, w, out);
            query_child(b, r, 1, w, out);
            query_child(c, r, 2, w, out);
            query_child(d, r, 3, w, out);
            proof {
                assert(out@ =~= start + node.contents().filter(p));
            }
        },
    }
}

/// Queries child `k` of an inner node of region `r`, unless its quadrant misses `w`.
fn query_child(child: &Node, r: Rect, k: u8, w: &Rect, out: &mut Vec<Entry>)
    requires
        r.wf(),
        r.nonempty(),
        k < 4,
        child.wf_in(r.quadrant(k as int)),
    ensures
        final(out)@ == old(out)@ + child.contents().filter(in_window(*w)),
    decreases child, 1int,
{
    let q = r.quadrant_exec(k);
    if q.overlaps_rect(w) {
        query_node(child, q, w, out);
    } else {
        proof {
            child.lemma_contents_in_region(q);
            lemma_select_none(child.contents(), *w);
            assert(old(out)@ + Seq::<Entry>::empty() =~= old(out)@);
        }
    }
}

/// Appends every entry of the subtree to `out`, in contents order.
fn collect_node(node: &Node, out: &mut Vec<Entry>)
    ensures
        final(out)@ == old(out)@ + node.contents(),
    decreases node,
{
    match node {
        Node::Leaf(v) => {
            let ghost start = out@;
            let mut i: usize = 0;
            while i < v.len()
                invariant
                    i <= v@.len(),
                    out@ == start + v@.subrange(0, i as int),
                decreases v@.len() - i,
            {
                out.push(v[i]);
                proof {
                    assert(out@ =~= start + v@.subrange(0, i + 1));
                }
                i = i + 1;
            }
            proof {
                assert(v@.subrange(0, v@.len() as int) =~= v@);
            }
        },
        Node::Inner(a, b, c, d) => {
            let ghost start = out@;
            collect_node(a, out);
            collect_node(b, out);
            collect_node(c, out);
            collect_node(d, out);
            proof {
                assert(out@ =~= start + node.contents());
            }
        },
    }
}

/// Why an entry could not be stored.
#[derive(Clone, Copy, Debug, PartialEq, Eq, Structural)]
pub enum IndexError {
    /// The entry's position lies outside the index's region.
    OutOfRegion,
}

/// A region quadtree over entries, with leaves of at most `CAP` entries.
pub struct SpatialIndex {
    pub region: Rect,
    pub root: Node,
    pub count: usize,
}

/// Each entry moved to the nearest point of `r`.
pub open spec fn clamp_all(s: Seq<Entry>, r: Rect) -> Seq<Entry> {
    s.map_values(|e: Entry| r.clamp_entry(e))
}

impl View for SpatialIndex {
    type V = Seq<Entry>;

    open spec fn view(&self) -> Seq<Entry> {
        self.root.contents()
    }
}

impl SpatialIndex {
    pub open spec fn wf(&self) -> bool {
        self.region.wf() && self.root.wf_in(self.region) && self.count == self.root.contents().len()
    }

    /// An index over `region` that holds nothing.
    pub fn empty(region: Rect) -> (t: SpatialIndex)
        requires
            region.wf(),
        ensures
            t.wf(),
            t.region == region,
            t@ == Seq::<Entry>::empty(),
    {
        SpatialIndex { region, root: Node::Leaf(Vec::new()), count: 0 }
    }

    /// Builds an index over `region` by inserting `entries` one at a time; fails
    /// if any of them lies outside `region`.
    pub fn new(region: Rect, entries: &Vec<Entry>) -> (res: Result<SpatialIndex, IndexError>)
        requires
            region.wf(),
        ensures
            res is Ok <==> (forall|i: int| 0 <= i < entries@.len() ==> region.holds(#[trigger] entries@[i])),
            res matches Ok(t) ==> t.wf() && t.region == region && t@.to_multiset() == entries@.to_multiset(),
            res matches Err(e) ==> e == IndexError::OutOfRegion,
    {
        let mut t = SpatialIndex::empty(region);
        let mut i: usize = 0;
        while i < entries.len()
            invariant
                i <= entries@.len(),
                t.wf(),
                t.region == region,
                t@.to_multiset() == entries@.subrange(0, i as int).to_multiset(),
                t@.len() == i,
                forall|j: int| 0 <= j < i ==> region.holds(#[trigger] entries@[j]),
            decreases entries@.len() - i,
        {
            let e = entries[i];
            proof {
                assert(entries@.subrange(0, i + 1) =~= entries@.subrange(0, i as int).push(e));
            }
            match t.insert(e) {
                Ok(()) => {},
                Err(err) => {
                    return Err(err);
                },
            }
            i = i + 1;
        }
        proof {
            assert(entries@.subrange(0, entries@.len() as int) =~= entries@);
        }
        Ok(t)
    }

    /// Stores `e`, or fails with `OutOfRegion`, leaving the index as it was, when
    /// its position lies outside the region.
    pub fn insert(&mut self, e: Entry) -> (res: Result<(), IndexError>)
        requires
            old(self).wf(),
            old(self)@.len() < usize::MAX,
        ensures
            final(self).wf(),
            final(self).region == old(self).region,
            res is Ok <==> old(self).region.holds(e),
            res is Ok ==> final(self)@.to_multiset() == old(self)@.to_multiset().insert(e),
            res is Ok ==> final(self)@.len() == old(self)@.len() + 1,
            res is Err ==> final(self)@ == old(self)@ && res == Err::<(), IndexError>(
                IndexError::OutOfRegion,
            ),
    {
        if !self.region.contains_point(e.x, e.y) {
            return Err(IndexError::OutOfRegion);
        }
        let mut root = Node::Leaf(Vec::new());
        core::mem::swap(&mut root, &mut self.root);
        let ghost old_contents = root.contents();
        let n = insert_node(root, self.region, e);
        proof {
            assert(n.contents().to_multiset().len() == n.contents().len());
            assert(old_contents.to_multiset().len() == old_contents.len());
        }
        self.root = n;
        self.count = self.count + 1;
        Ok(())
    }

    /// Entries whose position lies in `w`; a subtree whose region misses `w` is
    /// not visited.
    pub fn query_range(&self, w: &Rect) -> (r: Vec<Entry>)
        requires
            self.wf(),
        ensures
            r@ == self@.filter(in_window(*w)),
    {
        let mut out: Vec<Entry> = Vec::new();
        query_node(&self.root, self.region, w, &mut out);
        proof {
            assert(out@ =~= self@.filter(in_window(*w)));
        }
        out
    }

    /// Every stored entry, whatever its position.
    pub fn iterate(&self) -> (r: Vec<Entry>)
        ensures
            r@ == self@,
    {
        let mut out: Vec<Entry> = Vec::new();
        collect_node(&self.root, &mut out);
        proof {
            assert(out@ =~= self@);
        }
        out
    }

    pub fn len(&self) -> (n: usize)
        requires
            self.wf(),
        ensures
            n == self@.len(),
    {
        self.count
    }

    /// Rebuilds the index over `new_region`. Entries now outside it are moved to
    /// its nearest point first, so none is lost.
    pub fn change_bounds(&mut self, new_region: Rect)
        requires
            old(self).wf(),
            new_region.wf(),
            new_region.nonempty(),
        ensures
            final(self).wf(),
            final(self).region == new_region,
            final(self)@.to_multiset() == clamp_all(old(self)@, new_region).to_multiset(),
            final(self)@.len() == old(self)@.len(),
    {
        let all = self.iterate();
        let mut t = SpatialIndex::empty(new_region);
        let mut i: usize = 0;
        while i < all.len()
            invariant
                i <= all@.len(),
                all@ == old(self)@,
                old(self).wf(),
                new_region.wf(),
                new_region.nonempty(),
                t.wf(),
                t.region == new_region,
                t@.len() == i,
                t@.to_multiset() == clamp_all(all@.subrange(0, i as int), new_region).to_multiset(),
            decreases all@.len() - i,
        {
            let e = new_region.clamp_entry_exec(all[i]);
            proof {
                assert(clamp_all(all@.subrange(0, i + 1), new_region) =~= clamp_all(
                    all@.subrange(0, i as int),
                    new_region,
                ).push(e));
            }
            let res = t.insert(e);
            i = i + 1;
        }
        proof {
            assert(all@.subrange(0, all@.len() as int) =~= all@);
        }
        *self = t;
    }
}

/// A query over the index's whole region returns every stored entry, each as
/// often as it was inserted and in storage order.
pub proof fn lemma_full_region_query(t: &SpatialIndex)
    requires
        t.wf(),
    ensures
        t@.filter(in_window(t.region)) == t@,
        t@.filter(in_window(t.region)).to_multiset() == t@.to_multiset(),
{
    t.root.lemma_contents_in_region(t.region);
    lemma_select_all(t@, t.region);
}

/// In a well-formed index, no leaf whose region can still be split holds more
/// than `CAP` entries.
pub proof fn lemma_leaf_capacity(t: &SpatialIndex)
    requires
        t.wf(),
    ensures
        t.root.leaves_within_cap(t.region),
{
    t.root.lemma_within_cap(t.region);
}

/// Every stored entry lies in the index's region.
pub proof fn lemma_entries_in_region(t: &SpatialIndex)
    requires
        t.wf(),
    ensures
        forall|i: int| 0 <= i < t@.len() ==> t.region.holds(#[trigger] t@[i]),
{
    t.root.lemma_contents_in_region(t.region);
}

/// How often `x` occurs among the entries of `s` that lie in `w`.
proof fn lemma_select_count(s: Seq<Entry>, w: Rect, x: Entry)
    ensures
        s.filter(in_window(w)).to_multiset().count(x) == if w.holds(x) {
            s.to_multiset().count(x)
        } else {
            0
        },
    decreases s.len(),
{
    if s.len() == 0 {
        s.lemma_filter_len(in_window(w));
        assert(s.filter(in_window(w)) =~= Seq::<Entry>::empty());
        assert(s =~= Seq::<Entry>::empty());
    } else {
        let t = s.drop_last();
        lemma_select_count(t, w, x);
        assert(t.push(s.last()) =~= s);
        t.lemma_filter_push(s.last(), in_window(w));
    }
}

/// Selecting by a window depends only on the multiset of entries.
pub proof fn lemma_select_multiset(a: Seq<Entry>, b: Seq<Entry>, w: Rect)
    requires
        a.to_multiset() == b.to_multiset(),
    ensures
        a.filter(in_window(w)).to_multiset() == b.filter(in_window(w)).to_multiset(),
{
    assert forall|x: Entry| #[trigger] a.filter(in_window(w)).to_multiset().count(x)
        == b.filter(in_window(w)).to_multiset().count(x) by {
        lemma_select_count(a, w, x);
        lemma_select_count(b, w, x);
    }
    assert(a.filter(in_window(w)).to_multiset() =~= b.filter(in_window(w)).to_multiset());
}

/// A range query over an index built from `entries` returns, as a multiset,
/// exactly the entries that a scan of `entries` finds in the window.
pub proof fn lemma_query_is_scan(t: &SpatialIndex, entries: Seq<Entry>, w: Rect)
    requires
        t.wf(),
        t@.to_multiset() == entries.to_multiset(),
    ensures
        t@.filter(in_window(w)).to_multiset() == entries.filter(in_window(w)).to_multiset(),
{
    lemma_select_multiset(t@, entries, w);
}

/// A query over the whole region of an index built from `entries` returns
/// exactly those entries, each as often as it was inserted.
pub proof fn lemma_full_query_is_inserted_set(t: &SpatialIndex, entries: Seq<Entry>)
    requires
        t.wf(),
        t@.to_multiset() == entries.to_multiset(),
    ensures
        t@.filter(in_window(t.region)).to_multiset() == entries.to_multiset(),
{
    lemma_full_region_query(t);
}

} // verus!
