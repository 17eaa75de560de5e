use vstd::prelude::*;
use crate::geometry::{Rectangle, Vec2};

verus! {

broadcast use vstd::seq_lib::group_to_multiset_ensures;

/// Items a node keeps before it splits.
pub const MAX_CAPACITY_QUADTREE: usize = 4;

/// Anything with a position in the plane.
pub trait HasLocation {
    spec fn location(&self) -> Vec2;

    fn get_location(&self) -> (r: Vec2)
        ensures
            r == self.location(),
    ;
}

/// An entry of the index: where an agent stood, and the handle that names it.
#[derive(Clone, Copy, Debug, PartialEq, Eq, Structural)]
pub struct Item {
    pub position: Vec2,
    pub handle: usize,
}

/// A rectangle whose extents are non-negative and whose far edges fit in `i64`.
pub open spec fn rect_ok(b: Rectangle) -> bool {
    &&& 0 <= b.width
    &&& 0 <= b.height
    &&& b.x + b.width <= i64::MAX
    &&& b.y + b.height <= i64::MAX
}

/// Quadrant `k` of `b` (0 top-left, 1 top-right, 2 bottom-left, 3 bottom-right).
/// The left/top halves take the smaller half of an odd extent, so the four
/// quadrants tile `b` exactly.
pub open spec fn quadrant(b: Rectangle, k: int) -> Rectangle {
    let hw = b.width / 2;
    let hh = b.height / 2;
    let right = k == 1 || k == 3;
    let bottom = k == 2 || k == 3;
    Rectangle {
        x: (if right { b.x + hw } else { b.x as int }) as i64,
        y: (if bottom { b.y + hh } else { b.y as int }) as i64,
        width: (if right { b.width - hw } else { hw }) as i64,
        height: (if bottom { b.height - hh } else { hh }) as i64,
    }
}

/// The handles of the items of `s` that lie in `r`, in the order of `s`.
pub open spec fn hits(s: Seq<Item>, r: Rectangle) -> Seq<usize>
    decreases s.len(),
{
    if s.len() == 0 {
        Seq::empty()
    } else {
        let last = s.last();
        hits(s.drop_last(), r) + if r.contains_spec(last.position) {
            seq![last.handle]
        } else {
            Seq::empty()
        }
    }
}

/// A region quadtree over a rectangle. Each node keeps up to
/// `MAX_CAPACITY_QUADTREE` items; the next item that reaches a full node
/// splits it into four quadrants and goes down to the one that contains it.
/// Items already kept by a node stay there when it splits: they are not
/// handed down, so a split node keeps exactly its first items. Most quadtrees
/// redistribute at a split; this one deliberately does not, and its capacity
/// rules (see `insert_post`) depend on that.
pub struct QuadTree {
    boundary: Rectangle,
    objects: Vec<Item>,
    is_divided: bool,
    top_left: Option<Box<QuadTree>>,
    top_right: Option<Box<QuadTree>>,
    bottom_left: Option<Box<QuadTree>>,
    bottom_right: Option<Box<QuadTree>>,
}

pub open spec fn opt_items(t: Option<Box<QuadTree>>) -> Seq<Item>
    decreases t,
{
    match t {
        None => Seq::empty(),
        Some(c) => c.items(),
    }
}

pub open spec fn opt_count(t: Option<Box<QuadTree>>) -> nat
    decreases t,
{
    match t {
        None => 0,
        Some(c) => c.node_count(),
    }
}

pub open spec fn opt_boundaries(t: Option<Box<QuadTree>>) -> Seq<Rectangle>
    decreases t,
{
    match t {
        None => Seq::empty(),
        Some(c) => c.boundaries_spec(),
    }
}

pub open spec fn opt_loads(t: Option<Box<QuadTree>>) -> Seq<nat>
    decreases t,
{
    match t {
        None => Seq::empty(),
        Some(c) => c.loads(),
    }
}

pub open spec fn child_ok(t: Option<Box<QuadTree>>, b: Rectangle, divided: bool) -> bool
    decreases t,
{
    match t {
        None => !divided,
        Some(c) => divided && c.boundary_spec() == b && c.wf(),
    }
}

impl QuadTree {
    pub closed spec fn boundary_spec(self) -> Rectangle {
        self.boundary
    }

    /// The items kept at the root node itself.
    pub closed spec fn stored_here(self) -> Seq<Item> {
        self.objects@
    }

    pub closed spec fn is_split(self) -> bool {
        self.is_divided
    }

    /// Every item of the tree: the node's own, then each quadrant's in turn.
    pub closed spec fn items(self) -> Seq<Item>
        decreases self,
    {
        self.objects@ + opt_items(self.top_left) + opt_items(self.top_right) + opt_items(
            self.bottom_left,
        ) + opt_items(self.bottom_right)
    }

    /// The boundary of every node, each before those of its quadrants.
    pub closed spec fn boundaries_spec(self) -> Seq<Rectangle>
        decreases self,
    {
        seq![self.boundary] + opt_boundaries(self.top_left) + opt_boundaries(self.top_right)
            + opt_boundaries(self.bottom_left) + opt_boundaries(self.bottom_right)
    }

    pub closed spec fn node_count(self) -> nat
        decreases self,
    {
        1 + opt_count(self.top_left) + opt_count(self.top_right) + opt_count(self.bottom_left)
            + opt_count(self.bottom_right)
    }

    pub closed spec fn wf(self) -> bool
        decreases self,
    {
        &&& rect_ok(self.boundary)
        &&& self.objects.len() <= MAX_CAPACITY_QUADTREE
        &&& forall|i: int|
            0 <= i < self.objects.len() ==> self.boundary.contains_spec(
                #[trigger] self.objects@[i].position,
            )
        &&& self.is_divided ==> self.objects.len() == MAX_CAPACITY_QUADTREE
        &&& child_ok(self.top_left, quadrant(self.boundary, 0), self.is_divided)
        &&& child_ok(self.top_right, quadrant(self.boundary, 1), self.is_divided)
        &&& child_ok(self.bottom_left, quadrant(self.boundary, 2), self.is_divided)
        &&& child_ok(self.bottom_right, quadrant(self.boundary, 3), self.is_divided)
    }

    fn leaf(boundary: Rectangle) -> (r: QuadTree)
        requires
            rect_ok(boundary),
        ensures
            r.wf(),
            r.boundary == boundary,
            r.objects@.len() == 0,
            !r.is_divided,
            r.items().len() == 0,
            r.node_count() == 1,
    {
        let r = QuadTree {
            boundary,
            objects: Vec::new(),
            is_divided: false,
            top_left: None,
            top_right: None,
            bottom_left: None,
            bottom_right: None,
        };
        assert(r.items() =~= Seq::empty());
        r
    }

    /// An empty index over `boundary`, which must have positive area.
    pub fn new(boundary: Rectangle) -> (r: QuadTree)
        requires
            rect_ok(boundary),
            boundary.width > 0,
            boundary.height > 0,
        ensures
            r.wf(),
            r.boundary_spec() == boundary,
            r.items() == Seq::<Item>::empty(),
            r.stored_here() == Seq::<Item>::empty(),
            !r.is_split(),
            r.node_count() == 1,
    {
        QuadTree::leaf(boundary)
    }

    pub fn boundary(&self) -> (r: Rectangle)
        ensures
            r == self.boundary_spec(),
    {
        self.boundary
    }

    spec fn fresh(t: Option<Box<QuadTree>>) -> bool {
        &&& t.is_some()
        &&& t.unwrap().objects.len() == 0
        &&& !t.unwrap().is_divided
    }

    /// Whether the root has split into quadrants.
    pub fn is_divided(&self) -> (r: bool)
        ensures
            r == self.is_split(),
    {
        self.is_divided
    }

    /// How many items the root node keeps itself.
    pub fn local_len(&self) -> (r: usize)
        ensures
            r == self.stored_here().len(),
    {
        self.objects.len()
    }

    /// Hangs four empty quadrants below a full leaf.
    fn split(&mut self)
        requires
            old(self).wf(),
            !old(self).is_divided,
            old(self).objects.len() == MAX_CAPACITY_QUADTREE,
        ensures
            final(self).wf(),
            final(self).is_divided,
            final(self).boundary == old(self).boundary,
            final(self).objects == old(self).objects,
            final(self).items() == old(self).items(),
            final(self).node_count() == old(self).node_count() + 4,
            QuadTree::fresh(final(self).top_left),
            QuadTree::fresh(final(self).top_right),
            QuadTree::fresh(final(self).bottom_left),
            QuadTree::fresh(final(self).bottom_right),
    {
        let x = self.boundary.x;
        let y = self.boundary.y;
        let h_w = self.boundary.width / 2;
        let h_h = self.boundary.height / 2;
        let tl = Rectangle::new(x, y, h_w, h_h);
        let tr = Rectangle::new(x + h_w, y, self.boundary.width - h_w, h_h);
        let bl = Rectangle::new(x, y + h_h, h_w, self.boundary.height - h_h);
        let br = Rectangle::new(
            x + h_w,
            y + h_h,
            self.boundary.width - h_w,
            self.boundary.height - h_h,
        );
        proof {
            assert(old(self).items() =~= old(self).objects@);
        }
        self.top_left = Some(Box::new(QuadTree::leaf(tl)));
        self.top_right = Some(Box::new(QuadTree::leaf(tr)));
        self.bottom_left = Some(Box::new(QuadTree::leaf(bl)));
        self.bottom_right = Some(Box::new(QuadTree::leaf(br)));
        self.is_divided = true;
        proof {
            assert(self.items() =~= self.objects@);
        }
    }
}

/// The quadrants of a rectangle lie in it, and a point of it lies in exactly
/// one of them.
pub proof fn lemma_quadrants(b: Rectangle, p: Vec2)
    requires
        rect_ok(b),
    ensures
        forall|k: int| 0 <= k < 4 ==> rect_ok(#[trigger] quadrant(b, k)),
        forall|k: int| 0 <= k < 4 ==> (#[trigger] quadrant(b, k)).within(b),
        b.contains_spec(p) ==> {
            let k = (if p.x >= b.x + b.width / 2 { 1int } else { 0 }) + (if p.y >= b.y + b.height
                / 2 { 2int } else { 0 });
            &&& quadrant(b, k).contains_spec(p)
            &&& forall|j: int| 0 <= j < 4 && j != k ==> !(#[trigger] quadrant(b, j)).contains_spec(p)
        },
{
    assert forall|k: int| 0 <= k < 4 implies (#[trigger] quadrant(b, k)).within(b) by {
        assert forall|q: Vec2| #[trigger] quadrant(b, k).contains_spec(q) implies b.contains_spec(
            q,
        ) by {}
    }
}

impl QuadTree {
    /// Files the item at a leaf with room: it is kept if the leaf contains it.
    fn insert_leaf(&mut self, position: Vec2, handle: usize)
        requires
            old(self).wf(),
            !old(self).is_divided,
            old(self).objects.len() < MAX_CAPACITY_QUADTREE,
        ensures
            final(self).wf(),
            !final(self).is_divided,
            final(self).boundary == old(self).boundary,
            final(self).node_count() == old(self).node_count(),
            old(self).boundary.contains_spec(position) ==> final(self).objects@ == old(
                self,
            ).objects@.push(Item { position, handle }) && final(self).items() == old(
                self,
            ).items().push(Item { position, handle }),
            !old(self).boundary.contains_spec(position) ==> *final(self) == *old(self),
    {
        if self.boundary.point_inside_rect(position) {
            proof {
                assert(old(self).items() =~= old(self).objects@);
            }
            self.objects.push(Item { position, handle });
            proof {
                assert(self.items() =~= self.objects@);
            }
        }
    }

    /// Files an item at the quadrant held in `node`.
    fn insert_into(node: &mut Option<Box<QuadTree>>, position: Vec2, handle: usize)
        requires
            old(node).is_some(),
            old(node).unwrap().wf(),
        ensures
            final(node).is_some(),
            QuadTree::insert_post(*old(node).unwrap(), *final(node).unwrap(), Item { position, handle }),
        decreases *old(node),
    {
        let mut tmp = None;
        std::mem::swap(&mut tmp, node);
        let mut boxed = tmp.unwrap();
        (&mut *boxed).insert(position, handle);
        *node = Some(boxed);
    }

    /// What one insertion of `item` does to a tree: an item outside the
    /// boundary leaves it as it was; otherwise the item joins the tree. A root
    /// with room keeps it; a full root keeps what it has and is split, and it
    /// gains four nodes if it was not split before. Nothing else is added.
    pub open spec fn insert_post(o: QuadTree, n: QuadTree, item: Item) -> bool {
        &&& n.wf()
        &&& n.boundary_spec() == o.boundary_spec()
        &&& if o.boundary_spec().contains_spec(item.position) {
            &&& n.items().to_multiset() == o.items().to_multiset().insert(item)
            &&& o.stored_here().len() < MAX_CAPACITY_QUADTREE ==> {
                &&& n.stored_here() == o.stored_here().push(item)
                &&& n.node_count() == o.node_count()
                &&& n.is_split() == o.is_split()
            }
            &&& o.stored_here().len() >= MAX_CAPACITY_QUADTREE ==> {
                &&& n.stored_here() == o.stored_here()
                &&& n.is_split()
            }
            &&& (o.stored_here().len() >= MAX_CAPACITY_QUADTREE && !o.is_split())
                ==> n.node_count() == o.node_count() + 4
            &&& (n.node_count() == o.node_count() || n.node_count() == o.node_count() + 4)
        } else {
            n == o
        }
    }

    /// Files a fresh item at the leaf held in `node` (see `insert_leaf`).
    fn insert_leaf_into(node: &mut Option<Box<QuadTree>>, position: Vec2, handle: usize)
        requires
            old(node).is_some(),
            old(node).unwrap().wf(),
            !old(node).unwrap().is_divided,
            old(node).unwrap().objects.len() < MAX_CAPACITY_QUADTREE,
        ensures
            final(node).is_some(),
            QuadTree::insert_post(*old(node).unwrap(), *final(node).unwrap(), Item { position, handle }),
    {
        let mut tmp = None;
        std::mem::swap(&mut tmp, node);
        let mut boxed = tmp.unwrap();
        (&mut *boxed).insert_leaf(position, handle);
        *node = Some(boxed);
    }

    proof fn lemma_items_multiset(self)
        ensures
            self.items().to_multiset() == self.objects@.to_multiset().add(
                opt_items(self.top_left).to_multiset(),
            ).add(opt_items(self.top_right).to_multiset()).add(
                opt_items(self.bottom_left).to_multiset(),
            ).add(opt_items(self.bottom_right).to_multiset()),
    {
        let o = self.objects@;
        let a = opt_items(self.top_left);
        let b = opt_items(self.top_right);
        let c = opt_items(self.bottom_left);
        let d = opt_items(self.bottom_right);
        vstd::seq_lib::lemma_multiset_commutative(o, a);
        vstd::seq_lib::lemma_multiset_commutative(o + a, b);
        vstd::seq_lib::lemma_multiset_commutative(o + a + b, c);
        vstd::seq_lib::lemma_multiset_commutative(o + a + b + c, d);
    }

    /// Files `position` under `handle`. A position outside the boundary is
    /// ignored. A node with room keeps the item; a full node splits once,
    /// keeps what it has, and passes the item to the quadrant that contains it.
    #[verifier::rlimit(40)]
    pub fn insert(&mut self, position: Vec2, handle: usize)
        requires
            old(self).wf(),
        ensures
            QuadTree::insert_post(*old(self), *final(self), Item { position, handle }),
        decreases *old(self),
    {
        let ghost item = Item { position, handle };
        if self.boundary.point_inside_rect(position) {
            proof {
                old(self).lemma_items_multiset();
                lemma_quadrants(self.boundary, position);
            }
            if self.objects.len() < MAX_CAPACITY_QUADTREE {
                self.objects.push(Item { position, handle });
                proof {
                    self.lemma_items_multiset();
                    assert(self.objects@.to_multiset() == old(self).objects@.to_multiset().insert(item));
                    assert(self.items().to_multiset() =~= old(self).items().to_multiset().insert(item));
                }
            } else {
                if !self.is_divided {
                    self.split();
                    proof {
                        assert(self.objects@.to_multiset() == old(self).objects@.to_multiset());
                    }
                    QuadTree::insert_leaf_into(&mut self.top_left, position, handle);
                    QuadTree::insert_leaf_into(&mut self.top_right, position, handle);
                    QuadTree::insert_leaf_into(&mut self.bottom_left, position, handle);
                    QuadTree::insert_leaf_into(&mut self.bottom_right, position, handle);
                } else {
                    QuadTree::insert_into(&mut self.top_left, position, handle);
                    QuadTree::insert_into(&mut self.top_right, position, handle);
                    QuadTree::insert_into(&mut self.bottom_left, position, handle);
                    QuadTree::insert_into(&mut self.bottom_right, position, handle);
                }
                proof {
                    self.lemma_items_multiset();
                    assert(self.items().to_multiset() =~= old(self).items().to_multiset().insert(item));
                }
            }
        }
    }
}

/// Selecting from a concatenation selects from each part.
pub proof fn lemma_hits_concat(a: Seq<Item>, b: Seq<Item>, r: Rectangle)
    ensures
        hits(a + b, r) == hits(a, r) + hits(b, r),
    decreases b.len(),
{
    if b.len() == 0 {
        assert(a + b =~= a);
        assert(hits(a, r) + hits(b, r) =~= hits(a, r));
    } else {
        lemma_hits_concat(a, b.drop_last(), r);
        assert((a + b).drop_last() =~= a + b.drop_last());
        assert(hits(a, r) + hits(b, r) =~= hits(a, r) + hits(b.drop_last(), r) + (if r.contains_spec(
            b.last().position,
        ) {
            seq![b.last().handle]
        } else {
            Seq::empty()
        }));
    }
}

/// Nothing is selected from items that all lie outside the range.
proof fn lemma_hits_outside(s: Seq<Item>, r: Rectangle)
    requires
        forall|i: int| 0 <= i < s.len() ==> !r.contains_spec(#[trigger] s[i].position),
    ensures
        hits(s, r) == Seq::<usize>::empty(),
    decreases s.len(),
{
    if s.len() > 0 {
        assert(!r.contains_spec(s[s.len() - 1].position));
        lemma_hits_outside(s.drop_last(), r);
        assert(hits(s, r) =~= Seq::<usize>::empty());
    }
}

impl QuadTree {
    /// Every item of a well-formed tree lies in its boundary.
    proof fn lemma_items_inside(self)
        requires
            self.wf(),
        ensures
            forall|i: int|
                0 <= i < self.items().len() ==> self.boundary.contains_spec(
                    #[trigger] self.items()[i].position,
                ),
        decreases self,
    {
        lemma_quadrants(self.boundary, Vec2 { x: 0, y: 0 });
        QuadTree::lemma_opt_inside(self.top_left, quadrant(self.boundary, 0), self.is_divided, self.boundary);
        QuadTree::lemma_opt_inside(self.top_right, quadrant(self.boundary, 1), self.is_divided, self.boundary);
        QuadTree::lemma_opt_inside(self.bottom_left, quadrant(self.boundary, 2), self.is_divided, self.boundary);
        QuadTree::lemma_opt_inside(self.bottom_right, quadrant(self.boundary, 3), self.is_divided, self.boundary);
        let o = self.objects@;
        let a = opt_items(self.top_left);
        let b = opt_items(self.top_right);
        let c = opt_items(self.bottom_left);
        let d = opt_items(self.bottom_right);
        assert forall|i: int| 0 <= i < self.items().len() implies self.boundary.contains_spec(
            #[trigger] self.items()[i].position,
        ) by {
            let s = self.items();
            assert(s == o + a + b + c + d);
            if i < o.len() {
                assert(s[i] == o[i]);
            } else if i < o.len() + a.len() {
                assert(s[i] == a[i - o.len()]);
            } else if i < o.len() + a.len() + b.len() {
                assert(s[i] == b[i - o.len() - a.len()]);
            } else if i < o.len() + a.len() + b.len() + c.len() {
                assert(s[i] == c[i - o.len() - a.len() - b.len()]);
            } else {
                assert(s[i] == d[i - o.len() - a.len() - b.len() - c.len()]);
            }
        }
    }

    proof fn lemma_opt_inside(t: Option<Box<QuadTree>>, q: Rectangle, divided: bool, b: Rectangle)
        requires
            child_ok(t, q, divided),
            q.within(b),
        ensures
            forall|i: int|
                0 <= i < opt_items(t).len() ==> b.contains_spec(#[trigger] opt_items(t)[i].position),
        decreases t,
    {
        if let Some(c) = t {
            c.lemma_items_inside();
            assert forall|i: int| 0 <= i < opt_items(t).len() implies b.contains_spec(
                #[trigger] opt_items(t)[i].position,
            ) by {
                assert(q.contains_spec(c.items()[i].position));
            }
        }
    }

    fn query_opt(node: &Option<Box<QuadTree>>, rect: &Rectangle, found: &mut Vec<usize>)
        requires
            node.is_some() ==> node.unwrap().wf(),
        ensures
            final(found)@ == old(found)@ + hits(opt_items(*node), *rect),
        decreases *node,
    {
        match node {
            Some(c) => c.query_tree(rect, found),
            None => {
                assert(old(found)@ + hits(opt_items(*node), *rect) =~= old(found)@);
            },
        }
    }

    /// Appends the handles of the items that lie in `rect`, skipping every
    /// subtree whose boundary the range does not meet.
    fn query_tree(&self, rect: &Rectangle, found: &mut Vec<usize>)
        requires
            self.wf(),
        ensures
            final(found)@ == old(found)@ + hits(self.items(), *rect),
        decreases *self,
    {
        if self.boundary.intersects(rect) {
            let mut j: usize = 0;
            while j < self.objects.len()
                invariant
                    j <= self.objects.len(),
                    found@ == old(found)@ + hits(self.objects@.subrange(0, j as int), *rect),
                decreases self.objects.len() - j,
            {
                let ghost before = found@;
                let object = self.objects[j];
                if rect.point_inside_rect(object.position) {
                    found.push(object.handle);
                }
                proof {
                    let s = self.objects@.subrange(0, j + 1);
                    assert(s.drop_last() =~= self.objects@.subrange(0, j as int));
                }
                j += 1;
            }
            proof {
                assert(self.objects@.subrange(0, j as int) =~= self.objects@);
            }
            QuadTree::query_opt(&self.top_left, rect, found);
            QuadTree::query_opt(&self.top_right, rect, found);
            QuadTree::query_opt(&self.bottom_left, rect, found);
            QuadTree::query_opt(&self.bottom_right, rect, found);
            proof {
                let o = self.objects@;
                let a = opt_items(self.top_left);
                let b = opt_items(self.top_right);
                let c = opt_items(self.bottom_left);
                let d = opt_items(self.bottom_right);
                lemma_hits_concat(o, a, *rect);
                lemma_hits_concat(o + a, b, *rect);
                lemma_hits_concat(o + a + b, c, *rect);
                lemma_hits_concat(o + a + b + c, d, *rect);
                assert(found@ =~= old(found)@ + hits(self.items(), *rect));
            }
        } else {
            proof {
                self.lemma_items_inside();
                assert forall|i: int| 0 <= i < self.items().len() implies !rect.contains_spec(
                    #[trigger] self.items()[i].position,
                ) by {
                    crate::geometry::lemma_disjoint(self.boundary, *rect, self.items()[i].position);
                }
                lemma_hits_outside(self.items(), *rect);
                assert(old(found)@ + hits(self.items(), *rect) =~= old(found)@);
            }
        }
    }

    /// The handles of all items that lie in `rect`.
    pub fn query(&self, rect: Rectangle) -> (r: Vec<usize>)
        requires
            self.wf(),
        ensures
            r@ == hits(self.items(), rect),
    {
        let mut found: Vec<usize> = Vec::new();
        self.query_tree(&rect, &mut found);
        proof {
            assert(found@ =~= hits(self.items(), rect));
        }
        found
    }
}

/// The handles of a sequence of items, in order.
pub open spec fn handles(s: Seq<Item>) -> Seq<usize> {
    s.map_values(|it: Item| it.handle)
}

/// What is selected from a sequence does not depend on its order: selecting
/// from two arrangements of the same items gives the same handles, counted
/// with multiplicity.
pub proof fn lemma_hits_permutation(s1: Seq<Item>, s2: Seq<Item>, r: Rectangle)
    requires
        s1.to_multiset() == s2.to_multiset(),
    ensures
        hits(s1, r).to_multiset() == hits(s2, r).to_multiset(),
    decreases s1.len(),
{
    broadcast use vstd::multiset::group_multiset_axioms;

    if s1.len() == 0 {
        assert(s1.to_multiset().len() == 0);
        assert(s2.len() == 0);
        assert(s2 =~= Seq::<Item>::empty());
    } else {
        let x = s1.last();
        let rest = s1.drop_last();
        assert(rest.push(x) =~= s1);
        assert(s2.to_multiset().count(x) > 0);
        assert(s2.contains(x));
        let k = choose|k: int| 0 <= k < s2.len() && s2[k] == x;
        vstd::seq_lib::to_multiset_remove(s2, k);
        assert(rest.to_multiset() =~= s2.remove(k).to_multiset());
        lemma_hits_permutation(rest, s2.remove(k), r);
        lemma_hits_remove(s2, k, r);
        assert(rest + seq![x] =~= s1);
        lemma_hits_concat(rest, seq![x], r);
        vstd::seq_lib::lemma_multiset_commutative(hits(rest, r), hits(seq![x], r));
        assert(s2[k] == x);
    }
}

/// Selecting from a sequence selects from it without its `k`-th item, and
/// from that item alone.
proof fn lemma_hits_remove(s: Seq<Item>, k: int, r: Rectangle)
    requires
        0 <= k < s.len(),
    ensures
        hits(s, r).to_multiset() == hits(s.remove(k), r).to_multiset().add(
            hits(seq![s[k]], r).to_multiset(),
        ),
{
    broadcast use vstd::multiset::group_multiset_axioms;

    let a = s.subrange(0, k);
    let m = seq![s[k]];
    let b = s.subrange(k + 1, s.len() as int);
    assert(s =~= a + m + b);
    assert(s.remove(k) =~= a + b);
    lemma_hits_concat(a + m, b, r);
    lemma_hits_concat(a, m, r);
    lemma_hits_concat(a, b, r);
    vstd::seq_lib::lemma_multiset_commutative(hits(a, r) + hits(m, r), hits(b, r));
    vstd::seq_lib::lemma_multiset_commutative(hits(a, r), hits(m, r));
    vstd::seq_lib::lemma_multiset_commutative(hits(a, r), hits(b, r));
    assert(hits(s, r).to_multiset() =~= hits(s.remove(k), r).to_multiset().add(
        hits(m, r).to_multiset(),
    ));
}

/// `h` is the handle of an item of `s` that lies in `r`.
pub open spec fn names_hit(s: Seq<Item>, r: Rectangle, h: usize) -> bool {
    exists|i: int| 0 <= i < s.len() && s[i].handle == h && r.contains_spec(#[trigger] s[i].position)
}

/// Every handle selected from `s` names an item of `s` that lies in the range.
pub proof fn lemma_query_sound(s: Seq<Item>, r: Rectangle)
    ensures
        forall|k: int| 0 <= k < hits(s, r).len() ==> names_hit(s, r, #[trigger] hits(s, r)[k]),
    decreases s.len(),
{
    if s.len() == 0 {
        assert(hits(s, r).len() == 0);
    } else {
        let rest = s.drop_last();
        lemma_query_sound(rest, r);
        let h = hits(rest, r);
        assert forall|k: int| 0 <= k < hits(s, r).len() implies names_hit(
            s,
            r,
            #[trigger] hits(s, r)[k],
        ) by {
            if k < h.len() {
                assert(hits(s, r)[k] == h[k]);
                assert(names_hit(rest, r, h[k]));
                let i = choose|i: int|
                    0 <= i < rest.len() && rest[i].handle == h[k] && r.contains_spec(
                        #[trigger] rest[i].position,
                    );
                assert(s[i] == rest[i]);
            } else {
                assert(hits(s, r)[k] == s.last().handle);
                assert(s[s.len() - 1] == s.last());
                assert(r.contains_spec(s[s.len() - 1].position));
            }
        }
    }
}

/// Every item that lies in the range is reported: a handle that a query leaves
/// out names no item in the range.
pub proof fn lemma_query_reports_all(s: Seq<Item>, r: Rectangle, i: int)
    requires
        0 <= i < s.len(),
        r.contains_spec(s[i].position),
    ensures
        hits(s, r).contains(s[i].handle),
    decreases s.len(),
{
    let rest = s.drop_last();
    if i == s.len() - 1 {
        let h = hits(s, r);
        assert(h[h.len() - 1] == s[i].handle);
    } else {
        assert(rest[i] == s[i]);
        lemma_query_reports_all(rest, r, i);
        let k = choose|k: int| 0 <= k < hits(rest, r).len() && hits(rest, r)[k] == s[i].handle;
        assert(hits(s, r)[k] == s[i].handle);
    }
}

/// Where the items carry distinct handles, each item that lies in the range is
/// selected exactly once.
pub proof fn lemma_query_complete(s: Seq<Item>, r: Rectangle, i: int)
    requires
        0 <= i < s.len(),
        forall|a: int, b: int| 0 <= a < b < s.len() ==> s[a].handle != s[b].handle,
        r.contains_spec(s[i].position),
    ensures
        hits(s, r).to_multiset().count(s[i].handle) == 1,
    decreases s.len(),
{
    broadcast use vstd::multiset::group_multiset_axioms;

    let rest = s.drop_last();
    let h = s[i].handle;
    let tail = if r.contains_spec(s.last().position) {
        seq![s.last().handle]
    } else {
        Seq::<usize>::empty()
    };
    vstd::seq_lib::lemma_multiset_commutative(hits(rest, r), tail);
    if i == s.len() - 1 {
        lemma_query_sound(rest, r);
        if hits(rest, r).to_multiset().count(h) > 0 {
            assert(hits(rest, r).contains(h));
            let k = choose|k: int| 0 <= k < hits(rest, r).len() && hits(rest, r)[k] == h;
            assert(names_hit(rest, r, hits(rest, r)[k]));
            let j = choose|j: int|
                0 <= j < rest.len() && rest[j].handle == h && r.contains_spec(
                    #[trigger] rest[j].position,
                );
            assert(s[j] == rest[j]);
        }
        assert(tail.to_multiset().count(h) == 1) by {
            assert(tail =~= Seq::<usize>::empty().push(h));
        }
    } else {
        assert(rest[i] == s[i]);
        lemma_query_complete(rest, r, i);
        assert(tail.to_multiset().count(h) == 0) by {
            if r.contains_spec(s.last().position) {
                assert(tail =~= Seq::<usize>::empty().push(s.last().handle));
                assert(s.last() == s[s.len() - 1]);
            }
        }
    }
}

impl QuadTree {
    /// A query over the whole boundary returns every item of the tree, each
    /// once, in the tree's order.
    pub proof fn lemma_whole_query(self)
        requires
            self.wf(),
        ensures
            hits(self.items(), self.boundary_spec()) == handles(self.items()),
    {
        self.lemma_items_inside();
        lemma_hits_all(self.items(), self.boundary);
    }
}

proof fn lemma_hits_all(s: Seq<Item>, r: Rectangle)
    requires
        forall|i: int| 0 <= i < s.len() ==> r.contains_spec(#[trigger] s[i].position),
    ensures
        hits(s, r) == handles(s),
    decreases s.len(),
{
    if s.len() > 0 {
        assert(r.contains_spec(s[s.len() - 1].position));
        lemma_hits_all(s.drop_last(), r);
        assert(hits(s, r) =~= handles(s));
    } else {
        assert(handles(s) =~= Seq::<usize>::empty());
    }
}

impl QuadTree {
    fn boundaries_opt(node: &Option<Box<QuadTree>>, out: &mut Vec<Rectangle>)
        ensures
            final(out)@ == old(out)@ + opt_boundaries(*node),
        decreases *node,
    {
        match node {
            Some(c) => c.collect_boundaries(out),
            None => {
                assert(old(out)@ + opt_boundaries(*node) =~= old(out)@);
            },
        }
    }

    fn collect_boundaries(&self, out: &mut Vec<Rectangle>)
        ensures
            final(out)@ == old(out)@ + self.boundaries_spec(),
        decreases *self,
    {
        out.push(self.boundary);
        QuadTree::boundaries_opt(&self.top_left, out);
        QuadTree::boundaries_opt(&self.top_right, out);
        QuadTree::boundaries_opt(&self.bottom_left, out);
        QuadTree::boundaries_opt(&self.bottom_right, out);
        assert(out@ =~= old(out)@ + self.boundaries_spec());
    }

    /// The boundary of every node, for drawing the partition.
    pub fn boundaries(&self) -> (r: Vec<Rectangle>)
        ensures
            r@ == self.boundaries_spec(),
            r@.len() >= 1,
            r@[0] == self.boundary_spec(),
    {
        let mut out: Vec<Rectangle> = Vec::new();
        self.collect_boundaries(&mut out);
        assert(out@ =~= self.boundaries_spec());
        out
    }
}

/// Filling a fresh tree: with `ts[k + 1]` the tree after inserting
/// `items[k]` (inside the boundary) into `ts[k]`, the first
/// `MAX_CAPACITY_QUADTREE` insertions split nothing and stay at the root; the
/// next one splits the root exactly once, into four quadrants, and the root
/// keeps the items it had.
pub proof fn lemma_split_threshold(ts: Seq<QuadTree>, items: Seq<Item>)
    requires
        ts.len() == MAX_CAPACITY_QUADTREE + 2,
        items.len() == MAX_CAPACITY_QUADTREE + 1,
        ts[0].wf(),
        ts[0].stored_here().len() == 0,
        !ts[0].is_split(),
        ts[0].node_count() == 1,
        forall|k: int|
            0 <= k <= MAX_CAPACITY_QUADTREE ==> QuadTree::insert_post(
                #[trigger] ts[k],
                ts[k + 1],
                items[k],
            ) && ts[0].boundary_spec().contains_spec(items[k].position),
    ensures
        forall|k: int|
            0 <= k <= MAX_CAPACITY_QUADTREE ==> !(#[trigger] ts[k]).is_split() && ts[k].node_count()
                == 1 && ts[k].stored_here() == items.subrange(0, k),
        ts[MAX_CAPACITY_QUADTREE + 1].is_split(),
        ts[MAX_CAPACITY_QUADTREE + 1].node_count() == 5,
        ts[MAX_CAPACITY_QUADTREE + 1].stored_here() == items.subrange(
            0,
            MAX_CAPACITY_QUADTREE as int,
        ),
{
    let c = MAX_CAPACITY_QUADTREE as int;
    lemma_fill_prefix(ts, items, c);
    assert(QuadTree::insert_post(ts[c], ts[c + 1], items[c]));
}

proof fn lemma_fill_prefix(ts: Seq<QuadTree>, items: Seq<Item>, k: int)
    requires
        0 <= k <= MAX_CAPACITY_QUADTREE,
        ts.len() == MAX_CAPACITY_QUADTREE + 2,
        items.len() == MAX_CAPACITY_QUADTREE + 1,
        ts[0].wf(),
        ts[0].stored_here().len() == 0,
        !ts[0].is_split(),
        ts[0].node_count() == 1,
        forall|j: int|
            0 <= j <= MAX_CAPACITY_QUADTREE ==> QuadTree::insert_post(
                #[trigger] ts[j],
                ts[j + 1],
                items[j],
            ) && ts[0].boundary_spec().contains_spec(items[j].position),
    ensures
        forall|j: int|
            0 <= j <= k ==> !(#[trigger] ts[j]).is_split() && ts[j].node_count() == 1
                && ts[j].stored_here() == items.subrange(0, j) && ts[j].boundary_spec()
                == ts[0].boundary_spec(),
    decreases k,
{
    if k == 0 {
        assert(ts[0].stored_here() =~= items.subrange(0, 0));
    } else {
        lemma_fill_prefix(ts, items, k - 1);
        assert(QuadTree::insert_post(ts[k - 1], ts[k], items[k - 1]));
        assert(items.subrange(0, k - 1).push(items[k - 1]) =~= items.subrange(0, k));
    }
}

impl QuadTree {
    /// How many items each node keeps, each node before its quadrants.
    pub closed spec fn loads(self) -> Seq<nat>
        decreases self,
    {
        seq![self.objects.len() as nat] + opt_loads(self.top_left) + opt_loads(self.top_right)
            + opt_loads(self.bottom_left) + opt_loads(self.bottom_right)
    }

    /// No node of a well-formed tree keeps more than `MAX_CAPACITY_QUADTREE`
    /// items, and the root keeps that many once it has split.
    pub proof fn lemma_capacity(self)
        requires
            self.wf(),
        ensures
            forall|k: int|
                0 <= k < self.loads().len() ==> #[trigger] self.loads()[k] <= MAX_CAPACITY_QUADTREE,
            self.is_split() ==> self.stored_here().len() == MAX_CAPACITY_QUADTREE,
        decreases self,
    {
        QuadTree::lemma_opt_capacity(self.top_left, quadrant(self.boundary, 0), self.is_divided);
        QuadTree::lemma_opt_capacity(self.top_right, quadrant(self.boundary, 1), self.is_divided);
        QuadTree::lemma_opt_capacity(self.bottom_left, quadrant(self.boundary, 2), self.is_divided);
        QuadTree::lemma_opt_capacity(self.bottom_right, quadrant(self.boundary, 3), self.is_divided);
        let o = seq![self.objects.len() as nat];
        let a = opt_loads(self.top_left);
        let b = opt_loads(self.top_right);
        let c = opt_loads(self.bottom_left);
        let d = opt_loads(self.bottom_right);
        assert forall|k: int| 0 <= k < self.loads().len() implies #[trigger] self.loads()[k]
            <= MAX_CAPACITY_QUADTREE by {
            let s = self.loads();
            assert(s == o + a + b + c + d);
            if k < 1 {
                assert(s[k] == o[k]);
            } else if k < 1 + a.len() {
                assert(s[k] == a[k - 1]);
            } else if k < 1 + a.len() + b.len() {
                assert(s[k] == b[k - 1 - a.len()]);
            } else if k < 1 + a.len() + b.len() + c.len() {
                assert(s[k] == c[k - 1 - a.len() - b.len()]);
            } else {
                assert(s[k] == d[k - 1 - a.len() - b.len() - c.len()]);
            }
        }
    }

    proof fn lemma_opt_capacity(t: Option<Box<QuadTree>>, q: Rectangle, divided: bool)
        requires
            child_ok(t, q, divided),
        ensures
            forall|k: int|
                0 <= k < opt_loads(t).len() ==> #[trigger] opt_loads(t)[k] <= MAX_CAPACITY_QUADTREE,
        decreases t,
    {
        if let Some(c) = t {
            c.lemma_capacity();
            assert(opt_loads(t) == c.loads());
        }
    }
}

} // verus!
