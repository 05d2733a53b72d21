//! A four-way spatial index over bounding boxes.
//!
//! A node keeps the boxes that straddle one of its two midlines and hands
//! every other box to the child that holds it whole. The children are
//! numbered 0 for the top right, 1 for the top left, 2 for the bottom left
//! and 3 for the bottom right, `y` growing downward.
use vstd::prelude::*;
use crate::collision::{boxes_apart, CollisionLimits};
use crate::config::UNIT;
use crate::math::magnitude;

verus! {

/// Largest extent, position and size together, of the bounds of a root.
pub const EXTENT_LIMIT: i64 = 0x1000_0000_0000_0000;

/// Where the bounds of the root begin, on both axes.
pub const ROOT_CORNER: i64 = -20000 * UNIT;

/// The width and the height of the bounds of the root.
pub const ROOT_SIZE: i64 = 40000 * UNIT;

/// Largest depth a tree may be given.
pub const DEPTH_LIMIT: usize = 0x10_0000;

/// A node of the index, with the nodes below it.
pub struct Quadtree {
    pub max_objects: usize,
    pub max_levels: usize,
    pub level: usize,
    pub bounds: CollisionLimits,
    pub objects: Vec<CollisionLimits>,
    pub nodes: Vec<Quadtree>,
}

/// The model of a `Quadtree`.
pub struct QuadtreeView {
    pub max_objects: usize,
    pub max_levels: usize,
    pub level: usize,
    pub bounds: CollisionLimits,
    pub objects: Seq<CollisionLimits>,
    pub nodes: Seq<QuadtreeView>,
}

impl Quadtree {
    /// The model of the node and, in it, of every node below.
    pub open spec fn model(&self) -> QuadtreeView
        decreases self,
    {
        QuadtreeView {
            max_objects: self.max_objects,
            max_levels: self.max_levels,
            level: self.level,
            bounds: self.bounds,
            objects: self.objects@,
            nodes: Seq::new(
                self.nodes.len() as nat,
                |i: int|
                    if 0 <= i < self.nodes.len() {
                        self.nodes[i].model()
                    } else {
                        arbitrary()
                    },
            ),
        }
    }
}

impl View for Quadtree {
    type V = QuadtreeView;

    open spec fn view(&self) -> QuadtreeView {
        self.model()
    }
}

/// Half of `w`, rounded to the nearest whole unit of the map, halves away
/// from zero.
pub open spec fn round_half(w: int) -> int {
    if w >= 0 {
        ((w + UNIT) / (2 * UNIT)) * UNIT
    } else {
        -(((-w + UNIT) / (2 * UNIT)) * UNIT)
    }
}

/// The bounds of the `k`-th child of a node with bounds `b`.
pub open spec fn child_bounds(b: CollisionLimits, k: int) -> CollisionLimits {
    let sub_width = round_half(b.width as int);
    let sub_height = round_half(b.height as int);
    let x = round_half(2 * b.x);
    let y = round_half(2 * b.y);
    CollisionLimits {
        x: (if k == 0 || k == 3 {
            x + sub_width
        } else {
            x
        }) as i64,
        y: (if k == 2 || k == 3 {
            y + sub_height
        } else {
            y
        }) as i64,
        width: sub_width as i64,
        height: sub_height as i64,
        id: None,
    }
}

/// The position and the size of the bounds stay small enough, at this
/// depth, for the bounds of every descendant to be computed.
pub open spec fn extent_ok(b: CollisionLimits, level: int) -> bool {
    &&& magnitude(b.x as int) + magnitude(b.width as int) <= EXTENT_LIMIT + 2 * UNIT * level
    &&& magnitude(b.y as int) + magnitude(b.height as int) <= EXTENT_LIMIT + 2 * UNIT * level
}

impl QuadtreeView {
    /// The child that holds the box whole, or -1 where the box straddles a
    /// midline of the node or touches one.
    pub open spec fn get_index(self, r: CollisionLimits) -> int {
        let vertical2 = 2 * self.bounds.x + self.bounds.width;
        let horizontal2 = 2 * self.bounds.y + self.bounds.height;
        let top = 2 * r.y < horizontal2 && 2 * (r.y + r.height) < horizontal2;
        let bottom = 2 * r.y > horizontal2;
        if 2 * r.x < vertical2 && 2 * (r.x + r.width) < vertical2 {
            if top {
                1
            } else if bottom {
                2
            } else {
                -1
            }
        } else if 2 * r.x > vertical2 {
            if top {
                0
            } else if bottom {
                3
            } else {
                -1
            }
        } else {
            -1
        }
    }

    /// A node without boxes or children.
    pub open spec fn empty(
        bounds: CollisionLimits,
        max_objects: usize,
        max_levels: usize,
        level: usize,
    ) -> QuadtreeView {
        QuadtreeView {
            max_objects,
            max_levels,
            level,
            bounds,
            objects: Seq::empty(),
            nodes: Seq::empty(),
        }
    }

    /// The four empty children that a split gives the node.
    pub open spec fn split_nodes(self) -> Seq<QuadtreeView> {
        Seq::new(
            4,
            |k: int|
                Self::empty(
                    child_bounds(self.bounds, k),
                    self.max_objects,
                    self.max_levels,
                    (self.level + 1) as usize,
                ),
        )
    }

    /// How many levels may still be added below the node.
    pub open spec fn room(self) -> nat {
        if self.level < self.max_levels {
            (self.max_levels - self.level) as nat
        } else {
            0
        }
    }

    /// The shape of the tree: a node has no children or four, each one
    /// level down and with the same limits; no node lies below the last
    /// level.
    pub open spec fn wf(self) -> bool
        decreases self,
    {
        &&& self.level <= self.max_levels <= DEPTH_LIMIT
        &&& extent_ok(self.bounds, self.level as int)
        &&& (self.nodes.len() == 0 || self.nodes.len() == 4)
        &&& forall|k: int|
            0 <= k < self.nodes.len() ==> {
                &&& (#[trigger] self.nodes[k]).level == self.level + 1
                &&& self.nodes[k].max_levels == self.max_levels
                &&& self.nodes[k].max_objects == self.max_objects
                &&& self.nodes[k].wf()
            }
    }

    /// The boxes that a search for `r` looks at: those of the node, then
    /// those found in the child that holds `r` whole or, where none does,
    /// those found in each child in turn.
    pub open spec fn retrieve(self, r: CollisionLimits) -> Seq<CollisionLimits>
        decreases self,
    {
        if self.nodes.len() == 4 {
            let index = self.get_index(r);
            if index != -1 {
                self.objects + self.nodes[index].retrieve(r)
            } else {
                self.objects + self.nodes[0].retrieve(r) + self.nodes[1].retrieve(r)
                    + self.nodes[2].retrieve(r) + self.nodes[3].retrieve(r)
            }
        } else {
            self.objects
        }
    }

    /// The tree with every box taken out and every node kept.
    pub open spec fn cleared(self) -> QuadtreeView
        decreases self,
    {
        QuadtreeView {
            objects: Seq::empty(),
            nodes: Seq::new(
                self.nodes.len(),
                |k: int|
                    if 0 <= k < self.nodes.len() {
                        self.nodes[k].cleared()
                    } else {
                        arbitrary()
                    },
            ),
            ..self
        }
    }

    /// The `k`-th child exists and lies nearer to the last level than the node.
    pub open spec fn descends(self, k: int) -> bool {
        0 <= k < self.nodes.len() && self.nodes[k].room() < self.room()
    }

    /// The node with `child` in place of its `k`-th child.
    pub open spec fn with_child(self, k: int, child: QuadtreeView) -> QuadtreeView {
        QuadtreeView { nodes: self.nodes.update(k, child), ..self }
    }

    /// The tree after `r` has been put in.
    ///
    /// Where the node has children and one of them holds `r` whole, `r`
    /// goes into that child. Else the node keeps `r`; and if it then holds
    /// more than `max_objects` boxes and lies above the last level, it
    /// splits, unless it has split before, and hands down every box that a
    /// child holds whole.
    pub open spec fn inserted(self, r: CollisionLimits) -> QuadtreeView
        decreases self.room(), 1nat, 0nat,
    {
        let index = self.get_index(r);
        if self.nodes.len() > 0 && index != -1 {
            if self.descends(index) {
                self.with_child(index, self.nodes[index].inserted(r))
            } else {
                self
            }
        } else {
            let kept = QuadtreeView { objects: self.objects.push(r), ..self };
            if kept.objects.len() > kept.max_objects && kept.level < kept.max_levels {
                let parted = if kept.nodes.len() == 0 {
                    QuadtreeView { nodes: kept.split_nodes(), ..kept }
                } else {
                    kept
                };
                parted.redistributed(0)
            } else {
                kept
            }
        }
    }

    /// The node after each of its boxes from the `i`-th on has been handed
    /// to the child that holds it whole, where there is one. The boxes
    /// that stay keep their order.
    pub open spec fn redistributed(self, i: int) -> QuadtreeView
        decreases self.room(), 0nat, self.objects.len() - i,
    {
        if 0 <= i < self.objects.len() {
            let index = self.get_index(self.objects[i]);
            if index != -1 {
                let rest = QuadtreeView { objects: self.objects.remove(i), ..self };
                let moved = if self.descends(index) {
                    rest.with_child(index, self.nodes[index].inserted(self.objects[i]))
                } else {
                    rest
                };
                moved.redistributed(i)
            } else {
                self.redistributed(i + 1)
            }
        } else {
            self
        }
    }
}

/// Rounding a half changes it by half a unit at most.
pub proof fn lemma_round_half_near(w: int)
    ensures
        2 * magnitude(round_half(w)) <= magnitude(w) + UNIT,
{
    assert(UNIT == 10000);
    if w >= 0 {
        let q = (w + 10000) / 20000;
        assert(q * 20000 <= w + 10000);
        assert(q >= 0);
        assert(round_half(w) == q * 10000);
    } else {
        let q = (-w + 10000) / 20000;
        assert(q * 20000 <= -w + 10000);
        assert(q >= 0);
        assert(round_half(w) == -(q * 10000));
    }
}

/// A child's bounds keep within the extent that its level allows.
pub proof fn lemma_child_extent(b: CollisionLimits, level: int, k: int)
    requires
        extent_ok(b, level),
        0 <= level < DEPTH_LIMIT,
        0 <= k < 4,
    ensures
        extent_ok(child_bounds(b, k), level + 1),
        child_bounds(b, k).width == round_half(b.width as int),
        child_bounds(b, k).height == round_half(b.height as int),
        child_bounds(b, k).x == round_half(2 * b.x) + (if k == 0 || k == 3 {
            round_half(b.width as int)
        } else {
            0
        }),
        child_bounds(b, k).y == round_half(2 * b.y) + (if k == 2 || k == 3 {
            round_half(b.height as int)
        } else {
            0
        }),
{
    lemma_round_half_near(b.width as int);
    lemma_round_half_near(b.height as int);
    lemma_round_half_near(2 * b.x);
    lemma_round_half_near(2 * b.y);
}

impl QuadtreeView {
    /// Putting a box in keeps the shape of the tree.
    pub proof fn lemma_inserted_wf(self, r: CollisionLimits)
        requires
            self.wf(),
        ensures
            self.inserted(r).wf(),
            self.inserted(r).level == self.level,
            self.inserted(r).max_levels == self.max_levels,
            self.inserted(r).max_objects == self.max_objects,
            self.inserted(r).bounds == self.bounds,
        decreases self.room(), 1nat, 0nat,
    {
        let index = self.get_index(r);
        if self.nodes.len() > 0 && index != -1 {
            assert(self.nodes[index].wf());
            assert(self.descends(index));
            self.nodes[index].lemma_inserted_wf(r);
        } else {
            let kept = QuadtreeView { objects: self.objects.push(r), ..self };
            if kept.objects.len() > kept.max_objects && kept.level < kept.max_levels {
                let parted = if kept.nodes.len() == 0 {
                    QuadtreeView { nodes: kept.split_nodes(), ..kept }
                } else {
                    kept
                };
                kept.lemma_split_wf();
                parted.lemma_redistributed_wf(0);
            }
        }
    }

    /// A node above the last level that has no children may split.
    pub proof fn lemma_split_wf(self)
        requires
            self.wf(),
            self.level < self.max_levels,
        ensures
            self.nodes.len() == 0 ==> (QuadtreeView { nodes: self.split_nodes(), ..self }).wf(),
    {
        if self.nodes.len() == 0 {
            let parted = QuadtreeView { nodes: self.split_nodes(), ..self };
            assert forall|k: int| 0 <= k < parted.nodes.len() implies {
                &&& (#[trigger] parted.nodes[k]).level == parted.level + 1
                &&& parted.nodes[k].max_levels == parted.max_levels
                &&& parted.nodes[k].max_objects == parted.max_objects
                &&& parted.nodes[k].wf()
            } by {
                lemma_child_extent(self.bounds, self.level as int, k);
            }
        }
    }

    /// Handing boxes down keeps the shape of the tree.
    pub proof fn lemma_redistributed_wf(self, i: int)
        requires
            self.wf(),
        ensures
            self.redistributed(i).wf(),
            self.redistributed(i).level == self.level,
            self.redistributed(i).max_levels == self.max_levels,
            self.redistributed(i).max_objects == self.max_objects,
            self.redistributed(i).bounds == self.bounds,
        decreases self.room(), 0nat, self.objects.len() - i,
    {
        if 0 <= i < self.objects.len() {
            let index = self.get_index(self.objects[i]);
            if index != -1 {
                let rest = QuadtreeView { objects: self.objects.remove(i), ..self };
                if self.descends(index) {
                    assert(self.nodes[index].wf());
                    self.nodes[index].lemma_inserted_wf(self.objects[i]);
                    let moved = rest.with_child(
                        index,
                        self.nodes[index].inserted(self.objects[i]),
                    );
                    assert(moved.wf());
                    moved.lemma_redistributed_wf(i);
                } else {
                    assert(rest.wf());
                    rest.lemma_redistributed_wf(i);
                }
            } else {
                self.lemma_redistributed_wf(i + 1);
            }
        }
    }
}

/// Half of `w` rounded to a whole unit of the map.
fn half_rounded(w: i64) -> (r: i64)
    requires
        -4 * EXTENT_LIMIT <= w <= 4 * EXTENT_LIMIT,
    ensures
        r == round_half(w as int),
{
    if w >= 0 {
        ((w + UNIT) / (2 * UNIT)) * UNIT
    } else {
        -(((-w + UNIT) / (2 * UNIT)) * UNIT)
    }
}

impl Quadtree {
    /// The model of a node holds the models of its children.
    pub proof fn lemma_view(&self)
        ensures
            self@.max_objects == self.max_objects,
            self@.max_levels == self.max_levels,
            self@.level == self.level,
            self@.bounds == self.bounds,
            self@.objects == self.objects@,
            self@.nodes.len() == self.nodes.len(),
            forall|k: int| 0 <= k < self.nodes.len() ==> #[trigger] self@.nodes[k] == self.nodes[k]@,
    {
    }

    /// The empty index over the whole map: 40000 units wide and high
    /// around the origin, ten boxes to a node before it splits, ten levels
    /// below the root.
    pub fn from_config() -> (r: Quadtree)
        ensures
            r@ == QuadtreeView::empty(
                CollisionLimits {
                    x: ROOT_CORNER,
                    y: ROOT_CORNER,
                    width: ROOT_SIZE,
                    height: ROOT_SIZE,
                    id: None,
                },
                10,
                10,
                0,
            ),
            r@.wf(),
            r@.placed(),
    {
        let r = Quadtree {
            max_objects: 10,
            max_levels: 10,
            level: 0,
            bounds: CollisionLimits {
                x: ROOT_CORNER,
                y: ROOT_CORNER,
                width: ROOT_SIZE,
                height: ROOT_SIZE,
                id: None,
            },
            objects: Vec::new(),
            nodes: Vec::new(),
        };
        assert(r@.nodes =~= Seq::empty());
        r
    }

    /// An empty node.
    pub fn new(bounds: CollisionLimits, max_objects: usize, max_levels: usize, level: usize) -> (r:
        Quadtree)
        ensures
            r@ == QuadtreeView::empty(bounds, max_objects, max_levels, level),
    {
        let r = Quadtree {
            max_objects,
            max_levels,
            level,
            bounds,
            objects: Vec::new(),
            nodes: Vec::new(),
        };
        assert(r@.nodes =~= Seq::empty());
        r
    }

    /// Gives the node its four children.
    fn split(&mut self)
        requires
            old(self)@.wf(),
            old(self).nodes.len() == 0,
            old(self).level < old(self).max_levels,
        ensures
            final(self)@ == (QuadtreeView { nodes: old(self)@.split_nodes(), ..old(self)@ }),
    {
        proof {
            lemma_child_extent(self.bounds, self.level as int, 0);
            lemma_child_extent(self.bounds, self.level as int, 1);
            lemma_child_extent(self.bounds, self.level as int, 2);
            lemma_child_extent(self.bounds, self.level as int, 3);
            lemma_round_half_near(self.bounds.width as int);
            lemma_round_half_near(self.bounds.height as int);
            lemma_round_half_near(2 * self.bounds.x);
            lemma_round_half_near(2 * self.bounds.y);
        }
        let next_level = self.level + 1;
        let sub_width = half_rounded(self.bounds.width);
        let sub_height = half_rounded(self.bounds.height);
        let x = half_rounded(2 * self.bounds.x);
        let y = half_rounded(2 * self.bounds.y);

        // top right
        self.nodes.push(
            Quadtree::new(
                CollisionLimits {
                    x: x + sub_width,
                    y,
                    width: sub_width,
                    height: sub_height,
                    id: None,
                },
                self.max_objects,
                self.max_levels,
                next_level,
            ),
        );
        // top left
        self.nodes.push(
            Quadtree::new(
                CollisionLimits { x, y, width: sub_width, height: sub_height, id: None },
                self.max_objects,
                self.max_levels,
                next_level,
            ),
        );
        // bottom left
        self.nodes.push(
            Quadtree::new(
                CollisionLimits {
                    x,
                    y: y + sub_height,
                    width: sub_width,
                    height: sub_height,
                    id: None,
                },
                self.max_objects,
                self.max_levels,
                next_level,
            ),
        );
        // bottom right
        self.nodes.push(
            Quadtree::new(
                CollisionLimits {
                    x: x + sub_width,
                    y: y + sub_height,
                    width: sub_width,
                    height: sub_height,
                    id: None,
                },
                self.max_objects,
                self.max_levels,
                next_level,
            ),
        );
        assert(self@.nodes =~= old(self)@.split_nodes());
    }

    /// The child that holds the box whole, or -1.
    pub fn get_index(&self, p_rect: &CollisionLimits) -> (index: i64)
        ensures
            index == self@.get_index(*p_rect),
    {
        let mut index: i64 = -1;
        let vertical2: i128 = 2 * (self.bounds.x as i128) + (self.bounds.width as i128);
        let horizontal2: i128 = 2 * (self.bounds.y as i128) + (self.bounds.height as i128);
        let left2: i128 = 2 * (p_rect.x as i128);
        let right2: i128 = 2 * (p_rect.x as i128 + p_rect.width as i128);
        let top2: i128 = 2 * (p_rect.y as i128);
        let bottom2: i128 = 2 * (p_rect.y as i128 + p_rect.height as i128);

        // the box fits wholly above the horizontal midline
        let top_quadrant = top2 < horizontal2 && bottom2 < horizontal2;
        // the box lies below the horizontal midline
        let bottom_quadrant = top2 > horizontal2;

        if left2 < vertical2 && right2 < vertical2 {
            if top_quadrant {
                index = 1;
            } else if bottom_quadrant {
                index = 2;
            }
        } else if left2 > vertical2 {
            if top_quadrant {
                index = 0;
            } else if bottom_quadrant {
                index = 3;
            }
        }
        index
    }

    /// Puts a box into the tree.
    pub fn insert(&mut self, p_rect: CollisionLimits)
        requires
            old(self)@.wf(),
        ensures
            final(self)@ == old(self)@.inserted(p_rect),
            final(self)@.wf(),
            old(self)@.placed() ==> final(self)@.placed(),
        decreases old(self)@.room(),
    {
        let ghost before = self@;
        let ghost target = self@.inserted(p_rect);
        proof {
            before.lemma_inserted_wf(p_rect);
            if before.placed() {
                before.lemma_inserted_placed(p_rect);
            }
            self.lemma_view();
        }
        let mut i: usize = 0;
        let mut index: i64;

        if !self.nodes.is_empty() {
            index = self.get_index(&p_rect);
            if index != -1 {
                assert(before.nodes[index as int].wf());
                let node = &mut self.nodes[index as usize];
                node.insert(p_rect);
                proof {
                    self.lemma_view();
                }
                assert(self@.nodes =~= before.nodes.update(
                    index as int,
                    before.nodes[index as int].inserted(p_rect),
                ));
                return ;
            }
        }
        self.objects.push(p_rect);
        proof {
            self.lemma_view();
        }
        assert(self@.nodes =~= before.nodes);

        if self.objects.len() > self.max_objects && self.level < self.max_levels {
            proof {
                self@.lemma_split_wf();
            }
            if self.nodes.is_empty() {
                self.split();
            }
            proof {
                self.lemma_view();
            }
            while i < self.objects.len()
                invariant
                    self@.wf(),
                    self@.nodes.len() == 4,
                    self.nodes.len() == 4,
                    self@.redistributed(i as int) == target,
                    self@.room() == old(self)@.room(),
                    i <= self.objects.len(),
                decreases self.objects.len() - i,
            {
                let ghost now = self@;
                proof {
                    self.lemma_view();
                }
                let current = self.objects[i];
                index = self.get_index(&current);
                if index != -1 {
                    let moved = self.objects.remove(i);
                    proof {
                        self.lemma_view();
                    }
                    assert(now.nodes[index as int].wf());
                    assert(now.descends(index as int));
                    assert(self.nodes[index as int]@ == now.nodes[index as int]);
                    let node = &mut self.nodes[index as usize];
                    node.insert(moved);
                    proof {
                        self.lemma_view();
                        now.nodes[index as int].lemma_inserted_wf(moved);
                    }
                    assert(self@.nodes =~= now.nodes.update(
                        index as int,
                        now.nodes[index as int].inserted(moved),
                    ));
                } else {
                    i += 1;
                }
            }
        }
    }

    /// The boxes that may touch `p_rect`: each box of the tree whose place
    /// in it does not rule that out. A box may come up more than once.
    pub fn retrieve(&self, p_rect: &CollisionLimits) -> (r: Vec<CollisionLimits>)
        requires
            self@.wf(),
        ensures
            r@ == self@.retrieve(*p_rect),
        decreases self@.room(),
    {
        proof {
            self.lemma_view();
        }
        let index = self.get_index(p_rect);
        let mut return_objects: Vec<CollisionLimits> = Vec::new();
        let mut j: usize = 0;
        while j < self.objects.len()
            invariant
                j <= self.objects.len(),
                return_objects@ == self.objects@.subrange(0, j as int),
            decreases self.objects.len() - j,
        {
            return_objects.push(self.objects[j]);
            assert(return_objects@ =~= self.objects@.subrange(0, j + 1));
            j += 1;
        }
        assert(return_objects@ =~= self.objects@);

        if self.nodes.len() > 0 {
            if index != -1 {
                assert(self@.nodes[index as int].wf());
                let mut found = self.nodes[index as usize].retrieve(p_rect);
                return_objects.append(&mut found);
            } else {
                let mut k: usize = 0;
                while k < self.nodes.len()
                    invariant
                        self@.wf(),
                        self.nodes.len() == 4,
                        self@.nodes.len() == 4,
                        forall|j: int| 0 <= j < 4 ==> #[trigger] self@.nodes[j] == self.nodes[j]@,
                        k <= 4,
                        return_objects@ == self.objects@ + (if k > 0 {
                            self@.nodes[0].retrieve(*p_rect)
                        } else {
                            Seq::empty()
                        }) + (if k > 1 {
                            self@.nodes[1].retrieve(*p_rect)
                        } else {
                            Seq::empty()
                        }) + (if k > 2 {
                            self@.nodes[2].retrieve(*p_rect)
                        } else {
                            Seq::empty()
                        }) + (if k > 3 {
                            self@.nodes[3].retrieve(*p_rect)
                        } else {
                            Seq::empty()
                        }),
                    decreases 4 - k,
                {
                    assert(self@.nodes[k as int].wf());
                    let mut found = self.nodes[k].retrieve(p_rect);
                    return_objects.append(&mut found);
                    k += 1;
                }
            }
        }
        return_objects
    }

    /// Takes every box out of the tree and keeps its nodes.
    pub fn clear(&mut self)
        requires
            old(self)@.wf(),
        ensures
            final(self)@ == old(self)@.cleared(),
        decreases old(self)@.room(),
    {
        let ghost before = self@;
        proof {
            self.lemma_view();
        }
        self.objects.clear();
        proof {
            self.lemma_view();
        }
        let mut k: usize = 0;
        while k < self.nodes.len()
            invariant
                before.wf(),
                before == old(self)@,
                k <= self.nodes.len(),
                self.nodes.len() == before.nodes.len(),
                self@.nodes.len() == before.nodes.len(),
                self@.objects == Seq::<CollisionLimits>::empty(),
                self@.level == before.level,
                self@.max_levels == before.max_levels,
                self@.max_objects == before.max_objects,
                self@.bounds == before.bounds,
                forall|j: int| 0 <= j < k ==> #[trigger] self@.nodes[j] == before.nodes[j].cleared(),
                forall|j: int|
                    k <= j < self.nodes.len() ==> #[trigger] self@.nodes[j] == before.nodes[j],
            decreases self.nodes.len() - k,
        {
            let ghost now = self@;
            proof {
                self.lemma_view();
            }
            assert(before.nodes[k as int].wf());
            assert(self@.nodes[k as int] == before.nodes[k as int]);
            assert(self.nodes[k as int]@ == before.nodes[k as int]);
            let node = &mut self.nodes[k];
            node.clear();
            proof {
                self.lemma_view();
            }
            assert(self@.nodes =~= now.nodes.update(k as int, before.nodes[k as int].cleared()));
            k += 1;
        }
        proof {
            self.lemma_view();
        }
        assert(self@.nodes =~= before.cleared().nodes);
    }
}

/// A list with one box more holds what it held and that box.
pub proof fn lemma_push_contains(s: Seq<CollisionLimits>, r: CollisionLimits, x: CollisionLimits)
    ensures
        s.push(r).contains(x) <==> (s.contains(x) || x == r),
{
    if s.contains(x) {
        let j = choose|j: int| 0 <= j < s.len() && s[j] == x;
        assert(s.push(r)[j] == x);
    }
    if x == r {
        assert(s.push(r)[s.len() as int] == x);
    }
    if s.push(r).contains(x) {
        let j = choose|j: int| 0 <= j < s.push(r).len() && s.push(r)[j] == x;
        if j < s.len() {
            assert(s[j] == x);
        }
    }
}

/// A list holds what it holds without one of its boxes, and that box.
pub proof fn lemma_remove_contains(s: Seq<CollisionLimits>, i: int, x: CollisionLimits)
    requires
        0 <= i < s.len(),
    ensures
        s.contains(x) <==> (s.remove(i).contains(x) || x == s[i]),
{
    let t = s.remove(i);
    if s.contains(x) && x != s[i] {
        let j = choose|j: int| 0 <= j < s.len() && s[j] == x;
        if j < i {
            assert(t[j] == x);
        } else {
            assert(t[j - 1] == x);
        }
    }
    if t.contains(x) {
        let j = choose|j: int| 0 <= j < t.len() && t[j] == x;
        if j < i {
            assert(s[j] == x);
        } else {
            assert(s[j + 1] == x);
        }
    }
}

/// Two lists put together hold what either holds.
pub proof fn lemma_concat_contains(
    a: Seq<CollisionLimits>,
    b: Seq<CollisionLimits>,
    x: CollisionLimits,
)
    ensures
        (a + b).contains(x) <==> (a.contains(x) || b.contains(x)),
{
    if a.contains(x) {
        let j = choose|j: int| 0 <= j < a.len() && a[j] == x;
        assert((a + b)[j] == x);
    }
    if b.contains(x) {
        let j = choose|j: int| 0 <= j < b.len() && b[j] == x;
        assert((a + b)[a.len() + j] == x);
    }
    if (a + b).contains(x) {
        let j = choose|j: int| 0 <= j < (a + b).len() && (a + b)[j] == x;
        if j < a.len() {
            assert(a[j] == x);
        } else {
            assert(b[j - a.len()] == x);
        }
    }
}

impl QuadtreeView {
    /// The box is kept in the node or somewhere below it.
    pub open spec fn stores(self, x: CollisionLimits) -> bool
        decreases self,
    {
        self.objects.contains(x) || (self.nodes.len() == 4 && (self.nodes[0].stores(x)
            || self.nodes[1].stores(x) || self.nodes[2].stores(x) || self.nodes[3].stores(x)))
    }

    /// Below a node that has split, every box lies under the child that
    /// holds it whole; the boxes that the first `i` places of the node
    /// keep straddle a midline.
    pub open spec fn placed_up_to(self, i: int) -> bool
        decreases self, 0nat,
    {
        self.nodes.len() == 4 ==> {
            &&& forall|j: int|
                0 <= j < i && j < self.objects.len() ==> self.get_index(#[trigger] self.objects[j])
                    == -1
            &&& forall|k: int, x: CollisionLimits|
                0 <= k < 4 && #[trigger] self.nodes[k].stores(x) ==> self.get_index(x) == k
            &&& forall|k: int| 0 <= k < 4 ==> (#[trigger] self.nodes[k]).placed()
        }
    }

    /// Every box of the tree lies where a search for it goes: in a node
    /// that has split only boxes that straddle a midline are kept, and
    /// every other box lies under the child that holds it whole.
    pub open spec fn placed(self) -> bool
        decreases self, 1nat,
    {
        self.placed_up_to(self.objects.len() as int)
    }

    /// Every box of the tree names the segment that owns it.
    pub open spec fn tagged(self) -> bool {
        forall|x: CollisionLimits| #[trigger] self.stores(x) ==> x.id.is_some()
    }

    /// The node after its `i`-th box has gone to the child that holds it
    /// whole.
    pub open spec fn moved(self, i: int) -> QuadtreeView {
        let index = self.get_index(self.objects[i]);
        let rest = QuadtreeView { objects: self.objects.remove(i), ..self };
        if self.descends(index) {
            rest.with_child(index, self.nodes[index].inserted(self.objects[i]))
        } else {
            rest
        }
    }

    /// What handing down the `i`-th box does to a node that has split.
    pub proof fn lemma_moved(self, i: int)
        requires
            self.wf(),
            self.nodes.len() == 4,
            0 <= i < self.objects.len(),
            self.get_index(self.objects[i]) != -1,
        ensures
            self.moved(i).wf(),
            self.moved(i).nodes.len() == 4,
            self.moved(i).room() == self.room(),
            self.moved(i).bounds == self.bounds,
            self.moved(i).objects == self.objects.remove(i),
            self.redistributed(i) == self.moved(i).redistributed(i),
            self.descends(self.get_index(self.objects[i])),
            forall|k: int|
                0 <= k < 4 && k != self.get_index(self.objects[i]) ==> self.moved(i).nodes[k]
                    == self.nodes[k],
            self.moved(i).nodes[self.get_index(self.objects[i])] == self.nodes[self.get_index(
                self.objects[i],
            )].inserted(self.objects[i]),
    {
        let index = self.get_index(self.objects[i]);
        assert(self.nodes[index].wf());
        self.nodes[index].lemma_inserted_wf(self.objects[i]);
    }

    /// Putting `r` in adds `r` to what the tree stores and nothing else.
    pub proof fn lemma_inserted_stores(self, r: CollisionLimits)
        requires
            self.wf(),
        ensures
            forall|x: CollisionLimits|
                #[trigger] self.inserted(r).stores(x) <==> (self.stores(x) || x == r),
        decreases self.room(), 1nat, 0nat,
    {
        let index = self.get_index(r);
        if self.nodes.len() > 0 && index != -1 {
            let child = self.nodes[index];
            assert(child.wf());
            assert(self.descends(index));
            child.lemma_inserted_stores(r);
            let after = self.with_child(index, child.inserted(r));
            assert forall|x: CollisionLimits| #[trigger]
                after.stores(x) <==> (self.stores(x) || x == r) by {
                assert(child.inserted(r).stores(x) <==> (child.stores(x) || x == r));
            }
        } else {
            let kept = QuadtreeView { objects: self.objects.push(r), ..self };
            assert forall|x: CollisionLimits| #[trigger]
                kept.stores(x) <==> (self.stores(x) || x == r) by {
                lemma_push_contains(self.objects, r, x);
            }
            if kept.objects.len() > kept.max_objects && kept.level < kept.max_levels {
                let parted = if kept.nodes.len() == 0 {
                    QuadtreeView { nodes: kept.split_nodes(), ..kept }
                } else {
                    kept
                };
                kept.lemma_split_wf();
                assert forall|x: CollisionLimits| #[trigger]
                    parted.stores(x) <==> kept.stores(x) by {
                    if kept.nodes.len() == 0 {
                        assert(!parted.nodes[0].stores(x));
                        assert(!parted.nodes[1].stores(x));
                        assert(!parted.nodes[2].stores(x));
                        assert(!parted.nodes[3].stores(x));
                    }
                }
                parted.lemma_redistributed_stores(0);
            }
        }
    }

    /// Handing boxes down leaves what the tree stores as it was.
    pub proof fn lemma_redistributed_stores(self, i: int)
        requires
            self.wf(),
            self.nodes.len() == 4,
            0 <= i,
        ensures
            forall|x: CollisionLimits| #[trigger]
                self.redistributed(i).stores(x) <==> self.stores(x),
        decreases self.room(), 0nat, self.objects.len() - i,
    {
        if 0 <= i < self.objects.len() {
            let index = self.get_index(self.objects[i]);
            if index != -1 {
                let m = self.moved(i);
                self.lemma_moved(i);
                assert(self.nodes[index].wf());
                self.nodes[index].lemma_inserted_stores(self.objects[i]);
                assert forall|x: CollisionLimits| #[trigger] m.stores(x) <==> self.stores(x) by {
                    lemma_remove_contains(self.objects, i, x);
                    assert(self.nodes[index].inserted(self.objects[i]).stores(x) <==> (
                    self.nodes[index].stores(x) || x == self.objects[i]));
                }
                m.lemma_redistributed_stores(i);
            } else {
                self.lemma_redistributed_stores(i + 1);
            }
        }
    }

    /// Putting a box in keeps every box where a search for it goes.
    pub proof fn lemma_inserted_placed(self, r: CollisionLimits)
        requires
            self.wf(),
            self.placed(),
        ensures
            self.inserted(r).placed(),
        decreases self.room(), 1nat, 0nat,
    {
        let index = self.get_index(r);
        if self.nodes.len() > 0 && index != -1 {
            let child = self.nodes[index];
            assert(child.wf());
            assert(child.placed());
            assert(self.descends(index));
            child.lemma_inserted_placed(r);
            child.lemma_inserted_stores(r);
            let after = self.with_child(index, child.inserted(r));
            assert forall|k: int, x: CollisionLimits|
                0 <= k < 4 && #[trigger] after.nodes[k].stores(x) implies after.get_index(x)
                == k by {
                if k == index {
                    assert(child.inserted(r).stores(x) <==> (child.stores(x) || x == r));
                    if x != r {
                        assert(self.nodes[k].stores(x));
                    }
                } else {
                    assert(self.nodes[k].stores(x));
                }
            }
            assert forall|k: int| 0 <= k < 4 implies (#[trigger] after.nodes[k]).placed() by {
                if k != index {
                    assert(self.nodes[k].placed());
                }
            }
            assert(after.placed());
        } else {
            let kept = QuadtreeView { objects: self.objects.push(r), ..self };
            assert(kept.placed()) by {
                if kept.nodes.len() == 4 {
                    assert forall|j: int| 0 <= j < kept.objects.len() implies kept.get_index(
                        #[trigger] kept.objects[j],
                    ) == -1 by {
                        if j < self.objects.len() {
                            assert(self.get_index(self.objects[j]) == -1);
                        }
                    }
                    assert forall|k: int, x: CollisionLimits|
                        0 <= k < 4 && #[trigger] kept.nodes[k].stores(x) implies kept.get_index(x)
                        == k by {
                        assert(self.nodes[k].stores(x));
                    }
                    assert forall|k: int| 0 <= k < 4 implies (#[trigger] kept.nodes[k]).placed() by {
                        assert(self.nodes[k].placed());
                    }
                }
            }
            if kept.objects.len() > kept.max_objects && kept.level < kept.max_levels {
                let parted = if kept.nodes.len() == 0 {
                    QuadtreeView { nodes: kept.split_nodes(), ..kept }
                } else {
                    kept
                };
                kept.lemma_split_wf();
                assert(parted.placed_up_to(0)) by {
                    if kept.nodes.len() == 0 {
                        assert forall|k: int, x: CollisionLimits|
                            0 <= k < 4 && #[trigger] parted.nodes[k].stores(
                                x,
                            ) implies parted.get_index(x) == k by {
                            assert(!parted.nodes[k].stores(x));
                        }
                        assert forall|k: int| 0 <= k < 4 implies (#[trigger] parted.nodes[
                            k
                        ]).placed() by {}
                    } else {
                        assert(kept.placed_up_to(kept.objects.len() as int));
                    }
                }
                parted.lemma_redistributed_placed(0);
            }
        }
    }

    /// Handing down the boxes from the `i`-th on puts every box where a
    /// search for it goes, when the boxes before the `i`-th lie there
    /// already.
    pub proof fn lemma_redistributed_placed(self, i: int)
        requires
            self.wf(),
            self.nodes.len() == 4,
            0 <= i <= self.objects.len(),
            self.placed_up_to(i),
        ensures
            self.redistributed(i).placed(),
        decreases self.room(), 0nat, self.objects.len() - i,
    {
        if i < self.objects.len() {
            let index = self.get_index(self.objects[i]);
            if index != -1 {
                let m = self.moved(i);
                let child = self.nodes[index];
                self.lemma_moved(i);
                assert(child.wf());
                assert(child.placed());
                child.lemma_inserted_placed(self.objects[i]);
                child.lemma_inserted_stores(self.objects[i]);
                assert(m.placed_up_to(i)) by {
                    assert forall|j: int| 0 <= j < i && j < m.objects.len() implies m.get_index(
                        #[trigger] m.objects[j],
                    ) == -1 by {
                        assert(m.objects[j] == self.objects[j]);
                    }
                    assert forall|k: int, x: CollisionLimits|
                        0 <= k < 4 && #[trigger] m.nodes[k].stores(x) implies m.get_index(x)
                        == k by {
                        if k == index {
                            assert(child.inserted(self.objects[i]).stores(x) <==> (child.stores(x)
                                || x == self.objects[i]));
                            if x != self.objects[i] {
                                assert(self.nodes[k].stores(x));
                            }
                        } else {
                            assert(self.nodes[k].stores(x));
                        }
                    }
                    assert forall|k: int| 0 <= k < 4 implies (#[trigger] m.nodes[k]).placed() by {
                        if k != index {
                            assert(self.nodes[k].placed());
                        }
                    }
                }
                m.lemma_redistributed_placed(i);
            } else {
                assert(self.placed_up_to(i + 1)) by {
                    assert forall|j: int|
                        0 <= j < i + 1 && j < self.objects.len() implies self.get_index(
                        #[trigger] self.objects[j],
                    ) == -1 by {}
                }
                self.lemma_redistributed_placed(i + 1);
            }
        }
    }

    /// A search for a box that the tree stores finds the box.
    pub proof fn lemma_stored_is_retrieved(self, x: CollisionLimits)
        requires
            self.wf(),
            self.placed(),
            self.stores(x),
        ensures
            self.retrieve(x).contains(x),
        decreases self,
    {
        self.lemma_touching_is_retrieved_at(x, x, true);
    }

    /// A search for `q` finds every stored box that touches `q`.
    pub proof fn lemma_touching_is_retrieved(self, x: CollisionLimits, q: CollisionLimits)
        requires
            self.wf(),
            self.placed(),
            self.stores(x),
            !boxes_apart(x, q),
        ensures
            self.retrieve(q).contains(x),
    {
        self.lemma_touching_is_retrieved_at(x, q, false);
    }

    /// A search for `q` finds the stored box `x` when `q` is `x` itself or
    /// touches it.
    pub proof fn lemma_touching_is_retrieved_at(
        self,
        x: CollisionLimits,
        q: CollisionLimits,
        same: bool,
    )
        requires
            self.wf(),
            self.placed(),
            self.stores(x),
            if same {
                q == x
            } else {
                !boxes_apart(x, q)
            },
        ensures
            self.retrieve(q).contains(x),
        decreases self,
    {
        if self.nodes.len() == 4 {
            let index = self.get_index(q);
            let r0 = self.nodes[0].retrieve(q);
            let r1 = self.nodes[1].retrieve(q);
            let r2 = self.nodes[2].retrieve(q);
            let r3 = self.nodes[3].retrieve(q);
            if !self.objects.contains(x) {
                let k = if self.nodes[0].stores(x) {
                    0int
                } else if self.nodes[1].stores(x) {
                    1int
                } else if self.nodes[2].stores(x) {
                    2int
                } else {
                    3int
                };
                assert(self.nodes[k].stores(x));
                assert(self.get_index(x) == k);
                assert(self.nodes[k].wf() && self.nodes[k].placed());
                self.nodes[k].lemma_touching_is_retrieved_at(x, q, same);
                assert(index == -1 || index == k);
            }
            if index != -1 {
                lemma_concat_contains(self.objects, self.nodes[index].retrieve(q), x);
            } else {
                lemma_concat_contains(self.objects, r0, x);
                lemma_concat_contains(self.objects + r0, r1, x);
                lemma_concat_contains(self.objects + r0 + r1, r2, x);
                lemma_concat_contains(self.objects + r0 + r1 + r2, r3, x);
            }
        }
    }

    /// A box that has been put in is found by a search for it.
    pub proof fn lemma_insert_then_retrieve(self, b: CollisionLimits)
        requires
            self.wf(),
            self.placed(),
        ensures
            self.inserted(b).retrieve(b).contains(b),
    {
        self.lemma_inserted_wf(b);
        self.lemma_inserted_placed(b);
        self.lemma_inserted_stores(b);
        assert(self.inserted(b).stores(b));
        self.inserted(b).lemma_stored_is_retrieved(b);
    }

    /// What a search finds is stored in the tree.
    pub proof fn lemma_retrieved_is_stored(self, q: CollisionLimits, x: CollisionLimits)
        requires
            self.wf(),
            self.retrieve(q).contains(x),
        ensures
            self.stores(x),
        decreases self,
    {
        if self.nodes.len() == 4 {
            let index = self.get_index(q);
            let r0 = self.nodes[0].retrieve(q);
            let r1 = self.nodes[1].retrieve(q);
            let r2 = self.nodes[2].retrieve(q);
            let r3 = self.nodes[3].retrieve(q);
            if index != -1 {
                lemma_concat_contains(self.objects, self.nodes[index].retrieve(q), x);
                if !self.objects.contains(x) {
                    assert(self.nodes[index].wf());
                    self.nodes[index].lemma_retrieved_is_stored(q, x);
                }
            } else {
                lemma_concat_contains(self.objects, r0, x);
                lemma_concat_contains(self.objects + r0, r1, x);
                lemma_concat_contains(self.objects + r0 + r1, r2, x);
                lemma_concat_contains(self.objects + r0 + r1 + r2, r3, x);
                assert(self.nodes[0].wf() && self.nodes[1].wf() && self.nodes[2].wf()
                    && self.nodes[3].wf());
                if r0.contains(x) {
                    self.nodes[0].lemma_retrieved_is_stored(q, x);
                } else if r1.contains(x) {
                    self.nodes[1].lemma_retrieved_is_stored(q, x);
                } else if r2.contains(x) {
                    self.nodes[2].lemma_retrieved_is_stored(q, x);
                } else if r3.contains(x) {
                    self.nodes[3].lemma_retrieved_is_stored(q, x);
                }
            }
        }
    }
}

} // verus!
