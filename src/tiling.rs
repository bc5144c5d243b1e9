//! The partition tree, kept in an arena, and the window index beside it.
//!
//! Nodes live in a table addressed by index; a split names its two children
//! by index and every node names its container, so that no node is shared
//! and no reference cycle exists. Geometries are kept in a second table of
//! the same length, so that recomputing them never touches the tree's shape.

use std::collections::HashMap;
use vstd::prelude::*;
use crate::geometry::{first_half, halves, lemma_halves_tile, second_half, tiles, Rect, Split};

verus! {

broadcast use vstd::std_specs::hash::group_hash_axioms;

/// A node's position relative to its container.
#[derive(Clone, Copy, Debug, PartialEq, Eq, Structural)]
pub enum Side {
    Left,
    Right,
    /// The tree's single root, which has no container.
    Root,
}

/// The errors a tree operation reports; a failed operation changes nothing.
#[derive(Clone, Copy, Debug, PartialEq, Eq, Structural)]
pub enum TilingError {
    /// `insert_head` on a tree that already has a root.
    AlreadyInitialized,
    /// The window is not in the tree.
    WindowNotFound,
    /// The node is not in the tree.
    NotAttached,
}

/// A leaf: the region of one window.
#[derive(Clone, Copy, Debug, PartialEq, Eq, Structural)]
pub struct Tile {
    /// The axis used when this tile is split next.
    pub next_split: Split,
    pub container: Option<usize>,
    pub side: Side,
    pub window: u64,
}

/// An inner node: its region divided in two along `split`.
#[derive(Clone, Copy, Debug, PartialEq, Eq, Structural)]
pub struct Structure {
    pub container: Option<usize>,
    pub side: Side,
    pub split: Split,
    pub left: usize,
    pub right: usize,
}

#[derive(Clone, Copy, Debug, PartialEq, Eq, Structural)]
pub enum Node {
    Structure(Structure),
    Tile(Tile),
}

impl Node {
    pub open spec fn container_of(self) -> Option<usize> {
        match self {
            Node::Structure(s) => s.container,
            Node::Tile(t) => t.container,
        }
    }

    pub open spec fn side_of(self) -> Side {
        match self {
            Node::Structure(s) => s.side,
            Node::Tile(t) => t.side,
        }
    }

    /// The same node, moved under `container` at `side`.
    pub open spec fn moved(self, container: Option<usize>, side: Side) -> Node {
        match self {
            Node::Structure(s) => Node::Structure(Structure { container, side, ..s }),
            Node::Tile(t) => Node::Tile(Tile { container, side, ..t }),
        }
    }

    fn with_place(self, container: Option<usize>, side: Side) -> (r: Node)
        ensures
            r == self.moved(container, side),
    {
        match self {
            Node::Structure(s) => Node::Structure(Structure { container, side, ..s }),
            Node::Tile(t) => Node::Tile(Tile { container, side, ..t }),
        }
    }
}

/// Structure `n` with its child at `side` replaced by `child`.
pub open spec fn repoint(n: Node, side: Side, child: usize) -> Node {
    let s = n->Structure_0;
    if side == Side::Left {
        Node::Structure(Structure { left: child, ..s })
    } else {
        Node::Structure(Structure { right: child, ..s })
    }
}

/// Whether node `i` lies in the subtree of node `a`, following containers
/// upward; each step must go to a node of strictly smaller rank.
pub open spec fn descends(nodes: Seq<Option<Node>>, rank: Map<int, nat>, i: int, a: int) -> bool
    decreases rank[i],
{
    if i == a {
        true
    } else if 0 <= i < nodes.len() && nodes[i] is Some {
        match nodes[i].unwrap().container_of() {
            Some(p) => if rank[p as int] < rank[i] {
                descends(nodes, rank, p as int, a)
            } else {
                false
            },
            None => false,
        }
    } else {
        false
    }
}


/// A node's weight in a worklist: it grows threefold per level nearer the
/// top, so replacing a node by its two children lightens the list.
spec fn weight(k: nat) -> nat
    decreases k,
{
    if k == 0 {
        1
    } else {
        3 * weight((k - 1) as nat)
    }
}

/// The total weight of a worklist of nodes.
spec fn total(work: Seq<usize>, rank: Map<int, nat>, bound: nat) -> nat
    decreases work.len(),
{
    if work.len() == 0 {
        0
    } else {
        total(work.drop_last(), rank, bound) + weight((bound - rank[work.last() as int]) as nat)
    }
}

proof fn lemma_weight_mono(j: nat, k: nat)
    requires
        j <= k,
    ensures
        1 <= weight(j) <= weight(k),
    decreases k,
{
    if k > j {
        lemma_weight_mono(j, (k - 1) as nat);
    } else if k > 0 {
        lemma_weight_mono(0, (k - 1) as nat);
    }
}

proof fn lemma_total_push(work: Seq<usize>, rank: Map<int, nat>, bound: nat, x: usize)
    ensures
        total(work.push(x), rank, bound) == total(work, rank, bound) + weight(
            (bound - rank[x as int]) as nat,
        ),
{
    assert(work.push(x).drop_last() =~= work);
}

/// Following containers only climbs in rank.
proof fn lemma_descends_rank(nodes: Seq<Option<Node>>, rank: Map<int, nat>, i: int, a: int)
    requires
        descends(nodes, rank, i, a),
    ensures
        i == a || rank[a] < rank[i],
    decreases rank[i],
{
    if i != a {
        let p = nodes[i].unwrap().container_of().unwrap() as int;
        lemma_descends_rank(nodes, rank, p, a);
    }
}

/// A tiling tree with its window index.
pub struct TilingState {
    nodes: Vec<Option<Node>>,
    geoms: Vec<Rect>,
    tile_tree_head: Option<usize>,
    tile_info: HashMap<u64, usize>,
    /// Every node ranks strictly above its container: the tree is acyclic.
    rank: Ghost<Map<int, nat>>,
    rank_bound: Ghost<nat>,
}

impl TilingState {
    /// Whether slot `i` holds a node of the tree.
    pub closed spec fn live(self, i: int) -> bool {
        0 <= i < self.nodes@.len() && self.nodes@[i] is Some
    }

    pub closed spec fn node(self, i: int) -> Node {
        self.nodes@[i].unwrap()
    }

    pub closed spec fn geom(self, i: int) -> Rect {
        self.geoms@[i]
    }

    pub closed spec fn root(self) -> Option<usize> {
        self.tile_tree_head
    }

    /// The window index: each window and the slot of its tile.
    pub closed spec fn index(self) -> Map<u64, usize> {
        self.tile_info@
    }

    pub closed spec fn tree(self) -> Seq<Option<Node>> {
        self.nodes@
    }

    pub closed spec fn ranks(self) -> Map<int, nat> {
        self.rank@
    }

    /// Whether node `i` lies in the subtree of node `a`.
    pub open spec fn under(self, i: int, a: int) -> bool {
        descends(self.tree(), self.ranks(), i, a)
    }

    /// Each window's rectangle.
    pub open spec fn layout(self) -> Map<u64, Rect> {
        self.index().map_values(|i: usize| self.geom(i as int))
    }

    /// Each window's axis for its next split.
    pub open spec fn axes(self) -> Map<u64, Split> {
        self.index().map_values(|i: usize| self.node(i as int)->Tile_0.next_split)
    }

    /// Whether slot `i` holds a tile.
    pub open spec fn is_tile(self, i: int) -> bool {
        self.live(i) && self.node(i) is Tile
    }

    /// Whether slot `i` holds a structure.
    pub open spec fn is_structure(self, i: int) -> bool {
        self.live(i) && self.node(i) is Structure
    }

    /// The child of structure `p` at `side`.
    pub open spec fn child_at(self, p: int, side: Side) -> int {
        let s = self.node(p)->Structure_0;
        if side == Side::Left {
            s.left as int
        } else {
            s.right as int
        }
    }

    /// The local links of node `i` are in order.
    pub closed spec fn node_ok(self, i: int) -> bool {
        let n = self.node(i);
        &&& self.geom(i).valid()
        &&& self.rank@.contains_key(i)
        &&& self.rank@[i] <= self.rank_bound@
        &&& match n.container_of() {
            None => self.tile_tree_head == Some(i as usize) && n.side_of() == Side::Root,
            Some(p) => {
                &&& self.is_structure(p as int)
                &&& self.rank@[p as int] < self.rank@[i]
                &&& n.side_of() != Side::Root
                &&& self.child_at(p as int, n.side_of()) == i
            },
        }
        &&& match n {
            Node::Tile(t) => self.tile_info@.contains_key(t.window) && self.tile_info@[t.window]
                == i as usize,
            Node::Structure(s) => {
                &&& self.live(s.left as int)
                &&& self.live(s.right as int)
                &&& self.node(s.left as int).container_of() == Some(i as usize)
                &&& self.node(s.left as int).side_of() == Side::Left
                &&& self.node(s.right as int).container_of() == Some(i as usize)
                &&& self.node(s.right as int).side_of() == Side::Right
            },
        }
    }

    /// The structure at `i`, if it is one, divides its rectangle exactly
    /// between its children.
    pub closed spec fn consistent(self, i: int) -> bool {
        self.node(i) is Structure ==> {
            let s = self.node(i)->Structure_0;
            &&& self.geom(s.left as int) == first_half(self.geom(i), s.split)
            &&& self.geom(s.right as int) == second_half(self.geom(i), s.split)
        }
    }

    /// The tree's shape and the window index agree, whatever the geometries.
    pub closed spec fn shape_ok(self) -> bool {
        &&& self.nodes@.len() == self.geoms@.len()
        &&& self.nodes@.len() <= usize::MAX
        &&& match self.tile_tree_head {
            None => forall|i: int| !self.live(i),
            Some(r) => self.live(r as int) && self.node(r as int).container_of() is None,
        }
        &&& forall|i: int| self.live(i) ==> #[trigger] self.node_ok(i)
        &&& forall|w: u64| #[trigger]
            self.tile_info@.contains_key(w) ==> {
                let i = self.tile_info@[w] as int;
                self.is_tile(i) && self.node(i)->Tile_0.window == w
            }
    }

    /// The invariant: a well-shaped tree in which every split divides its
    /// rectangle exactly.
    pub closed spec fn wf(self) -> bool {
        &&& self.shape_ok()
        &&& forall|i: int| self.live(i) ==> #[trigger] self.consistent(i)
    }


    /// Dividing the rectangle of split `s` between its children keeps the
    /// shape in order, makes `s` consistent, and leaves every other split
    /// but the two children as consistent as it was.
    proof fn lemma_step(pre: TilingState, post: TilingState, s: int)
        requires
            pre.shape_ok(),
            pre.is_structure(s),
            post.nodes@ == pre.nodes@,
            post.tile_tree_head == pre.tile_tree_head,
            post.tile_info@ == pre.tile_info@,
            post.rank@ == pre.rank@,
            post.rank_bound@ == pre.rank_bound@,
            ({
                let st = pre.node(s)->Structure_0;
                post.geoms@ == pre.geoms@.update(
                    st.left as int,
                    first_half(pre.geom(s), st.split),
                ).update(st.right as int, second_half(pre.geom(s), st.split))
            }),
        ensures
            post.shape_ok(),
            post.consistent(s),
            forall|i: int|
                #![trigger post.consistent(i)]
                pre.live(i) && pre.consistent(i) && i != pre.node(s)->Structure_0.left
                    && i != pre.node(s)->Structure_0.right ==> post.consistent(i),
    {
        let st = pre.node(s)->Structure_0;
        assert(pre.node_ok(s));
        assert(pre.live(st.left as int) && pre.live(st.right as int));
        assert(pre.node_ok(st.left as int));
        assert(pre.node_ok(st.right as int));
        lemma_halves_tile(pre.geom(s), st.split);
        assert forall|i: int| post.live(i) implies #[trigger] post.node_ok(i) by {
            assert(pre.live(i));
            assert(pre.node_ok(i));
        }
        assert forall|w: u64| #[trigger] post.tile_info@.contains_key(w) implies ({
            let i = post.tile_info@[w] as int;
            post.is_tile(i) && post.node(i)->Tile_0.window == w
        }) by {
            assert(pre.tile_info@.contains_key(w));
        }
        assert forall|i: int|
            #![trigger post.consistent(i)]
            pre.live(i) && pre.consistent(i) && i != st.left && i != st.right implies post.consistent(
            i,
        ) by {
            assert(pre.node_ok(i));
            if pre.node(i) is Structure {
                let t = pre.node(i)->Structure_0;
                assert(pre.node_ok(t.left as int));
                assert(pre.node_ok(t.right as int));
                if i != s {
                    assert(t.left != st.left && t.left != st.right);
                    assert(t.right != st.left && t.right != st.right);
                }
            }
        }
    }

    /// How a split of tile `l` rewrites the state, with `s` the new
    /// structure and `n` the new tile for window `nw`.
    spec fn split_step(pre: TilingState, post: TilingState, l: int, s: int, n: int, nw: u64) -> bool {
        &&& pre.wf()
        &&& pre.nodes@.len() + 2 <= usize::MAX
        &&& pre.is_tile(l)
        &&& !pre.tile_info@.contains_key(nw)
        &&& s == pre.nodes@.len()
        &&& n == s + 1
        &&& ({
            let t = pre.node(l)->Tile_0;
            let (a, b) = (first_half(pre.geom(l), t.next_split), second_half(pre.geom(l), t.next_split));
            let st = Structure {
                container: t.container,
                side: t.side,
                split: t.next_split,
                left: l as usize,
                right: n as usize,
            };
            let nt = Tile { next_split: t.next_split, container: Some(s as usize), side: Side::Right, window: nw };
            let lt = Tile { container: Some(s as usize), side: Side::Left, ..t };
            let base = pre.nodes@.push(Some(Node::Structure(st))).push(Some(Node::Tile(nt))).update(
                l,
                Some(Node::Tile(lt)),
            );
            &&& post.geoms@ == pre.geoms@.push(pre.geom(l)).push(b).update(l, a)
            &&& match t.container {
                Some(p) => {
                    let ps = pre.node(p as int)->Structure_0;
                    let rp = if t.side == Side::Left {
                        Structure { left: s as usize, ..ps }
                    } else {
                        Structure { right: s as usize, ..ps }
                    };
                    &&& post.nodes@ == base.update(p as int, Some(Node::Structure(rp)))
                    &&& post.tile_tree_head == pre.tile_tree_head
                },
                None => {
                    &&& post.nodes@ == base
                    &&& post.tile_tree_head == Some(s as usize)
                },
            }
        })
        &&& post.tile_info@ == pre.tile_info@.insert(nw, n as usize)
        &&& post.rank@ == pre.rank@.insert(s, pre.rank@[l]).insert(l, pre.rank@[l] + 1).insert(
            n,
            pre.rank@[l] + 1,
        )
        &&& post.rank_bound@ >= pre.rank_bound@
        &&& post.rank_bound@ >= pre.rank@[l] + 1
    }

    proof fn lemma_split_nodes(pre: TilingState, post: TilingState, l: int, s: int, n: int, nw: u64)
        requires
            Self::split_step(pre, post, l, s, n, nw),
        ensures
            forall|i: int| post.live(i) ==> #[trigger] post.node_ok(i),
    {
        let t = pre.node(l)->Tile_0;
        assert(pre.node_ok(l));
        lemma_halves_tile(pre.geom(l), t.next_split);
        assert forall|i: int| post.live(i) implies #[trigger] post.node_ok(i) by {
            if i == s {
                if let Some(p) = t.container {
                    assert(pre.node_ok(p as int));
                }
            } else if i == n {
            } else if i == l {
            } else {
                assert(pre.live(i));
                assert(pre.node_ok(i));
                if let Some(p) = t.container {
                    assert(pre.node_ok(p as int));
                }
                match pre.node(i).container_of() {
                    Some(q) => {
                        assert(pre.node_ok(q as int));
                    },
                    None => {},
                }
                if pre.node(i) is Structure {
                    let st = pre.node(i)->Structure_0;
                    assert(pre.node_ok(st.left as int));
                    assert(pre.node_ok(st.right as int));
                }
            }
        }
    }

    proof fn lemma_split_rest(pre: TilingState, post: TilingState, l: int, s: int, n: int, nw: u64)
        requires
            Self::split_step(pre, post, l, s, n, nw),
        ensures
            forall|w: u64| #[trigger]
                post.tile_info@.contains_key(w) ==> {
                    let i = post.tile_info@[w] as int;
                    post.is_tile(i) && post.node(i)->Tile_0.window == w
                },
            forall|i: int| post.live(i) ==> #[trigger] post.consistent(i),
            forall|i: int| pre.live(i) && i != l ==> #[trigger] post.geom(i) == pre.geom(i),
            forall|i: int| pre.is_tile(i) && i != l ==> #[trigger] post.node(i) == pre.node(i),
            post.nodes@.len() == post.geoms@.len(),
            post.nodes@.len() <= usize::MAX,
            post.live(s),
            post.live(n),
            post.live(l),
            match post.tile_tree_head {
                None => false,
                Some(r) => post.live(r as int) && post.node(r as int).container_of() is None,
            },
    {
        let t = pre.node(l)->Tile_0;
        assert(pre.node_ok(l));
        lemma_halves_tile(pre.geom(l), t.next_split);
        if let Some(p) = t.container {
            assert(pre.node_ok(p as int));
        }
        assert forall|i: int| pre.is_tile(i) && i != l implies #[trigger] post.node(i) == pre.node(i) by {
            assert(pre.node_ok(i));
        }
        assert forall|w: u64| #[trigger] post.tile_info@.contains_key(w) implies ({
            let i = post.tile_info@[w] as int;
            post.is_tile(i) && post.node(i)->Tile_0.window == w
        }) by {
            if w != nw {
                let i = pre.tile_info@[w] as int;
                assert(pre.node_ok(i));
            }
        }
        assert forall|i: int| post.live(i) implies #[trigger] post.consistent(i) by {
            if i == s {
            } else if i == n || i == l {
            } else {
                assert(pre.live(i));
                assert(pre.node_ok(i));
                assert(pre.consistent(i));
                if pre.node(i) is Structure {
                    let st = pre.node(i)->Structure_0;
                    assert(pre.node_ok(st.left as int));
                    assert(pre.node_ok(st.right as int));
                }
            }
        }
        if let Some(r) = pre.tile_tree_head {
            assert(pre.node_ok(r as int));
        }
    }

    /// The state after a split is well formed.
    proof fn lemma_split_shape(pre: TilingState, post: TilingState, l: int, s: int, n: int, nw: u64)
        requires
            Self::split_step(pre, post, l, s, n, nw),
        ensures
            post.wf(),
            post.live(s),
            post.live(n),
            post.live(l),
            forall|i: int| pre.live(i) && i != l ==> #[trigger] post.geom(i) == pre.geom(i),
            forall|i: int| pre.is_tile(i) && i != l ==> #[trigger] post.node(i) == pre.node(i),
    {
        Self::lemma_split_nodes(pre, post, l, s, n, nw);
        Self::lemma_split_rest(pre, post, l, s, n, nw);
    }

    /// How destroying tile `l`, whose container is `p`, rewrites the state
    /// before the promoted sibling `sib` is laid out again.
    spec fn destroy_step(pre: TilingState, mid: TilingState, l: int, p: int, sib: int) -> bool {
        let ps = pre.node(p)->Structure_0;
        let base = pre.nodes@.update(
            sib,
            Some(pre.node(sib).moved(ps.container, ps.side)),
        );
        &&& pre.wf()
        &&& pre.is_tile(l)
        &&& 0 <= p < pre.nodes@.len()
        &&& pre.node(l).container_of() == Some(p as usize)
        &&& sib == if pre.node(l).side_of() == Side::Left {
            ps.right as int
        } else {
            ps.left as int
        }
        &&& mid.geoms@ == pre.geoms@.update(sib, pre.geom(p))
        &&& match ps.container {
            Some(g) => {
                let gs = pre.node(g as int)->Structure_0;
                let rg = if ps.side == Side::Left {
                    Structure { left: sib as usize, ..gs }
                } else {
                    Structure { right: sib as usize, ..gs }
                };
                &&& mid.nodes@ == base.update(g as int, Some(Node::Structure(rg))).update(
                    l,
                    None,
                ).update(p, None)
                &&& mid.tile_tree_head == pre.tile_tree_head
            },
            None => {
                &&& mid.nodes@ == base.update(l, None).update(p, None)
                &&& mid.tile_tree_head == Some(sib as usize)
            },
        }
        &&& mid.tile_info@ == pre.tile_info@.remove(pre.node(l)->Tile_0.window)
        &&& mid.rank@ == pre.rank@
        &&& mid.rank_bound@ == pre.rank_bound@
    }

    #[verifier::rlimit(50)]
    proof fn lemma_destroy_nodes(pre: TilingState, mid: TilingState, l: int, p: int, sib: int)
        requires
            Self::destroy_step(pre, mid, l, p, sib),
        ensures
            forall|i: int| mid.live(i) ==> #[trigger] mid.node_ok(i),
    {
        let ps = pre.node(p)->Structure_0;
        assert(pre.node_ok(l));
        assert(pre.node_ok(p));
        assert(pre.node_ok(sib));
        lemma_halves_tile(pre.geom(p), ps.split);
        if let Some(g) = ps.container {
            assert(pre.node_ok(g as int));
        }
        assert forall|i: int| mid.live(i) implies #[trigger] mid.node_ok(i) by {
            assert(pre.live(i));
            assert(pre.node_ok(i));
            match pre.node(i).container_of() {
                Some(q) => {
                    assert(pre.node_ok(q as int));
                },
                None => {},
            }
            if pre.node(i) is Structure {
                let st = pre.node(i)->Structure_0;
                assert(pre.node_ok(st.left as int));
                assert(pre.node_ok(st.right as int));
            }
            if pre.node(i) is Tile {
                assert(pre.tile_info@[pre.node(i)->Tile_0.window] == i);
            }
        }
    }

    proof fn lemma_destroy_rest(pre: TilingState, mid: TilingState, l: int, p: int, sib: int)
        requires
            Self::destroy_step(pre, mid, l, p, sib),
        ensures
            forall|w: u64| #[trigger]
                mid.tile_info@.contains_key(w) ==> {
                    let i = mid.tile_info@[w] as int;
                    mid.is_tile(i) && mid.node(i)->Tile_0.window == w
                },
            forall|i: int| mid.live(i) && i != sib ==> #[trigger] mid.consistent(i),
            mid.live(sib),
            forall|i: int| #[trigger] mid.live(i) ==> pre.live(i) && i != l && i != p,
            forall|i: int| mid.live(i) && i != sib ==> #[trigger] mid.geom(i) == pre.geom(i),
            mid.nodes@.len() == mid.geoms@.len(),
            mid.nodes@.len() <= usize::MAX,
            match mid.tile_tree_head {
                None => false,
                Some(r) => mid.live(r as int) && mid.node(r as int).container_of() is None,
            },
            mid.node(sib) is Tile ==> mid.consistent(sib),
    {
        let ps = pre.node(p)->Structure_0;
        assert(pre.node_ok(l));
        assert(pre.node_ok(p));
        assert(pre.node_ok(sib));
        assert(pre.consistent(p));
        if let Some(g) = ps.container {
            assert(pre.node_ok(g as int));
            assert(pre.consistent(g as int));
        }
        assert forall|w: u64| #[trigger] mid.tile_info@.contains_key(w) implies ({
            let i = mid.tile_info@[w] as int;
            mid.is_tile(i) && mid.node(i)->Tile_0.window == w
        }) by {
            let i = pre.tile_info@[w] as int;
            assert(pre.node_ok(i));
        }
        assert forall|i: int| mid.live(i) && i != sib implies #[trigger] mid.consistent(i) by {
            assert(pre.live(i));
            assert(pre.node_ok(i));
            assert(pre.consistent(i));
            if pre.node(i) is Structure {
                let st = pre.node(i)->Structure_0;
                assert(pre.node_ok(st.left as int));
                assert(pre.node_ok(st.right as int));
            }
        }
        if let Some(r) = pre.tile_tree_head {
            assert(pre.node_ok(r as int));
        }
    }


    /// A node strictly inside the subtree of `a` lies under one of its
    /// children; so `a` is a structure.
    proof fn lemma_under_child(self, i: int, a: int)
        requires
            self.shape_ok(),
            self.live(a),
            self.under(i, a),
            i != a,
        ensures
            self.is_structure(a),
            self.under(i, self.node(a)->Structure_0.left as int) || self.under(
                i,
                self.node(a)->Structure_0.right as int,
            ),
        decreases self.rank@[i],
    {
        assert(self.live(i));
        assert(self.node_ok(i));
        let p = self.node(i).container_of()->Some_0 as int;
        assert(self.node_ok(p));
        if p == a {
            let st = self.node(a)->Structure_0;
            assert(i == st.left || i == st.right);
        } else {
            self.lemma_under_child(p, a);
            let st = self.node(a)->Structure_0;
            if self.under(p, st.left as int) {
                assert(self.under(i, st.left as int));
            } else {
                assert(self.under(i, st.right as int));
            }
        }
    }


    /// Every node of the tree lies under its root.
    proof fn lemma_under_root(self, i: int)
        requires
            self.shape_ok(),
            self.live(i),
        ensures
            self.tile_tree_head is Some,
            self.under(i, self.tile_tree_head->Some_0 as int),
        decreases self.rank@[i],
    {
        assert(self.node_ok(i));
        match self.node(i).container_of() {
            Some(p) => {
                self.lemma_under_root(p as int);
            },
            None => {},
        }
    }

    /// Subtrees nest: lying under `b`, itself under `a`, is lying under `a`.
    proof fn lemma_under_trans(self, i: int, b: int, a: int)
        requires
            self.shape_ok(),
            self.under(i, b),
            self.under(b, a),
        ensures
            self.under(i, a),
        decreases self.rank@[i],
    {
        if i != b {
            let p = self.node(i).container_of()->Some_0 as int;
            self.lemma_under_trans(p, b, a);
        }
    }

    /// Two nodes above a common node lie one under the other.
    proof fn lemma_under_chain(self, i: int, a: int, b: int)
        requires
            self.shape_ok(),
            self.under(i, a),
            self.under(i, b),
        ensures
            self.under(a, b) || self.under(b, a),
        decreases self.rank@[i],
    {
        if i != a && i != b {
            let p = self.node(i).container_of()->Some_0 as int;
            self.lemma_under_chain(p, a, b);
        }
    }

    /// The subtrees of a structure's two children share no node.
    proof fn lemma_children_disjoint(self, x: int, i: int)
        requires
            self.shape_ok(),
            self.is_structure(x),
        ensures
            !(self.under(i, self.node(x)->Structure_0.left as int) && self.under(
                i,
                self.node(x)->Structure_0.right as int,
            )),
    {
        let st = self.node(x)->Structure_0;
        let (l, r) = (st.left as int, st.right as int);
        assert(self.node_ok(x));
        assert(self.node_ok(l));
        assert(self.node_ok(r));
        if self.under(i, l) && self.under(i, r) {
            self.lemma_under_chain(i, l, r);
            if self.under(l, r) {
                assert(self.under(x, r));
                lemma_descends_rank(self.nodes@, self.rank@, x, r);
            } else {
                assert(self.under(x, l));
                lemma_descends_rank(self.nodes@, self.rank@, x, l);
            }
        }
    }


    /// Recomputes the rectangles of the subtree of `start` from its own
    /// rectangle, visiting splits through an explicit worklist.
    fn relayout(&mut self, start: usize)
        requires
            old(self).shape_ok(),
            old(self).live(start as int),
            forall|i: int|
                old(self).live(i) && i != start ==> #[trigger] old(self).consistent(i),
        ensures
            final(self).wf(),
            final(self).nodes@ == old(self).nodes@,
            final(self).tile_tree_head == old(self).tile_tree_head,
            final(self).tile_info@ == old(self).tile_info@,
            final(self).rank@ == old(self).rank@,
            final(self).rank_bound@ == old(self).rank_bound@,
            final(self).geoms@.len() == old(self).geoms@.len(),
            forall|i: int| #[trigger]
                final(self).live(i) && !old(self).under(i, start as int) ==> final(self).geom(i)
                    == old(self).geom(i),
            final(self).geom(start as int) == old(self).geom(start as int),
            old(self).wf() ==> final(self).geoms@ == old(self).geoms@,
    {
        let ghost g0 = self.geoms@;
        let ghost was_wf = self.wf();
        let mut work: Vec<usize> = Vec::new();
        work.push(start);
        proof {
            assert forall|i: int|
                self.live(i) && !work@.contains(i as usize) implies #[trigger] self.consistent(i) by {
                if i == start as int {
                    assert(work@[0] == start);
                }
            }
        }
        while work.len() > 0
            invariant
                self.shape_ok(),
                self.nodes@ == old(self).nodes@,
                self.tile_tree_head == old(self).tile_tree_head,
                self.tile_info@ == old(self).tile_info@,
                self.rank@ == old(self).rank@,
                self.rank_bound@ == old(self).rank_bound@,
                self.geoms@.len() == g0.len(),
                old(self).geoms@ == g0,
                was_wf == old(self).wf(),
                old(self).live(start as int),
                forall|j: int|
                    0 <= j < work@.len() ==> self.live(#[trigger] work@[j] as int) && self.under(
                        work@[j] as int,
                        start as int,
                    ),
                forall|i: int|
                    self.live(i) && !work@.contains(i as usize) ==> #[trigger] self.consistent(i),
                forall|i: int| #[trigger]
                    self.live(i) && !self.under(i, start as int) ==> self.geoms@[i] == g0[i],
                self.geoms@[start as int] == g0[start as int],
                was_wf ==> self.geoms@ == g0,
            decreases total(work@, self.rank@, self.rank_bound@),
        {
            let ghost before = work@;
            let s = work.pop().unwrap();
            proof {
                assert(before.drop_last() =~= work@);
                assert(before.last() == s);
                assert(self.live(before[before.len() - 1] as int));
                assert(self.under(before[before.len() - 1] as int, start as int));
                assert(self.live(s as int));
                assert(self.node_ok(s as int));
            }
            match self.nodes[s] {
                Some(Node::Structure(st)) => {
                    let ghost pre = *self;
                    let (a, b) = halves(self.geoms[s], st.split);
                    proof {
                        assert(self.live(st.left as int));
                        assert(self.live(st.right as int));
                        assert(self.node_ok(st.left as int));
                        assert(self.node_ok(st.right as int));
                        lemma_descends_rank(self.nodes@, self.rank@, s as int, start as int);
                        assert(self.under(st.left as int, start as int));
                        assert(self.under(st.right as int, start as int));
                        if was_wf {
                            assert(old(self).live(s as int));
                            assert(old(self).consistent(s as int));
                            assert(self.consistent(s as int));
                        }
                    }
                    self.geoms.set(st.left, a);
                    self.geoms.set(st.right, b);
                    let ghost mid = work@;
                    let left_split = match self.nodes[st.left] {
                        Some(Node::Structure(_)) => true,
                        _ => false,
                    };
                    let right_split = match self.nodes[st.right] {
                        Some(Node::Structure(_)) => true,
                        _ => false,
                    };
                    if left_split {
                        work.push(st.left);
                    }
                    if right_split {
                        work.push(st.right);
                    }
                    proof {
                        if left_split {
                            assert(work@[mid.len() as int] == st.left);
                        }
                        if right_split {
                            assert(work@[work@.len() - 1] == st.right);
                        }
                        let bound = self.rank_bound@;
                        let ks = (bound - self.rank@[s as int]) as nat;
                        assert(ks >= 1);
                        lemma_weight_mono(
                            (bound - self.rank@[st.left as int]) as nat,
                            (ks - 1) as nat,
                        );
                        lemma_weight_mono(
                            (bound - self.rank@[st.right as int]) as nat,
                            (ks - 1) as nat,
                        );
                        if left_split {
                            lemma_total_push(mid, self.rank@, bound, st.left);
                        }
                        if right_split {
                            if left_split {
                                lemma_total_push(mid.push(st.left), self.rank@, bound, st.right);
                            } else {
                                lemma_total_push(mid, self.rank@, bound, st.right);
                            }
                        }
                        Self::lemma_step(pre, *self, s as int);
                        assert forall|i: int|
                            self.live(i) && !work@.contains(i as usize) implies #[trigger] self.consistent(
                            i,
                        ) by {
                            if i == s as int {
                            } else if i == st.left as int {
                                assert(work@.contains(st.left) || !left_split);
                            } else if i == st.right as int {
                                assert(work@.contains(st.right) || !right_split);
                            } else {
                                assert(pre.consistent(i)) by {
                                    if before.contains(i as usize) {
                                        let j = choose|j: int|
                                            0 <= j < before.len() && before[j] == i as usize;
                                        if j < mid.len() {
                                            assert(work@[j] == i as usize);
                                        }
                                    }
                                }
                            }
                        }
                        assert forall|j: int|
                            0 <= j < work@.len() implies self.live(
                            #[trigger] work@[j] as int,
                        ) && self.under(work@[j] as int, start as int) by {
                            if j < mid.len() {
                                assert(work@[j] == mid[j]);
                            }
                        }
                        assert(pre.node_ok(s as int));
                        assert(pre.node_ok(st.left as int));
                        assert(pre.node_ok(st.right as int));
                        lemma_descends_rank(pre.nodes@, pre.rank@, s as int, start as int);
                        assert(start != st.left && start != st.right);
                        assert(pre.geoms@[start as int] == g0[start as int]);
                        assert(old(self).live(start as int));
                        assert(0 <= start < pre.geoms@.len());
                        assert(self.geoms@ == pre.geoms@.update(st.left as int, a).update(
                            st.right as int,
                            b,
                        ));
                        assert(self.geoms@[start as int] == g0[start as int]);
                        assert forall|i: int|
                            #[trigger] self.live(i) && !self.under(i, start as int) implies self.geoms@[i]
                                == g0[i] by {
                            assert(pre.live(i));
                        }
                        if was_wf {
                            assert(self.geoms@ =~= g0);
                        }
                    }
                },
                _ => {
                    proof {
                        lemma_weight_mono(0, (self.rank_bound@ - self.rank@[s as int]) as nat);
                        assert forall|i: int|
                            self.live(i) && !work@.contains(i as usize) implies #[trigger] self.consistent(
                            i,
                        ) by {
                            if i != s as int {
                                if before.contains(i as usize) {
                                    let j = choose|j: int|
                                        0 <= j < before.len() && before[j] == i as usize;
                                    assert(work@[j] == i as usize);
                                }
                            }
                        }
                        assert forall|j: int|
                            0 <= j < work@.len() implies self.live(
                            #[trigger] work@[j] as int,
                        ) && self.under(work@[j] as int, start as int) by {
                            assert(work@[j] == before[j]);
                        }
                    }
                },
            }
        }
        proof {
            assert forall|i: int| self.live(i) implies #[trigger] self.consistent(i) by {
                assert(!work@.contains(i as usize));
            }
        }
    }

    /// What `split` promises: the target tile keeps the first half of its
    /// rectangle, the new window takes the second, and a new structure with
    /// the target's axis stands in the target's former place.
    pub open spec fn split_post(
        pre: TilingState,
        post: TilingState,
        window: u64,
        new_window: u64,
        r: Result<usize, TilingError>,
    ) -> bool {
        &&& !pre.index().contains_key(window) ==> r == Err::<usize, TilingError>(
            TilingError::WindowNotFound,
        ) && post == pre
        &&& pre.index().contains_key(window) ==> ({
            let l = pre.index()[window] as int;
            let g = pre.layout()[window];
            let axis = pre.axes()[window];
            let s = r->Ok_0 as int;
            &&& r is Ok
            &&& post.layout() == pre.layout().insert(
                window,
                first_half(g, axis),
            ).insert(new_window, second_half(g, axis))
            &&& post.axes() == pre.axes().insert(new_window, axis)
            &&& post.index().dom() == pre.index().dom().insert(new_window)
            &&& post.tree().len() == pre.tree().len() + 2
            &&& forall|i: int| pre.live(i) && i != l ==> #[trigger] post.geom(i) == pre.geom(i)
            &&& post.index()[window] == l
            &&& post.is_structure(s)
            &&& post.geom(s) == g
            &&& post.node(s) == Node::Structure(
                Structure {
                    container: pre.node(l).container_of(),
                    side: pre.node(l).side_of(),
                    split: axis,
                    left: l as usize,
                    right: post.index()[new_window],
                },
            )
            &&& post.root() == if pre.root() == Some(l as usize) {
                Some(s as usize)
            } else {
                pre.root()
            }
            &&& post.node(l) == pre.node(l).moved(Some(s as usize), Side::Left)
            &&& post.node(post.index()[new_window] as int) == Node::Tile(
                Tile {
                    next_split: axis,
                    container: Some(s as usize),
                    side: Side::Right,
                    window: new_window,
                },
            )
            &&& pre.node(l).container_of() is Some ==> {
                let p = pre.node(l).container_of()->Some_0 as int;
                post.node(p) == repoint(pre.node(p), pre.node(l).side_of(), s as usize)
            }
            &&& forall|i: int|
                #![trigger post.node(i)]
                pre.live(i) && i != l && Some(i as usize) != pre.node(l).container_of()
                    ==> post.live(i) && post.node(i) == pre.node(i)
        })
    }

    /// Splits the tile of `window` along its preferred axis: the tile keeps
    /// the first half, a new tile for `new_window` takes the second half and
    /// inherits the axis, and a new split takes the old tile's place.
    /// Returns the new split.
    pub fn split(&mut self, window: u64, new_window: u64) -> (r: Result<usize, TilingError>)
        requires
            old(self).wf(),
            !old(self).index().contains_key(new_window),
            old(self).tree().len() + 2 <= usize::MAX,
        ensures
            final(self).wf(),
            Self::split_post(*old(self), *final(self), window, new_window, r),
    {
        let l = match self.tile_info.get(&window) {
            Some(l) => *l,
            None => return Err(TilingError::WindowNotFound),
        };
        proof {
            assert(self.is_tile(l as int));
            assert(self.node_ok(l as int));
        }
        let tile = match self.nodes[l] {
            Some(Node::Tile(t)) => t,
            _ => return Err(TilingError::WindowNotFound),
        };
        let ghost pre = *self;
        let g = self.geoms[l];
        let (a, b) = halves(g, tile.next_split);
        let s = self.nodes.len();
        let n = s + 1;
        let structure = Structure {
            container: tile.container,
            side: tile.side,
            split: tile.next_split,
            left: l,
            right: n,
        };
        self.nodes.push(Some(Node::Structure(structure)));
        self.geoms.push(g);
        self.nodes.push(
            Some(
                Node::Tile(
                    Tile {
                        next_split: tile.next_split,
                        container: Some(s),
                        side: Side::Right,
                        window: new_window,
                    },
                ),
            ),
        );
        self.geoms.push(b);
        self.nodes.set(l, Some(Node::Tile(Tile { container: Some(s), side: Side::Left, ..tile })));
        self.geoms.set(l, a);
        match tile.container {
            Some(p) => {
                proof {
                    assert(pre.node_ok(p as int));
                }
                let parent = match self.nodes[p] {
                    Some(Node::Structure(ps)) => ps,
                    _ => return Err(TilingError::WindowNotFound),
                };
                let repointed = if tile.side == Side::Left {
                    Structure { left: s, ..parent }
                } else {
                    Structure { right: s, ..parent }
                };
                self.nodes.set(p, Some(Node::Structure(repointed)));
            },
            None => {
                self.tile_tree_head = Some(s);
            },
        }
        self.tile_info.insert(new_window, n);
        let ghost rl = pre.rank@[l as int];
        proof {
            self.rank@ = pre.rank@.insert(s as int, rl).insert(l as int, rl + 1).insert(
                n as int,
                rl + 1,
            );
            if self.rank_bound@ < rl + 1 {
                self.rank_bound@ = rl + 1;
            }
            Self::lemma_split_shape(pre, *self, l as int, s as int, n as int, new_window);
            assert(self.layout() =~= pre.layout().insert(window, first_half(g, tile.next_split)).insert(
                new_window,
                second_half(g, tile.next_split),
            ));
            assert(self.axes() =~= pre.axes().insert(new_window, tile.next_split));
            assert(self.index().dom() =~= pre.index().dom().insert(new_window));
        }
        Ok(s)
    }

    /// What `destroy` promises: the window leaves the index; the last tile
    /// leaves an empty tree; otherwise its sibling takes its container's
    /// rectangle and place, and only the sibling's subtree is laid out anew.
    pub open spec fn destroy_post(
        pre: TilingState,
        post: TilingState,
        window: u64,
        r: Result<Option<usize>, TilingError>,
    ) -> bool {
        &&& !pre.index().contains_key(window) ==> r == Err::<Option<usize>, TilingError>(
            TilingError::WindowNotFound,
        ) && post == pre
        &&& pre.index().contains_key(window) ==> ({
            let l = pre.index()[window] as int;
            &&& r is Ok
            &&& pre.node(l).container_of() is None ==> {
                &&& r->Ok_0 is None
                &&& post.root() is None
                &&& post.index().is_empty()
                &&& post.index() == pre.index().remove(window)
                &&& post.tree().len() == 0
            }
            &&& pre.node(l).container_of() is Some ==> {
                let p = pre.node(l).container_of()->Some_0 as int;
                let ps = pre.node(p)->Structure_0;
                let sib = if pre.node(l).side_of() == Side::Left {
                    ps.right
                } else {
                    ps.left
                };
                &&& r->Ok_0 == Some(sib)
                &&& post.tree().len() == pre.tree().len()
                &&& post.index() == pre.index().remove(window)
                &&& post.axes() == pre.axes().remove(window)
                &&& post.live(sib as int)
                &&& post.geom(sib as int) == pre.geom(p)
                &&& post.node(sib as int) == pre.node(sib as int).moved(
                    ps.container,
                    ps.side,
                )
                &&& post.root() == if pre.root() == Some(p as usize) {
                    Some(sib)
                } else {
                    pre.root()
                }
                &&& forall|w: u64|
                    #![trigger post.layout()[w]]
                    post.index().contains_key(w) && !post.under(
                        post.index()[w] as int,
                        sib as int,
                    ) ==> post.layout()[w] == pre.layout()[w]
                &&& forall|i: int|
                    post.live(i) && i != sib && !post.under(i, sib as int) ==> #[trigger] post.geom(
                        i,
                    ) == pre.geom(i)
                &&& !post.live(l) && !post.live(p)
                &&& pre.node(sib as int) is Tile ==> post.layout() == pre.layout().remove(
                    window,
                ).insert(pre.node(sib as int)->Tile_0.window, pre.geom(p))
                &&& ps.container is Some ==> post.node(ps.container->Some_0 as int)
                    == repoint(pre.node(ps.container->Some_0 as int), ps.side, sib)
                &&& forall|i: int|
                    #![trigger post.node(i)]
                    pre.live(i) && i != l && i != p && i != sib && Some(i as usize)
                        != ps.container ==> post.live(i) && post.node(i) == pre.node(i)
            }
        })
    }

    /// Removes the tile of `window`. Its sibling takes over its container's
    /// rectangle and place, and the subtree of the sibling is laid out
    /// again. Returns the sibling, or `None` when the tree became empty.
    pub fn destroy(&mut self, window: u64) -> (r: Result<Option<usize>, TilingError>)
        requires
            old(self).wf(),
        ensures
            final(self).wf(),
            Self::destroy_post(*old(self), *final(self), window, r),
    {
        let l = match self.tile_info.get(&window) {
            Some(l) => *l,
            None => return Err(TilingError::WindowNotFound),
        };
        proof {
            assert(self.is_tile(l as int));
            assert(self.node_ok(l as int));
        }
        let tile = match self.nodes[l] {
            Some(Node::Tile(t)) => t,
            _ => return Err(TilingError::WindowNotFound),
        };
        let p = match tile.container {
            Some(p) => p,
            None => {
                proof {
                    assert(self.tile_tree_head == Some(l));
                    assert forall|w: u64| #[trigger] self.tile_info@.contains_key(w) implies w
                        == window by {
                        let i = self.tile_info@[w] as int;
                        assert(self.node_ok(i));
                        self.lemma_under_root(i);
                        if i != l as int {
                            self.lemma_under_child(i, l as int);
                        }
                    }
                    assert(self.tile_info@.remove(window) =~= Map::empty());
                }
                self.nodes = Vec::new();
                self.geoms = Vec::new();
                self.tile_tree_head = None;
                self.tile_info = HashMap::new();
                proof {
                    self.rank@ = Map::empty();
                    self.rank_bound@ = 0;
                    assert(self.index() =~= Map::empty());
                }
                return Ok(None);
            },
        };
        proof {
            assert(self.node_ok(p as int));
        }
        let ghost pre = *self;
        let ps = match self.nodes[p] {
            Some(Node::Structure(ps)) => ps,
            _ => return Err(TilingError::WindowNotFound),
        };
        let sib = if tile.side == Side::Left {
            ps.right
        } else {
            ps.left
        };
        proof {
            assert(self.live(sib as int));
        }
        let sib_node = match self.nodes[sib] {
            Some(n) => n,
            None => return Err(TilingError::WindowNotFound),
        };
        let pg = self.geoms[p];
        self.nodes.set(sib, Some(sib_node.with_place(ps.container, ps.side)));
        self.geoms.set(sib, pg);
        match ps.container {
            Some(g) => {
                proof {
                    assert(pre.node_ok(g as int));
                }
                let gs = match self.nodes[g] {
                    Some(Node::Structure(gs)) => gs,
                    _ => return Err(TilingError::WindowNotFound),
                };
                let repointed = if ps.side == Side::Left {
                    Structure { left: sib, ..gs }
                } else {
                    Structure { right: sib, ..gs }
                };
                self.nodes.set(g, Some(Node::Structure(repointed)));
            },
            None => {
                self.tile_tree_head = Some(sib);
            },
        }
        self.nodes.set(l, None);
        self.nodes.set(p, None);
        self.tile_info.remove(&window);
        let ghost mid = *self;
        proof {
            Self::lemma_destroy_nodes(pre, mid, l as int, p as int, sib as int);
            Self::lemma_destroy_rest(pre, mid, l as int, p as int, sib as int);
            assert(mid.shape_ok());
        }
        let promoted_split = match sib_node {
            Node::Structure(_) => true,
            Node::Tile(_) => false,
        };
        if promoted_split {
            self.relayout(sib);
        } else {
            proof {
                assert forall|i: int| self.live(i) implies #[trigger] self.consistent(i) by {}
            }
        }
        proof {
            assert(self.index() =~= pre.index().remove(window));
            assert(self.axes() =~= pre.axes().remove(window)) by {
                assert forall|w: u64| #[trigger] self.index().contains_key(w) implies self.axes()[w]
                    == pre.axes()[w] by {
                    let i = self.index()[w] as int;
                    assert(pre.node_ok(i));
                }
            }
            assert forall|w: u64|
                #![trigger self.layout()[w]]
                self.index().contains_key(w) && !self.under(self.index()[w] as int, sib as int)
                    implies self.layout()[w] == pre.layout()[w] by {
                let i = self.index()[w] as int;
                assert(mid.live(i));
            }
            assert forall|i: int|
                self.live(i) && i != sib && !self.under(i, sib as int) implies #[trigger] self.geom(
                i,
            ) == pre.geom(i) by {
                assert(mid.live(i));
            }
            if !promoted_split {
                let ws = pre.node(sib as int)->Tile_0.window;
                assert(pre.node_ok(sib as int));
                assert forall|w: u64| #[trigger] self.layout().contains_key(w) && w != ws implies !self.under(
                    self.index()[w] as int,
                    sib as int,
                ) by {
                    let i = self.index()[w] as int;
                    assert(self.node_ok(i));
                    if self.under(i, sib as int) {
                        self.lemma_under_child(i, sib as int);
                    }
                }
                assert(self.layout() =~= pre.layout().remove(window).insert(ws, pre.geom(p as int)));
            }
        }
        Ok(Some(sib))
    }

    /// Sets the rectangle of `node` to `new_geometry` when one is given, then
    /// divides it down the whole subtree. Only the root may be given a new
    /// rectangle, so that its container's division stays exact.
    pub fn update_geometry_node(&mut self, node: usize, new_geometry: Option<Rect>) -> (r: Result<
        (),
        TilingError,
    >)
        requires
            old(self).wf(),
            new_geometry is Some ==> new_geometry->Some_0.valid(),
            new_geometry is Some && old(self).live(node as int) ==> old(self).root() == Some(node),
        ensures
            final(self).wf(),
            Self::update_post(*old(self), *final(self), node as int, new_geometry, r),
    {
        if node >= self.nodes.len() || self.nodes[node].is_none() {
            return Err(TilingError::NotAttached);
        }
        let ghost pre = *self;
        match new_geometry {
            Some(g) => {
                self.geoms.set(node, g);
                proof {
                    assert(pre.node_ok(node as int));
                    assert forall|i: int| self.live(i) implies #[trigger] self.node_ok(i) by {
                        assert(pre.node_ok(i));
                    }
                    assert forall|w: u64| #[trigger] self.tile_info@.contains_key(w) implies ({
                        let i = self.tile_info@[w] as int;
                        self.is_tile(i) && self.node(i)->Tile_0.window == w
                    }) by {}
                    assert forall|i: int|
                        self.live(i) && i != node implies #[trigger] self.consistent(i) by {
                        assert(pre.node_ok(i));
                        assert(pre.consistent(i));
                        if pre.node(i) is Structure {
                            let st = pre.node(i)->Structure_0;
                            assert(pre.node_ok(st.left as int));
                            assert(pre.node_ok(st.right as int));
                        }
                    }
                }
            },
            None => {},
        }
        let ghost mid = *self;
        self.relayout(node);
        proof {
            assert forall|i: int| #[trigger]
                self.live(i) && !self.under(i, node as int) implies self.geom(i) == pre.geom(i) by {
                assert(mid.live(i));
            }
            if new_geometry is None {
                assert forall|i: int| #[trigger] self.live(i) implies self.geom(i) == pre.geom(i) by {}
            }
        }
        Ok(())
    }

    /// What `update_geometry_node` promises: a node out of the tree is an
    /// error; otherwise only rectangles change, those outside the subtree of
    /// `node` stay, `node` gets the new rectangle if one is given, and with
    /// none given nothing changes at all.
    pub open spec fn update_post(
        pre: TilingState,
        post: TilingState,
        node: int,
        new_geometry: Option<Rect>,
        r: Result<(), TilingError>,
    ) -> bool {
        &&& !pre.live(node) ==> r == Err::<(), TilingError>(TilingError::NotAttached) && post == pre
        &&& pre.live(node) ==> {
            &&& r is Ok
            &&& post.tree() == pre.tree()
            &&& forall|i: int| #[trigger] post.live(i) == pre.live(i)
            &&& forall|i: int| pre.live(i) ==> #[trigger] post.node(i) == pre.node(i)
            &&& post.index() == pre.index()
            &&& post.root() == pre.root()
            &&& post.ranks() == pre.ranks()
            &&& post.geom(node) == match new_geometry {
                Some(g) => g,
                None => pre.geom(node),
            }
            &&& forall|i: int| #[trigger]
                post.live(i) && !post.under(i, node) ==> post.geom(i) == pre.geom(i)
            &&& new_geometry is None ==> forall|i: int| #[trigger]
                post.live(i) ==> post.geom(i) == pre.geom(i)
        }
    }

    /// Sets the axis along which the tile of `window` is split next; no
    /// rectangle and no link changes.
    pub fn set_split(&mut self, window: u64, new_split: Split) -> (r: Result<(), TilingError>)
        requires
            old(self).wf(),
        ensures
            final(self).wf(),
            !old(self).index().contains_key(window) ==> r == Err::<(), TilingError>(
                TilingError::WindowNotFound,
            ) && *final(self) == *old(self),
            old(self).index().contains_key(window) ==> {
                &&& r is Ok
                &&& final(self).axes() == old(self).axes().insert(window, new_split)
                &&& final(self).layout() == old(self).layout()
                &&& final(self).index() == old(self).index()
                &&& final(self).root() == old(self).root()
                &&& final(self).tree().len() == old(self).tree().len()
                &&& forall|i: int| #[trigger] final(self).live(i) == old(self).live(i)
                &&& forall|i: int| #[trigger] final(self).geom(i) == old(self).geom(i)
                &&& forall|i: int|
                    #![trigger final(self).node(i)]
                    old(self).live(i) && i != old(self).index()[window] ==> final(self).node(i)
                        == old(self).node(i)
                &&& final(self).node(old(self).index()[window] as int) == Node::Tile(
                    Tile {
                        next_split: new_split,
                        ..old(self).node(old(self).index()[window] as int)->Tile_0
                    },
                )
            },
    {
        let l = match self.tile_info.get(&window) {
            Some(l) => *l,
            None => return Err(TilingError::WindowNotFound),
        };
        proof {
            assert(self.is_tile(l as int));
            assert(self.node_ok(l as int));
        }
        let tile = match self.nodes[l] {
            Some(Node::Tile(t)) => t,
            _ => return Err(TilingError::WindowNotFound),
        };
        let ghost pre = *self;
        self.nodes.set(l, Some(Node::Tile(Tile { next_split: new_split, ..tile })));
        proof {
            assert forall|i: int| self.live(i) implies #[trigger] self.node_ok(i) by {
                assert(pre.node_ok(i));
                if let Some(q) = pre.node(i).container_of() {
                    assert(pre.node_ok(q as int));
                }
            }
            assert forall|w: u64| #[trigger] self.tile_info@.contains_key(w) implies ({
                let i = self.tile_info@[w] as int;
                self.is_tile(i) && self.node(i)->Tile_0.window == w
            }) by {}
            assert forall|i: int| self.live(i) implies #[trigger] self.consistent(i) by {
                assert(pre.node_ok(i));
                assert(pre.consistent(i));
            }
            if let Some(r) = pre.tile_tree_head {
                assert(pre.node_ok(r as int));
            }
            assert(self.axes() =~= pre.axes().insert(window, new_split));
            assert(self.layout() =~= pre.layout());
            assert(pre.node(l as int) == Node::Tile(tile));
            assert forall|i: int| pre.live(i) && i != l implies #[trigger] self.node(i) == pre.node(
                i,
            ) by {}
            assert forall|i: int| #[trigger] self.live(i) == pre.live(i) by {}
        }
        Ok(())
    }

    /// Sets the axis along which the tile of `window` is split next.
    pub fn change_split(&mut self, window: u64, new_split: Split) -> (r: Result<(), TilingError>)
        requires
            old(self).wf(),
        ensures
            final(self).wf(),
            !old(self).index().contains_key(window) ==> r == Err::<(), TilingError>(
                TilingError::WindowNotFound,
            ) && *final(self) == *old(self),
            old(self).index().contains_key(window) ==> {
                &&& r is Ok
                &&& final(self).axes() == old(self).axes().insert(window, new_split)
                &&& final(self).layout() == old(self).layout()
                &&& final(self).index() == old(self).index()
                &&& final(self).root() == old(self).root()
                &&& final(self).tree().len() == old(self).tree().len()
                &&& forall|i: int| #[trigger] final(self).live(i) == old(self).live(i)
                &&& forall|i: int| #[trigger] final(self).geom(i) == old(self).geom(i)
                &&& forall|i: int|
                    #![trigger final(self).node(i)]
                    old(self).live(i) && i != old(self).index()[window] ==> final(self).node(i)
                        == old(self).node(i)
                &&& final(self).node(old(self).index()[window] as int) == Node::Tile(
                    Tile {
                        next_split: new_split,
                        ..old(self).node(old(self).index()[window] as int)->Tile_0
                    },
                )
            },
    {
        self.set_split(window, new_split)
    }

    /// Each window in the subtree of `node`, with its rectangle: what the
    /// windowing side applies after a change.
    pub fn collect_assignments(&self, node: usize) -> (r: Result<Vec<(u64, Rect)>, TilingError>)
        requires
            self.wf(),
        ensures
            !self.live(node as int) ==> r == Err::<Vec<(u64, Rect)>, TilingError>(
                TilingError::NotAttached,
            ),
            self.live(node as int) ==> r is Ok && self.assigns(node as int, r->Ok_0@),
    {
        if node >= self.nodes.len() || self.nodes[node].is_none() {
            return Err(TilingError::NotAttached);
        }
        let mut out: Vec<(u64, Rect)> = Vec::new();
        let mut work: Vec<usize> = Vec::new();
        work.push(node);
        proof {
            assert(work@[0] == node);
        }
        while work.len() > 0
            invariant
                self.wf(),
                self.live(node as int),
                forall|j: int|
                    0 <= j < work@.len() ==> self.live(#[trigger] work@[j] as int) && self.under(
                        work@[j] as int,
                        node as int,
                    ),
                forall|k: int|
                    0 <= k < out@.len() ==> {
                        let (w, g) = #[trigger] out@[k];
                        &&& self.index().contains_key(w)
                        &&& self.under(self.index()[w] as int, node as int)
                        &&& g == self.layout()[w]
                    },
                forall|w: u64|
                    #![trigger self.index()[w]]
                    self.index().contains_key(w) && self.under(self.index()[w] as int, node as int)
                        ==> (exists|k: int| 0 <= k < out@.len() && (#[trigger] out@[k]).0 == w)
                        || (exists|j: int|
                        0 <= j < work@.len() && self.under(
                            self.index()[w] as int,
                            #[trigger] work@[j] as int,
                        )),
                forall|k1: int, k2: int|
                    0 <= k1 < k2 < out@.len() ==> (#[trigger] out@[k1]).0 != (#[trigger] out@[k2]).0,
                forall|k: int, j: int|
                    0 <= k < out@.len() && 0 <= j < work@.len() ==> !self.under(
                        self.index()[(#[trigger] out@[k]).0] as int,
                        #[trigger] work@[j] as int,
                    ),
                forall|i: int, j1: int, j2: int|
                    #![trigger self.under(i, work@[j1] as int), self.under(i, work@[j2] as int)]
                    0 <= j1 < work@.len() && 0 <= j2 < work@.len() && j1 != j2 ==> !(self.under(
                        i,
                        work@[j1] as int,
                    ) && self.under(i, work@[j2] as int)),
            decreases total(work@, self.rank@, self.rank_bound@),
        {
            let ghost before = work@;
            let ghost out0 = out@;
            let x = work.pop().unwrap();
            proof {
                assert(before.drop_last() =~= work@);
                assert(before.last() == x);
                assert(self.live(before[before.len() - 1] as int));
                assert(self.under(before[before.len() - 1] as int, node as int));
                assert(self.node_ok(x as int));
                lemma_weight_mono(0, (self.rank_bound@ - self.rank@[x as int]) as nat);
            }
            match self.nodes[x] {
                Some(Node::Tile(t)) => {
                    out.push((t.window, self.geoms[x]));
                    proof {
                        assert forall|k: int| 0 <= k < out@.len() implies {
                            let (w, g) = #[trigger] out@[k];
                            &&& self.index().contains_key(w)
                            &&& self.under(self.index()[w] as int, node as int)
                            &&& g == self.layout()[w]
                        } by {
                            if k < out0.len() {
                                assert(out@[k] == out0[k]);
                            }
                        }
                        assert forall|j: int|
                            0 <= j < work@.len() implies self.live(#[trigger] work@[j] as int)
                            && self.under(work@[j] as int, node as int) by {
                            assert(work@[j] == before[j]);
                        }
                        assert forall|k: int, j: int|
                            0 <= k < out@.len() && 0 <= j < work@.len() implies !self.under(
                            self.index()[(#[trigger] out@[k]).0] as int,
                            #[trigger] work@[j] as int,
                        ) by {
                            assert(work@[j] == before[j]);
                            if k < out0.len() {
                                assert(out@[k] == out0[k]);
                            } else {
                                assert(self.node_ok(x as int));
                                assert(self.under(x as int, before[before.len() - 1] as int));
                            }
                        }
                        assert forall|i: int, j1: int, j2: int|
                            #![trigger self.under(i, work@[j1] as int), self.under(i, work@[j2] as int)]
                            0 <= j1 < work@.len() && 0 <= j2 < work@.len() && j1 != j2 implies !(
                            self.under(i, work@[j1] as int) && self.under(i, work@[j2] as int)) by {
                            assert(work@[j1] == before[j1]);
                            assert(work@[j2] == before[j2]);
                        }
                        assert forall|k1: int, k2: int|
                            0 <= k1 < k2 < out@.len() implies (#[trigger] out@[k1]).0 != (
                            #[trigger] out@[k2]).0 by {
                            assert(out@[k1] == out0[k1]);
                            if k2 < out0.len() {
                                assert(out@[k2] == out0[k2]);
                            } else {
                                assert(self.node_ok(x as int));
                                let w1 = out0[k1].0;
                                assert(!self.under(
                                    self.index()[w1] as int,
                                    before[before.len() - 1] as int,
                                ));
                            }
                        }
                        assert forall|w: u64|
                            #![trigger self.index()[w]]
                            self.index().contains_key(w) && self.under(
                                self.index()[w] as int,
                                node as int,
                            ) implies (exists|k: int|
                            0 <= k < out@.len() && (#[trigger] out@[k]).0 == w) || (exists|j: int|
                            0 <= j < work@.len() && self.under(
                                self.index()[w] as int,
                                #[trigger] work@[j] as int,
                            )) by {
                            let i = self.index()[w] as int;
                            if exists|k: int| 0 <= k < out0.len() && (#[trigger] out0[k]).0 == w {
                                let k = choose|k: int| 0 <= k < out0.len() && (#[trigger] out0[k]).0 == w;
                                assert(out@[k] == out0[k]);
                            } else {
                                let j = choose|j: int|
                                    0 <= j < before.len() && self.under(i, #[trigger] before[j] as int);
                                if j < work@.len() {
                                    assert(work@[j] == before[j]);
                                } else {
                                    if i != x as int {
                                        self.lemma_under_child(i, x as int);
                                    }
                                    assert(self.node_ok(i));
                                    assert(out@[out@.len() - 1].0 == w);
                                }
                            }
                        }
                    }
                },
                Some(Node::Structure(st)) => {
                    work.push(st.left);
                    work.push(st.right);
                    proof {
                        let bound = self.rank_bound@;
                        let ks = (bound - self.rank@[x as int]) as nat;
                        assert(self.node_ok(st.left as int));
                        assert(self.node_ok(st.right as int));
                        lemma_weight_mono((bound - self.rank@[st.left as int]) as nat, (ks - 1) as nat);
                        lemma_weight_mono((bound - self.rank@[st.right as int]) as nat, (ks - 1) as nat);
                        lemma_total_push(before.drop_last(), self.rank@, bound, st.left);
                        lemma_total_push(before.drop_last().push(st.left), self.rank@, bound, st.right);
                        assert(work@ == before.drop_last().push(st.left).push(st.right));
                        assert(self.under(st.left as int, node as int));
                        assert(self.under(st.right as int, node as int));
                        let last = before.len() - 1;
                        assert(before[last] == x);
                        assert(self.under(x as int, x as int));
                        assert(self.under(st.left as int, x as int));
                        assert(self.under(st.right as int, x as int));
                        assert(work@[last] == st.left);
                        assert(work@[last + 1] == st.right);
                        assert forall|k: int, j: int|
                            0 <= k < out@.len() && 0 <= j < work@.len() implies !self.under(
                            self.index()[(#[trigger] out@[k]).0] as int,
                            #[trigger] work@[j] as int,
                        ) by {
                            let t = self.index()[out@[k].0] as int;
                            if j < last {
                                assert(work@[j] == before[j]);
                            } else {
                                assert(!self.under(t, before[last] as int));
                                if self.under(t, work@[j] as int) {
                                    self.lemma_under_trans(t, work@[j] as int, x as int);
                                }
                            }
                        }
                        assert forall|i: int, j1: int, j2: int|
                            #![trigger self.under(i, work@[j1] as int), self.under(i, work@[j2] as int)]
                            0 <= j1 < work@.len() && 0 <= j2 < work@.len() && j1 != j2 implies !(
                            self.under(i, work@[j1] as int) && self.under(i, work@[j2] as int)) by {
                            if self.under(i, work@[j1] as int) && self.under(i, work@[j2] as int) {
                                if j1 < last && j2 < last {
                                    assert(work@[j1] == before[j1]);
                                    assert(work@[j2] == before[j2]);
                                } else if j1 < last {
                                    assert(work@[j1] == before[j1]);
                                    self.lemma_under_trans(i, work@[j2] as int, x as int);
                                    assert(self.under(i, before[last] as int));
                                } else if j2 < last {
                                    assert(work@[j2] == before[j2]);
                                    self.lemma_under_trans(i, work@[j1] as int, x as int);
                                    assert(self.under(i, before[last] as int));
                                } else {
                                    self.lemma_children_disjoint(x as int, i);
                                }
                            }
                        }
                        assert forall|j: int|
                            0 <= j < work@.len() implies self.live(#[trigger] work@[j] as int)
                            && self.under(work@[j] as int, node as int) by {
                            if j < before.len() - 1 {
                                assert(work@[j] == before[j]);
                            }
                        }
                        assert forall|w: u64|
                            #![trigger self.index()[w]]
                            self.index().contains_key(w) && self.under(
                                self.index()[w] as int,
                                node as int,
                            ) implies (exists|k: int|
                            0 <= k < out@.len() && (#[trigger] out@[k]).0 == w) || (exists|j: int|
                            0 <= j < work@.len() && self.under(
                                self.index()[w] as int,
                                #[trigger] work@[j] as int,
                            )) by {
                            let i = self.index()[w] as int;
                            if !(exists|k: int| 0 <= k < out@.len() && (#[trigger] out@[k]).0 == w) {
                                let j = choose|j: int|
                                    0 <= j < before.len() && self.under(i, #[trigger] before[j] as int);
                                if j < before.len() - 1 {
                                    assert(work@[j] == before[j]);
                                } else {
                                    assert(self.node_ok(i));
                                    self.lemma_under_child(i, x as int);
                                    if self.under(i, st.left as int) {
                                        assert(work@[work@.len() - 2] == st.left);
                                    } else {
                                        assert(work@[work@.len() - 1] == st.right);
                                    }
                                }
                            }
                        }
                    }
                },
                None => {},
            }
        }
        Ok(out)
    }

    /// `pairs` holds exactly the windows under `node`, each once, with its
    /// rectangle.
    pub open spec fn assigns(self, node: int, pairs: Seq<(u64, Rect)>) -> bool {
        &&& forall|k1: int, k2: int|
            0 <= k1 < k2 < pairs.len() ==> (#[trigger] pairs[k1]).0 != (#[trigger] pairs[k2]).0
        &&& forall|k: int|
            0 <= k < pairs.len() ==> {
                let (w, g) = #[trigger] pairs[k];
                &&& self.index().contains_key(w)
                &&& self.under(self.index()[w] as int, node)
                &&& g == self.layout()[w]
            }
        &&& forall|w: u64|
            #![trigger self.index()[w]]
            self.index().contains_key(w) && self.under(self.index()[w] as int, node) ==> exists|
                k: int,
            |
                0 <= k < pairs.len() && (#[trigger] pairs[k]).0 == w
    }

    /// The root's slot, if the tree is not empty.
    pub fn root_node(&self) -> (r: Option<usize>)
        ensures
            r == self.root(),
    {
        self.tile_tree_head
    }

    /// Whether `window` has a tile.
    pub fn contains(&self, window: u64) -> (r: bool)
        requires
            self.wf(),
        ensures
            r == self.index().contains_key(window),
    {
        self.tile_info.contains_key(&window)
    }

    /// The number of windows in the tree.
    pub fn window_count(&self) -> (r: usize)
        requires
            self.wf(),
        ensures
            r == self.index().len(),
    {
        self.tile_info.len()
    }

    /// The rectangle of `window`'s tile.
    pub fn geometry_of(&self, window: u64) -> (r: Option<Rect>)
        requires
            self.wf(),
        ensures
            r == if self.layout().contains_key(window) {
                Some(self.layout()[window])
            } else {
                None::<Rect>
            },
    {
        match self.tile_info.get(&window) {
            Some(l) => {
                proof {
                    assert(self.node_ok(*l as int));
                }
                Some(self.geoms[*l])
            },
            None => None,
        }
    }

    /// The axis along which `window`'s tile is split next.
    pub fn split_of(&self, window: u64) -> (r: Option<Split>)
        requires
            self.wf(),
        ensures
            r == if self.axes().contains_key(window) {
                Some(self.axes()[window])
            } else {
                None::<Split>
            },
    {
        match self.tile_info.get(&window) {
            Some(l) => {
                proof {
                    assert(self.node_ok(*l as int));
                }
                match self.nodes[*l] {
                    Some(Node::Tile(t)) => Some(t.next_split),
                    _ => None,
                }
            },
            None => None,
        }
    }

    /// The node in slot `i`, if the slot is in the tree.
    pub fn node_at(&self, i: usize) -> (r: Option<Node>)
        ensures
            r == if self.live(i as int) {
                Some(self.node(i as int))
            } else {
                None::<Node>
            },
    {
        if i < self.nodes.len() {
            self.nodes[i]
        } else {
            None
        }
    }

    /// The rectangle of the node in slot `i`, if the slot is in the tree.
    pub fn geometry_at(&self, i: usize) -> (r: Option<Rect>)
        requires
            self.wf(),
        ensures
            r == if self.live(i as int) {
                Some(self.geom(i as int))
            } else {
                None::<Rect>
            },
    {
        if i < self.nodes.len() && self.nodes[i].is_some() {
            Some(self.geoms[i])
        } else {
            None
        }
    }

    /// The number of slots in the node table, live or free.
    pub fn slot_count(&self) -> (r: usize)
        ensures
            r == self.tree().len(),
    {
        self.nodes.len()
    }

    /// An empty tree.
    pub fn init() -> (r: TilingState)
        ensures
            r.wf(),
            r.root() is None,
            r.index().is_empty(),
    {
        TilingState {
            nodes: Vec::new(),
            geoms: Vec::new(),
            tile_tree_head: None,
            tile_info: HashMap::new(),
            rank: Ghost(Map::empty()),
            rank_bound: Ghost(0),
        }
    }

    /// An empty tree.
    pub fn new() -> (r: TilingState)
        ensures
            r.wf(),
            r.root() is None,
            r.index().is_empty(),
    {
        TilingState::init()
    }

    /// What `insert_head` promises: on a tree with a root, an error and no change;
    /// on an empty tree, a single tile for `window` covering `geometry`.
    pub open spec fn insert_head_post(
        pre: TilingState,
        post: TilingState,
        window: u64,
        geometry: Rect,
        r: Result<usize, TilingError>,
    ) -> bool {
        &&& pre.root() is Some ==> r == Err::<usize, TilingError>(
            TilingError::AlreadyInitialized,
        ) && post == pre
        &&& pre.root() is None ==> {
            &&& r is Ok
            &&& post.root() == Some(r->Ok_0)
            &&& post.is_tile(r->Ok_0 as int)
            &&& post.index().dom() == set![window]
            &&& post.tree().len() == 1
            &&& post.node(r->Ok_0 as int) == Node::Tile(
                Tile { next_split: Split::Vertical, container: None, side: Side::Root, window },
            )
            &&& forall|i: int| #[trigger] post.live(i) == (i == r->Ok_0 as int)
            &&& post.layout() == map![window => geometry]
            &&& post.axes() == map![window => Split::Vertical]
        }
    }

    /// Makes `window` the single tile of an empty tree, covering `geometry`;
    /// its next split is vertical.
    pub fn insert_head(&mut self, window: u64, geometry: Rect) -> (r: Result<usize, TilingError>)
        requires
            old(self).wf(),
            geometry.valid(),
        ensures
            final(self).wf(),
            Self::insert_head_post(*old(self), *final(self), window, geometry, r),
    {
        if self.tile_tree_head.is_some() {
            return Err(TilingError::AlreadyInitialized);
        }
        let tile = Tile {
            next_split: Split::Vertical,
            container: None,
            side: Side::Root,
            window,
        };
        self.nodes = Vec::new();
        self.geoms = Vec::new();
        self.nodes.push(Some(Node::Tile(tile)));
        self.geoms.push(geometry);
        self.tile_tree_head = Some(0);
        self.tile_info = HashMap::new();
        self.tile_info.insert(window, 0);
        self.rank = Ghost(Map::empty().insert(0int, 0nat));
        self.rank_bound = Ghost(0);
        proof {
            assert(self.live(0));
            assert(self.node_ok(0));
            assert(self.layout() =~= map![window => geometry]);
            assert(self.index().dom() =~= set![window]);
            assert(self.axes() =~= map![window => Split::Vertical]);
        }
        Ok(0)
    }
}

/// Every structure of a well-formed tree divides its rectangle exactly
/// between its two children: no gap, no overlap, and any unit lost to
/// rounding goes to the second child.
pub proof fn lemma_partition_exact(t: TilingState, i: int)
    requires
        t.wf(),
        t.is_structure(i),
    ensures
        ({
            let st = t.node(i)->Structure_0;
            tiles(t.geom(i), t.geom(st.left as int), t.geom(st.right as int), st.split)
        }),
{
    assert(t.node_ok(i));
    assert(t.consistent(i));
    lemma_halves_tile(t.geom(i), t.node(i)->Structure_0.split);
}

/// The window index and the tiles agree: each indexed window names a tile
/// holding that window, and each tile is indexed under its window.
pub proof fn lemma_bijection(t: TilingState)
    requires
        t.wf(),
    ensures
        forall|w: u64| #[trigger]
            t.index().contains_key(w) ==> t.is_tile(t.index()[w] as int) && t.node(
                t.index()[w] as int,
            )->Tile_0.window == w,
        forall|i: int| #[trigger]
            t.is_tile(i) ==> t.index().contains_key(t.node(i)->Tile_0.window) && t.index()[t.node(
                i,
            )->Tile_0.window] == i,
{
    assert forall|i: int| #[trigger] t.is_tile(i) implies t.index().contains_key(
        t.node(i)->Tile_0.window,
    ) && t.index()[t.node(i)->Tile_0.window] == i by {
        assert(t.node_ok(i));
    }
}

/// Laying out a subtree again without a new rectangle twice in a row gives
/// the same rectangles both times.
pub proof fn lemma_update_idempotent(
    s0: TilingState,
    s1: TilingState,
    s2: TilingState,
    node: int,
    r1: Result<(), TilingError>,
    r2: Result<(), TilingError>,
)
    requires
        s0.wf(),
        s1.wf(),
        TilingState::update_post(s0, s1, node, None, r1),
        TilingState::update_post(s1, s2, node, None, r2),
    ensures
        s2.tree() == s1.tree(),
        s2.layout() == s1.layout(),
        forall|i: int| #[trigger] s2.live(i) ==> s2.geom(i) == s1.geom(i),
{
    if s1.live(node) {
        assert forall|w: u64| #[trigger] s2.layout().contains_key(w) implies s2.layout()[w]
            == s1.layout()[w] by {
            let i = s1.index()[w] as int;
            assert(s1.node_ok(i));
            assert(s1.live(i));
            assert(s2.live(i));
            assert(s2.geom(i) == s1.geom(i));
        }
        assert(s2.layout() =~= s1.layout());
    }
}

/// On a tree whose single tile holds `a` with rectangle `g`, splitting `a`
/// for `b` and then destroying `b` leaves a single tile for `a` with
/// rectangle `g` again.
pub proof fn lemma_split_destroy_inverse(
    s0: TilingState,
    s1: TilingState,
    s2: TilingState,
    a: u64,
    b: u64,
    g: Rect,
    r1: Result<usize, TilingError>,
    r2: Result<Option<usize>, TilingError>,
)
    requires
        s0.wf(),
        s1.wf(),
        s0.index().dom() == set![a],
        s0.root() == Some(s0.index()[a]),
        s0.layout()[a] == g,
        a != b,
        TilingState::split_post(s0, s1, a, b, r1),
        TilingState::destroy_post(s1, s2, b, r2),
    ensures
        r2 == Ok::<Option<usize>, TilingError>(Some(s0.index()[a])),
        s2.index().dom() == set![a],
        s2.index()[a] == s0.index()[a],
        s2.layout() == map![a => g],
        s2.root() == Some(s2.index()[a]),
        s2.is_tile(s2.index()[a] as int),
        s2.node(s2.index()[a] as int).container_of() is None,
        s2.node(s2.index()[a] as int).side_of() == Side::Root,
{
    let l = s0.index()[a] as int;
    assert(s0.index().contains_key(a));
    assert(s0.node_ok(l));
    let s = r1->Ok_0 as int;
    assert(s1.node_ok(s));
    assert(s1.layout().contains_key(b));
    let lb = s1.index()[b] as int;
    assert(s1.node_ok(lb));
    assert(s1.node(s)->Structure_0.left == l);
    assert(s1.node(s)->Structure_0.right == lb);
    assert(s1.node(lb).container_of() == Some(s as usize));
    assert(s1.node(lb).side_of() == Side::Right);
    assert(r2 == Ok::<Option<usize>, TilingError>(Some(l as usize)));
    assert(s2.geom(l) == g);
    assert(s2.index() =~= s1.index().remove(b));
    assert(s1.layout().dom() =~= set![a, b]);
    assert(s1.index().dom() =~= set![a, b]);
    assert(s2.index().dom() =~= set![a]);
    assert(s2.index()[a] == l);
    assert(s2.layout()[a] == g);
    assert(s2.layout() =~= map![a => g]);
    assert(s0.root() == Some(l as usize));
}

/// On an empty tree, `insert_head` makes a single tile for the window with
/// the given rectangle; a second `insert_head` then fails with
/// `AlreadyInitialized` and changes nothing.
pub proof fn lemma_root_transition(
    s0: TilingState,
    s1: TilingState,
    s2: TilingState,
    a: u64,
    g: Rect,
    x: u64,
    h: Rect,
    r1: Result<usize, TilingError>,
    r2: Result<usize, TilingError>,
)
    requires
        s0.wf(),
        s0.root() is None,
        TilingState::insert_head_post(s0, s1, a, g, r1),
        TilingState::insert_head_post(s1, s2, x, h, r2),
    ensures
        s1.layout() == map![a => g],
        s1.root() == Some(r1->Ok_0),
        s1.is_tile(r1->Ok_0 as int),
        s1.node(r1->Ok_0 as int) == Node::Tile(
            Tile { next_split: Split::Vertical, container: None, side: Side::Root, window: a },
        ),
        forall|i: int| #[trigger] s1.live(i) == (i == r1->Ok_0 as int),
        r2 == Err::<usize, TilingError>(TilingError::AlreadyInitialized),
        s2 == s1,
{
}

/// Splitting a tile keeps the root's rectangle: the area the tree covers
/// does not change.
pub proof fn lemma_split_keeps_root_rect(
    s0: TilingState,
    s1: TilingState,
    window: u64,
    new_window: u64,
    r: Result<usize, TilingError>,
)
    requires
        s0.wf(),
        s0.root() is Some,
        TilingState::split_post(s0, s1, window, new_window, r),
    ensures
        s1.root() is Some,
        s1.geom(s1.root()->Some_0 as int) == s0.geom(s0.root()->Some_0 as int),
{
    let r0 = s0.root()->Some_0 as int;
    assert(s0.live(r0));
    if s0.index().contains_key(window) {
        let l = s0.index()[window] as int;
        assert(s0.node_ok(l));
    }
}

/// Destroying a tile that is not the last keeps the root's rectangle: the
/// area the tree covers does not change.
pub proof fn lemma_destroy_keeps_root_rect(
    s0: TilingState,
    s1: TilingState,
    window: u64,
    r: Result<Option<usize>, TilingError>,
)
    requires
        s0.wf(),
        s1.wf(),
        s0.root() is Some,
        TilingState::destroy_post(s0, s1, window, r),
        s1.root() is Some,
    ensures
        s1.geom(s1.root()->Some_0 as int) == s0.geom(s0.root()->Some_0 as int),
{
    let r0 = s0.root()->Some_0 as int;
    assert(s0.live(r0));
    assert(s0.node_ok(r0));
    if s0.index().contains_key(window) {
        let l = s0.index()[window] as int;
        assert(s0.node_ok(l));
        if let Some(p) = s0.node(l).container_of() {
            assert(s0.node_ok(p as int));
            let sib = r->Ok_0->Some_0 as int;
            assert(s0.node_ok(sib));
            if s0.root() != Some(p) {
                assert(s1.live(r0));
                assert(s1.node_ok(r0));
                assert(!s1.under(r0, sib));
            }
        }
    }
}

} // verus!
