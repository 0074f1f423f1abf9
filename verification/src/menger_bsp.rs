//! Menger-style recursive space partitioning for macro structure.
//!
//! A floor plate splits into a 3x3 lattice of cells; the center cell is
//! carved out as primary circulation (the Menger "cutout"), and each ring
//! cell either recurses, growing finer corridor loops, or stays a leaf room.
//! The recursion is depth-limited, and span-limited by a test on the cell
//! that the caller supplies (whether its nine children can still hold a
//! walkable corridor), so it never produces a hall too narrow to walk.
//!
//! The partition is generic over the rectangle type: the caller supplies how
//! a rectangle splits into thirds, whether it may split, and the lattice
//! anchor (the floored minimum corner) of a cell. Everything else, the tree
//! shape, the carved center and the seeded ring-cell rolls, is decided here.
//! Structure is a function of (bounds, seed) alone, so overlapping windows
//! regenerate identical partitions.

use vstd::prelude::*;
use crate::determinism::{hash, hash_spec};

verus! {

/// Salt of the ring-cell roll; the parent's depth is mixed into it.
pub const MENGER_SALT: u64 = 0x3E9C_E11A_0000_0000;

/// A ring cell subdivides when the top 24 bits of its roll, read as a
/// fraction of 2^24, fall below 0.65 in single precision: 10_905_190 / 2^24.
pub const SUBDIVIDE_THRESHOLD: u64 = 10_905_190;

/// One node of the partition tree. Leaves are rooms or corridor segments;
/// internal nodes carry their nine children in row-major (x, z) order.
#[derive(Debug)]
pub struct MengerNode<B> {
    pub bounds: B,
    pub depth: u32,
    pub is_corridor: bool,
    pub children: Vec<MengerNode<B>>,
}

/// The roll of a ring cell anchored at `(anchor_x, anchor_z)`, whose parent
/// stands at `parent_depth`, lets the cell subdivide.
pub open spec fn ring_cell_subdivides(seed: u32, parent_depth: int, anchor_x: i64, anchor_z: i64) -> bool {
    (hash_spec(seed, MENGER_SALT ^ (parent_depth as u64), anchor_x, anchor_z) >> 40u64) < SUBDIVIDE_THRESHOLD
}

/// `node` is a leaf at `depth` over its own bounds, a corridor or a room.
pub open spec fn is_leaf_cell<B>(node: MengerNode<B>, depth: int, corridor: bool) -> bool {
    &&& node.depth == depth
    &&& node.is_corridor == corridor
    &&& node.children@.len() == 0
}

/// `node` is the partition grown from `bounds` at `depth`: a room that stays
/// whole when the depth limit is reached or the cell may not split, and
/// otherwise the nine thirds of the cell, the center carved as a corridor
/// and every ring cell grown further when the roll at its anchor passes, a
/// room otherwise.
pub open spec fn grown<B, S: Fn(B) -> bool, T: Fn(B) -> [B; 9], A: Fn(B) -> (i64, i64)>(
    node: MengerNode<B>,
    bounds: B,
    depth: int,
    max_depth: int,
    seed: u32,
    splittable: S,
    thirds: T,
    anchor: A,
) -> bool
    decreases max_depth - depth,
{
    &&& node.bounds == bounds
    &&& node.depth == depth
    &&& !node.is_corridor
    &&& if node.children@.len() == 0 {
        depth >= max_depth || splittable.ensures((bounds,), false)
    } else if depth < max_depth {
        &&& splittable.ensures((bounds,), true)
        &&& node.children@.len() == 9
        &&& exists|parts: [B; 9]|
            #[trigger] thirds.ensures((bounds,), parts) && forall|i: int|
                0 <= i < 9 ==> #[trigger] node.children@[i].bounds == parts@[i]
        &&& is_leaf_cell(node.children@[4], depth + 1, true)
        &&& forall|i: int|
            #![trigger node.children@[i]]
            0 <= i < 9 && i != 4 ==> ring_decided(
                node.children@[i],
                depth + 1,
                seed,
                anchor,
                grown(node.children@[i], node.children@[i].bounds, depth + 1, max_depth, seed, splittable, thirds, anchor),
            )
    } else {
        false
    }
}

/// `node` is a ring cell at `depth` whose parent stands one level up: the
/// roll at its anchor decides whether it `grows` on, or stays a room.
pub open spec fn ring_decided<B, A: Fn(B) -> (i64, i64)>(
    node: MengerNode<B>,
    depth: int,
    seed: u32,
    anchor: A,
    grows: bool,
) -> bool {
    exists|k: (i64, i64)|
        #[trigger] anchor.ensures((node.bounds,), k) && if ring_cell_subdivides(seed, depth - 1, k.0, k.1) {
            grows
        } else {
            is_leaf_cell(node, depth, false)
        }
}

/// `node` is a ring cell at `depth` of a partition grown to `max_depth`.
pub open spec fn ring_cell<B, S: Fn(B) -> bool, T: Fn(B) -> [B; 9], A: Fn(B) -> (i64, i64)>(
    node: MengerNode<B>,
    depth: int,
    max_depth: int,
    seed: u32,
    splittable: S,
    thirds: T,
    anchor: A,
) -> bool {
    ring_decided(node, depth, seed, anchor, grown(node, node.bounds, depth, max_depth, seed, splittable, thirds, anchor))
}

/// A node carved into its nine thirds, whose center is a corridor leaf and
/// whose ring cells are decided by their rolls, is grown.
proof fn lemma_grown_split<B, S: Fn(B) -> bool, T: Fn(B) -> [B; 9], A: Fn(B) -> (i64, i64)>(
    node: MengerNode<B>,
    depth: int,
    max_depth: int,
    seed: u32,
    splittable: S,
    thirds: T,
    anchor: A,
)
    requires
        !node.is_corridor,
        node.depth == depth,
        depth < max_depth,
        splittable.ensures((node.bounds,), true),
        node.children@.len() == 9,
        exists|parts: [B; 9]|
            #[trigger] thirds.ensures((node.bounds,), parts) && forall|i: int|
                0 <= i < 9 ==> #[trigger] node.children@[i].bounds == parts@[i],
        is_leaf_cell(node.children@[4], depth + 1, true),
        forall|i: int|
            0 <= i < 9 && i != 4 ==> #[trigger] ring_cell(
                node.children@[i],
                depth + 1,
                max_depth,
                seed,
                splittable,
                thirds,
                anchor,
            ),
    ensures
        grown(node, node.bounds, depth, max_depth, seed, splittable, thirds, anchor),
{
    assert forall|i: int| #![trigger node.children@[i]] 0 <= i < 9 && i != 4 implies ring_decided(
        node.children@[i],
        depth + 1,
        seed,
        anchor,
        grown(node.children@[i], node.children@[i].bounds, depth + 1, max_depth, seed, splittable, thirds, anchor),
    ) by {
        assert(ring_cell(node.children@[i], depth + 1, max_depth, seed, splittable, thirds, anchor));
    }
}

/// Every node of the subtree at `node`, depth first: the node itself, then
/// each child's subtree in order.
pub open spec fn preorder<B>(node: MengerNode<B>) -> Seq<MengerNode<B>>
    decreases node, 1int,
{
    seq![node] + preorder_all(node.children@)
}

/// The subtrees of `nodes`, depth first, one after another.
pub open spec fn preorder_all<B>(nodes: Seq<MengerNode<B>>) -> Seq<MengerNode<B>>
    decreases nodes, 0int,
{
    if nodes.len() == 0 {
        Seq::empty()
    } else {
        preorder_all(nodes.drop_last()) + preorder(nodes.last())
    }
}

/// One node of a partition as the partition rules shape it: no deeper than
/// `max_depth`, and, where it is split, split into the nine thirds of a cell
/// that `splittable` let split, one level down, the center a corridor leaf
/// and every ring cell a room or a further split.
pub open spec fn split_well<B, S: Fn(B) -> bool, T: Fn(B) -> [B; 9]>(
    node: MengerNode<B>,
    max_depth: int,
    splittable: S,
    thirds: T,
) -> bool {
    &&& node.depth <= max_depth
    &&& node.children@.len() > 0 ==> {
        &&& node.children@.len() == 9
        &&& splittable.ensures((node.bounds,), true)
        &&& exists|parts: [B; 9]|
            #[trigger] thirds.ensures((node.bounds,), parts) && forall|i: int|
                0 <= i < 9 ==> #[trigger] node.children@[i].bounds == parts@[i]
        &&& is_leaf_cell(node.children@[4], node.depth + 1, true)
        &&& forall|i: int| 0 <= i < 9 ==> #[trigger] node.children@[i].depth == node.depth + 1
        &&& forall|i: int| 0 <= i < 9 && i != 4 ==> !(#[trigger] node.children@[i]).is_corridor
    }
}

/// Every node of the subtree at `node` is split well.
spec fn sound<B, S: Fn(B) -> bool, T: Fn(B) -> [B; 9]>(
    node: MengerNode<B>,
    max_depth: int,
    splittable: S,
    thirds: T,
) -> bool
    decreases node,
{
    &&& split_well(node, max_depth, splittable, thirds)
    &&& forall|i: int|
        #![trigger node.children@[i]]
        0 <= i < node.children@.len() ==> sound(node.children@[i], max_depth, splittable, thirds)
}

proof fn lemma_grown_sound<B, S: Fn(B) -> bool, T: Fn(B) -> [B; 9], A: Fn(B) -> (i64, i64)>(
    node: MengerNode<B>,
    bounds: B,
    depth: int,
    max_depth: int,
    seed: u32,
    splittable: S,
    thirds: T,
    anchor: A,
)
    requires
        grown(node, bounds, depth, max_depth, seed, splittable, thirds, anchor),
        depth <= max_depth,
    ensures
        sound(node, max_depth, splittable, thirds),
    decreases max_depth - depth,
{
    if node.children@.len() > 0 {
        assert forall|i: int| #![trigger node.children@[i]] 0 <= i < node.children@.len() implies sound(
            node.children@[i],
            max_depth,
            splittable,
            thirds,
        ) by {
            let c = node.children@[i];
            if i != 4 {
                assert(ring_decided(
                    c,
                    depth + 1,
                    seed,
                    anchor,
                    grown(c, c.bounds, depth + 1, max_depth, seed, splittable, thirds, anchor),
                ));
                let k = choose|k: (i64, i64)|
                    #[trigger] anchor.ensures((c.bounds,), k) && if ring_cell_subdivides(seed, depth, k.0, k.1) {
                        grown(c, c.bounds, depth + 1, max_depth, seed, splittable, thirds, anchor)
                    } else {
                        is_leaf_cell(c, depth + 1, false)
                    };
                if ring_cell_subdivides(seed, depth, k.0, k.1) {
                    lemma_grown_sound(c, c.bounds, depth + 1, max_depth, seed, splittable, thirds, anchor);
                }
            }
        }
        assert forall|i: int| 0 <= i < 9 implies #[trigger] node.children@[i].depth == node.depth + 1 by {
            assert(sound(node.children@[i], max_depth, splittable, thirds));
            if i != 4 {
                assert(ring_decided(
                    node.children@[i],
                    depth + 1,
                    seed,
                    anchor,
                    grown(node.children@[i], node.children@[i].bounds, depth + 1, max_depth, seed, splittable, thirds, anchor),
                ));
            }
        }
        assert forall|i: int| 0 <= i < 9 && i != 4 implies !(#[trigger] node.children@[i]).is_corridor by {
            assert(ring_decided(
                node.children@[i],
                depth + 1,
                seed,
                anchor,
                grown(node.children@[i], node.children@[i].bounds, depth + 1, max_depth, seed, splittable, thirds, anchor),
            ));
        }
    }
}

proof fn lemma_sound_preorder<B, S: Fn(B) -> bool, T: Fn(B) -> [B; 9]>(
    node: MengerNode<B>,
    max_depth: int,
    splittable: S,
    thirds: T,
)
    requires
        sound(node, max_depth, splittable, thirds),
    ensures
        forall|j: int|
            0 <= j < preorder(node).len() ==> #[trigger] split_well(preorder(node)[j], max_depth, splittable, thirds),
    decreases node, 1int,
{
    lemma_sound_preorder_all(node.children@, max_depth, splittable, thirds);
    let rest = preorder_all(node.children@);
    assert(preorder(node) == seq![node] + rest);
    assert forall|j: int| 0 <= j < preorder(node).len() implies #[trigger] split_well(
        preorder(node)[j],
        max_depth,
        splittable,
        thirds,
    ) by {
        if j > 0 {
            assert(preorder(node)[j] == rest[j - 1]);
            assert(split_well(rest[j - 1], max_depth, splittable, thirds));
        }
    }
}

proof fn lemma_sound_preorder_all<B, S: Fn(B) -> bool, T: Fn(B) -> [B; 9]>(
    nodes: Seq<MengerNode<B>>,
    max_depth: int,
    splittable: S,
    thirds: T,
)
    requires
        forall|i: int| 0 <= i < nodes.len() ==> #[trigger] sound(nodes[i], max_depth, splittable, thirds),
    ensures
        forall|j: int|
            0 <= j < preorder_all(nodes).len() ==> #[trigger] split_well(
                preorder_all(nodes)[j],
                max_depth,
                splittable,
                thirds,
            ),
    decreases nodes, 0int,
{
    if nodes.len() > 0 {
        lemma_sound_preorder_all(nodes.drop_last(), max_depth, splittable, thirds);
        assert(sound(nodes[nodes.len() - 1], max_depth, splittable, thirds));
        lemma_sound_preorder(nodes.last(), max_depth, splittable, thirds);
        let a = preorder_all(nodes.drop_last());
        let b = preorder(nodes.last());
        assert forall|j: int| 0 <= j < (a + b).len() implies #[trigger] split_well(
            (a + b)[j],
            max_depth,
            splittable,
            thirds,
        ) by {
            if j < a.len() {
                assert(split_well(a[j], max_depth, splittable, thirds));
            } else {
                assert(split_well(b[j - a.len()], max_depth, splittable, thirds));
            }
        }
    }
}

/// Every subdivision carves a central corridor, and the recursion stays
/// within its limits: in a grown partition every node is at most
/// `max_depth` deep, and every split node was one that `splittable` let
/// split, cut into the nine thirds of its cell, one level down, with the
/// center cell a corridor leaf and no ring cell a corridor.
pub proof fn law_every_split_carves_a_central_corridor<
    B,
    S: Fn(B) -> bool,
    T: Fn(B) -> [B; 9],
    A: Fn(B) -> (i64, i64),
>(root: MengerNode<B>, bounds: B, max_depth: u32, seed: u32, splittable: S, thirds: T, anchor: A)
    requires
        grown(root, bounds, 0, max_depth as int, seed, splittable, thirds, anchor),
    ensures
        forall|j: int|
            0 <= j < preorder(root).len() ==> #[trigger] split_well(
                preorder(root)[j],
                max_depth as int,
                splittable,
                thirds,
            ),
{
    lemma_grown_sound(root, bounds, 0, max_depth as int, seed, splittable, thirds, anchor);
    lemma_sound_preorder(root, max_depth as int, splittable, thirds);
}

/// The shape of a grown partition: the root is the whole plate at depth 0
/// and no corridor; every node lies at most `max_depth` deep and every child
/// one level below its parent; and a plate that the depth limit or
/// `splittable` stops at once is a single room.
pub proof fn law_partition_depth_is_bounded<
    B,
    S: Fn(B) -> bool,
    T: Fn(B) -> [B; 9],
    A: Fn(B) -> (i64, i64),
>(root: MengerNode<B>, bounds: B, max_depth: u32, seed: u32, splittable: S, thirds: T, anchor: A)
    requires
        grown(root, bounds, 0, max_depth as int, seed, splittable, thirds, anchor),
    ensures
        root.depth == 0,
        root.bounds == bounds,
        !root.is_corridor,
        forall|j: int| 0 <= j < preorder(root).len() ==> (#[trigger] preorder(root)[j]).depth <= max_depth,
        forall|j: int, i: int|
            0 <= j < preorder(root).len() && 0 <= i < preorder(root)[j].children@.len() ==> (#[trigger] preorder(
                root,
            )[j].children@[i]).depth == preorder(root)[j].depth + 1,
        max_depth == 0 ==> root.children@.len() == 0,
        functional(splittable) && splittable.ensures((bounds,), false) ==> root.children@.len() == 0,
{
    law_every_split_carves_a_central_corridor(root, bounds, max_depth, seed, splittable, thirds, anchor);
    let pre = preorder(root);
    assert forall|j: int| 0 <= j < pre.len() implies (#[trigger] pre[j]).depth <= max_depth by {
        assert(split_well(pre[j], max_depth as int, splittable, thirds));
    }
    assert forall|j: int, i: int| 0 <= j < pre.len() && 0 <= i < pre[j].children@.len() implies (#[trigger] pre[
        j
    ].children@[i]).depth == pre[j].depth + 1 by {
        assert(split_well(pre[j], max_depth as int, splittable, thirds));
    }
    if functional(splittable) && splittable.ensures((bounds,), false) && root.children@.len() > 0 {
        assert(splittable.ensures((bounds,), true));
    }
}

/// In the visit order `nodes`, the node at `k` comes before the node at `j`
/// and carved it as its center cell.
pub open spec fn carved_at<B>(nodes: Seq<MengerNode<B>>, k: int, j: int) -> bool {
    &&& 0 <= k < j < nodes.len()
    &&& nodes[k].children@.len() == 9
    &&& nodes[k].children@[4] == nodes[j]
}

proof fn lemma_corridor_parent<B, S: Fn(B) -> bool, T: Fn(B) -> [B; 9]>(
    node: MengerNode<B>,
    max_depth: int,
    splittable: S,
    thirds: T,
)
    requires
        sound(node, max_depth, splittable, thirds),
        !node.is_corridor,
    ensures
        forall|j: int|
            0 <= j < preorder(node).len() && (#[trigger] preorder(node)[j]).is_corridor ==> exists|k: int|
                #[trigger] carved_at(preorder(node), k, j),
    decreases node, 1int,
{
    let cs = node.children@;
    let rest = preorder_all(cs);
    assert(preorder(node) == seq![node] + rest);
    if cs.len() > 0 {
        assert forall|i: int| #![trigger cs[i]] 0 <= i < cs.len() implies sound(cs[i], max_depth, splittable, thirds) by {
            assert(sound(node.children@[i], max_depth, splittable, thirds));
        }
        assert forall|i: int| 0 <= i < cs.len() && (#[trigger] cs[i]).is_corridor implies i == 4
            && cs[i].children@.len() == 0 by {
            if i != 4 {
                assert(!node.children@[i].is_corridor);
            }
        }
        lemma_corridor_parent_all(cs, max_depth, splittable, thirds);
    } else {
        assert(rest.len() == 0);
    }
    assert forall|j: int|
        0 <= j < preorder(node).len() && (#[trigger] preorder(node)[j]).is_corridor implies exists|k: int|
            #[trigger] carved_at(preorder(node), k, j) by {
        let pre = preorder(node);
        assert(j > 0);
        assert(pre[j] == rest[j - 1]);
        if exists|k: int| #[trigger] carved_at(rest, k, j - 1) {
            let k = choose|k: int| #[trigger] carved_at(rest, k, j - 1);
            assert(pre[k + 1] == rest[k]);
            assert(carved_at(pre, k + 1, j));
        } else {
            assert(carved_at(pre, 0, j));
        }
    }
}

proof fn lemma_corridor_parent_all<B, S: Fn(B) -> bool, T: Fn(B) -> [B; 9]>(
    cs: Seq<MengerNode<B>>,
    max_depth: int,
    splittable: S,
    thirds: T,
)
    requires
        forall|i: int| #![trigger cs[i]] 0 <= i < cs.len() ==> sound(cs[i], max_depth, splittable, thirds),
        forall|i: int| 0 <= i < cs.len() && (#[trigger] cs[i]).is_corridor ==> i == 4 && cs[i].children@.len() == 0,
    ensures
        forall|j: int|
            0 <= j < preorder_all(cs).len() && (#[trigger] preorder_all(cs)[j]).is_corridor ==> (4 < cs.len()
                && preorder_all(cs)[j] == cs[4]) || exists|k: int| #[trigger] carved_at(preorder_all(cs), k, j),
    decreases cs, 0int,
{
    if cs.len() > 0 {
        let init = cs.drop_last();
        let last = cs.last();
        lemma_corridor_parent_all(init, max_depth, splittable, thirds);
        let a = preorder_all(init);
        let b = preorder(last);
        assert(preorder_all(cs) == a + b);
        assert(sound(cs[cs.len() - 1], max_depth, splittable, thirds));
        if !last.is_corridor {
            lemma_corridor_parent(last, max_depth, splittable, thirds);
        } else {
            assert(cs[cs.len() - 1].is_corridor);
            assert(preorder_all(last.children@).len() == 0);
            assert(b.len() == 1);
        }
        assert forall|j: int|
            0 <= j < preorder_all(cs).len() && (#[trigger] preorder_all(cs)[j]).is_corridor implies (4 < cs.len()
                && preorder_all(cs)[j] == cs[4]) || exists|k: int| #[trigger] carved_at(preorder_all(cs), k, j) by {
            let all = a + b;
            if j < a.len() {
                assert(all[j] == a[j]);
                assert(a[j].is_corridor);
                if exists|k: int| #[trigger] carved_at(a, k, j) {
                    let k = choose|k: int| #[trigger] carved_at(a, k, j);
                    assert(all[k] == a[k]);
                    assert(carved_at(all, k, j));
                } else {
                    assert(init[4] == cs[4]);
                }
            } else {
                let m = j - a.len();
                assert(all[j] == b[m]);
                if m == 0 {
                    assert(b[0] == last);
                    assert(cs[cs.len() - 1].is_corridor);
                } else {
                    let k = choose|k: int| #[trigger] carved_at(b, k, m);
                    assert(all[k + a.len()] == b[k]);
                    assert(carved_at(all, k + a.len(), j));
                }
            }
        }
    }
}

/// Recursion never produces a corridor that no split carved: every corridor
/// of a grown partition is the center cell of a node visited before it, a
/// node that `splittable` let split and whose thirds gave the corridor its
/// bounds.
pub proof fn law_every_corridor_is_a_carved_center<
    B,
    S: Fn(B) -> bool,
    T: Fn(B) -> [B; 9],
    A: Fn(B) -> (i64, i64),
>(root: MengerNode<B>, bounds: B, max_depth: u32, seed: u32, splittable: S, thirds: T, anchor: A)
    requires
        grown(root, bounds, 0, max_depth as int, seed, splittable, thirds, anchor),
    ensures
        forall|j: int|
            0 <= j < preorder(root).len() && (#[trigger] preorder(root)[j]).is_corridor ==> exists|k: int|
                #[trigger] carved_at(preorder(root), k, j) && splittable.ensures((preorder(root)[k].bounds,), true)
                    && exists|parts: [B; 9]|
                    #[trigger] thirds.ensures((preorder(root)[k].bounds,), parts) && preorder(root)[j].bounds
                        == parts@[4],
{
    lemma_grown_sound(root, bounds, 0, max_depth as int, seed, splittable, thirds, anchor);
    lemma_sound_preorder(root, max_depth as int, splittable, thirds);
    lemma_corridor_parent(root, max_depth as int, splittable, thirds);
    let pre = preorder(root);
    assert forall|j: int| 0 <= j < pre.len() && (#[trigger] pre[j]).is_corridor implies exists|k: int|
        #[trigger] carved_at(pre, k, j) && splittable.ensures((pre[k].bounds,), true) && exists|parts: [B; 9]|
            #[trigger] thirds.ensures((pre[k].bounds,), parts) && pre[j].bounds == parts@[4] by {
        let k = choose|k: int| #[trigger] carved_at(pre, k, j);
        assert(split_well(pre[k], max_depth as int, splittable, thirds));
        let parts = choose|parts: [B; 9]|
            #[trigger] thirds.ensures((pre[k].bounds,), parts) && forall|i: int|
                0 <= i < 9 ==> #[trigger] pre[k].children@[i].bounds == parts@[i];
        assert(pre[k].children@[4].bounds == parts@[4]);
    }
}

/// Two partition trees with the same cells, depths, corridors and shape.
pub open spec fn same_tree<B>(a: MengerNode<B>, b: MengerNode<B>) -> bool
    decreases a,
{
    &&& a.bounds == b.bounds
    &&& a.depth == b.depth
    &&& a.is_corridor == b.is_corridor
    &&& a.children@.len() == b.children@.len()
    &&& forall|i: int|
        #![trigger a.children@[i]]
        0 <= i < a.children@.len() ==> same_tree(a.children@[i], b.children@[i])
}

/// `f` gives one result for each argument.
pub open spec fn functional<X, Y, F: Fn(X) -> Y>(f: F) -> bool {
    forall|x: X, y1: Y, y2: Y| #[trigger] f.ensures((x,), y1) && #[trigger] f.ensures((x,), y2) ==> y1 == y2
}

proof fn lemma_grown_unique<B, S: Fn(B) -> bool, T: Fn(B) -> [B; 9], A: Fn(B) -> (i64, i64)>(
    n1: MengerNode<B>,
    n2: MengerNode<B>,
    bounds: B,
    depth: int,
    max_depth: int,
    seed: u32,
    splittable: S,
    thirds: T,
    anchor: A,
)
    requires
        functional(splittable),
        functional(thirds),
        functional(anchor),
        grown(n1, bounds, depth, max_depth, seed, splittable, thirds, anchor),
        grown(n2, bounds, depth, max_depth, seed, splittable, thirds, anchor),
    ensures
        same_tree(n1, n2),
    decreases max_depth - depth,
{
    if n1.children@.len() > 0 || n2.children@.len() > 0 {
        assert(splittable.ensures((bounds,), true));
        assert(n1.children@.len() > 0 && n2.children@.len() > 0) by {
            if n1.children@.len() == 0 || n2.children@.len() == 0 {
                assert(splittable.ensures((bounds,), false));
            }
        }
        let p1 = choose|parts: [B; 9]|
            #[trigger] thirds.ensures((bounds,), parts) && forall|i: int|
                0 <= i < 9 ==> #[trigger] n1.children@[i].bounds == parts@[i];
        let p2 = choose|parts: [B; 9]|
            #[trigger] thirds.ensures((bounds,), parts) && forall|i: int|
                0 <= i < 9 ==> #[trigger] n2.children@[i].bounds == parts@[i];
        assert(p1 == p2);
        assert forall|i: int| #![trigger n1.children@[i]] 0 <= i < n1.children@.len() implies same_tree(
            n1.children@[i],
            n2.children@[i],
        ) by {
            let c1 = n1.children@[i];
            let c2 = n2.children@[i];
            assert(c1.bounds == p1@[i] && c2.bounds == p2@[i]);
            if i == 4 {
                assert(is_leaf_cell(n1.children@[4], depth + 1, true));
                assert(is_leaf_cell(n2.children@[4], depth + 1, true));
            } else {
                assert(ring_decided(
                    c1,
                    depth + 1,
                    seed,
                    anchor,
                    grown(c1, c1.bounds, depth + 1, max_depth, seed, splittable, thirds, anchor),
                ));
                assert(ring_decided(
                    c2,
                    depth + 1,
                    seed,
                    anchor,
                    grown(c2, c2.bounds, depth + 1, max_depth, seed, splittable, thirds, anchor),
                ));
                let k1 = choose|k: (i64, i64)|
                    #[trigger] anchor.ensures((c1.bounds,), k) && if ring_cell_subdivides(seed, depth, k.0, k.1) {
                        grown(c1, c1.bounds, depth + 1, max_depth, seed, splittable, thirds, anchor)
                    } else {
                        is_leaf_cell(c1, depth + 1, false)
                    };
                let k2 = choose|k: (i64, i64)|
                    #[trigger] anchor.ensures((c2.bounds,), k) && if ring_cell_subdivides(seed, depth, k.0, k.1) {
                        grown(c2, c2.bounds, depth + 1, max_depth, seed, splittable, thirds, anchor)
                    } else {
                        is_leaf_cell(c2, depth + 1, false)
                    };
                assert(k1 == k2);
                if ring_cell_subdivides(seed, depth, k1.0, k1.1) {
                    lemma_grown_unique(c1, c2, c1.bounds, depth + 1, max_depth, seed, splittable, thirds, anchor);
                }
            }
        }
    }
}

/// Structure is a function of the plate and the seed alone: where the cell
/// geometry gives one answer per cell, two partitions grown from the same
/// plate with the same seed and depth limit are the same tree.
pub proof fn law_partition_is_deterministic<
    B,
    S: Fn(B) -> bool,
    T: Fn(B) -> [B; 9],
    A: Fn(B) -> (i64, i64),
>(
    first: MengerNode<B>,
    second: MengerNode<B>,
    bounds: B,
    max_depth: u32,
    seed: u32,
    splittable: S,
    thirds: T,
    anchor: A,
)
    requires
        functional(splittable),
        functional(thirds),
        functional(anchor),
        grown(first, bounds, 0, max_depth as int, seed, splittable, thirds, anchor),
        grown(second, bounds, 0, max_depth as int, seed, splittable, thirds, anchor),
    ensures
        same_tree(first, second),
{
    lemma_grown_unique(first, second, bounds, 0, max_depth as int, seed, splittable, thirds, anchor);
}

impl<B> MengerNode<B> {
    /// Depth-first visit of every node in the partition, in the order a
    /// visitor would see them: the node itself, then each child's subtree.
    pub fn visit(&self) -> (nodes: Vec<&MengerNode<B>>)
        ensures
            nodes@.map_values(|n: &MengerNode<B>| *n) == preorder(*self),
    {
        let mut out: Vec<&MengerNode<B>> = Vec::new();
        self.visit_into(&mut out);
        proof {
            assert(out@.map_values(|n: &MengerNode<B>| *n) =~= Seq::<MengerNode<B>>::empty() + preorder(*self));
        }
        out
    }

    fn visit_into<'a>(&'a self, out: &mut Vec<&'a MengerNode<B>>)
        ensures
            final(out)@.map_values(|n: &MengerNode<B>| *n) == old(out)@.map_values(|n: &MengerNode<B>| *n) + preorder(
                *self,
            ),
        decreases *self,
    {
        let ghost start = out@.map_values(|n: &MengerNode<B>| *n);
        out.push(self);
        let mut i: usize = 0;
        proof {
            assert(self.children@.take(0) =~= Seq::<MengerNode<B>>::empty());
            assert(out@.map_values(|n: &MengerNode<B>| *n) =~= start + seq![*self] + preorder_all(self.children@.take(0)));
        }
        while i < self.children.len()
            invariant
                0 <= i <= self.children@.len(),
                out@.map_values(|n: &MengerNode<B>| *n) == start + seq![*self] + preorder_all(self.children@.take(i as int)),
            decreases self.children@.len() - i,
        {
            let ghost before = out@.map_values(|n: &MengerNode<B>| *n);
            proof {
                assert(decreases_to!(*self => self.children@[i as int]));
            }
            self.children[i].visit_into(out);
            proof {
                let t = self.children@.take(i + 1);
                assert(t.drop_last() =~= self.children@.take(i as int));
                assert(t.last() == self.children@[i as int]);
                assert(out@.map_values(|n: &MengerNode<B>| *n) =~= start + seq![*self] + preorder_all(t));
            }
            i = i + 1;
        }
        proof {
            assert(self.children@.take(self.children@.len() as int) =~= self.children@);
            assert(out@.map_values(|n: &MengerNode<B>| *n) =~= start + preorder(*self));
        }
    }
}

fn leaf<B>(bounds: B, depth: u32, is_corridor: bool) -> (node: MengerNode<B>)
    ensures
        node.bounds == bounds,
        is_leaf_cell(node, depth as int, is_corridor),
{
    MengerNode { bounds, depth, is_corridor, children: Vec::new() }
}

/// Generates the partition for one floor plate. `max_depth` bounds the
/// recursion; `splittable` stops it earlier wherever cells shrink to human
/// scale first.
pub fn generate_menger_bsp<B: Copy, S: Fn(B) -> bool, T: Fn(B) -> [B; 9], A: Fn(B) -> (i64, i64)>(
    bounds: B,
    max_depth: u32,
    seed: u32,
    splittable: &S,
    thirds: &T,
    anchor: &A,
) -> (root: MengerNode<B>)
    requires
        forall|b: B| #[trigger] splittable.requires((b,)),
        forall|b: B| #[trigger] thirds.requires((b,)),
        forall|b: B| #[trigger] anchor.requires((b,)),
    ensures
        grown(root, bounds, 0, max_depth as int, seed, *splittable, *thirds, *anchor),
{
    generate_recursive(bounds, 0, max_depth, seed, splittable, thirds, anchor)
}

fn generate_recursive<B: Copy, S: Fn(B) -> bool, T: Fn(B) -> [B; 9], A: Fn(B) -> (i64, i64)>(
    bounds: B,
    depth: u32,
    max_depth: u32,
    seed: u32,
    splittable: &S,
    thirds: &T,
    anchor: &A,
) -> (node: MengerNode<B>)
    requires
        forall|b: B| #[trigger] splittable.requires((b,)),
        forall|b: B| #[trigger] thirds.requires((b,)),
        forall|b: B| #[trigger] anchor.requires((b,)),
    ensures
        grown(node, bounds, depth as int, max_depth as int, seed, *splittable, *thirds, *anchor),
    decreases max_depth - depth,
{
    if depth >= max_depth {
        return leaf(bounds, depth, false);
    }
    let can_split = splittable(bounds);
    if !can_split {
        return leaf(bounds, depth, false);
    }
    let parts = thirds(bounds);
    let mut children: Vec<MengerNode<B>> = Vec::new();
    let mut i: usize = 0;
    while i < 9
        invariant
            0 <= i <= 9,
            depth < max_depth,
            children@.len() == i,
            thirds.ensures((bounds,), parts),
            forall|b: B| #[trigger] splittable.requires((b,)),
            forall|b: B| #[trigger] thirds.requires((b,)),
            forall|b: B| #[trigger] anchor.requires((b,)),
            forall|j: int| 0 <= j < i ==> #[trigger] children@[j].bounds == parts@[j],
            i > 4 ==> is_leaf_cell(children@[4], depth + 1, true),
            forall|j: int|
                0 <= j < i && j != 4 ==> #[trigger] ring_cell(
                    children@[j],
                    depth + 1,
                    max_depth as int,
                    seed,
                    *splittable,
                    *thirds,
                    *anchor,
                ),
        decreases 9 - i,
    {
        let child_bounds = parts[i];
        if i == 4 {
            children.push(leaf(child_bounds, depth + 1, true));
        } else {
            let (anchor_x, anchor_z) = anchor(child_bounds);
            let roll = hash(seed, MENGER_SALT ^ (depth as u64), anchor_x, anchor_z);
            let child = if (roll >> 40u64) < SUBDIVIDE_THRESHOLD {
                generate_recursive(child_bounds, depth + 1, max_depth, seed, splittable, thirds, anchor)
            } else {
                leaf(child_bounds, depth + 1, false)
            };
            proof {
                assert(anchor.ensures((child.bounds,), (anchor_x, anchor_z)));
            }
            children.push(child);
        }
        i = i + 1;
    }
    let node = MengerNode { bounds, depth, is_corridor: false, children };
    proof {
        assert(forall|j: int| 0 <= j < 9 ==> #[trigger] node.children@[j].bounds == parts@[j]);
        lemma_grown_split(node, depth as int, max_depth as int, seed, *splittable, *thirds, *anchor);
    }
    node
}

} // verus!
