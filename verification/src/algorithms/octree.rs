//! Octree quantisation.
//!
//! The 24-bit RGB cube is mapped onto a tree of depth 7: at each level one bit
//! of each of R, G and B selects one of eight children.  Every pixel is
//! inserted down to depth 7, where the leaves accumulate channel sums.  While
//! there are more leaves than colours requested, the deepest internal node
//! that has leaf children absorbs some of them ("reduction").  A reduction
//! merges no more leaves than the budget allows, so the number of leaves never
//! drops below the number of colours requested; a node that absorbed only part
//! of its leaf children is a leaf and keeps the rest as children.  Collecting
//! visits a node and then all of its children, so no pixel is lost.

use vstd::prelude::*;

use vstd::multiset::Multiset;

use crate::color::{
    channel_sum, is_partition_means, lemma_channel_sum_append, lemma_parts_multiset_concat, lemma_rounded_div_bounds,
    lemma_total_count_push,
    mean_color_of, means_of_partition, parts_multiset, rounded_div, rounded_div_u128, total_count, Color, Pixel, MAX_PIXELS,
};
use crate::error::DominantColorError;
use crate::Config;

verus! {

/// The depth of the leaves that pixels are inserted at.
pub const MAX_DEPTH: usize = 7;

#[derive(Clone, Copy, PartialEq, Eq, Debug)]
struct NodeId(usize);

#[derive(Clone, Copy)]
struct Node {
    r_sum: u64,
    g_sum: u64,
    b_sum: u64,
    pixel_count: u64,
    /// The node stands for a colour.  After a partial reduction a node can be
    /// a leaf and still have children.
    is_leaf: bool,
    in_reducible: bool,
    parent: Option<NodeId>,
    children: [Option<NodeId>; 8],
    /// The pixels that the sums stand for.
    pix: Ghost<Seq<Pixel>>,
    /// A colour of the node's cell: the path from the root to the node
    /// follows its octants.
    key: Ghost<Pixel>,
}

struct Octree {
    nodes: Vec<Node>,
    root: NodeId,
    leaf_count: usize,
    /// `reducible[d]`: the nodes at depth `d` that have at least one leaf child.
    reducible: [Vec<NodeId>; MAX_DEPTH],
    /// The depth of every node in the arena.
    depth: Ghost<Seq<int>>,
}

// ── Views of the arena ───────────────────────────────────────────────────────

spec fn nn(t: Octree) -> int {
    t.nodes@.len() as int
}

spec fn nd(t: Octree, i: int) -> Node {
    t.nodes@[i]
}

spec fn dep(t: Octree, i: int) -> int {
    t.depth@[i]
}

/// The index held in slot `j` of node `i`, or -1 for an empty slot.
spec fn slot(t: Octree, i: int, j: int) -> int {
    match t.nodes@[i].children[j] {
        Some(c) => c.0 as int,
        None => -1,
    }
}

spec fn parent_of(t: Octree, x: int) -> int {
    match t.nodes@[x].parent {
        Some(p) => p.0 as int,
        None => -1,
    }
}

spec fn is_child(t: Octree, i: int, c: int) -> bool {
    exists|j: int| 0 <= j < 8 && #[trigger] slot(t, i, j) == c
}

spec fn has_child(n: Node) -> bool {
    exists|j: int| 0 <= j < 8 && (#[trigger] n.children[j]) is Some
}

spec fn childless(n: Node) -> bool {
    forall|j: int| 0 <= j < 8 ==> (#[trigger] n.children[j]) is None
}

/// `x` is attached to the tree: its parent chain leads to the root and every
/// parent on it holds the next node in one of its slots.
spec fn reach(t: Octree, x: int) -> bool
    decreases x,
{
    if x == 0 {
        nn(t) > 0
    } else if 0 < x < nn(t) {
        let p = parent_of(t, x);
        if 0 <= p < x {
            is_child(t, p, x) && reach(t, p)
        } else {
            false
        }
    } else {
        false
    }
}

/// `i` lies on the parent chain of `x` (or is `x`).
spec fn anc(t: Octree, x: int, i: int) -> bool
    decreases x,
{
    if x == i {
        true
    } else if i < x && 0 < x < nn(t) {
        let p = parent_of(t, x);
        if 0 <= p < x {
            anc(t, p, i)
        } else {
            false
        }
    } else {
        false
    }
}

/// The weight of slot `j` of node `i`: the subtree weight of the child held there.
spec fn sv(t: Octree, f: spec_fn(Node) -> int, i: int, j: int) -> int
    decreases nn(t) - i, 1int, j,
{
    let c = slot(t, i, j);
    if 0 <= i < c < nn(t) {
        subw(t, f, c)
    } else {
        0
    }
}

/// The weights of the children in slots `0..j` of node `i`.
spec fn csum(t: Octree, f: spec_fn(Node) -> int, i: int, j: int) -> int
    decreases nn(t) - i, 2int, j,
{
    if j <= 0 || !(0 <= i < nn(t)) {
        0
    } else {
        csum(t, f, i, j - 1) + sv(t, f, i, j - 1)
    }
}

/// The weight of the subtree rooted at `i`, each node weighed by `f`.
spec fn subw(t: Octree, f: spec_fn(Node) -> int, i: int) -> int
    decreases nn(t) - i, 3int, 0int,
{
    if 0 <= i < nn(t) {
        f(nd(t, i)) + csum(t, f, i, 8)
    } else {
        0
    }
}

spec fn w_pix(n: Node) -> int {
    n.pixel_count as int
}

spec fn w_leaf(n: Node) -> int {
    if n.is_leaf && n.pixel_count > 0 {
        1
    } else {
        0
    }
}

/// Weighs a node by the pixels it outputs.
spec fn fpix() -> spec_fn(Node) -> int {
    |n: Node| w_pix(n)
}

/// Weighs a node by the colours it outputs.
spec fn fleaf() -> spec_fn(Node) -> int {
    |n: Node| w_leaf(n)
}

/// Weighs a node by how often it holds the pixel `v`.
spec fn fcnt(v: Pixel) -> spec_fn(Node) -> int {
    |n: Node| n.pix@.to_multiset().count(v) as int
}

/// The sums of `n` are those of the pixels it holds.
spec fn pix_ok_node(n: Node) -> bool {
    &&& n.pixel_count == n.pix@.len()
    &&& n.r_sum == channel_sum(n.pix@, 0)
    &&& n.g_sum == channel_sum(n.pix@, 1)
    &&& n.b_sum == channel_sum(n.pix@, 2)
}

spec fn pix_ok(t: Octree) -> bool {
    forall|i: int| 0 <= i < nn(t) ==> pix_ok_node(#[trigger] nd(t, i))
}

/// The tree, from the root down, holds the pixels of `ms`.
spec fn holds(t: Octree, ms: Multiset<Pixel>) -> bool {
    forall|v: Pixel| #[trigger] subw(t, fcnt(v), 0) == ms.count(v)
}

/// The child slot that pixel `p` takes at depth `d`: bit `7 - d` of red,
/// green and blue.
pub open spec fn octant_of(p: Pixel, d: int) -> int {
    ((p[0] >> ((7 - d) as u8)) & 1) * 4 + ((p[1] >> ((7 - d) as u8)) & 1) * 2 + ((p[2] >> ((7 - d) as u8)) & 1)
}

/// `a` and `b` take the same slots down to depth `d`: they lie in the same
/// cell of the tree at that depth.
spec fn cell_eq(a: Pixel, b: Pixel, d: int) -> bool {
    forall|e: int| 0 <= e < d ==> #[trigger] octant_of(a, e) == octant_of(b, e)
}

/// Every node holds pixels of its own cell, and every child lies in the cell
/// of its parent, in the slot that its cell takes.
spec fn keys_ok(t: Octree) -> bool {
    &&& forall|i: int, q: int| 0 <= i < nn(t) && 0 <= q < nd(t, i).pix@.len()
        ==> cell_eq(#[trigger] nd(t, i).pix@[q], nd(t, i).key@, dep(t, i))
    &&& forall|i: int, j: int| 0 <= i < nn(t) && 0 <= j < 8 && #[trigger] slot(t, i, j) != -1 ==> {
        let c = slot(t, i, j);
        &&& cell_eq(nd(t, c).key@, nd(t, i).key@, dep(t, i))
        &&& octant_of(nd(t, c).key@, dep(t, i)) == j
    }
}

/// The leaf cell of a pixel: each channel without its lowest bit.
pub open spec fn cell_of(p: Pixel) -> (u8, u8, u8) {
    (p[0] / 2, p[1] / 2, p[2] / 2)
}

/// The leaf cells that the pixels of `s` fall into.
pub open spec fn leaf_cells(s: Seq<Pixel>) -> Set<(u8, u8, u8)> {
    s.map_values(|p: Pixel| cell_of(p)).to_set()
}

/// No leaf cell is split between groups: a group that holds a pixel holds
/// every copy, among `pixels`, of every pixel of the same leaf cell.
pub open spec fn keeps_cells(parts: Seq<Seq<Pixel>>, pixels: Seq<Pixel>) -> bool {
    forall|q: int, a: Pixel, b: Pixel|
        #![trigger parts[q].to_multiset().count(a), parts[q].to_multiset().count(b)]
        0 <= q < parts.len() && parts[q].to_multiset().count(a) > 0 && cell_of(a) == cell_of(b)
            ==> parts[q].to_multiset().count(b) == pixels.to_multiset().count(b)
}

/// `palette` holds the mean colours of a split of `pixels` into non-empty
/// groups, each made of whole leaf cells.
pub open spec fn is_cell_partition_means(palette: Seq<Color>, pixels: Seq<Pixel>) -> bool {
    exists|parts: Seq<Seq<Pixel>>| #[trigger] means_of_partition(palette, parts, pixels) && keeps_cells(parts, pixels)
}

/// The number of colours that octree quantisation gives: as many as
/// requested, or as many leaf cells as the pixels fill if that is fewer; one
/// when none are requested.
pub open spec fn octree_color_count(max_colors: int, pixels: Seq<Pixel>) -> int {
    if max_colors == 0 {
        1
    } else if leaf_cells(pixels).len() <= max_colors {
        leaf_cells(pixels).len() as int
    } else {
        max_colors
    }
}

/// Two slot numbers agree exactly when the three bits they are made of agree.
proof fn lemma_octant_bits(a: Pixel, b: Pixel, e: int)
    requires
        0 <= e < 7,
    ensures
        (octant_of(a, e) == octant_of(b, e)) == ({
            let s = (7 - e) as u8;
            &&& (a[0] >> s) & 1 == (b[0] >> s) & 1
            &&& (a[1] >> s) & 1 == (b[1] >> s) & 1
            &&& (a[2] >> s) & 1 == (b[2] >> s) & 1
        }),
{
    let s = (7 - e) as u8;
    let (a0, a1, a2, b0, b1, b2) = (a[0], a[1], a[2], b[0], b[1], b[2]);
    assert((a0 >> s) & 1 <= 1 && (a1 >> s) & 1 <= 1 && (a2 >> s) & 1 <= 1) by (bit_vector);
    assert((b0 >> s) & 1 <= 1 && (b1 >> s) & 1 <= 1 && (b2 >> s) & 1 <= 1) by (bit_vector);
}

/// A channel keeps its bits 7 to 1 exactly when it keeps its value halved.
proof fn lemma_high_bits(x: u8, y: u8)
    ensures
        ((x >> 7u8) & 1 == (y >> 7u8) & 1 && (x >> 6u8) & 1 == (y >> 6u8) & 1 && (x >> 5u8) & 1 == (y >> 5u8) & 1
            && (x >> 4u8) & 1 == (y >> 4u8) & 1 && (x >> 3u8) & 1 == (y >> 3u8) & 1 && (x >> 2u8) & 1 == (y >> 2u8) & 1
            && (x >> 1u8) & 1 == (y >> 1u8) & 1) == (x / 2 == y / 2),
{
    assert(((x >> 7u8) & 1 == (y >> 7u8) & 1 && (x >> 6u8) & 1 == (y >> 6u8) & 1 && (x >> 5u8) & 1 == (y >> 5u8) & 1
        && (x >> 4u8) & 1 == (y >> 4u8) & 1 && (x >> 3u8) & 1 == (y >> 3u8) & 1 && (x >> 2u8) & 1 == (y >> 2u8) & 1
        && (x >> 1u8) & 1 == (y >> 1u8) & 1) == (x / 2 == y / 2)) by (bit_vector);
}

/// Two pixels share a leaf cell exactly when they agree without their lowest bits.
proof fn lemma_cell_eq_leaf(a: Pixel, b: Pixel)
    ensures
        cell_eq(a, b, 7) == (cell_of(a) == cell_of(b)),
{
    lemma_octant_bits(a, b, 0);
    lemma_octant_bits(a, b, 1);
    lemma_octant_bits(a, b, 2);
    lemma_octant_bits(a, b, 3);
    lemma_octant_bits(a, b, 4);
    lemma_octant_bits(a, b, 5);
    lemma_octant_bits(a, b, 6);
    lemma_high_bits(a[0], b[0]);
    lemma_high_bits(a[1], b[1]);
    lemma_high_bits(a[2], b[2]);
    if cell_of(a) == cell_of(b) {
        assert forall|e: int| 0 <= e < 7 implies #[trigger] octant_of(a, e) == octant_of(b, e) by {
            lemma_octant_bits(a, b, e);
        }
    }
}

/// How often node `n` holds pixel `v`.
spec fn held(n: Node, v: Pixel) -> int {
    n.pix@.to_multiset().count(v) as int
}

/// `s` is what some node of `t` holds.
spec fn node_pix(t: Octree, s: Seq<Pixel>) -> bool {
    exists|n: int| 0 <= n < nn(t) && nd(t, n).pix@ == s
}

/// A node that holds a pixel holds every copy, in the tree, of every pixel
/// of the same leaf cell.
spec fn cells_whole(t: Octree) -> bool {
    forall|i: int, a: Pixel, b: Pixel|
        #![trigger held(nd(t, i), a), held(nd(t, i), b)]
        0 <= i < nn(t) && held(nd(t, i), a) > 0 && cell_eq(a, b, 7) ==> held(nd(t, i), b) == subw(t, fcnt(b), 0)
}

/// Groups that are each what a node holds, in a tree that keeps cells whole,
/// keep cells whole.
proof fn lemma_keeps_cells(t: Octree, parts: Seq<Seq<Pixel>>, pixels: Seq<Pixel>)
    requires
        cells_whole(t),
        forall|q: int| 0 <= q < parts.len() ==> node_pix(t, #[trigger] parts[q]),
        holds(t, pixels.to_multiset()),
    ensures
        keeps_cells(parts, pixels),
{
    assert forall|q: int, a: Pixel, b: Pixel|
        #![trigger parts[q].to_multiset().count(a), parts[q].to_multiset().count(b)]
        0 <= q < parts.len() && parts[q].to_multiset().count(a) > 0 && cell_of(a) == cell_of(b)
        implies parts[q].to_multiset().count(b) == pixels.to_multiset().count(b) by {
        assert(node_pix(t, parts[q]));
        let n = choose|n: int| 0 <= n < nn(t) && nd(t, n).pix@ == parts[q];
        lemma_cell_eq_leaf(a, b);
        assert(held(nd(t, n), a) > 0);
        assert(held(nd(t, n), b) == subw(t, fcnt(b), 0));
    }
}

/// Two attached nodes at the same depth whose cells agree down to it are one.
proof fn lemma_unique_cell(t: Octree, i: int, j: int)
    requires
        wf(t),
        keys_ok(t),
        reach(t, i),
        reach(t, j),
        dep(t, i) == dep(t, j),
        cell_eq(nd(t, i).key@, nd(t, j).key@, dep(t, i)),
    ensures
        i == j,
    decreases i,
{
    if i == 0 || j == 0 {
        if i != j {
            let z = if i == 0 { j } else { i };
            assert(dep(t, z) == dep(t, parent_of(t, z)) + 1);
            assert(dep(t, parent_of(t, z)) >= 0);
        }
    } else {
        let pi = parent_of(t, i);
        let pj = parent_of(t, j);
        let si = choose|si: int| 0 <= si < 8 && #[trigger] slot(t, pi, si) == i;
        let sj = choose|sj: int| 0 <= sj < 8 && #[trigger] slot(t, pj, sj) == j;
        assert(cell_eq(nd(t, i).key@, nd(t, pi).key@, dep(t, pi)));
        assert(cell_eq(nd(t, j).key@, nd(t, pj).key@, dep(t, pj)));
        assert(dep(t, i) == dep(t, pi) + 1 && dep(t, j) == dep(t, pj) + 1);
        assert forall|e: int| 0 <= e < dep(t, pi) implies #[trigger] octant_of(nd(t, pi).key@, e) == octant_of(nd(t, pj).key@, e) by {
            assert(octant_of(nd(t, i).key@, e) == octant_of(nd(t, pi).key@, e));
            assert(octant_of(nd(t, j).key@, e) == octant_of(nd(t, pj).key@, e));
            assert(octant_of(nd(t, i).key@, e) == octant_of(nd(t, j).key@, e));
        }
        lemma_unique_cell(t, pi, pj);
        assert(octant_of(nd(t, i).key@, dep(t, pi)) == si);
        assert(octant_of(nd(t, j).key@, dep(t, pj)) == sj);
        assert(octant_of(nd(t, i).key@, dep(t, pi)) == octant_of(nd(t, j).key@, dep(t, pi)));
    }
}

/// A pixel that a node holds lies in the node's cell; during insertion only
/// depth-7 leaves hold pixels.
proof fn lemma_held_cell(t: Octree, i: int, a: Pixel)
    requires
        inv1(t),
        pix_ok(t),
        keys_ok(t),
        0 <= i < nn(t),
        held(nd(t, i), a) > 0,
    ensures
        dep(t, i) == 7,
        cell_eq(a, nd(t, i).key@, 7),
        reach(t, i),
{
    broadcast use vstd::seq_lib::group_to_multiset_ensures;
    let pix = nd(t, i).pix@;
    assert(pix.contains(a));
    let r = choose|r: int| 0 <= r < pix.len() && pix[r] == a;
    assert(cell_eq(nd(t, i).pix@[r], nd(t, i).key@, dep(t, i)));
    assert(pix_ok_node(nd(t, i)));
    assert(node_ok(nd(t, i), subw(t, fpix(), 0)));
    assert(nd(t, i).is_leaf);
}

/// Inserting a pixel keeps every leaf cell in one node.
proof fn lemma_insert_whole(start: Octree, tb: Octree, x: int, p: Pixel)
    requires
        cells_whole(start),
        inv1(tb),
        pix_ok(tb),
        keys_ok(tb),
        wf(start),
        nn(start) <= nn(tb),
        inserted_at(start, tb, x, p),
        forall|v: Pixel| #[trigger] subw(tb, fcnt(v), 0) == subw(start, fcnt(v), 0) + (if v == p { 1int } else { 0int }),
    ensures
        cells_whole(tb),
{
    broadcast use vstd::seq_lib::group_to_multiset_ensures;
    broadcast use vstd::multiset::group_multiset_axioms;
    let before = if x < nn(start) { nd(start, x).pix@ } else { Seq::<Pixel>::empty() };
    assert(nd(tb, x).pix@ == before.push(p));
    assert(reach(tb, x));
    assert forall|i: int, a: Pixel, b: Pixel|
        #![trigger held(nd(tb, i), a), held(nd(tb, i), b)]
        0 <= i < nn(tb) && held(nd(tb, i), a) > 0 && cell_eq(a, b, 7)
        implies held(nd(tb, i), b) == subw(tb, fcnt(b), 0) by {
        lemma_cell_eq_leaf(a, b);
        lemma_cell_eq_leaf(a, p);
        lemma_cell_eq_leaf(b, p);
        lemma_held_cell(tb, i, a);
        if i != x {
            if i >= nn(start) {
                assert(empty_node(nd(tb, i)));
                assert(nd(tb, i).pix@ =~= Seq::<Pixel>::empty());
                assert(false);
            }
            assert(same_sums(nd(tb, i), nd(start, i)));
            assert(held(nd(start, i), a) > 0);
            if b == p {
                lemma_cell_eq_leaf(nd(tb, i).key@, nd(tb, x).key@);
                lemma_cell_eq_leaf(a, nd(tb, i).key@);
                lemma_cell_eq_leaf(p, nd(tb, x).key@);
                lemma_unique_cell(tb, i, x);
            }
            assert(held(nd(start, i), b) == subw(start, fcnt(b), 0));
        } else {
            assert(held(nd(tb, x), b) == before.to_multiset().count(b) + (if b == p { 1int } else { 0int }));
            assert(held(nd(tb, x), a) == before.to_multiset().count(a) + (if a == p { 1int } else { 0int }));
            if before.to_multiset().count(a) > 0 {
                assert(x < nn(start));
                assert(held(nd(start, x), a) > 0);
                assert(held(nd(start, x), b) == subw(start, fcnt(b), 0));
            } else if before.to_multiset().count(b) > 0 {
                assert(x < nn(start));
                assert(held(nd(start, x), b) > 0);
                assert(cell_eq(b, b, 7));
                assert(held(nd(start, x), b) == subw(start, fcnt(b), 0));
            } else {
                assert(a == p);
                if subw(start, fcnt(b), 0) > 0 {
                    let h = lemma_holder(start, fcnt(b), 0);
                    if h == x {
                        assert(held(nd(start, x), b) > 0);
                        assert(false);
                    } else {
                        assert(same_sums(nd(tb, h), nd(start, h)));
                        assert(held(nd(tb, h), b) > 0);
                        lemma_held_cell(tb, h, b);
                        lemma_cell_eq_leaf(b, nd(tb, h).key@);
                        lemma_cell_eq_leaf(p, nd(tb, x).key@);
                        lemma_cell_eq_leaf(nd(tb, h).key@, nd(tb, x).key@);
                        lemma_unique_cell(tb, h, x);
                    }
                }
                lemma_subw_nonneg(start, fcnt(b), 0);
            }
        }
    }
}

/// Some node of the subtree of `i` holds what the subtree weighs.
proof fn lemma_holder(t: Octree, f: spec_fn(Node) -> int, i: int) -> (h: int)
    requires
        wf(t),
        0 <= i < nn(t),
        subw(t, f, i) > 0,
    ensures
        i <= h < nn(t),
        f(nd(t, h)) > 0,
    decreases nn(t) - i,
{
    if f(nd(t, i)) > 0 {
        i
    } else {
        let k = lemma_csum_pos_slot(t, f, i, 8);
        let c = slot(t, i, k);
        assert(i < c < nn(t));
        lemma_holder(t, f, c)
    }
}

/// `a` holds the same pixels and sums as `b`.
spec fn same_sums(a: Node, b: Node) -> bool {
    &&& a.pix == b.pix
    &&& a.r_sum == b.r_sum
    &&& a.g_sum == b.g_sum
    &&& a.b_sum == b.b_sum
    &&& a.pixel_count == b.pixel_count
}

/// `n` holds no pixel.
spec fn empty_node(n: Node) -> bool {
    n.pix@.len() == 0 && n.r_sum == 0 && n.g_sum == 0 && n.b_sum == 0 && n.pixel_count == 0
}

/// Going from `t0` to `t1`, pixel `p` was added to node `x`, a depth-7 node
/// whose cell holds `p`: its sums grew by `p`; every other node kept its
/// pixels and sums, and the nodes created hold none; they take the next ids,
/// one per depth, down to depth 7.  The lists above depth 6
/// are unchanged; that of depth 6 gained the parent of `x` if that parent is new.
spec fn inserted_at(t0: Octree, t1: Octree, x: int, p: Pixel) -> bool {
    let before = if x < nn(t0) { nd(t0, x) } else { Node { pix: Ghost(Seq::empty()), r_sum: 0, g_sum: 0, b_sum: 0, pixel_count: 0, ..nd(t1, x) } };
    &&& 0 <= x < nn(t1)
    &&& dep(t1, x) == 7
    &&& cell_eq(p, nd(t1, x).key@, 7)
    &&& nd(t1, x).pix@ == before.pix@.push(p)
    &&& nd(t1, x).pixel_count == before.pixel_count + 1
    &&& nd(t1, x).r_sum == before.r_sum + p[0]
    &&& nd(t1, x).g_sum == before.g_sum + p[1]
    &&& nd(t1, x).b_sum == before.b_sum + p[2]
    &&& forall|y: int| 0 <= y < nn(t0) && y != x ==> same_sums(#[trigger] nd(t1, y), nd(t0, y))
    &&& forall|y: int| nn(t0) <= y < nn(t1) && y != x ==> empty_node(#[trigger] nd(t1, y))
    &&& forall|y: int| nn(t0) <= y < nn(t1) ==> #[trigger] dep(t1, y) == y - nn(t1) + 8
    &&& forall|d: int| 0 <= d < 6 ==> #[trigger] t1.reducible[d]@ == t0.reducible[d]@
    &&& nd(t1, x).parent matches Some(pid) && t1.reducible[6]@
        == (if pid.0 >= nn(t0) { t0.reducible[6]@.push(pid) } else { t0.reducible[6]@ })
}

/// How deep the nodes that already lie on the path of `p` go, walking down
/// from node `id` at depth `d`.
spec fn path_depth_from(t: Octree, p: Pixel, id: int, d: int) -> int
    decreases 7 - d,
{
    if d >= 7 || !(0 <= id < nn(t)) || slot(t, id, octant_of(p, d)) == -1 {
        d
    } else {
        path_depth_from(t, p, slot(t, id, octant_of(p, d)), d + 1)
    }
}

/// The depth of the deepest node of `t` on the path of `p` from the root.
spec fn path_depth(t: Octree, p: Pixel) -> int {
    path_depth_from(t, p, 0, 0)
}

/// Some pixel of the tree lies in the same leaf cell as `p`.
spec fn has_cell(t: Octree, p: Pixel) -> bool {
    exists|q: Pixel| #[trigger] subw(t, fcnt(q), 0) > 0 && cell_eq(q, p, 7)
}

// ── The arena as values ──────────────────────────────────────────────────────

/// The arena as plain values: its nodes without their ghost records, its
/// lists, and its leaf count.  Every operation of the tree is a function of
/// this value.
type Arena = (Seq<Node>, Seq<Seq<NodeId>>, int);

/// A node without the pixels and cell it records for the proofs.
spec fn erase(n: Node) -> Node {
    Node { pix: Ghost(Seq::empty()), key: Ghost([0u8, 0u8, 0u8]), ..n }
}

spec fn arena(t: Octree) -> Arena {
    (t.nodes@.map_values(|n: Node| erase(n)), Seq::new(7, |d: int| t.reducible[d]@), t.leaf_count as int)
}

/// The index in slot `j` of node `i` of `a`, or -1.
spec fn aslot(a: Arena, i: int, j: int) -> int {
    match a.0[i].children[j] {
        Some(c) => c.0 as int,
        None => -1,
    }
}

/// A new node under `parent`: no pixels, no children, not a leaf, not listed.
spec fn fresh_node(parent: Option<NodeId>) -> Node {
    Node {
        r_sum: 0,
        g_sum: 0,
        b_sum: 0,
        pixel_count: 0,
        is_leaf: false,
        in_reducible: false,
        parent,
        children: [None, None, None, None, None, None, None, None],
        pix: Ghost(Seq::empty()),
        key: Ghost([0u8, 0u8, 0u8]),
    }
}

/// A node as `Node::new` makes it is, without its records, a fresh node.
proof fn lemma_erase_fresh(n: Node)
    requires
        n.r_sum == 0 && n.g_sum == 0 && n.b_sum == 0 && n.pixel_count == 0,
        !n.is_leaf && !n.in_reducible,
        childless(n),
    ensures
        erase(n) == fresh_node(n.parent),
{
    broadcast use vstd::array::group_array_axioms;
    assert(n.children =~= fresh_node(n.parent).children);
}

/// The arena of a new tree: the root alone.
spec fn arena_new() -> Arena {
    (seq![fresh_node(None)], Seq::new(7, |d: int| Seq::<NodeId>::empty()), 0)
}

/// `a` with a new child under `id`, in slot `j` at depth `d`; a node at depth
/// 6 that gets a child is listed if it is not yet.
spec fn a_grow(a: Arena, id: int, j: int, d: int) -> Arena {
    let n = a.0.len() as int;
    let x = a.0[id];
    let x1 = Node { children: vstd::array::spec_array_update(x.children, j, Some(NodeId(n as usize))), ..x };
    let nodes = a.0.push(fresh_node(Some(NodeId(id as usize))));
    if d + 1 == 7 && !x.in_reducible {
        (nodes.update(id, Node { in_reducible: true, ..x1 }), a.1.update(d, a.1[d].push(NodeId(id as usize))), a.2)
    } else {
        (nodes.update(id, x1), a.1, a.2)
    }
}

/// `a` with pixel `p` added to leaf `id`.
spec fn a_add(a: Arena, id: int, p: Pixel) -> Arena {
    let x = a.0[id];
    let x1 = Node {
        r_sum: (x.r_sum + p[0]) as u64,
        g_sum: (x.g_sum + p[1]) as u64,
        b_sum: (x.b_sum + p[2]) as u64,
        pixel_count: (x.pixel_count + 1) as u64,
        is_leaf: true,
        ..x
    };
    (a.0.update(id, x1), a.1, if x.is_leaf { a.2 } else { a.2 + 1 })
}

/// Inserting `p` from node `id` at depth `d`: down the existing path, then
/// new nodes to depth 7, where the leaf takes the pixel.
spec fn a_insert_from(a: Arena, p: Pixel, id: int, d: int) -> Arena
    decreases 7 - d,
{
    if d >= 7 {
        a_add(a, id, p)
    } else {
        let j = octant_of(p, d);
        let c = aslot(a, id, j);
        if c != -1 {
            a_insert_from(a, p, c, d + 1)
        } else {
            a_insert_from(a_grow(a, id, j, d), p, a.0.len() as int, d + 1)
        }
    }
}

spec fn a_insert(a: Arena, p: Pixel) -> Arena {
    a_insert_from(a, p, 0, 0)
}

/// The deepest list among `0..=d` of `a` that is not empty, or -1.
spec fn a_deepest_from(a: Arena, d: int) -> int
    decreases d + 1,
{
    if d < 0 {
        -1
    } else if a.1[d].len() > 0 {
        d
    } else {
        a_deepest_from(a, d - 1)
    }
}

/// The slots among `0..j` of node `x` that hold a leaf, in increasing order.
spec fn a_leaf_slots(a: Arena, x: int, j: int) -> Seq<usize>
    decreases j,
{
    if j <= 0 {
        Seq::empty()
    } else {
        let c = aslot(a, x, j - 1);
        a_leaf_slots(a, x, j - 1) + (if c != -1 && a.0[c].is_leaf { seq![(j - 1) as usize] } else { Seq::empty() })
    }
}

/// The pixel count of the child in slot `j` of `x`.
spec fn a_key(a: Arena, x: int, j: usize) -> int {
    a.0[aslot(a, x, j as int)].pixel_count as int
}

/// Slot `u` of `x` comes before slot `v`: fewer pixels, or as many and an
/// earlier slot.
spec fn a_before(a: Arena, x: int, u: usize, v: usize) -> bool {
    a_key(a, x, u) < a_key(a, x, v) || (a_key(a, x, u) == a_key(a, x, v) && u < v)
}

spec fn a_sorted_by(a: Arena, x: int, r: Seq<usize>) -> bool {
    forall|i: int, j: int| 0 <= i < j < r.len() ==> a_before(a, x, #[trigger] r[i], #[trigger] r[j])
}

/// The slots `s` of `x` ordered by pixel count, equal counts by slot.
spec fn a_sorted(a: Arena, x: int, s: Seq<usize>) -> Seq<usize> {
    choose|r: Seq<usize>| r.to_multiset() == s.to_multiset() && a_sorted_by(a, x, r)
}

/// The sum of `f` over the children of `x` in the slots `0..j` that `s` holds.
spec fn a_msum(a: Arena, f: spec_fn(Node) -> int, x: int, j: int, s: Set<int>) -> int
    decreases j,
{
    if j <= 0 {
        0
    } else {
        a_msum(a, f, x, j - 1, s) + if s.contains(j - 1) && aslot(a, x, j - 1) != -1 {
            f(a.0[aslot(a, x, j - 1)])
        } else {
            0
        }
    }
}

/// `ch` with the slots `0..j` that `s` holds emptied.
spec fn a_clear(ch: [Option<NodeId>; 8], s: Set<int>, j: int) -> [Option<NodeId>; 8]
    decreases j,
{
    if j <= 0 {
        ch
    } else {
        let c = a_clear(ch, s, j - 1);
        if s.contains(j - 1) {
            vstd::array::spec_array_update(c, j - 1, None)
        } else {
            c
        }
    }
}

/// `register(id, d)` took `t1` to `t2`.
spec fn registered(t1: Octree, t2: Octree, id: NodeId, d: int) -> bool {
    &&& t2.nodes@ == t1.nodes@.update(id.0 as int, Node { in_reducible: true, ..t1.nodes@[id.0 as int] })
    &&& t1.nodes@[id.0 as int].in_reducible ==> t2.reducible == t1.reducible
    &&& !t1.nodes@[id.0 as int].in_reducible ==> {
        &&& t2.reducible[d]@ == t1.reducible[d]@.push(id)
        &&& forall|e: int| 0 <= e < 7 && e != d ==> #[trigger] t2.reducible[e] == t1.reducible[e]
    }
    &&& t2.leaf_count == t1.leaf_count
}

/// What `reduce` did to the arena is `a_reduce`.
#[verifier::rlimit(40)]
proof fn lemma_reduce_arena(t0: Octree, ta: Octree, tu: Octree, tp: Octree, tf: Octree, x: int, dd: int,
    l: Seq<usize>, c: int, k: int, called: bool, pid: NodeId)
    requires
        wf(t0),
        wf(ta),
        0 <= dd < 7,
        deepest(t0) == dd,
        t0.reducible[dd]@.len() > 0,
        t0.reducible[dd]@.last().0 == x,
        0 <= x < nn(t0),
        nn(ta) == nn(t0),
        ta.nodes@ == t0.nodes@.update(x, Node { in_reducible: false, ..t0.nodes@[x] }),
        ta.reducible[dd]@ == t0.reducible[dd]@.drop_last(),
        forall|d: int| 0 <= d < 7 && d != dd ==> #[trigger] ta.reducible[d] == t0.reducible[d],
        ta.leaf_count == t0.leaf_count,
        l == a_sorted(arena(ta), x, a_leaf_slots(arena(ta), x, 8)),
        l.len() == a_leaf_slots(arena(ta), x, 8).len(),
        l.len() >= 1,
        ({
            let budget = if t0.leaf_count > k { t0.leaf_count - k } else { 0 };
            let maxm = if nd(ta, x).is_leaf {
                if budget >= 1 { budget } else { 1 }
            } else {
                if budget + 1 <= usize::MAX { budget + 1 } else { usize::MAX as int }
            };
            c == if l.len() <= maxm { l.len() as int } else { maxm }
        }),
        merge_pre(ta, x, l, c),
        merge_post(ta, tu, x, l, c),
        nd(tu, x).parent == nd(ta, x).parent,
        nd(tu, x).pixel_count == nd(ta, x).pixel_count + msum(ta, fpix(), x, 8, slot_set(l, c)),
        nd(tu, x).r_sum == nd(ta, x).r_sum + msum(ta, fr(), x, 8, slot_set(l, c)),
        nd(tu, x).g_sum == nd(ta, x).g_sum + msum(ta, fg(), x, 8, slot_set(l, c)),
        nd(tu, x).b_sum == nd(ta, x).b_sum + msum(ta, fb(), x, 8, slot_set(l, c)),
        called == (dd > 0 && nd(tu, x).parent is Some && !nd(tu, (nd(tu, x).parent->0).0 as int).is_leaf),
        called ==> nd(tu, x).parent == Some(pid) && registered(tu, tp, pid, dd - 1),
        !called ==> tp == tu,
        c < l.len() ==> registered(tp, tf, NodeId(x as usize), dd),
        !(c < l.len()) ==> tf == tp,
    ensures
        arena(tf) == a_reduce(arena(t0), k).0,
        a_reduce(arena(t0), k).1,
{
    broadcast use vstd::array::group_array_axioms;
    reveal(a_reduce);
    lemma_a_deepest(t0, 6);
    let a = arena(t0);
    let id = a.1[dd].last();
    assert(id == t0.reducible[dd]@.last());
    let xn = Node { in_reducible: false, ..a.0[x] };
    let a0: Arena = (a.0.update(x, xn), a.1.update(dd, a.1[dd].drop_last()), a.2);
    assert(arena(ta).0 =~= a0.0) by {
        assert forall|i: int| 0 <= i < nn(ta) implies #[trigger] arena(ta).0[i] == a0.0[i] by {
            if i != x {
                assert(nd(ta, i) == nd(t0, i));
            }
        }
    }
    assert(arena(ta).1 =~= a0.1) by {
        assert forall|e: int| 0 <= e < 7 implies #[trigger] arena(ta).1[e] == a0.1[e] by {
            if e != dd {
                assert(ta.reducible[e] == t0.reducible[e]);
            }
        }
    }
    assert(arena(ta) == a0);
    let s = slot_set(l, c);
    assert forall|n: Node| #[trigger] fr()(erase(n)) == fr()(n) by {}
    assert forall|n: Node| #[trigger] fg()(erase(n)) == fg()(n) by {}
    assert forall|n: Node| #[trigger] fb()(erase(n)) == fb()(n) by {}
    assert forall|n: Node| #[trigger] fpix()(erase(n)) == fpix()(n) by {}
    lemma_msum_arena(ta, fr(), x, 8, s);
    lemma_msum_arena(ta, fg(), x, 8, s);
    lemma_msum_arena(ta, fb(), x, 8, s);
    lemma_msum_arena(ta, fpix(), x, 8, s);
    let x1 = Node {
        r_sum: (xn.r_sum + a_msum(a0, fr(), x, 8, s)) as u64,
        g_sum: (xn.g_sum + a_msum(a0, fg(), x, 8, s)) as u64,
        b_sum: (xn.b_sum + a_msum(a0, fb(), x, 8, s)) as u64,
        pixel_count: (xn.pixel_count + a_msum(a0, fpix(), x, 8, s)) as u64,
        is_leaf: true,
        children: a_clear(xn.children, s, 8),
        ..xn
    };
    assert(erase(nd(tu, x)) == x1) by {
        assert(nd(tu, x).children =~= x1.children) by {
            assert forall|q: int| 0 <= q < 8 implies nd(tu, x).children[q] == #[trigger] x1.children[q] by {
                lemma_a_clear(xn.children, s, 8, q);
                assert(slot(tu, x, q) == (if s.contains(q) { -1 } else { slot(ta, x, q) }));
                assert(xn.children[q] == nd(ta, x).children[q]);
            }
        }
    }
    let nodes1 = a0.0.update(x, x1);
    let lc = a.2 - c + (if xn.is_leaf { 0int } else { 1int });
    assert(arena(tu).0 =~= nodes1) by {
        assert forall|i: int| 0 <= i < nn(tu) implies #[trigger] arena(tu).0[i] == nodes1[i] by {
            if i != x {
                assert(nd(tu, i) == nd(ta, i));
            }
        }
    }
    assert(arena(tu).1 =~= a0.1) by {
        assert forall|e: int| 0 <= e < 7 implies #[trigger] arena(tu).1[e] == a0.1[e] by {}
    }
    assert(arena(tu).2 == lc);
    let pi = match xn.parent {
        Some(pp) => pp.0 as int,
        None => -1,
    };
    let up = dd > 0 && pi >= 0 && !nodes1[pi].is_leaf && !nodes1[pi].in_reducible;
    let nodes2 = if up { nodes1.update(pi, Node { in_reducible: true, ..nodes1[pi] }) } else { nodes1 };
    let lists2 = if up { a0.1.update(dd - 1, a0.1[dd - 1].push(NodeId(pi as usize))) } else { a0.1 };
    if called {
        assert(pi == pid.0);
        assert(0 <= pi < nn(tu));
        assert(arena(tp).0 =~= nodes2) by {
            assert forall|i: int| 0 <= i < nn(tp) implies #[trigger] arena(tp).0[i] == nodes2[i] by {}
        }
        assert(arena(tp).1 =~= lists2) by {
            assert forall|e: int| 0 <= e < 7 implies #[trigger] arena(tp).1[e] == lists2[e] by {
                if !nd(tu, pi).in_reducible && e != dd - 1 {
                    assert(tp.reducible[e] == tu.reducible[e]);
                }
            }
        }
    } else {
        assert(arena(tp).0 =~= nodes2);
        assert(arena(tp).1 =~= lists2);
    }
    let n = l.len() as int;
    if c < n {
        assert(!nd(tp, x).in_reducible);
        assert(arena(tf).0 =~= nodes2.update(x, Node { in_reducible: true, ..nodes2[x] })) by {
            assert forall|i: int| 0 <= i < nn(tf) implies #[trigger] arena(tf).0[i]
                == nodes2.update(x, Node { in_reducible: true, ..nodes2[x] })[i] by {}
        }
        assert(arena(tf).1 =~= lists2.update(dd, lists2[dd].push(id))) by {
            assert forall|e: int| 0 <= e < 7 implies #[trigger] arena(tf).1[e] == lists2.update(dd, lists2[dd].push(id))[e] by {
                if e != dd {
                    assert(tf.reducible[e] == tp.reducible[e]);
                }
            }
        }
    }
}

/// The slots that `reduce` sorts come out as `a_sorted` orders them.
proof fn lemma_reduce_sorted(ta: Octree, x: int, l: Seq<usize>, unsorted: Seq<usize>, keys: [u64; 8])
    requires
        wf(ta),
        0 <= x < nn(ta),
        l.no_duplicates(),
        l.to_multiset() == unsorted.to_multiset(),
        forall|a: int, b: int| 0 <= a < b < l.len() ==> slot_le(keys, #[trigger] l[a], #[trigger] l[b]),
        forall|q: int| 0 <= q < l.len() ==> slot(ta, x, #[trigger] l[q] as int) != -1,
        forall|jj: int| 0 <= jj < 8 && slot(ta, x, jj) != -1 ==> #[trigger] keys[jj] == nd(ta, slot(ta, x, jj)).pixel_count,
        forall|q: int| 0 <= q < l.len() ==> #[trigger] l[q] < 8,
    ensures
        l == a_sorted(arena(ta), x, unsorted),
{
    let a0 = arena(ta);
    assert forall|i: int, j: int| 0 <= i < j < l.len() implies a_before(a0, x, #[trigger] l[i], #[trigger] l[j]) by {
        assert(slot_le(keys, l[i], l[j]));
        assert(l[i] != l[j]);
        assert(aslot(a0, x, l[i] as int) == slot(ta, x, l[i] as int));
        assert(aslot(a0, x, l[j] as int) == slot(ta, x, l[j] as int));
        assert(keys[l[i] as int] == nd(ta, slot(ta, x, l[i] as int)).pixel_count);
        assert(keys[l[j] as int] == nd(ta, slot(ta, x, l[j] as int)).pixel_count);
        assert(a0.0[slot(ta, x, l[i] as int)] == erase(nd(ta, slot(ta, x, l[i] as int))));
        assert(a0.0[slot(ta, x, l[j] as int)] == erase(nd(ta, slot(ta, x, l[j] as int))));
    }
    let r = a_sorted(a0, x, unsorted);
    assert(l.to_multiset() == unsorted.to_multiset() && a_sorted_by(a0, x, l));
    assert(r.to_multiset() == unsorted.to_multiset() && a_sorted_by(a0, x, r));
    lemma_sorted_unique(a0, x, r, l);
}

/// One reduction of `a` towards `k` leaves, and whether a node was listed:
/// the last node of the deepest non-empty list takes in its leaf children
/// with the fewest pixels (equal counts in slot order), as many as the leaf
/// count allows, becomes a leaf, is listed again while it keeps children,
/// and lists its parent when that is neither a leaf nor listed.
#[verifier::opaque]
spec fn a_reduce(a: Arena, k: int) -> (Arena, bool) {
    let d = a_deepest_from(a, 6);
    if d == -1 {
        (a, false)
    } else {
        let id = a.1[d].last();
        let x = id.0 as int;
        let xn = Node { in_reducible: false, ..a.0[x] };
        let a0: Arena = (a.0.update(x, xn), a.1.update(d, a.1[d].drop_last()), a.2);
        let ls = a_leaf_slots(a0, x, 8);
        if ls.len() == 0 {
            (a0, true)
        } else {
            let srt = a_sorted(a0, x, ls);
            let n = ls.len() as int;
            let budget = if a.2 > k { a.2 - k } else { 0 };
            let maxm = if xn.is_leaf {
                if budget >= 1 { budget } else { 1 }
            } else {
                if budget + 1 <= usize::MAX { budget + 1 } else { usize::MAX as int }
            };
            let c = if n <= maxm { n } else { maxm };
            let s = slot_set(srt, c);
            let x1 = Node {
                r_sum: (xn.r_sum + a_msum(a0, fr(), x, 8, s)) as u64,
                g_sum: (xn.g_sum + a_msum(a0, fg(), x, 8, s)) as u64,
                b_sum: (xn.b_sum + a_msum(a0, fb(), x, 8, s)) as u64,
                pixel_count: (xn.pixel_count + a_msum(a0, fpix(), x, 8, s)) as u64,
                is_leaf: true,
                children: a_clear(xn.children, s, 8),
                ..xn
            };
            let nodes1 = a0.0.update(x, x1);
            let lc = a.2 - c + (if xn.is_leaf { 0int } else { 1int });
            let pi = match xn.parent {
                Some(pp) => pp.0 as int,
                None => -1,
            };
            let up = d > 0 && pi >= 0 && !nodes1[pi].is_leaf && !nodes1[pi].in_reducible;
            let nodes2 = if up { nodes1.update(pi, Node { in_reducible: true, ..nodes1[pi] }) } else { nodes1 };
            let lists2 = if up { a0.1.update(d - 1, a0.1[d - 1].push(NodeId(pi as usize))) } else { a0.1 };
            if c < n {
                ((nodes2.update(x, Node { in_reducible: true, ..nodes2[x] }), lists2.update(d, lists2[d].push(id)), lc), true)
            } else {
                ((nodes2, lists2, lc), true)
            }
        }
    }
}

proof fn lemma_a_deepest(t: Octree, d: int)
    requires
        d <= 6,
    ensures
        a_deepest_from(arena(t), d) == deepest_from(t, d),
    decreases d + 1,
{
    if d >= 0 {
        lemma_a_deepest(t, d - 1);
    }
}

/// Two orderings of the same slots by `a_before` are one.
proof fn lemma_sorted_unique(a: Arena, x: int, r1: Seq<usize>, r2: Seq<usize>)
    requires
        r1.to_multiset() == r2.to_multiset(),
        a_sorted_by(a, x, r1),
        a_sorted_by(a, x, r2),
    ensures
        r1 == r2,
    decreases r1.len(),
{
    broadcast use vstd::seq_lib::group_to_multiset_ensures;
    broadcast use vstd::multiset::group_multiset_axioms;
    r1.to_multiset_ensures();
    r2.to_multiset_ensures();
    if r1.len() == 0 {
        assert(r2.len() == 0);
        assert(r1 =~= r2);
    } else {
        let n = r1.len() as int;
        assert(r2.len() == n);
        let m1 = r1.last();
        let m2 = r2.last();
        assert(r2.to_multiset().count(m1) > 0);
        assert(r2.contains(m1));
        let i2 = choose|i: int| 0 <= i < n && r2[i] == m1;
        assert(r1.to_multiset().count(m2) > 0);
        assert(r1.contains(m2));
        let i1 = choose|i: int| 0 <= i < n && r1[i] == m2;
        if i2 < n - 1 {
            assert(a_before(a, x, r2[i2], r2[n - 1]));
            if i1 < n - 1 {
                assert(a_before(a, x, r1[i1], r1[n - 1]));
            }
        }
        assert(m1 == m2);
        let d1 = r1.drop_last();
        let d2 = r2.drop_last();
        assert(r1 =~= d1.push(m1));
        assert(r2 =~= d2.push(m1));
        assert(d1.to_multiset() =~= d2.to_multiset()) by {
            d1.to_multiset_ensures();
            d2.to_multiset_ensures();
            assert(r1.to_multiset() == d1.to_multiset().insert(m1));
            assert(r2.to_multiset() == d2.to_multiset().insert(m1));
            assert forall|v: usize| #[trigger] d1.to_multiset().count(v) == d2.to_multiset().count(v) by {
                assert(d1.to_multiset().insert(m1).count(v) == d2.to_multiset().insert(m1).count(v));
            }
        }
        lemma_sorted_unique(a, x, d1, d2);
    }
}

/// The emptied children: exactly the slots in `s` are empty.
proof fn lemma_a_clear(ch: [Option<NodeId>; 8], s: Set<int>, j: int, q: int)
    requires
        0 <= q < 8,
        0 <= j <= 8,
    ensures
        a_clear(ch, s, j)[q] == (if q < j && s.contains(q) { None } else { ch[q] }),
    decreases j,
{
    broadcast use vstd::array::group_array_axioms;
    if j > 0 {
        lemma_a_clear(ch, s, j - 1, q);
        let c = a_clear(ch, s, j - 1);
        if s.contains(j - 1) {
            assert(vstd::array::spec_array_update(c, j - 1, None)@ == c@.update(j - 1, None));
            assert(vstd::array::spec_array_update(c, j - 1, None)[q] == vstd::array::spec_array_update(c, j - 1, None)@[q]);
        }
    }
}

/// Over childless children, the subtree sums of the tree are the node sums
/// of the arena.
proof fn lemma_msum_arena(t: Octree, f: spec_fn(Node) -> int, x: int, j: int, s: Set<int>)
    requires
        wf(t),
        0 <= x < nn(t),
        j <= 8,
        forall|n: Node| #[trigger] f(erase(n)) == f(n),
        forall|jj: int| 0 <= jj < 8 && s.contains(jj) && #[trigger] slot(t, x, jj) != -1 ==> childless(nd(t, slot(t, x, jj))),
    ensures
        msum(t, f, x, j, s) == a_msum(arena(t), f, x, j, s),
    decreases j,
{
    if j > 0 {
        lemma_msum_arena(t, f, x, j - 1, s);
        let c = slot(t, x, j - 1);
        assert(aslot(arena(t), x, j - 1) == c);
        if s.contains(j - 1) && c != -1 {
            lemma_csum_childless(t, f, c, 8);
            assert(arena(t).0[c] == erase(nd(t, c)));
        }
    }
}

// ── Invariants ───────────────────────────────────────────────────────────────

/// The arena is a forest whose edges go from lower to higher indices.
spec fn wf(t: Octree) -> bool {
    &&& nn(t) >= 1
    &&& t.root == NodeId(0)
    &&& t.depth@.len() == nn(t)
    &&& dep(t, 0) == 0
    &&& nd(t, 0).parent is None
    &&& forall|i: int| 0 <= i < nn(t) ==> 0 <= #[trigger] dep(t, i) <= 7
    &&& forall|i: int, j: int|
        0 <= i < nn(t) && 0 <= j < 8 && #[trigger] slot(t, i, j) != -1 ==> {
            let c = slot(t, i, j);
            &&& i < c < nn(t)
            &&& parent_of(t, c) == i
            &&& dep(t, c) == dep(t, i) + 1
        }
    &&& forall|i: int, j1: int, j2: int|
        0 <= i < nn(t) && 0 <= j1 < 8 && 0 <= j2 < 8 && j1 != j2 && #[trigger] slot(t, i, j1) != -1
            ==> slot(t, i, j1) != #[trigger] slot(t, i, j2)
    &&& forall|x: int|
        0 < x < nn(t) ==> {
            let p = #[trigger] parent_of(t, x);
            &&& 0 <= p < x
            &&& dep(t, x) == dep(t, p) + 1
        }
    &&& forall|i: int| 0 <= i < nn(t) && dep(t, i) == 7 ==> childless(#[trigger] nd(t, i))
}

/// What every node of the arena satisfies once `m` pixels are inserted.
spec fn node_ok(n: Node, m: int) -> bool {
    &&& !n.is_leaf ==> n.pixel_count == 0 && n.r_sum == 0 && n.g_sum == 0 && n.b_sum == 0
    &&& n.is_leaf ==> n.pixel_count > 0
    &&& n.r_sum <= 255 * n.pixel_count
    &&& n.g_sum <= 255 * n.pixel_count
    &&& n.b_sum <= 255 * n.pixel_count
    &&& n.pixel_count <= m
}

spec fn nodes_ok(t: Octree, m: int) -> bool {
    forall|i: int| 0 <= i < nn(t) ==> node_ok(#[trigger] nd(t, i), m)
}

/// The reducible lists hold each registered node once, at its depth.
spec fn lists_ok(t: Octree) -> bool {
    &&& forall|d: int, q: int|
        0 <= d < 7 && 0 <= q < t.reducible[d]@.len() ==> {
            let x = (#[trigger] t.reducible[d]@[q]).0 as int;
            &&& 0 <= x < nn(t)
            &&& dep(t, x) == d
            &&& nd(t, x).in_reducible
            &&& reach(t, x)
            &&& (!nd(t, x).is_leaf || has_child(nd(t, x)))
        }
    &&& forall|d: int, q1: int, q2: int|
        0 <= d < 7 && 0 <= q1 < t.reducible[d]@.len() && 0 <= q2 < t.reducible[d]@.len() && q1 != q2
            ==> #[trigger] t.reducible[d]@[q1] != #[trigger] t.reducible[d]@[q2]
    &&& forall|x: int|
        0 <= x < nn(t) && (#[trigger] nd(t, x)).in_reducible ==> {
            &&& dep(t, x) < 7
            &&& listed(t, dep(t, x), x)
        }
}

/// Node `x` stands in the list of depth `d`.
spec fn listed(t: Octree, d: int, x: int) -> bool {
    exists|q: int| 0 <= q < t.reducible[d]@.len() && (#[trigger] t.reducible[d]@[q]).0 == x
}

// ── Lemmas on the subtree weights ────────────────────────────────────────────

proof fn lemma_anc_le(t: Octree, x: int, i: int)
    requires
        anc(t, x, i),
    ensures
        i <= x,
    decreases x,
{
    if x != i {
        let p = parent_of(t, x);
        lemma_anc_le(t, p, i);
    }
}

/// A child's chain passes through its parent.
proof fn lemma_anc_step(t: Octree, x: int, c: int, i: int)
    requires
        wf(t),
        0 <= i < c < nn(t),
        parent_of(t, c) == i,
        anc(t, x, c),
    ensures
        anc(t, x, i),
    decreases x,
{
    if x == c {
        assert(anc(t, i, i));
    } else {
        lemma_anc_le(t, x, c);
        let p = parent_of(t, x);
        lemma_anc_step(t, p, c, i);
    }
}

/// A chain passes through at most one child of a node.
proof fn lemma_anc_unique(t: Octree, x: int, c1: int, c2: int, i: int)
    requires
        wf(t),
        0 <= i < c1 < nn(t),
        0 <= i < c2 < nn(t),
        parent_of(t, c1) == i,
        parent_of(t, c2) == i,
        anc(t, x, c1),
        anc(t, x, c2),
    ensures
        c1 == c2,
    decreases x,
{
    if x == c1 {
        if c1 != c2 {
            lemma_anc_le(t, x, c2);
            lemma_anc_le(t, i, c2);
        }
    } else if x == c2 {
        lemma_anc_le(t, x, c1);
        lemma_anc_le(t, i, c1);
    } else {
        lemma_anc_le(t, x, c1);
        let p = parent_of(t, x);
        lemma_anc_unique(t, p, c1, c2, i);
    }
}

/// An attached node's chain enters every node on it through a slot.
proof fn lemma_chain_child(t: Octree, x: int, i: int) -> (j: int)
    requires
        wf(t),
        reach(t, x),
        anc(t, x, i),
        x != i,
    ensures
        0 <= j < 8,
        i < slot(t, i, j) < nn(t),
        anc(t, x, slot(t, i, j)),
    decreases x,
{
    lemma_anc_le(t, x, i);
    let p = parent_of(t, x);
    if p == i {
        let j = choose|j: int| 0 <= j < 8 && #[trigger] slot(t, i, j) == x;
        j
    } else {
        lemma_chain_child(t, p, i)
    }
}

/// The arena `t2` agrees with `t1` but at node `x` (its weight and children).
spec fn same_but(t1: Octree, t2: Octree, f: spec_fn(Node) -> int, x: int) -> bool {
    &&& nn(t1) == nn(t2)
    &&& forall|y: int| 0 <= y < nn(t1) ==> parent_of(t1, y) == #[trigger] parent_of(t2, y)
    &&& forall|y: int, j: int|
        0 <= y < nn(t1) && y != x && 0 <= j < 8 ==> #[trigger] slot(t1, y, j) == slot(t2, y, j)
    &&& forall|y: int| 0 <= y < nn(t1) && y != x ==> f(#[trigger] nd(t1, y)) == f(nd(t2, y))
}

/// Changing one node changes the weight of exactly the subtrees that contain it.
proof fn lemma_sub_delta(t1: Octree, t2: Octree, f: spec_fn(Node) -> int, x: int, i: int)
    requires
        wf(t1),
        same_but(t1, t2, f, x),
        reach(t1, x),
        0 <= i < nn(t1),
    ensures
        subw(t2, f, i) - subw(t1, f, i) == (if anc(t1, x, i) {
            subw(t2, f, x) - subw(t1, f, x)
        } else {
            0
        }),
    decreases nn(t1) - i, 1int,
{
    if i != x {
        lemma_csum_delta(t1, t2, f, x, i, 8);
        if anc(t1, x, i) {
            let jc = lemma_chain_child(t1, x, i);
            let c = slot(t1, i, jc);
            lemma_csum_one(t1, t2, f, x, i, 8, jc);
        } else {
            lemma_csum_none(t1, t2, f, x, i, 8);
        }
    }
}

/// The change of `csum` at `i != x`, slot by slot.
proof fn lemma_csum_delta(t1: Octree, t2: Octree, f: spec_fn(Node) -> int, x: int, i: int, j: int)
    requires
        wf(t1),
        same_but(t1, t2, f, x),
        reach(t1, x),
        0 <= i < nn(t1),
        i != x,
        0 <= j <= 8,
    ensures
        forall|k: int| 0 <= k < j ==> {
            let c = #[trigger] slot(t1, i, k);
            sv(t2, f, i, k) - sv(t1, f, i, k) == (if i < c < nn(t1) && anc(t1, x, c) {
                subw(t2, f, x) - subw(t1, f, x)
            } else {
                0
            })
        },
    decreases nn(t1) - i, 0int, j,
{
    if j > 0 {
        lemma_csum_delta(t1, t2, f, x, i, j - 1);
        let c = slot(t1, i, j - 1);
        assert(slot(t2, i, j - 1) == c);
        if i < c < nn(t1) {
            lemma_sub_delta(t1, t2, f, x, c);
        }
    }
}

/// With the chain entering `i` through slot `jc`, `csum` changes by the change at `x`.
proof fn lemma_csum_one(t1: Octree, t2: Octree, f: spec_fn(Node) -> int, x: int, i: int, j: int, jc: int)
    requires
        wf(t1),
        same_but(t1, t2, f, x),
        0 <= i < nn(t1),
        i != x,
        0 <= j <= 8,
        0 <= jc < 8,
        i < slot(t1, i, jc) < nn(t1),
        anc(t1, x, slot(t1, i, jc)),
        forall|k: int| 0 <= k < 8 ==> {
            let c = #[trigger] slot(t1, i, k);
            sv(t2, f, i, k) - sv(t1, f, i, k) == (if i < c < nn(t1) && anc(t1, x, c) {
                subw(t2, f, x) - subw(t1, f, x)
            } else {
                0
            })
        },
    ensures
        csum(t2, f, i, j) - csum(t1, f, i, j) == (if j > jc {
            subw(t2, f, x) - subw(t1, f, x)
        } else {
            0
        }),
    decreases j,
{
    if j > 0 {
        lemma_csum_one(t1, t2, f, x, i, j - 1, jc);
        let c = slot(t1, i, j - 1);
        let cc = slot(t1, i, jc);
        if j - 1 != jc && i < c < nn(t1) && anc(t1, x, c) {
            lemma_anc_unique(t1, x, c, cc, i);
        }
    }
}

/// With no chain through `i`, `csum` does not change.
proof fn lemma_csum_none(t1: Octree, t2: Octree, f: spec_fn(Node) -> int, x: int, i: int, j: int)
    requires
        wf(t1),
        same_but(t1, t2, f, x),
        0 <= i < nn(t1),
        !anc(t1, x, i),
        0 <= j <= 8,
        forall|k: int| 0 <= k < 8 ==> {
            let c = #[trigger] slot(t1, i, k);
            sv(t2, f, i, k) - sv(t1, f, i, k) == (if i < c < nn(t1) && anc(t1, x, c) {
                subw(t2, f, x) - subw(t1, f, x)
            } else {
                0
            })
        },
    ensures
        csum(t2, f, i, j) == csum(t1, f, i, j),
    decreases j,
{
    if j > 0 {
        lemma_csum_none(t1, t2, f, x, i, j - 1);
        let c = slot(t1, i, j - 1);
        if i < c < nn(t1) && anc(t1, x, c) {
            lemma_anc_step(t1, x, c, i);
        }
    }
}


/// A childless node weighs no more than itself.
proof fn lemma_csum_childless(t: Octree, f: spec_fn(Node) -> int, i: int, j: int)
    requires
        0 <= i < nn(t),
        childless(nd(t, i)),
        0 <= j <= 8,
    ensures
        csum(t, f, i, j) == 0,
    decreases j,
{
    if j > 0 {
        lemma_csum_childless(t, f, i, j - 1);
        assert(csum(t, f, i, j) == csum(t, f, i, j - 1) + sv(t, f, i, j - 1));
        assert(nd(t, i).children[j - 1] is None);
    }
}

proof fn lemma_subw_nonneg(t: Octree, f: spec_fn(Node) -> int, i: int)
    requires
        forall|n: Node| #[trigger] f(n) >= 0,
    ensures
        subw(t, f, i) >= 0,
    decreases nn(t) - i, 1int,
{
    if 0 <= i < nn(t) {
        lemma_csum_nonneg(t, f, i, 8);
    }
}

proof fn lemma_csum_nonneg(t: Octree, f: spec_fn(Node) -> int, i: int, j: int)
    requires
        forall|n: Node| #[trigger] f(n) >= 0,
        0 <= i < nn(t),
        0 <= j <= 8,
    ensures
        csum(t, f, i, j) >= 0,
    decreases nn(t) - i, 0int, j,
{
    if j > 0 {
        lemma_csum_nonneg(t, f, i, j - 1);
        assert(csum(t, f, i, j) == csum(t, f, i, j - 1) + sv(t, f, i, j - 1));
        let c = slot(t, i, j - 1);
        if i < c < nn(t) {
            lemma_subw_nonneg(t, f, c);
        }
    }
}

/// A weighing that is pointwise no heavier gives no heavier subtrees.
proof fn lemma_subw_mono(t: Octree, f: spec_fn(Node) -> int, g: spec_fn(Node) -> int, i: int)
    requires
        forall|n: Node| #[trigger] f(n) <= g(n),
    ensures
        subw(t, f, i) <= subw(t, g, i),
    decreases nn(t) - i, 1int,
{
    if 0 <= i < nn(t) {
        lemma_csum_mono(t, f, g, i, 8);
    }
}

proof fn lemma_csum_mono(t: Octree, f: spec_fn(Node) -> int, g: spec_fn(Node) -> int, i: int, j: int)
    requires
        forall|n: Node| #[trigger] f(n) <= g(n),
        0 <= i < nn(t),
        0 <= j <= 8,
    ensures
        csum(t, f, i, j) <= csum(t, g, i, j),
    decreases nn(t) - i, 0int, j,
{
    if j > 0 {
        lemma_csum_mono(t, f, g, i, j - 1);
        assert(csum(t, f, i, j) == csum(t, f, i, j - 1) + sv(t, f, i, j - 1));
        assert(csum(t, g, i, j) == csum(t, g, i, j - 1) + sv(t, g, i, j - 1));
        let c = slot(t, i, j - 1);
        if i < c < nn(t) {
            lemma_subw_mono(t, f, g, c);
        }
    }
}

/// A child's subtree weighs no more than its parent's.
proof fn lemma_csum_ge_slot(t: Octree, f: spec_fn(Node) -> int, i: int, j: int, k: int)
    requires
        forall|n: Node| #[trigger] f(n) >= 0,
        0 <= i < nn(t),
        0 <= k < j <= 8,
    ensures
        csum(t, f, i, j) >= sv(t, f, i, k),
    decreases j,
{
    lemma_csum_nonneg(t, f, i, j - 1);
    assert(csum(t, f, i, j) == csum(t, f, i, j - 1) + sv(t, f, i, j - 1));
    if k < j - 1 {
        lemma_csum_ge_slot(t, f, i, j - 1, k);
    }
    let c = slot(t, i, j - 1);
    if i < c < nn(t) {
        lemma_subw_nonneg(t, f, c);
    }
}

/// An attached node's subtree weighs no more than the whole tree.
proof fn lemma_subw_le_root(t: Octree, f: spec_fn(Node) -> int, x: int)
    requires
        wf(t),
        reach(t, x),
        forall|n: Node| #[trigger] f(n) >= 0,
    ensures
        subw(t, f, x) <= subw(t, f, 0),
    decreases x,
{
    if x > 0 {
        let p = parent_of(t, x);
        let j = choose|j: int| 0 <= j < 8 && #[trigger] slot(t, p, j) == x;
        lemma_csum_ge_slot(t, f, p, 8, j);
        lemma_subw_le_root(t, f, p);
    }
}

/// Every node's chain leads to the root.
proof fn lemma_anc_root(t: Octree, x: int)
    requires
        wf(t),
        0 <= x < nn(t),
    ensures
        anc(t, x, 0),
    decreases x,
{
    if x > 0 {
        lemma_anc_root(t, parent_of(t, x));
    }
}

/// Pushing a node that no slot holds leaves every weight as it was.
proof fn lemma_ext_subw(t1: Octree, t2: Octree, f: spec_fn(Node) -> int, i: int)
    requires
        wf(t1),
        nn(t2) == nn(t1) + 1,
        forall|y: int| 0 <= y < nn(t1) ==> #[trigger] nd(t2, y) == nd(t1, y),
        0 <= i < nn(t1),
    ensures
        subw(t2, f, i) == subw(t1, f, i),
    decreases nn(t1) - i, 1int,
{
    lemma_ext_csum(t1, t2, f, i, 8);
}

proof fn lemma_ext_csum(t1: Octree, t2: Octree, f: spec_fn(Node) -> int, i: int, j: int)
    requires
        wf(t1),
        nn(t2) == nn(t1) + 1,
        forall|y: int| 0 <= y < nn(t1) ==> #[trigger] nd(t2, y) == nd(t1, y),
        0 <= i < nn(t1),
        0 <= j <= 8,
    ensures
        csum(t2, f, i, j) == csum(t1, f, i, j),
    decreases nn(t1) - i, 0int, j,
{
    if j > 0 {
        lemma_ext_csum(t1, t2, f, i, j - 1);
        assert(csum(t1, f, i, j) == csum(t1, f, i, j - 1) + sv(t1, f, i, j - 1));
        assert(csum(t2, f, i, j) == csum(t2, f, i, j - 1) + sv(t2, f, i, j - 1));
        let c = slot(t1, i, j - 1);
        assert(nd(t2, i) == nd(t1, i));
        assert(slot(t2, i, j - 1) == c);
        if i < c < nn(t1) {
            lemma_ext_subw(t1, t2, f, c);
        }
    }
}

/// Changing one slot of `x` changes its weight by the change in that slot.
proof fn lemma_slot_change(t1: Octree, t2: Octree, f: spec_fn(Node) -> int, x: int, s: int)
    requires
        wf(t1),
        same_but(t1, t2, f, x),
        reach(t1, x),
        0 <= x < nn(t1),
        0 <= s < 8,
        f(nd(t2, x)) == f(nd(t1, x)),
        forall|k: int| 0 <= k < 8 && k != s ==> #[trigger] slot(t2, x, k) == slot(t1, x, k),
    ensures
        subw(t2, f, x) - subw(t1, f, x) == sv(t2, f, x, s) - sv(t1, f, x, s),
{
    assert forall|k: int| 0 <= k < 8 && k != s implies #[trigger] sv(t2, f, x, k) == sv(t1, f, x, k) by {
        let c = slot(t1, x, k);
        if x < c < nn(t1) {
            lemma_sub_delta(t1, t2, f, x, c);
            if anc(t1, x, c) {
                lemma_anc_le(t1, x, c);
            }
        }
    }
    lemma_csum_slot(t1, t2, f, x, s, 8);
}

proof fn lemma_csum_slot(t1: Octree, t2: Octree, f: spec_fn(Node) -> int, x: int, s: int, j: int)
    requires
        nn(t1) == nn(t2),
        0 <= x < nn(t1),
        0 <= s < 8,
        0 <= j <= 8,
        forall|k: int| 0 <= k < 8 && k != s ==> #[trigger] sv(t2, f, x, k) == sv(t1, f, x, k),
    ensures
        csum(t2, f, x, j) - csum(t1, f, x, j) == (if j > s {
            sv(t2, f, x, s) - sv(t1, f, x, s)
        } else {
            0
        }),
    decreases j,
{
    if j > 0 {
        lemma_csum_slot(t1, t2, f, x, s, j - 1);
        assert(csum(t2, f, x, j) == csum(t2, f, x, j - 1) + sv(t2, f, x, j - 1));
        assert(csum(t1, f, x, j) == csum(t1, f, x, j - 1) + sv(t1, f, x, j - 1));
        if j - 1 != s {
            assert(sv(t2, f, x, j - 1) == sv(t1, f, x, j - 1));
        }
    }
}

/// Filling empty slots keeps every attached node attached.
proof fn lemma_reach_grow(t1: Octree, t2: Octree, y: int)
    requires
        reach(t1, y),
        nn(t1) <= nn(t2),
        forall|z: int| 0 <= z < nn(t1) ==> parent_of(t1, z) == #[trigger] parent_of(t2, z),
        forall|z: int, j: int|
            0 <= z < nn(t1) && 0 <= j < 8 && #[trigger] slot(t1, z, j) != -1 ==> slot(t2, z, j) == slot(t1, z, j),
    ensures
        reach(t2, y),
    decreases y,
{
    if y > 0 {
        let p = parent_of(t1, y);
        let j = choose|j: int| 0 <= j < 8 && #[trigger] slot(t1, p, j) == y;
        assert(slot(t2, p, j) == y);
        lemma_reach_grow(t1, t2, p);
    }
}


/// Two arenas with the same shape and weights weigh the same everywhere.
proof fn lemma_subw_frame(t1: Octree, t2: Octree, f: spec_fn(Node) -> int, i: int)
    requires
        nn(t1) == nn(t2),
        forall|y: int, j: int| 0 <= y < nn(t1) && 0 <= j < 8 ==> #[trigger] slot(t1, y, j) == slot(t2, y, j),
        forall|y: int| 0 <= y < nn(t1) ==> f(#[trigger] nd(t1, y)) == f(nd(t2, y)),
    ensures
        subw(t2, f, i) == subw(t1, f, i),
    decreases nn(t1) - i, 1int,
{
    if 0 <= i < nn(t1) {
        lemma_csum_frame(t1, t2, f, i, 8);
    }
}

proof fn lemma_csum_frame(t1: Octree, t2: Octree, f: spec_fn(Node) -> int, i: int, j: int)
    requires
        nn(t1) == nn(t2),
        forall|y: int, j: int| 0 <= y < nn(t1) && 0 <= j < 8 ==> #[trigger] slot(t1, y, j) == slot(t2, y, j),
        forall|y: int| 0 <= y < nn(t1) ==> f(#[trigger] nd(t1, y)) == f(nd(t2, y)),
        0 <= i < nn(t1),
        0 <= j <= 8,
    ensures
        csum(t2, f, i, j) == csum(t1, f, i, j),
    decreases nn(t1) - i, 0int, j,
{
    if j > 0 {
        lemma_csum_frame(t1, t2, f, i, j - 1);
        assert(csum(t1, f, i, j) == csum(t1, f, i, j - 1) + sv(t1, f, i, j - 1));
        assert(csum(t2, f, i, j) == csum(t2, f, i, j - 1) + sv(t2, f, i, j - 1));
        let c = slot(t1, i, j - 1);
        if i < c < nn(t1) {
            lemma_subw_frame(t1, t2, f, c);
        }
    }
}

/// Pushing a fresh childless child of `x` keeps the arena well formed.
/// A positive weight of some children comes from one child slot.
proof fn lemma_csum_pos_slot(t: Octree, f: spec_fn(Node) -> int, i: int, j: int) -> (k: int)
    requires
        csum(t, f, i, j) > 0,
    ensures
        0 <= k < j,
        sv(t, f, i, k) > 0,
    decreases j,
{
    if j <= 0 || !(0 <= i < nn(t)) {
        assert(csum(t, f, i, j) == 0);
        0
    } else if sv(t, f, i, j - 1) > 0 {
        j - 1
    } else {
        lemma_csum_pos_slot(t, f, i, j - 1)
    }
}

/// A pixel held below node `c` lies in the cell of `c`.
proof fn lemma_subtree_key(t: Octree, c: int, q: Pixel)
    requires
        wf(t),
        keys_ok(t),
        0 <= c < nn(t),
        subw(t, fcnt(q), c) > 0,
    ensures
        cell_eq(q, nd(t, c).key@, dep(t, c)),
    decreases nn(t) - c,
{
    broadcast use vstd::seq_lib::group_to_multiset_ensures;
    let f = fcnt(q);
    if f(nd(t, c)) > 0 {
        let pix = nd(t, c).pix@;
        assert(pix.to_multiset().count(q) > 0);
        assert(pix.contains(q));
        let r = choose|r: int| 0 <= r < pix.len() && pix[r] == q;
        assert(cell_eq(nd(t, c).pix@[r], nd(t, c).key@, dep(t, c)));
    } else {
        let k = lemma_csum_pos_slot(t, f, c, 8);
        let c2 = slot(t, c, k);
        assert(c < c2 < nn(t));
        lemma_subtree_key(t, c2, q);
        assert(dep(t, c2) == dep(t, c) + 1);
        assert(cell_eq(nd(t, c2).key@, nd(t, c).key@, dep(t, c)));
        assert forall|e: int| 0 <= e < dep(t, c) implies #[trigger] octant_of(q, e) == octant_of(nd(t, c).key@, e) by {
            assert(octant_of(q, e) == octant_of(nd(t, c2).key@, e));
        }
    }
}

/// Below a node that holds none of the pixel `q` itself, `q` lies in the
/// child in the slot that `q` takes.
proof fn lemma_descend(t: Octree, i: int, q: Pixel)
    requires
        wf(t),
        keys_ok(t),
        0 <= i < nn(t),
        fcnt(q)(nd(t, i)) == 0,
        subw(t, fcnt(q), i) > 0,
    ensures
        i < slot(t, i, octant_of(q, dep(t, i))) < nn(t),
        subw(t, fcnt(q), slot(t, i, octant_of(q, dep(t, i)))) > 0,
{
    let f = fcnt(q);
    let k = lemma_csum_pos_slot(t, f, i, 8);
    let c2 = slot(t, i, k);
    assert(i < c2 < nn(t));
    lemma_subtree_key(t, c2, q);
    assert(dep(t, c2) == dep(t, i) + 1);
    assert(octant_of(q, dep(t, i)) == octant_of(nd(t, c2).key@, dep(t, i)));
}

/// Hanging a new empty node into the free slot `idx` of `x` leaves the
/// pixels below the root as they were.
proof fn lemma_grow_counts(t0: Octree, t1: Octree, t2: Octree, x: int, c: int, idx: int)
    requires
        wf(t0),
        wf(t1),
        nn(t1) == nn(t0) + 1,
        c == nn(t0),
        forall|y: int| 0 <= y < nn(t0) ==> #[trigger] nd(t1, y) == nd(t0, y),
        nn(t2) == nn(t1),
        0 <= x < nn(t0),
        reach(t1, x),
        0 <= idx < 8,
        forall|y: int| 0 <= y < nn(t1) && y != x ==> #[trigger] nd(t2, y) == nd(t1, y),
        nd(t2, x).pix == nd(t1, x).pix,
        nd(t2, x).parent == nd(t1, x).parent,
        forall|k: int| 0 <= k < 8 && k != idx ==> #[trigger] slot(t2, x, k) == slot(t1, x, k),
        slot(t1, x, idx) == -1,
        slot(t2, x, idx) == c,
        childless(nd(t1, c)),
        nd(t1, c).pix@ == Seq::<Pixel>::empty(),
    ensures
        forall|v: Pixel| #[trigger] subw(t2, fcnt(v), 0) == subw(t0, fcnt(v), 0),
{
    assert forall|v: Pixel| #[trigger] subw(t2, fcnt(v), 0) == subw(t0, fcnt(v), 0) by {
        broadcast use vstd::seq_lib::group_to_multiset_ensures;
        let f = fcnt(v);
        lemma_ext_subw(t0, t1, f, 0);
        assert forall|y: int| 0 <= y < nn(t1) implies parent_of(t1, y) == #[trigger] parent_of(t2, y) by {
            if y != x {
                assert(nd(t2, y) == nd(t1, y));
            }
        }
        assert forall|y: int, j: int| 0 <= y < nn(t1) && y != x && 0 <= j < 8
            implies #[trigger] slot(t1, y, j) == slot(t2, y, j) by {
            assert(nd(t2, y) == nd(t1, y));
        }
        assert forall|y: int| 0 <= y < nn(t1) && y != x implies f(#[trigger] nd(t1, y)) == f(nd(t2, y)) by {
            assert(nd(t2, y) == nd(t1, y));
        }
        assert(same_but(t1, t2, f, x));
        assert(nd(t2, c) == nd(t1, c));
        assert(nd(t1, c).pix@.to_multiset() =~= Multiset::<Pixel>::empty());
        lemma_csum_childless(t2, f, c, 8);
        lemma_slot_change(t1, t2, f, x, idx);
        lemma_sub_delta(t1, t2, f, x, 0);
    }
}

/// Hanging a new node keyed by `p` into the slot `p` takes below `x`, whose
/// cell holds `p`, keeps the cells consistent.
proof fn lemma_grow_keys(t0: Octree, t1: Octree, t2: Octree, x: int, c: int, idx: int, p: Pixel)
    requires
        keys_ok(t0),
        wf(t0),
        wf(t1),
        nn(t1) == nn(t0) + 1,
        c == nn(t0),
        forall|y: int| 0 <= y < nn(t0) ==> #[trigger] nd(t1, y) == nd(t0, y),
        forall|y: int| 0 <= y < nn(t0) ==> #[trigger] dep(t1, y) == dep(t0, y),
        nn(t2) == nn(t1),
        t2.depth == t1.depth,
        0 <= x < nn(t0),
        0 <= idx < 8,
        forall|y: int| 0 <= y < nn(t1) && y != x ==> #[trigger] nd(t2, y) == nd(t1, y),
        nd(t2, x).pix == nd(t1, x).pix,
        nd(t2, x).key == nd(t1, x).key,
        forall|k: int| 0 <= k < 8 && k != idx ==> #[trigger] slot(t2, x, k) == slot(t1, x, k),
        slot(t2, x, idx) == c,
        childless(nd(t1, c)),
        nd(t1, c).pix@ == Seq::<Pixel>::empty(),
        nd(t1, c).key@ == p,
        cell_eq(p, nd(t0, x).key@, dep(t0, x)),
        octant_of(p, dep(t0, x)) == idx,
    ensures
        keys_ok(t2),
{
    assert forall|i: int, q: int| 0 <= i < nn(t2) && 0 <= q < nd(t2, i).pix@.len()
        implies cell_eq(#[trigger] nd(t2, i).pix@[q], nd(t2, i).key@, dep(t2, i)) by {
        if i == x {
            assert(nd(t1, x) == nd(t0, x));
            assert(cell_eq(nd(t0, x).pix@[q], nd(t0, x).key@, dep(t0, x)));
        } else if i < nn(t0) {
            assert(nd(t2, i) == nd(t0, i));
            assert(cell_eq(nd(t0, i).pix@[q], nd(t0, i).key@, dep(t0, i)));
        } else {
            assert(nd(t2, i) == nd(t1, c));
        }
    }
    assert forall|i: int, j: int| 0 <= i < nn(t2) && 0 <= j < 8 && #[trigger] slot(t2, i, j) != -1 implies {
        let cc = slot(t2, i, j);
        &&& cell_eq(nd(t2, cc).key@, nd(t2, i).key@, dep(t2, i))
        &&& octant_of(nd(t2, cc).key@, dep(t2, i)) == j
    } by {
        let cc = slot(t2, i, j);
        if i == x && j == idx {
            assert(cc == c);
            assert(nd(t2, c) == nd(t1, c));
            assert(nd(t1, x) == nd(t0, x));
        } else if i < nn(t0) {
            if i == x {
                assert(slot(t1, x, j) == cc);
            } else {
                assert(nd(t2, i) == nd(t0, i));
            }
            assert(nd(t1, i) == nd(t0, i));
            assert(slot(t0, i, j) == cc);
            assert(i < cc < nn(t0));
            if cc == x {
                assert(nd(t2, cc).key == nd(t0, cc).key);
            } else {
                assert(nd(t2, cc) == nd(t0, cc));
            }
            assert(cell_eq(nd(t0, cc).key@, nd(t0, i).key@, dep(t0, i)));
        } else {
            assert(nd(t2, i) == nd(t1, c));
        }
    }
}

/// Adding `p` to the pixels of the childless node `x` adds it below the root.
proof fn lemma_leaf_counts(ta: Octree, tb: Octree, x: int, p: Pixel)
    requires
        wf(ta),
        0 <= x < nn(ta),
        reach(ta, x),
        nn(tb) == nn(ta),
        childless(nd(ta, x)),
        forall|y: int| 0 <= y < nn(ta) && y != x ==> #[trigger] nd(tb, y) == nd(ta, y),
        nd(tb, x).parent == nd(ta, x).parent,
        nd(tb, x).children == nd(ta, x).children,
        nd(tb, x).pix@ == nd(ta, x).pix@.push(p),
    ensures
        forall|v: Pixel| #[trigger] subw(tb, fcnt(v), 0) == subw(ta, fcnt(v), 0) + (if v == p { 1int } else { 0int }),
{
    lemma_anc_root(ta, x);
    assert forall|v: Pixel| #[trigger] subw(tb, fcnt(v), 0) == subw(ta, fcnt(v), 0) + (if v == p { 1int } else { 0int }) by {
        broadcast use vstd::seq_lib::group_to_multiset_ensures;
        broadcast use vstd::multiset::group_multiset_axioms;
        let f = fcnt(v);
        assert forall|y: int| 0 <= y < nn(ta) implies parent_of(ta, y) == #[trigger] parent_of(tb, y) by {
            if y != x {
                assert(nd(tb, y) == nd(ta, y));
            }
        }
        assert forall|y: int, j: int| 0 <= y < nn(ta) && y != x && 0 <= j < 8
            implies #[trigger] slot(ta, y, j) == slot(tb, y, j) by {
            assert(nd(tb, y) == nd(ta, y));
        }
        assert forall|y: int| 0 <= y < nn(ta) && y != x implies f(#[trigger] nd(ta, y)) == f(nd(tb, y)) by {
            assert(nd(tb, y) == nd(ta, y));
        }
        assert(same_but(ta, tb, f, x));
        lemma_csum_childless(ta, f, x, 8);
        assert(childless(nd(tb, x)));
        lemma_csum_childless(tb, f, x, 8);
        lemma_sub_delta(ta, tb, f, x, 0);
        assert(nd(tb, x).pix@.to_multiset() == nd(ta, x).pix@.to_multiset().insert(p));
    }
}

proof fn lemma_wf_push(t0: Octree, t1: Octree, px: NodeId, x: int)
    requires
        wf(t0),
        0 <= x < nn(t0),
        dep(t0, x) < 7,
        nn(t1) == nn(t0) + 1,
        t1.root == t0.root,
        t1.depth@ == t0.depth@.push(dep(t0, x) + 1),
        forall|i: int| 0 <= i < nn(t0) ==> #[trigger] nd(t1, i) == nd(t0, i),
        nd(t1, nn(t0)).parent == Some(px),
        px.0 as int == x,
        childless(nd(t1, nn(t0))),
    ensures
        wf(t1),
        forall|i: int| 0 <= i < nn(t0) ==> #[trigger] dep(t1, i) == dep(t0, i),
        forall|i: int| 0 <= i < nn(t0) ==> #[trigger] parent_of(t1, i) == parent_of(t0, i),
        forall|i: int, j: int| 0 <= i < nn(t0) && 0 <= j < 8 ==> #[trigger] slot(t1, i, j) == slot(t0, i, j),
        forall|j: int| 0 <= j < 8 ==> #[trigger] slot(t1, nn(t0), j) == -1,
{
    let c = nn(t0);
    assert forall|i: int| 0 <= i < nn(t0) implies #[trigger] dep(t1, i) == dep(t0, i) by {}
    assert forall|i: int| 0 <= i < nn(t0) implies #[trigger] parent_of(t1, i) == parent_of(t0, i) by {
        assert(nd(t1, i) == nd(t0, i));
    }
    assert forall|i: int, j: int| 0 <= i < nn(t0) && 0 <= j < 8 implies #[trigger] slot(t1, i, j) == slot(t0, i, j) by {
        assert(nd(t1, i) == nd(t0, i));
    }
    assert forall|j: int| 0 <= j < 8 implies #[trigger] slot(t1, c, j) == -1 by {
        assert(nd(t1, c).children[j] is None);
    }
    assert(nd(t1, 0) == nd(t0, 0));
    assert forall|i: int| 0 <= i < nn(t1) implies 0 <= #[trigger] dep(t1, i) <= 7 by {
        if i < c {
            assert(dep(t1, i) == dep(t0, i));
        }
    }
    assert forall|i: int, j: int|
        0 <= i < nn(t1) && 0 <= j < 8 && #[trigger] slot(t1, i, j) != -1 implies {
            let c2 = slot(t1, i, j);
            &&& i < c2 < nn(t1)
            &&& parent_of(t1, c2) == i
            &&& dep(t1, c2) == dep(t1, i) + 1
        } by {
        if i < c {
            assert(slot(t1, i, j) == slot(t0, i, j));
            let c2 = slot(t0, i, j);
            assert(parent_of(t1, c2) == parent_of(t0, c2));
            assert(dep(t1, c2) == dep(t0, c2));
            assert(dep(t1, i) == dep(t0, i));
        }
    }
    assert forall|i: int, j1: int, j2: int|
        0 <= i < nn(t1) && 0 <= j1 < 8 && 0 <= j2 < 8 && j1 != j2 && #[trigger] slot(t1, i, j1) != -1
        implies slot(t1, i, j1) != #[trigger] slot(t1, i, j2) by {
        if i < c {
            assert(slot(t1, i, j1) == slot(t0, i, j1));
            assert(slot(t1, i, j2) == slot(t0, i, j2));
        }
    }
    assert forall|y: int| 0 < y < nn(t1) implies {
        let p = #[trigger] parent_of(t1, y);
        &&& 0 <= p < y
        &&& dep(t1, y) == dep(t1, p) + 1
    } by {
        if y < c {
            assert(parent_of(t1, y) == parent_of(t0, y));
            let p = parent_of(t0, y);
            assert(dep(t1, p) == dep(t0, p));
            assert(dep(t1, y) == dep(t0, y));
        } else {
            assert(parent_of(t1, y) == x);
            assert(dep(t1, x) == dep(t0, x));
        }
    }
    assert forall|i: int| 0 <= i < nn(t1) && dep(t1, i) == 7 implies childless(#[trigger] nd(t1, i)) by {
        if i < c {
            assert(dep(t1, i) == dep(t0, i));
        }
    }
}

/// Filling an empty slot of `x` with its fresh child `c` keeps the arena well formed.
proof fn lemma_wf_fill(t1: Octree, t2: Octree, x: int, s: int, c: int)
    requires
        wf(t1),
        0 <= x < c < nn(t1),
        0 <= s < 8,
        dep(t1, x) < 7,
        parent_of(t1, c) == x,
        dep(t1, c) == dep(t1, x) + 1,
        slot(t1, x, s) == -1,
        forall|j: int| 0 <= j < 8 ==> #[trigger] slot(t1, x, j) != c,
        nn(t2) == nn(t1),
        t2.root == t1.root,
        t2.depth == t1.depth,
        forall|i: int| 0 <= i < nn(t1) ==> #[trigger] parent_of(t2, i) == parent_of(t1, i),
        forall|i: int, j: int| 0 <= i < nn(t1) && 0 <= j < 8 && (i != x || j != s)
            ==> #[trigger] slot(t2, i, j) == slot(t1, i, j),
        slot(t2, x, s) == c,
        forall|i: int| 0 <= i < nn(t1) && i != x ==> (#[trigger] nd(t2, i)).children == nd(t1, i).children,
        nd(t2, 0).parent == nd(t1, 0).parent,
    ensures
        wf(t2),
{
    assert forall|i: int| 0 <= i < nn(t2) implies #[trigger] dep(t2, i) == dep(t1, i) by {}
    assert forall|i: int, j: int|
        0 <= i < nn(t2) && 0 <= j < 8 && #[trigger] slot(t2, i, j) != -1 implies {
            let c2 = slot(t2, i, j);
            &&& i < c2 < nn(t2)
            &&& parent_of(t2, c2) == i
            &&& dep(t2, c2) == dep(t2, i) + 1
        } by {
        if i != x || j != s {
            assert(slot(t2, i, j) == slot(t1, i, j));
        }
    }
    assert forall|i: int, j1: int, j2: int|
        0 <= i < nn(t2) && 0 <= j1 < 8 && 0 <= j2 < 8 && j1 != j2 && #[trigger] slot(t2, i, j1) != -1
        implies slot(t2, i, j1) != #[trigger] slot(t2, i, j2) by {
        if i != x || (j1 != s && j2 != s) {
            assert(slot(t2, i, j1) == slot(t1, i, j1));
            assert(slot(t2, i, j2) == slot(t1, i, j2));
        } else if j1 == s {
            assert(slot(t2, i, j2) == slot(t1, i, j2));
        } else {
            assert(slot(t2, i, j1) == slot(t1, i, j1));
        }
    }
    assert forall|y: int| 0 < y < nn(t2) implies {
        let p = #[trigger] parent_of(t2, y);
        &&& 0 <= p < y
        &&& dep(t2, y) == dep(t2, p) + 1
    } by {
        assert(parent_of(t2, y) == parent_of(t1, y));
    }
    assert forall|i: int| 0 <= i < nn(t2) && dep(t2, i) == 7 implies childless(#[trigger] nd(t2, i)) by {
        assert(i != x);
        assert(nd(t2, i).children == nd(t1, i).children);
        assert(childless(nd(t1, i)));
    }
    assert(nn(t2) >= 1);
    assert(t2.root == NodeId(0));
    assert(t2.depth@.len() == nn(t2));
    assert(dep(t2, 0) == 0);
    assert(nd(t2, 0).parent is None);
}

/// An arena with the same shape as a well-formed one is well formed.
proof fn lemma_wf_frame(t1: Octree, t2: Octree)
    requires
        wf(t1),
        nn(t2) == nn(t1),
        t2.root == t1.root,
        t2.depth == t1.depth,
        forall|i: int| 0 <= i < nn(t1) ==> #[trigger] nd(t2, i).parent == nd(t1, i).parent,
        forall|i: int| 0 <= i < nn(t1) ==> #[trigger] nd(t2, i).children == nd(t1, i).children,
    ensures
        wf(t2),
        forall|i: int| 0 <= i < nn(t1) ==> #[trigger] parent_of(t2, i) == parent_of(t1, i),
        forall|i: int, j: int| 0 <= i < nn(t1) && 0 <= j < 8 ==> #[trigger] slot(t2, i, j) == slot(t1, i, j),
        forall|i: int| 0 <= i < nn(t1) ==> #[trigger] dep(t2, i) == dep(t1, i),
{
    assert forall|i: int| 0 <= i < nn(t2) implies #[trigger] dep(t2, i) == dep(t1, i) by {}
    assert forall|i: int| 0 <= i < nn(t1) implies #[trigger] parent_of(t2, i) == parent_of(t1, i) by {
        assert(nd(t2, i).parent == nd(t1, i).parent);
    }
    assert forall|i: int, j: int| 0 <= i < nn(t1) && 0 <= j < 8 implies #[trigger] slot(t2, i, j) == slot(t1, i, j) by {
        assert(nd(t2, i).children == nd(t1, i).children);
    }
    assert(nd(t2, 0).parent == nd(t1, 0).parent);
    assert forall|i: int| 0 <= i < nn(t2) && dep(t2, i) == 7 implies childless(#[trigger] nd(t2, i)) by {
        assert(nd(t2, i).children == nd(t1, i).children);
        assert(childless(nd(t1, i)));
    }
    assert forall|i: int, j: int|
        0 <= i < nn(t2) && 0 <= j < 8 && #[trigger] slot(t2, i, j) != -1 implies {
            let c2 = slot(t2, i, j);
            &&& i < c2 < nn(t2)
            &&& parent_of(t2, c2) == i
            &&& dep(t2, c2) == dep(t2, i) + 1
        } by {
        assert(slot(t2, i, j) == slot(t1, i, j));
    }
    assert forall|i: int, j1: int, j2: int|
        0 <= i < nn(t2) && 0 <= j1 < 8 && 0 <= j2 < 8 && j1 != j2 && #[trigger] slot(t2, i, j1) != -1
        implies slot(t2, i, j1) != #[trigger] slot(t2, i, j2) by {
        assert(slot(t2, i, j1) == slot(t1, i, j1));
        assert(slot(t2, i, j2) == slot(t1, i, j2));
    }
    assert forall|y: int| 0 < y < nn(t2) implies {
        let p = #[trigger] parent_of(t2, y);
        &&& 0 <= p < y
        &&& dep(t2, y) == dep(t2, p) + 1
    } by {
        assert(parent_of(t2, y) == parent_of(t1, y));
    }
}

/// Registering an attached node keeps the reducible lists consistent.
proof fn lemma_register_lists(t2: Octree, t3: Octree, id: NodeId, d: int)
    requires
        wf(t2),
        lists_ok(t2),
        0 <= id.0 < nn(t2),
        0 <= d < 7,
        dep(t2, id.0 as int) == d,
        reach(t2, id.0 as int),
        !nd(t2, id.0 as int).is_leaf || has_child(nd(t2, id.0 as int)),
        t3.depth == t2.depth,
        t3.nodes@ == t2.nodes@.update(id.0 as int, Node { in_reducible: true, ..t2.nodes@[id.0 as int] }),
        nd(t2, id.0 as int).in_reducible ==> t3.reducible == t2.reducible,
        !nd(t2, id.0 as int).in_reducible ==> {
            &&& t3.reducible[d]@ == t2.reducible[d]@.push(id)
            &&& forall|d2: int| 0 <= d2 < 7 && d2 != d ==> #[trigger] t3.reducible[d2] == t2.reducible[d2]
        },
        forall|y: int| 0 <= y < nn(t2) ==> #[trigger] reach(t3, y) == reach(t2, y),
    ensures
        lists_ok(t3),
{
    let x = id.0 as int;
    assert forall|i: int| 0 <= i < nn(t3) && i != x implies #[trigger] nd(t3, i) == nd(t2, i) by {}
    assert(nd(t3, x).is_leaf == nd(t2, x).is_leaf && nd(t3, x).children == nd(t2, x).children);
    assert forall|i: int| 0 <= i < nn(t3) implies #[trigger] dep(t3, i) == dep(t2, i) by {}
    assert forall|i: int| 0 <= i < nn(t3) && has_child(nd(t2, i)) implies #[trigger] has_child(nd(t3, i)) by {
        let j = choose|j: int| 0 <= j < 8 && (#[trigger] nd(t2, i).children[j]) is Some;
        assert(nd(t3, i).children[j] is Some);
    }
    if nd(t2, x).in_reducible {
        assert(lists_ok(t3));
    } else {
        assert forall|dd: int, q: int| 0 <= dd < 7 && 0 <= q < t2.reducible[dd]@.len()
            implies #[trigger] t2.reducible[dd]@[q] != id by {}
        assert forall|dd: int, q: int| 0 <= dd < 7 && 0 <= q < t3.reducible[dd]@.len()
            implies {
                let y = (#[trigger] t3.reducible[dd]@[q]).0 as int;
                &&& 0 <= y < nn(t3)
                &&& dep(t3, y) == dd
                &&& nd(t3, y).in_reducible
                &&& reach(t3, y)
                &&& (!nd(t3, y).is_leaf || has_child(nd(t3, y)))
            } by {
            if dd != d {
                assert(t3.reducible[dd] == t2.reducible[dd]);
                assert(t3.reducible[dd]@[q] == t2.reducible[dd]@[q]);
            } else if q < t2.reducible[dd]@.len() {
                assert(t3.reducible[dd]@[q] == t2.reducible[dd]@[q]);
            } else {
                assert(t3.reducible[dd]@[q] == id);
            }
        }
        assert forall|dd: int, q1: int, q2: int|
            0 <= dd < 7 && 0 <= q1 < t3.reducible[dd]@.len() && 0 <= q2 < t3.reducible[dd]@.len() && q1 != q2
            implies #[trigger] t3.reducible[dd]@[q1] != #[trigger] t3.reducible[dd]@[q2] by {
            if dd != d {
                assert(t3.reducible[dd] == t2.reducible[dd]);
            } else {
                if q1 < t2.reducible[dd]@.len() {
                    assert(t3.reducible[dd]@[q1] == t2.reducible[dd]@[q1]);
                }
                if q2 < t2.reducible[dd]@.len() {
                    assert(t3.reducible[dd]@[q2] == t2.reducible[dd]@[q2]);
                }
            }
        }
        assert forall|y: int| 0 <= y < nn(t3) && (#[trigger] nd(t3, y)).in_reducible implies {
            &&& dep(t3, y) < 7
            &&& listed(t3, dep(t3, y), y)
        } by {
            if y == x {
                assert(t3.reducible[d]@[t3.reducible[d]@.len() - 1] == id);
            } else {
                assert(nd(t2, y).in_reducible);
                let dy = dep(t2, y);
                let q = choose|q: int| 0 <= q < t2.reducible[dy]@.len() && (#[trigger] t2.reducible[dy]@[q]).0 == y;
                if dy != d {
                    assert(t3.reducible[dy] == t2.reducible[dy]);
                }
                assert(t3.reducible[dy]@[q].0 == y);
            }
        }
    }
}

// ── Phase invariants ─────────────────────────────────────────────────────────

/// The tree while pixels are being inserted (no reduction has happened).
spec fn inv1(t: Octree) -> bool {
    let m = subw(t, fpix(), 0);
    &&& wf(t)
    &&& nodes_ok(t, m)
    &&& lists_ok(t)
    &&& forall|i: int| 0 <= i < nn(t) ==> #[trigger] reach(t, i)
    &&& forall|i: int| 0 <= i < nn(t) ==> (dep(t, i) == 7 <==> (#[trigger] nd(t, i)).is_leaf)
    &&& forall|i: int| 0 <= i < nn(t) && dep(t, i) < 7 && (i > 0 || m > 0) ==> has_child(#[trigger] nd(t, i))
    &&& forall|i: int| 0 <= i < nn(t) ==> ((#[trigger] nd(t, i)).in_reducible <==> dep(t, i) == 6)
    &&& t.leaf_count == subw(t, fleaf(), 0)
}

/// The tree while one pixel walks down from the root; it stands at `id`, depth `d`.
spec fn ins_inv(t: Octree, m: int, id: int, d: int) -> bool {
    &&& wf(t)
    &&& nodes_ok(t, m)
    &&& lists_ok(t)
    &&& forall|i: int| 0 <= i < nn(t) ==> #[trigger] reach(t, i)
    &&& 0 <= id < nn(t)
    &&& dep(t, id) == d
    &&& 0 <= d <= 7
    &&& forall|i: int| 0 <= i < nn(t) && dep(t, i) < 7 ==> !(#[trigger] nd(t, i)).is_leaf
    &&& forall|i: int| 0 <= i < nn(t) && i != id && dep(t, i) == 7 ==> (#[trigger] nd(t, i)).is_leaf
    &&& forall|i: int| 0 <= i < nn(t) && i != id && dep(t, i) < 7 ==> has_child(#[trigger] nd(t, i))
    &&& forall|i: int| 0 <= i < nn(t) && i != id ==> ((#[trigger] nd(t, i)).in_reducible <==> dep(t, i) == 6)
    &&& (nd(t, id).in_reducible <==> (dep(t, id) == 6 && has_child(nd(t, id))))
    &&& t.leaf_count == subw(t, fleaf(), 0)
    &&& m == subw(t, fpix(), 0)
}

proof fn lemma_fleaf_le_fpix()
    ensures
        forall|n: Node| #[trigger] fleaf()(n) <= fpix()(n),
        forall|n: Node| #[trigger] fleaf()(n) >= 0,
        forall|n: Node| #[trigger] fpix()(n) >= 0,
{
}

/// A tree holding at least one pixel outputs at least one colour.
proof fn lemma_leaf_exists(t: Octree)
    requires
        wf(t),
        forall|i: int| 0 <= i < nn(t) ==> node_ok(#[trigger] nd(t, i), usize::MAX as int),
        subw(t, fpix(), 0) > 0,
    ensures
        subw(t, fleaf(), 0) > 0,
{
    lemma_subw_pos(t, 0);
}

/// Whatever weighs some pixels holds some colour.
proof fn lemma_subw_pos(t: Octree, i: int)
    requires
        wf(t),
        forall|y: int| 0 <= y < nn(t) ==> node_ok(#[trigger] nd(t, y), usize::MAX as int),
    ensures
        subw(t, fpix(), i) > 0 ==> subw(t, fleaf(), i) > 0,
        subw(t, fleaf(), i) >= 0,
    decreases nn(t) - i, 1int,
{
    if 0 <= i < nn(t) {
        lemma_csum_pos(t, i, 8);
    }
}

proof fn lemma_csum_pos(t: Octree, i: int, j: int)
    requires
        wf(t),
        forall|y: int| 0 <= y < nn(t) ==> node_ok(#[trigger] nd(t, y), usize::MAX as int),
        0 <= i < nn(t),
        0 <= j <= 8,
    ensures
        csum(t, fpix(), i, j) > 0 ==> csum(t, fleaf(), i, j) > 0,
        csum(t, fleaf(), i, j) >= 0,
    decreases nn(t) - i, 0int, j,
{
    if j > 0 {
        lemma_csum_pos(t, i, j - 1);
        assert(csum(t, fpix(), i, j) == csum(t, fpix(), i, j - 1) + sv(t, fpix(), i, j - 1));
        assert(csum(t, fleaf(), i, j) == csum(t, fleaf(), i, j - 1) + sv(t, fleaf(), i, j - 1));
        let c = slot(t, i, j - 1);
        if i < c < nn(t) {
            lemma_subw_pos(t, c);
        }
    }
}


// ── Reduction: specifications and lemmas ────────────────────────────────────

/// Weighs every node by one.
spec fn fnode() -> spec_fn(Node) -> int {
    |n: Node| 1int
}

spec fn fr() -> spec_fn(Node) -> int {
    |n: Node| n.r_sum as int
}

spec fn fg() -> spec_fn(Node) -> int {
    |n: Node| n.g_sum as int
}

spec fn fb() -> spec_fn(Node) -> int {
    |n: Node| n.b_sum as int
}

/// The weights of the slots `j' < j` of `x` that lie in `s`.
spec fn msum(t: Octree, f: spec_fn(Node) -> int, x: int, j: int, s: Set<int>) -> int
    decreases j,
{
    if j <= 0 {
        0
    } else {
        msum(t, f, x, j - 1, s) + if s.contains(j - 1) {
            sv(t, f, x, j - 1)
        } else {
            0
        }
    }
}

proof fn lemma_msum_insert(t: Octree, f: spec_fn(Node) -> int, x: int, j: int, s: Set<int>, e: int)
    requires
        !s.contains(e),
    ensures
        msum(t, f, x, j, s.insert(e)) == msum(t, f, x, j, s) + (if 0 <= e < j {
            sv(t, f, x, e)
        } else {
            0
        }),
    decreases j,
{
    if j > 0 {
        lemma_msum_insert(t, f, x, j - 1, s, e);
    }
}

proof fn lemma_msum_empty(t: Octree, f: spec_fn(Node) -> int, x: int, j: int)
    ensures
        msum(t, f, x, j, Set::empty()) == 0,
    decreases j,
{
    if j > 0 {
        lemma_msum_empty(t, f, x, j - 1);
    }
}

proof fn lemma_msum_le(t: Octree, f: spec_fn(Node) -> int, x: int, j: int, s: Set<int>)
    requires
        forall|n: Node| #[trigger] f(n) >= 0,
        0 <= x < nn(t),
        0 <= j <= 8,
    ensures
        0 <= msum(t, f, x, j, s) <= csum(t, f, x, j),
    decreases j,
{
    if j > 0 {
        lemma_msum_le(t, f, x, j - 1, s);
        assert(csum(t, f, x, j) == csum(t, f, x, j - 1) + sv(t, f, x, j - 1));
        let c = slot(t, x, j - 1);
        if x < c < nn(t) {
            lemma_subw_nonneg(t, f, c);
        }
    }
}

/// Over childless children, a channel sums to at most 255 per pixel.
proof fn lemma_msum_scale(t: Octree, f: spec_fn(Node) -> int, x: int, j: int, s: Set<int>, m: int)
    requires
        wf(t),
        nodes_ok(t, m),
        0 <= x < nn(t),
        0 <= j <= 8,
        forall|k: int| 0 <= k < 8 && slot(t, x, k) != -1 ==> childless(#[trigger] nd(t, slot(t, x, k))),
        forall|n: Node| node_ok(n, m) ==> #[trigger] f(n) <= 255 * n.pixel_count,
    ensures
        msum(t, f, x, j, s) <= 255 * msum(t, fpix(), x, j, s),
    decreases j,
{
    if j > 0 {
        lemma_msum_scale(t, f, x, j - 1, s, m);
        let c = slot(t, x, j - 1);
        if x < c < nn(t) {
            assert(childless(nd(t, c)));
            lemma_csum_childless(t, f, c, 8);
            lemma_csum_childless(t, fpix(), c, 8);
            assert(node_ok(nd(t, c), m));
        }
    }
}

/// Emptying the slots in `s` lowers `csum` by their weight.
proof fn lemma_csum_clear(t1: Octree, t2: Octree, f: spec_fn(Node) -> int, x: int, j: int, s: Set<int>)
    requires
        nn(t1) == nn(t2),
        0 <= x < nn(t1),
        0 <= j <= 8,
        forall|k: int| 0 <= k < 8 && s.contains(k) ==> #[trigger] sv(t2, f, x, k) == 0,
        forall|k: int| 0 <= k < 8 && !s.contains(k) ==> #[trigger] sv(t2, f, x, k) == sv(t1, f, x, k),
    ensures
        csum(t2, f, x, j) == csum(t1, f, x, j) - msum(t1, f, x, j, s),
    decreases j,
{
    if j > 0 {
        lemma_csum_clear(t1, t2, f, x, j - 1, s);
        assert(csum(t1, f, x, j) == csum(t1, f, x, j - 1) + sv(t1, f, x, j - 1));
        assert(csum(t2, f, x, j) == csum(t2, f, x, j - 1) + sv(t2, f, x, j - 1));
    }
}

/// `y` was held in one of the slots of `x` listed in `s`.
spec fn merged_of(t: Octree, x: int, s: Set<int>, y: int) -> bool {
    exists|j: int| 0 <= j < 8 && s.contains(j) && #[trigger] slot(t, x, j) == y
}

/// Emptying slots of `x` that hold childless nodes detaches exactly those nodes.
proof fn lemma_reach_clear(a: Octree, b: Octree, x: int, s: Set<int>, y: int)
    requires
        wf(a),
        nn(a) == nn(b),
        0 <= x < nn(a),
        forall|z: int| 0 <= z < nn(a) ==> #[trigger] parent_of(b, z) == parent_of(a, z),
        forall|z: int, j: int| 0 <= z < nn(a) && z != x && 0 <= j < 8 ==> #[trigger] slot(b, z, j) == slot(a, z, j),
        forall|j: int| 0 <= j < 8 ==> #[trigger] slot(b, x, j) == (if s.contains(j) { -1 } else { slot(a, x, j) }),
        forall|j: int| 0 <= j < 8 && s.contains(j) ==> slot(a, x, j) != -1 && childless(#[trigger] nd(a, slot(a, x, j))),
    ensures
        reach(b, y) == (reach(a, y) && !merged_of(a, x, s, y)),
    decreases y,
{
    if y > 0 && y < nn(a) {
        let p = parent_of(a, y);
        if 0 <= p < y {
            lemma_reach_clear(a, b, x, s, p);
            if merged_of(a, x, s, y) {
                let j = choose|j: int| 0 <= j < 8 && s.contains(j) && #[trigger] slot(a, x, j) == y;
                assert(p == x);
                assert(slot(b, x, j) == -1);
                if is_child(b, x, y) {
                    let j2 = choose|j2: int| 0 <= j2 < 8 && #[trigger] slot(b, x, j2) == y;
                    assert(slot(a, x, j2) == y);
                }
            } else {
                if merged_of(a, x, s, p) {
                    let j = choose|j: int| 0 <= j < 8 && s.contains(j) && #[trigger] slot(a, x, j) == p;
                    assert(childless(nd(a, p)));
                    if is_child(a, p, y) {
                        let j2 = choose|j2: int| 0 <= j2 < 8 && #[trigger] slot(a, p, j2) == y;
                        assert(nd(a, p).children[j2] is None);
                    }
                }
                if p == x {
                    if is_child(a, x, y) {
                        let j2 = choose|j2: int| 0 <= j2 < 8 && #[trigger] slot(a, x, j2) == y;
                        assert(!s.contains(j2));
                        assert(slot(b, x, j2) == y);
                    }
                    if is_child(b, x, y) {
                        let j2 = choose|j2: int| 0 <= j2 < 8 && #[trigger] slot(b, x, j2) == y;
                        assert(slot(a, x, j2) == y);
                    }
                } else {
                    if is_child(a, p, y) {
                        let j2 = choose|j2: int| 0 <= j2 < 8 && #[trigger] slot(a, p, j2) == y;
                        assert(slot(b, p, j2) == y);
                    }
                    if is_child(b, p, y) {
                        let j2 = choose|j2: int| 0 <= j2 < 8 && #[trigger] slot(b, p, j2) == y;
                        assert(slot(a, p, j2) == y);
                    }
                }
            }
        }
    } else if y == 0 {
        if merged_of(a, x, s, 0) {
            let j = choose|j: int| 0 <= j < 8 && s.contains(j) && #[trigger] slot(a, x, j) == 0;
        }
    }
}

/// Emptying slots keeps the arena well formed.
proof fn lemma_wf_clear(a: Octree, b: Octree)
    requires
        wf(a),
        nn(b) == nn(a),
        b.root == a.root,
        b.depth == a.depth,
        forall|i: int| 0 <= i < nn(a) ==> #[trigger] nd(b, i).parent == nd(a, i).parent,
        forall|i: int, j: int| 0 <= i < nn(a) && 0 <= j < 8 ==> #[trigger] slot(b, i, j) == slot(a, i, j) || slot(b, i, j) == -1,
    ensures
        wf(b),
        forall|i: int| 0 <= i < nn(a) ==> #[trigger] parent_of(b, i) == parent_of(a, i),
{
    assert forall|i: int| 0 <= i < nn(b) implies #[trigger] dep(b, i) == dep(a, i) by {}
    assert forall|i: int| 0 <= i < nn(a) implies #[trigger] parent_of(b, i) == parent_of(a, i) by {
        assert(nd(b, i).parent == nd(a, i).parent);
    }
    assert(nd(b, 0).parent == nd(a, 0).parent);
    assert forall|i: int| 0 <= i < nn(b) && dep(b, i) == 7 implies childless(#[trigger] nd(b, i)) by {
        assert(childless(nd(a, i)));
        assert forall|j: int| 0 <= j < 8 implies (#[trigger] nd(b, i).children[j]) is None by {
            assert(nd(a, i).children[j] is None);
            assert(slot(a, i, j) == -1);
            assert(slot(b, i, j) == -1);
        }
    }
    assert forall|i: int, j: int|
        0 <= i < nn(b) && 0 <= j < 8 && #[trigger] slot(b, i, j) != -1 implies {
            let c2 = slot(b, i, j);
            &&& i < c2 < nn(b)
            &&& parent_of(b, c2) == i
            &&& dep(b, c2) == dep(b, i) + 1
        } by {
        assert(slot(b, i, j) == slot(a, i, j));
    }
    assert forall|i: int, j1: int, j2: int|
        0 <= i < nn(b) && 0 <= j1 < 8 && 0 <= j2 < 8 && j1 != j2 && #[trigger] slot(b, i, j1) != -1
        implies slot(b, i, j1) != #[trigger] slot(b, i, j2) by {
        assert(slot(b, i, j1) == slot(a, i, j1));
        if slot(b, i, j2) != -1 {
            assert(slot(b, i, j2) == slot(a, i, j2));
        }
    }
    assert forall|y: int| 0 < y < nn(b) implies {
        let p = #[trigger] parent_of(b, y);
        &&& 0 <= p < y
        &&& dep(b, y) == dep(b, p) + 1
    } by {
        assert(parent_of(b, y) == parent_of(a, y));
    }
}

/// The deepest level whose reducible list is not empty, at `d` or above... below.
spec fn deepest_from(t: Octree, d: int) -> int
    decreases d + 1,
{
    if d < 0 {
        -1
    } else if t.reducible[d]@.len() > 0 {
        d
    } else {
        deepest_from(t, d - 1)
    }
}

/// The deepest level whose reducible list is not empty, or -1.
spec fn deepest(t: Octree) -> int {
    deepest_from(t, 6)
}

proof fn lemma_deepest(t: Octree, d: int, e: int)
    requires
        -1 <= d <= 6,
        deepest_from(t, d) < e <= d,
    ensures
        t.reducible[e]@.len() == 0,
    decreases d + 1,
{
    if d >= 0 && t.reducible[d]@.len() == 0 && e < d {
        lemma_deepest(t, d - 1, e);
    }
}

proof fn lemma_deepest_bounds(t: Octree, d: int)
    requires
        -1 <= d <= 6,
    ensures
        -1 <= deepest_from(t, d) <= d,
        deepest_from(t, d) >= 0 ==> t.reducible[deepest_from(t, d)]@.len() > 0,
    decreases d + 1,
{
    if d >= 0 && t.reducible[d]@.len() == 0 {
        lemma_deepest_bounds(t, d - 1);
    }
}

/// Internal attached nodes have children.
spec fn r3(t: Octree) -> bool {
    forall|y: int| 0 <= y < nn(t) && reach(t, y) && !(#[trigger] nd(t, y)).is_leaf ==> has_child(nd(t, y))
}

/// An attached leaf whose parent is internal has its parent registered.
spec fn r4(t: Octree) -> bool {
    forall|y: int|
        0 < y < nn(t) && reach(t, y) && (#[trigger] nd(t, y)).is_leaf && !nd(t, parent_of(t, y)).is_leaf
            ==> nd(t, parent_of(t, y)).in_reducible
}

/// An attached leaf with children is registered.
spec fn r5(t: Octree) -> bool {
    forall|y: int| 0 <= y < nn(t) && reach(t, y) && (#[trigger] nd(t, y)).is_leaf && has_child(nd(t, y))
        ==> nd(t, y).in_reducible
}

/// The tree while leaves are being merged.
spec fn inv2(t: Octree) -> bool {
    let m = subw(t, fpix(), 0);
    &&& wf(t)
    &&& nodes_ok(t, m)
    &&& lists_ok(t)
    &&& t.leaf_count == subw(t, fleaf(), 0)
    &&& r3(t)
    &&& r4(t)
    &&& r5(t)
}

/// Below the deepest registered level, every attached node is a childless leaf.
proof fn lemma_r2(t: Octree, e: int)
    requires
        wf(t),
        lists_ok(t),
        r3(t),
        r4(t),
        r5(t),
        deepest(t) < e <= 8,
    ensures
        forall|y: int| 0 <= y < nn(t) && reach(t, y) && dep(t, y) >= e
            ==> (#[trigger] nd(t, y)).is_leaf && childless(nd(t, y)),
    decreases 8 - e,
{
    if e < 8 {
        lemma_r2(t, e + 1);
        assert forall|y: int| 0 <= y < nn(t) && reach(t, y) && dep(t, y) >= e
            implies (#[trigger] nd(t, y)).is_leaf && childless(nd(t, y)) by {
            if dep(t, y) == e {
                if !nd(t, y).is_leaf || !childless(nd(t, y)) {
                    if e == 7 {
                        assert(childless(nd(t, y)));
                        assert(has_child(nd(t, y)));
                        let j = choose|j: int| 0 <= j < 8 && (#[trigger] nd(t, y).children[j]) is Some;
                        assert(nd(t, y).children[j] is None);
                    }
                    if !nd(t, y).is_leaf {
                        let j = choose|j: int| 0 <= j < 8 && (#[trigger] nd(t, y).children[j]) is Some;
                        let c = slot(t, y, j);
                        assert(slot(t, y, j) != -1);
                        assert(reach(t, c));
                        assert(dep(t, c) == e + 1);
                        assert(nd(t, c).is_leaf);
                        assert(parent_of(t, c) == y);
                        assert(nd(t, y).in_reducible);
                    } else {
                        assert(has_child(nd(t, y))) by {
                            let j = choose|j: int| 0 <= j < 8 && !((#[trigger] nd(t, y).children[j]) is None);
                        }
                        assert(nd(t, y).in_reducible);
                    }
                    assert(listed(t, e, y));
                    lemma_deepest(t, 6, e);
                }
            }
        }
    }
}

/// Changing only the node `x` itself (not its slots) changes its weight by its own change.
proof fn lemma_own_change(t1: Octree, t2: Octree, f: spec_fn(Node) -> int, x: int)
    requires
        wf(t1),
        same_but(t1, t2, f, x),
        reach(t1, x),
        0 <= x < nn(t1),
        forall|k: int| 0 <= k < 8 ==> #[trigger] slot(t2, x, k) == slot(t1, x, k),
    ensures
        subw(t2, f, x) - subw(t1, f, x) == f(nd(t2, x)) - f(nd(t1, x)),
{
    assert forall|k: int| 0 <= k < 8 implies #[trigger] sv(t2, f, x, k) == sv(t1, f, x, k) by {
        let c = slot(t1, x, k);
        if x < c < nn(t1) {
            lemma_sub_delta(t1, t2, f, x, c);
            if anc(t1, x, c) {
                lemma_anc_le(t1, x, c);
            }
        }
    }
    lemma_csum_clear(t1, t2, f, x, 8, Set::empty());
    lemma_msum_empty(t1, f, x, 8);
}

proof fn lemma_to_set_prefix(l: Seq<usize>, q: int)
    requires
        0 <= q < l.len(),
    ensures
        l.subrange(0, q + 1).map_values(|v: usize| v as int).to_set()
            =~= l.subrange(0, q).map_values(|v: usize| v as int).to_set().insert(l[q] as int),
{
    let a = l.subrange(0, q + 1).map_values(|v: usize| v as int);
    let b = l.subrange(0, q).map_values(|v: usize| v as int);
    assert forall|e: int| a.to_set().contains(e) <==> b.to_set().insert(l[q] as int).contains(e) by {
        if a.contains(e) {
            let i = choose|i: int| 0 <= i < a.len() && a[i] == e;
            if i < q {
                assert(b[i] == e);
            }
        }
        if b.contains(e) {
            let i = choose|i: int| 0 <= i < b.len() && b[i] == e;
            assert(a[i] == e);
        }
        if e == l[q] as int {
            assert(a[q] == e);
        }
    }
}

/// Clearing the slots `s` of `x` zeroes their weights and keeps the others.
proof fn lemma_detach_sv(t1: Octree, t2: Octree, f: spec_fn(Node) -> int, x: int, s: Set<int>)
    requires
        wf(t1),
        same_but(t1, t2, f, x),
        reach(t1, x),
        0 <= x < nn(t1),
        forall|k: int| 0 <= k < 8 && s.contains(k) ==> #[trigger] slot(t2, x, k) == -1,
        forall|k: int| 0 <= k < 8 && !s.contains(k) ==> #[trigger] slot(t2, x, k) == slot(t1, x, k),
    ensures
        forall|k: int| 0 <= k < 8 && s.contains(k) ==> #[trigger] sv(t2, f, x, k) == 0,
        forall|k: int| 0 <= k < 8 && !s.contains(k) ==> #[trigger] sv(t2, f, x, k) == sv(t1, f, x, k),
{
    assert forall|k: int| 0 <= k < 8 && s.contains(k) implies #[trigger] sv(t2, f, x, k) == 0 by {
        assert(slot(t2, x, k) == -1);
    }
    assert forall|k: int| 0 <= k < 8 && !s.contains(k) implies #[trigger] sv(t2, f, x, k) == sv(t1, f, x, k) by {
        let c = slot(t1, x, k);
        assert(slot(t2, x, k) == c);
        if x < c < nn(t1) {
            lemma_sub_delta(t1, t2, f, x, c);
            if anc(t1, x, c) {
                lemma_anc_le(t1, x, c);
            }
        }
    }
}

/// `t2` differs from `t1` only in registration flags, which are only raised.
spec fn flags_up(t1: Octree, t2: Octree) -> bool {
    &&& nn(t2) == nn(t1)
    &&& t2.root == t1.root
    &&& t2.depth == t1.depth
    &&& t2.leaf_count == t1.leaf_count
    &&& forall|i: int| 0 <= i < nn(t1) ==> #[trigger] nd(t2, i) == (Node { in_reducible: nd(t2, i).in_reducible, ..nd(t1, i) })
    &&& forall|i: int| 0 <= i < nn(t1) && nd(t1, i).in_reducible ==> #[trigger] nd(t2, i).in_reducible
}

/// Raising registration flags changes neither the shape nor the weights.
proof fn lemma_flags_up(t1: Octree, t2: Octree)
    requires
        wf(t1),
        flags_up(t1, t2),
    ensures
        wf(t2),
        forall|i: int| 0 <= i < nn(t1) ==> #[trigger] reach(t2, i) == reach(t1, i),
        forall|i: int, j: int| 0 <= i < nn(t1) && 0 <= j < 8 ==> #[trigger] slot(t2, i, j) == slot(t1, i, j),
        forall|i: int| 0 <= i < nn(t1) ==> #[trigger] parent_of(t2, i) == parent_of(t1, i),
        subw(t2, fpix(), 0) == subw(t1, fpix(), 0),
        subw(t2, fleaf(), 0) == subw(t1, fleaf(), 0),
        subw(t2, fnode(), 0) == subw(t1, fnode(), 0),
        forall|m: int| nodes_ok(t1, m) ==> #[trigger] nodes_ok(t2, m),
        r3(t1) ==> r3(t2),
        forall|v: Pixel| #[trigger] subw(t2, fcnt(v), 0) == subw(t1, fcnt(v), 0),
        pix_ok(t1) ==> pix_ok(t2),
        keys_ok(t1) ==> keys_ok(t2),
        cells_whole(t1) ==> cells_whole(t2),
{
    assert forall|i: int| 0 <= i < nn(t1) implies #[trigger] nd(t2, i).parent == nd(t1, i).parent
        && nd(t2, i).children == nd(t1, i).children by {
        assert(nd(t2, i) == (Node { in_reducible: nd(t2, i).in_reducible, ..nd(t1, i) }));
    }
    lemma_wf_frame(t1, t2);
    assert forall|i: int| 0 <= i < nn(t1) implies #[trigger] reach(t2, i) == reach(t1, i) by {
        if reach(t1, i) {
            lemma_reach_grow(t1, t2, i);
        }
        if reach(t2, i) {
            lemma_reach_grow(t2, t1, i);
        }
    }
    assert forall|y: int| 0 <= y < nn(t1) implies fpix()(#[trigger] nd(t1, y)) == fpix()(nd(t2, y))
        && fleaf()(nd(t1, y)) == fleaf()(nd(t2, y)) && fnode()(nd(t1, y)) == fnode()(nd(t2, y)) by {
        assert(nd(t2, y) == (Node { in_reducible: nd(t2, y).in_reducible, ..nd(t1, y) }));
    }
    lemma_subw_frame(t1, t2, fpix(), 0);
    lemma_subw_frame(t1, t2, fleaf(), 0);
    lemma_subw_frame(t1, t2, fnode(), 0);
    assert forall|v: Pixel| #[trigger] subw(t2, fcnt(v), 0) == subw(t1, fcnt(v), 0) by {
        assert forall|y: int| 0 <= y < nn(t1) implies fcnt(v)(#[trigger] nd(t1, y)) == fcnt(v)(nd(t2, y)) by {
            assert(nd(t2, y) == (Node { in_reducible: nd(t2, y).in_reducible, ..nd(t1, y) }));
        }
        lemma_subw_frame(t1, t2, fcnt(v), 0);
    }
    if pix_ok(t1) {
        assert forall|i: int| 0 <= i < nn(t2) implies pix_ok_node(#[trigger] nd(t2, i)) by {
            assert(pix_ok_node(nd(t1, i)));
            assert(nd(t2, i) == (Node { in_reducible: nd(t2, i).in_reducible, ..nd(t1, i) }));
        }
    }
    assert forall|i: int| 0 <= i < nn(t1) implies (#[trigger] nd(t2, i)).pix == nd(t1, i).pix by {
        assert(nd(t2, i) == (Node { in_reducible: nd(t2, i).in_reducible, ..nd(t1, i) }));
    }
    lemma_flags_whole(t1, t2);
    if keys_ok(t1) {
        assert forall|i: int, q: int| 0 <= i < nn(t2) && 0 <= q < nd(t2, i).pix@.len()
            implies cell_eq(#[trigger] nd(t2, i).pix@[q], nd(t2, i).key@, dep(t2, i)) by {
            assert(nd(t2, i) == (Node { in_reducible: nd(t2, i).in_reducible, ..nd(t1, i) }));
            assert(cell_eq(nd(t1, i).pix@[q], nd(t1, i).key@, dep(t1, i)));
        }
        assert forall|i: int, j: int| 0 <= i < nn(t2) && 0 <= j < 8 && #[trigger] slot(t2, i, j) != -1 implies {
            let cc = slot(t2, i, j);
            &&& cell_eq(nd(t2, cc).key@, nd(t2, i).key@, dep(t2, i))
            &&& octant_of(nd(t2, cc).key@, dep(t2, i)) == j
        } by {
            let cc = slot(t2, i, j);
            assert(slot(t1, i, j) == cc);
            assert(nd(t2, i) == (Node { in_reducible: nd(t2, i).in_reducible, ..nd(t1, i) }));
            assert(nd(t2, cc) == (Node { in_reducible: nd(t2, cc).in_reducible, ..nd(t1, cc) }));
        }
    }
    assert forall|m: int| nodes_ok(t1, m) implies #[trigger] nodes_ok(t2, m) by {
        assert forall|i: int| 0 <= i < nn(t2) implies node_ok(#[trigger] nd(t2, i), m) by {
            assert(node_ok(nd(t1, i), m));
            assert(nd(t2, i) == (Node { in_reducible: nd(t2, i).in_reducible, ..nd(t1, i) }));
        }
    }
    if r3(t1) {
        assert forall|y: int| 0 <= y < nn(t2) && reach(t2, y) && !(#[trigger] nd(t2, y)).is_leaf implies has_child(nd(t2, y)) by {
            assert(nd(t2, y) == (Node { in_reducible: nd(t2, y).in_reducible, ..nd(t1, y) }));
            assert(has_child(nd(t1, y)));
            let j = choose|j: int| 0 <= j < 8 && (#[trigger] nd(t1, y).children[j]) is Some;
            assert(nd(t2, y).children[j] is Some);
        }
    }
}

/// After a reduction at `x`, the nodes other than `x` keep the shape
/// invariants they had before.
proof fn lemma_reduce_shape(t0: Octree, tu: Octree, x: int)
    requires
        wf(t0),
        wf(tu),
        r3(t0),
        r4(t0),
        r5(t0),
        nn(tu) == nn(t0),
        0 <= x < nn(t0),
        forall|y: int| 0 <= y < nn(t0) && y != x ==> #[trigger] nd(tu, y) == nd(t0, y),
        nd(tu, x).is_leaf,
        forall|y: int| 0 <= y < nn(t0) && reach(tu, y) ==> #[trigger] reach(t0, y),
        forall|y: int| 0 <= y < nn(t0) ==> #[trigger] parent_of(tu, y) == parent_of(t0, y),
    ensures
        r3(tu),
        forall|y: int|
            0 < y < nn(tu) && y != x && reach(tu, y) && (#[trigger] nd(tu, y)).is_leaf && !nd(tu, parent_of(tu, y)).is_leaf
                ==> nd(tu, parent_of(tu, y)).in_reducible,
        forall|y: int| 0 <= y < nn(tu) && y != x && reach(tu, y) && (#[trigger] nd(tu, y)).is_leaf && has_child(nd(tu, y))
            ==> nd(tu, y).in_reducible,
{
    assert forall|y: int| 0 <= y < nn(tu) && reach(tu, y) && !(#[trigger] nd(tu, y)).is_leaf implies has_child(nd(tu, y)) by {
        assert(y != x);
        assert(reach(t0, y));
        assert(nd(tu, y) == nd(t0, y));
    }
    assert forall|y: int|
        0 < y < nn(tu) && y != x && reach(tu, y) && (#[trigger] nd(tu, y)).is_leaf && !nd(tu, parent_of(tu, y)).is_leaf
        implies nd(tu, parent_of(tu, y)).in_reducible by {
        let p = parent_of(t0, y);
        assert(parent_of(tu, y) == p);
        assert(0 <= p < y);
        assert(p != x);
        assert(nd(tu, p) == nd(t0, p));
        assert(nd(tu, y) == nd(t0, y));
        assert(reach(t0, y));
    }
    assert forall|y: int| 0 <= y < nn(tu) && y != x && reach(tu, y) && (#[trigger] nd(tu, y)).is_leaf && has_child(nd(tu, y))
        implies nd(tu, y).in_reducible by {
        assert(nd(tu, y) == nd(t0, y));
        assert(reach(t0, y));
    }
}

/// Taking `x` off the end of its list and detaching childless leaves keeps
/// the lists consistent.
proof fn lemma_reduce_lists(t0: Octree, tu: Octree, x: int, dd: int)
    requires
        wf(t0),
        lists_ok(t0),
        nn(tu) == nn(t0),
        tu.depth == t0.depth,
        0 <= x < nn(t0),
        0 <= dd < 7,
        t0.reducible[dd]@.len() > 0,
        t0.reducible[dd]@.last().0 == x,
        tu.reducible[dd]@ == t0.reducible[dd]@.drop_last(),
        forall|d: int| 0 <= d < 7 && d != dd ==> #[trigger] tu.reducible[d] == t0.reducible[d],
        forall|y: int| 0 <= y < nn(t0) && y != x ==> #[trigger] nd(tu, y) == nd(t0, y),
        !nd(tu, x).in_reducible,
        forall|y: int| 0 <= y < nn(t0) && reach(t0, y) && (!nd(t0, y).is_leaf || has_child(nd(t0, y)))
            ==> #[trigger] reach(tu, y),
    ensures
        lists_ok(tu),
{
    let last = t0.reducible[dd]@.len() - 1;
    assert forall|d: int, q: int| 0 <= d < 7 && 0 <= q < tu.reducible[d]@.len()
        implies #[trigger] tu.reducible[d]@[q] == t0.reducible[d]@[q] && t0.reducible[d]@[q].0 != x by {
        if d != dd {
            assert(tu.reducible[d] == t0.reducible[d]);
            let y = t0.reducible[d]@[q].0 as int;
            assert(dep(t0, y) == d);
        } else {
            assert(q < last);
            assert(t0.reducible[dd]@[last].0 == x);
        }
    }
    assert forall|d: int, q: int|
        0 <= d < 7 && 0 <= q < tu.reducible[d]@.len() implies {
            let y = (#[trigger] tu.reducible[d]@[q]).0 as int;
            &&& 0 <= y < nn(tu)
            &&& dep(tu, y) == d
            &&& nd(tu, y).in_reducible
            &&& reach(tu, y)
            &&& (!nd(tu, y).is_leaf || has_child(nd(tu, y)))
        } by {
        let y = t0.reducible[d]@[q].0 as int;
        assert(tu.reducible[d]@[q] == t0.reducible[d]@[q]);
        assert(y != x);
        assert(nd(tu, y) == nd(t0, y));
    }
    assert forall|d: int, q1: int, q2: int|
        0 <= d < 7 && 0 <= q1 < tu.reducible[d]@.len() && 0 <= q2 < tu.reducible[d]@.len() && q1 != q2
        implies #[trigger] tu.reducible[d]@[q1] != #[trigger] tu.reducible[d]@[q2] by {
        assert(tu.reducible[d]@[q1] == t0.reducible[d]@[q1]);
        assert(tu.reducible[d]@[q2] == t0.reducible[d]@[q2]);
    }
    assert forall|y: int| 0 <= y < nn(tu) && (#[trigger] nd(tu, y)).in_reducible implies {
        &&& dep(tu, y) < 7
        &&& listed(tu, dep(tu, y), y)
    } by {
        assert(y != x);
        assert(nd(tu, y) == nd(t0, y));
        let d = dep(t0, y);
        assert(listed(t0, d, y));
        let q = choose|q: int| 0 <= q < t0.reducible[d]@.len() && (#[trigger] t0.reducible[d]@[q]).0 == y;
        if d != dd {
            assert(tu.reducible[d] == t0.reducible[d]);
        } else {
            assert(t0.reducible[dd]@[last].0 == x);
            assert(q != last);
        }
        assert(tu.reducible[d]@[q].0 == y);
    }
}

/// Once the parent of `x` and `x` itself are registered where needed, the
/// reduction invariant holds again.
proof fn lemma_reduce_finish(tu: Octree, tp: Octree, tf: Octree, x: int)
    requires
        wf(tu),
        nodes_ok(tu, subw(tu, fpix(), 0)),
        tu.leaf_count == subw(tu, fleaf(), 0),
        r3(tu),
        forall|y: int|
            0 < y < nn(tu) && y != x && reach(tu, y) && (#[trigger] nd(tu, y)).is_leaf && !nd(tu, parent_of(tu, y)).is_leaf
                ==> nd(tu, parent_of(tu, y)).in_reducible,
        forall|y: int| 0 <= y < nn(tu) && y != x && reach(tu, y) && (#[trigger] nd(tu, y)).is_leaf && has_child(nd(tu, y))
            ==> nd(tu, y).in_reducible,
        0 <= x < nn(tu),
        flags_up(tu, tp),
        flags_up(tp, tf),
        lists_ok(tf),
        x > 0 && !nd(tu, parent_of(tu, x)).is_leaf ==> nd(tp, parent_of(tu, x)).in_reducible,
        has_child(nd(tu, x)) ==> nd(tf, x).in_reducible,
    ensures
        inv2(tf),
        subw(tf, fpix(), 0) == subw(tu, fpix(), 0),
        subw(tf, fnode(), 0) == subw(tu, fnode(), 0),
        tf.leaf_count == tu.leaf_count,
{
    lemma_flags_up(tu, tp);
    lemma_flags_up(tp, tf);
    let m = subw(tu, fpix(), 0);
    assert(nodes_ok(tp, m));
    assert(nodes_ok(tf, m));
    assert(r3(tp));
    assert(r3(tf));
    assert forall|y: int| 0 <= y < nn(tu) implies #[trigger] nd(tf, y) == (Node { in_reducible: nd(tf, y).in_reducible, ..nd(tu, y) })
        && (nd(tu, y).in_reducible ==> nd(tf, y).in_reducible) by {
        assert(nd(tp, y) == (Node { in_reducible: nd(tp, y).in_reducible, ..nd(tu, y) }));
        assert(nd(tf, y) == (Node { in_reducible: nd(tf, y).in_reducible, ..nd(tp, y) }));
    }
    assert forall|y: int| 0 <= y < nn(tu) && has_child(nd(tf, y)) implies #[trigger] has_child(nd(tu, y)) by {
        let j = choose|j: int| 0 <= j < 8 && (#[trigger] nd(tf, y).children[j]) is Some;
        assert(nd(tu, y).children[j] is Some);
    }
    assert forall|y: int|
        0 < y < nn(tf) && reach(tf, y) && (#[trigger] nd(tf, y)).is_leaf && !nd(tf, parent_of(tf, y)).is_leaf
        implies nd(tf, parent_of(tf, y)).in_reducible by {
        let p = parent_of(tu, y);
        assert(0 <= p < y);
        assert(nd(tf, p) == (Node { in_reducible: nd(tf, p).in_reducible, ..nd(tu, p) }));
        assert(nd(tp, p).in_reducible ==> nd(tf, p).in_reducible);
    }
    assert forall|y: int| 0 <= y < nn(tf) && reach(tf, y) && (#[trigger] nd(tf, y)).is_leaf && has_child(nd(tf, y))
        implies nd(tf, y).in_reducible by {
        assert(has_child(nd(tu, y)));
    }
}

/// What merging the leaves in `l[..c]` into `x` asks of the tree.
spec fn merge_pre(t: Octree, x: int, l: Seq<usize>, c: int) -> bool {
    let m = subw(t, fpix(), 0);
    &&& wf(t)
    &&& nodes_ok(t, m)
    &&& m <= MAX_PIXELS
    &&& t.leaf_count == subw(t, fleaf(), 0)
    &&& 0 <= x < nn(t)
    &&& reach(t, x)
    &&& 1 <= c <= l.len()
    &&& l.no_duplicates()
    &&& forall|q: int| 0 <= q < l.len() ==> #[trigger] l[q] < 8 && slot(t, x, l[q] as int) != -1
    &&& forall|j: int|
        0 <= j < 8 && #[trigger] slot(t, x, j) != -1 ==> {
            &&& l.contains(j as usize)
            &&& nd(t, slot(t, x, j)).is_leaf
            &&& childless(nd(t, slot(t, x, j)))
            &&& nd(t, slot(t, x, j)).pixel_count > 0
        }
}

/// From `t0` to `t1`, the leaves that left the tree were the first ones when
/// the leaf children of their parent are ordered by pixel count, and equal
/// counts by slot: every leaf that stayed under the same parent comes after
/// every one that left.
spec fn smallest_merged(t0: Octree, t1: Octree) -> bool {
    forall|p: int, jy: int, jz: int|
        #![trigger slot(t0, p, jy), slot(t0, p, jz)]
        0 <= p < nn(t0) && 0 <= jy < 8 && 0 <= jz < 8 && slot(t0, p, jy) != -1 && slot(t0, p, jz) != -1
            && reach(t0, slot(t0, p, jy)) && !reach(t1, slot(t0, p, jy))
            && reach(t1, slot(t0, p, jz)) && nd(t0, slot(t0, p, jz)).is_leaf
            ==> nd(t0, slot(t0, p, jy)).pixel_count < nd(t0, slot(t0, p, jz)).pixel_count
                || (nd(t0, slot(t0, p, jy)).pixel_count == nd(t0, slot(t0, p, jz)).pixel_count && jy < jz)
}

/// One reduction took `x`, the last node of the deepest non-empty list, and
/// made it a leaf; only children of `x` left the tree.  `x` is listed again,
/// at the end of its list, while it keeps children; its parent joins the end
/// of the list above when it is neither a leaf nor listed yet; the other
/// lists are unchanged.
spec fn reduced_at(t0: Octree, t1: Octree) -> bool {
    let d = deepest(t0);
    let id = t0.reducible[d]@.last();
    let x = id.0 as int;
    let rest = t0.reducible[d]@.drop_last();
    let p = parent_of(t0, x);
    let up = d > 0 && !nd(t0, p).is_leaf && !nd(t0, p).in_reducible;
    &&& 0 <= d < 7
    &&& 0 <= x < nn(t1)
    &&& nd(t1, x).is_leaf
    &&& forall|y: int| 0 <= y < nn(t0) && reach(t0, y) && !reach(t1, y) ==> #[trigger] parent_of(t0, y) == x
    &&& t1.reducible[d]@ == (if has_child(nd(t1, x)) { rest.push(id) } else { rest })
    &&& d > 0 ==> t1.reducible[d - 1]@
        == (if up { t0.reducible[d - 1]@.push(NodeId(p as usize)) } else { t0.reducible[d - 1]@ })
    &&& forall|e: int| 0 <= e < 7 && e != d && e != d - 1 ==> #[trigger] t1.reducible[e]@ == t0.reducible[e]@
    &&& nd(t1, x).pixel_count == nd(t0, x).pixel_count + msum(t0, fpix(), x, 8, merged_slots(t0, t1, x))
    &&& nd(t1, x).r_sum == nd(t0, x).r_sum + msum(t0, fr(), x, 8, merged_slots(t0, t1, x))
    &&& nd(t1, x).g_sum == nd(t0, x).g_sum + msum(t0, fg(), x, 8, merged_slots(t0, t1, x))
    &&& nd(t1, x).b_sum == nd(t0, x).b_sum + msum(t0, fb(), x, 8, merged_slots(t0, t1, x))
}

/// The slots of `x` that held a child in `t0` and hold none in `t1`.
spec fn merged_slots(t0: Octree, t1: Octree, x: int) -> Set<int> {
    Set::new(|j: int| 0 <= j < 8 && slot(t0, x, j) != -1 && slot(t1, x, j) == -1)
}

/// Sums over children do not see changes that keep every slot and weight.
proof fn lemma_msum_frame(t1: Octree, t2: Octree, f: spec_fn(Node) -> int, x: int, j: int, s: Set<int>)
    requires
        nn(t1) == nn(t2),
        forall|y: int, jj: int| 0 <= y < nn(t1) && 0 <= jj < 8 ==> #[trigger] slot(t1, y, jj) == slot(t2, y, jj),
        forall|y: int| 0 <= y < nn(t1) ==> f(#[trigger] nd(t1, y)) == f(nd(t2, y)),
        0 <= x < nn(t1),
        j <= 8,
    ensures
        msum(t2, f, x, j, s) == msum(t1, f, x, j, s),
    decreases j,
{
    if j > 0 {
        lemma_msum_frame(t1, t2, f, x, j - 1, s);
        lemma_subw_frame(t1, t2, f, slot(t1, x, j - 1));
    }
}

/// How many leaves a merge of `c` of `n` leaf children leaves: exactly `k`
/// unless every child is merged.
proof fn lemma_merge_count(old_count: int, k: int, n: int, c: int, already_leaf: bool, budget: int, max_merge: int, usize_max: int)
    requires
        old_count > k >= 0,
        old_count <= usize_max,
        budget == old_count - k,
        max_merge == (if already_leaf { if budget >= 1 { budget } else { 1 } } else {
            if budget + 1 <= usize_max { budget + 1 } else { usize_max }
        }),
        1 <= n <= usize_max,
        c == (if n <= max_merge { n } else { max_merge }),
    ensures
        c < n ==> old_count - c + (if already_leaf { 0int } else { 1int }) == k,
        1 <= c,
{
}

/// From `t0` to `t1`, a parent that lost leaves lost all of its children.
spec fn siblings_merged(t0: Octree, t1: Octree) -> bool {
    forall|y: int, z: int|
        #![trigger nd(t0, y), nd(t0, z)]
        0 <= y < nn(t0) && 0 <= z < nn(t0) && reach(t0, y) && !reach(t1, y)
            && parent_of(t0, z) == parent_of(t0, y) ==> !reach(t1, z)
}

/// A reduction that merges the leaves in `l[..c]`, sorted by the pixel
/// counts in `keys`, merges the smallest.
proof fn lemma_reduce_smallest(t0: Octree, ta: Octree, tu: Octree, tf: Octree, x: int, l: Seq<usize>, c: int, keys: [u64; 8])
    requires
        wf(t0),
        merge_pre(ta, x, l, c),
        merge_post(ta, tu, x, l, c),
        nn(ta) == nn(t0),
        forall|y: int| 0 <= y < nn(t0) && y != x ==> #[trigger] nd(ta, y) == nd(t0, y),
        forall|y: int| 0 <= y < nn(t0) ==> #[trigger] reach(ta, y) == reach(t0, y),
        forall|y: int| 0 <= y < nn(t0) ==> #[trigger] parent_of(ta, y) == parent_of(t0, y),
        nn(tf) == nn(tu),
        forall|y: int| 0 <= y < nn(tu) ==> #[trigger] reach(tf, y) == reach(tu, y),
        forall|jj: int| 0 <= jj < 8 && slot(ta, x, jj) != -1 ==> #[trigger] keys[jj] == nd(ta, slot(ta, x, jj)).pixel_count,
        forall|a: int, b: int| 0 <= a < b < l.len() ==> slot_le(keys, #[trigger] l[a], #[trigger] l[b]),
        forall|y: int, j: int| 0 <= y < nn(t0) && 0 <= j < 8 ==> #[trigger] slot(ta, y, j) == slot(t0, y, j),
    ensures
        smallest_merged(t0, tf),
        c == l.len() ==> siblings_merged(t0, tf),
{
    let sset = slot_set(l, c);
    if c == l.len() {
        assert forall|y: int, z: int|
            #![trigger nd(t0, y), nd(t0, z)]
            0 <= y < nn(t0) && 0 <= z < nn(t0) && reach(t0, y) && !reach(tf, y)
                && parent_of(t0, z) == parent_of(t0, y) implies !reach(tf, z) by {
            if reach(tf, z) {
                assert(reach(ta, y) && !reach(tu, y) && reach(tu, z));
                assert(merged_of(ta, x, sset, y));
                let jy = choose|jy: int| 0 <= jy < 8 && sset.contains(jy) && #[trigger] slot(ta, x, jy) == y;
                assert(parent_of(ta, y) == x);
                assert(parent_of(tu, z) == x);
                assert(z > 0) by {
                    if z == 0 {
                        assert(nd(t0, 0).parent is None);
                    }
                }
                assert(is_child(tu, x, z));
                let jz = choose|jz: int| 0 <= jz < 8 && #[trigger] slot(tu, x, jz) == z;
                assert(!sset.contains(jz) && slot(ta, x, jz) == z);
                assert(l.contains(jz as usize));
                let qz = choose|qz: int| 0 <= qz < l.len() && l[qz] == jz as usize;
                lemma_slot_set_mem(l, c, jz);
                assert(l[qz] as int == jz);
            }
        }
    }
    assert forall|p: int, jy: int, jz: int|
        #![trigger slot(t0, p, jy), slot(t0, p, jz)]
        0 <= p < nn(t0) && 0 <= jy < 8 && 0 <= jz < 8 && slot(t0, p, jy) != -1 && slot(t0, p, jz) != -1
            && reach(t0, slot(t0, p, jy)) && !reach(tf, slot(t0, p, jy))
            && reach(tf, slot(t0, p, jz)) && nd(t0, slot(t0, p, jz)).is_leaf
        implies nd(t0, slot(t0, p, jy)).pixel_count < nd(t0, slot(t0, p, jz)).pixel_count
            || (nd(t0, slot(t0, p, jy)).pixel_count == nd(t0, slot(t0, p, jz)).pixel_count && jy < jz) by {
        let y = slot(t0, p, jy);
        let z = slot(t0, p, jz);
        assert(parent_of(t0, y) == p && parent_of(t0, z) == p);
        assert(reach(ta, y) && !reach(tu, y) && reach(tu, z));
        assert(merged_of(ta, x, sset, y));
        let jm = choose|jm: int| 0 <= jm < 8 && sset.contains(jm) && #[trigger] slot(ta, x, jm) == y;
        assert(parent_of(ta, y) == x);
        assert(p == x);
        assert(slot(ta, x, jy) == y);
        assert(jm == jy);
        lemma_slot_set_mem(l, c, jy);
        let py = choose|py: int| 0 <= py < c && #[trigger] l[py] as int == jy;
        assert(slot(ta, x, jz) == z);
        if sset.contains(jz) {
            assert(merged_of(ta, x, sset, z));
        }
        assert(l.contains(jz as usize));
        let qz = choose|qz: int| 0 <= qz < l.len() && l[qz] == jz as usize;
        if qz < c {
            lemma_slot_set_mem(l, c, jz);
            assert(l[qz] as int == jz);
        }
        assert(slot_le(keys, l[py], l[qz]));
        assert(keys[jy] == nd(ta, y).pixel_count);
        assert(keys[jz] == nd(ta, z).pixel_count);
        assert(y != x && z != x);
        assert(nd(ta, y) == nd(t0, y) && nd(ta, z) == nd(t0, z));
    }
}

/// `t3` is `ta` with the slots `s` of `x` emptied.
spec fn detached(ta: Octree, t3: Octree, x: int, s: Set<int>) -> bool {
    &&& nn(t3) == nn(ta)
    &&& forall|i: int| 0 <= i < nn(ta) && i != x ==> #[trigger] nd(t3, i) == nd(ta, i)
    &&& nd(t3, x) == (Node { children: nd(t3, x).children, ..nd(ta, x) })
    &&& forall|j: int| 0 <= j < 8 ==> #[trigger] slot(t3, x, j) == (if s.contains(j) { -1 } else { slot(ta, x, j) })
    &&& t3.reducible == ta.reducible
    &&& t3.root == ta.root
    &&& t3.depth == ta.depth
    &&& t3.leaf_count == ta.leaf_count
}

/// What merging the leaves in `l[..c]` into `x` gives.
spec fn merge_post(t: Octree, tu: Octree, x: int, l: Seq<usize>, c: int) -> bool {
    let m = subw(t, fpix(), 0);
    &&& wf(tu)
    &&& nodes_ok(tu, m)
    &&& subw(tu, fpix(), 0) == m
    &&& tu.leaf_count == subw(tu, fleaf(), 0)
    &&& tu.leaf_count == t.leaf_count - c + (if nd(t, x).is_leaf { 0int } else { 1int })
    &&& subw(tu, fnode(), 0) == subw(t, fnode(), 0) - c
    &&& nn(tu) == nn(t)
    &&& tu.root == t.root
    &&& tu.depth == t.depth
    &&& tu.reducible == t.reducible
    &&& forall|y: int| 0 <= y < nn(t) && y != x ==> #[trigger] nd(tu, y) == nd(t, y)
    &&& nd(tu, x).is_leaf
    &&& nd(tu, x).in_reducible == nd(t, x).in_reducible
    &&& reach(tu, x)
    &&& forall|y: int| 0 <= y < nn(t) ==> #[trigger] parent_of(tu, y) == parent_of(t, y)
    &&& forall|y: int| 0 <= y < nn(t) && #[trigger] reach(tu, y) ==> reach(t, y)
    &&& forall|y: int| 0 <= y < nn(t) ==> #[trigger] reach(tu, y) == (reach(t, y) && !merged_of(t, x, slot_set(l, c), y))
    &&& forall|j: int| 0 <= j < 8 ==> #[trigger] slot(tu, x, j) == (if slot_set(l, c).contains(j) { -1 } else { slot(t, x, j) })
    &&& forall|y: int|
        0 <= y < nn(t) && #[trigger] reach(t, y) && (!nd(t, y).is_leaf || has_child(nd(t, y))) ==> reach(tu, y)
    &&& (has_child(nd(tu, x)) <==> c < l.len())
}

proof fn lemma_slot_set_mem(l: Seq<usize>, c: int, j: int)
    requires
        0 <= c <= l.len(),
    ensures
        slot_set(l, c).contains(j) <==> exists|i: int| 0 <= i < c && #[trigger] l[i] as int == j,
{
    let mv = l.subrange(0, c).map_values(|v: usize| v as int);
    if slot_set(l, c).contains(j) {
        let i2 = choose|i2: int| 0 <= i2 < mv.len() && mv[i2] == j;
        assert(l[i2] as int == j);
    }
    if exists|i: int| 0 <= i < c && #[trigger] l[i] as int == j {
        let i = choose|i: int| 0 <= i < c && #[trigger] l[i] as int == j;
        assert(mv[i] == j);
    }
}

/// Emptying the slots of the merged leaves: the shape stays sound, the merged
/// leaves drop out, and the weights drop by theirs.
proof fn lemma_merge_detached(ta: Octree, t3: Octree, x: int, l: Seq<usize>, c: int)
    requires
        merge_pre(ta, x, l, c),
        detached(ta, t3, x, slot_set(l, c)),
    ensures
        wf(t3),
        forall|y: int| 0 <= y < nn(ta) ==> #[trigger] parent_of(t3, y) == parent_of(ta, y),
        forall|y: int| 0 <= y < nn(ta) ==> #[trigger] reach(t3, y) == (reach(ta, y) && !merged_of(ta, x, slot_set(l, c), y)),
        forall|j: int| 0 <= j < 8 && slot_set(l, c).contains(j)
            ==> slot(ta, x, j) != -1 && #[trigger] nd(ta, slot(ta, x, j)).is_leaf && childless(nd(ta, slot(ta, x, j))),
        reach(t3, x),
        subw(t3, fpix(), 0) == subw(ta, fpix(), 0) - msum(ta, fpix(), x, 8, slot_set(l, c)),
        subw(t3, fleaf(), 0) == subw(ta, fleaf(), 0) - msum(ta, fleaf(), x, 8, slot_set(l, c)),
        subw(t3, fnode(), 0) == subw(ta, fnode(), 0) - msum(ta, fnode(), x, 8, slot_set(l, c)),
        nd(ta, x).r_sum + msum(ta, fr(), x, 8, slot_set(l, c)) <= 255 * MAX_PIXELS,
        nd(ta, x).g_sum + msum(ta, fg(), x, 8, slot_set(l, c)) <= 255 * MAX_PIXELS,
        nd(ta, x).b_sum + msum(ta, fb(), x, 8, slot_set(l, c)) <= 255 * MAX_PIXELS,
        nd(ta, x).pixel_count + msum(ta, fpix(), x, 8, slot_set(l, c)) <= subw(ta, fpix(), 0),
        msum(ta, fleaf(), x, 8, slot_set(l, c)) <= ta.leaf_count,
        msum(ta, fr(), x, 8, slot_set(l, c)) <= 255 * msum(ta, fpix(), x, 8, slot_set(l, c)),
        msum(ta, fg(), x, 8, slot_set(l, c)) <= 255 * msum(ta, fpix(), x, 8, slot_set(l, c)),
        msum(ta, fb(), x, 8, slot_set(l, c)) <= 255 * msum(ta, fpix(), x, 8, slot_set(l, c)),
{
    let s = slot_set(l, c);
    let m = subw(ta, fpix(), 0);
    lemma_fleaf_le_fpix();
    assert forall|i: int| 0 <= i < nn(ta) implies #[trigger] nd(t3, i).parent == nd(ta, i).parent by {
        if i != x {
            assert(nd(t3, i) == nd(ta, i));
        }
    }
    assert forall|i: int, j: int| 0 <= i < nn(ta) && 0 <= j < 8 implies #[trigger] slot(t3, i, j) == slot(ta, i, j)
        || slot(t3, i, j) == -1 by {
        if i != x {
            assert(nd(t3, i) == nd(ta, i));
        }
    }
    lemma_wf_clear(ta, t3);
    assert forall|z: int, j: int| 0 <= z < nn(ta) && z != x && 0 <= j < 8 implies #[trigger] slot(t3, z, j) == slot(ta, z, j) by {
        assert(nd(t3, z) == nd(ta, z));
    }
    assert forall|j: int| 0 <= j < 8 && s.contains(j) implies slot(ta, x, j) != -1
        && #[trigger] nd(ta, slot(ta, x, j)).is_leaf && childless(nd(ta, slot(ta, x, j))) by {
        lemma_slot_set_mem(l, c, j);
        let i2 = choose|i2: int| 0 <= i2 < c && #[trigger] l[i2] as int == j;
        assert(slot(ta, x, l[i2] as int) != -1);
    }
    assert forall|y: int| 0 <= y < nn(ta) implies #[trigger] reach(t3, y) == (reach(ta, y) && !merged_of(ta, x, s, y)) by {
        lemma_reach_clear(ta, t3, x, s, y);
    }
    assert(same_but(ta, t3, fpix(), x));
    assert(same_but(ta, t3, fleaf(), x));
    assert(same_but(ta, t3, fnode(), x));
    assert forall|kk: int| 0 <= kk < 8 && s.contains(kk) implies #[trigger] slot(t3, x, kk) == -1 by {}
    assert forall|kk: int| 0 <= kk < 8 && !s.contains(kk) implies #[trigger] slot(t3, x, kk) == slot(ta, x, kk) by {}
    lemma_detach_sv(ta, t3, fpix(), x, s);
    lemma_detach_sv(ta, t3, fleaf(), x, s);
    lemma_detach_sv(ta, t3, fnode(), x, s);
    lemma_csum_clear(ta, t3, fpix(), x, 8, s);
    lemma_csum_clear(ta, t3, fleaf(), x, 8, s);
    lemma_csum_clear(ta, t3, fnode(), x, 8, s);
    lemma_sub_delta(ta, t3, fpix(), x, 0);
    lemma_sub_delta(ta, t3, fleaf(), x, 0);
    lemma_sub_delta(ta, t3, fnode(), x, 0);
    lemma_anc_root(ta, x);
    lemma_msum_le(ta, fpix(), x, 8, s);
    lemma_msum_le(ta, fleaf(), x, 8, s);
    lemma_subw_le_root(ta, fleaf(), x);
    assert(!merged_of(ta, x, s, x));
    // No channel sum overflows: the merged node holds at most `m` pixels.
    assert forall|k: int| 0 <= k < 8 && slot(ta, x, k) != -1 implies childless(#[trigger] nd(ta, slot(ta, x, k))) by {}
    lemma_msum_scale(ta, fr(), x, 8, s, m);
    lemma_msum_scale(ta, fg(), x, 8, s, m);
    lemma_msum_scale(ta, fb(), x, 8, s, m);
    lemma_subw_le_root(ta, fpix(), x);
    assert(node_ok(nd(ta, x), m));
    assert(subw(ta, fpix(), x) == nd(ta, x).pixel_count + csum(ta, fpix(), x, 8));
}

/// After the merge, `x` keeps children exactly when some leaves were left out.
proof fn lemma_merge_rest(ta: Octree, t3: Octree, x: int, l: Seq<usize>, c: int)
    requires
        merge_pre(ta, x, l, c),
        detached(ta, t3, x, slot_set(l, c)),
    ensures
        has_child(nd(t3, x)) <==> c < l.len(),
{
    let s = slot_set(l, c);
    if c < l.len() {
        let j = l[c] as int;
        assert(slot(ta, x, j) != -1);
        if s.contains(j) {
            lemma_slot_set_mem(l, c, j);
            let i2 = choose|i2: int| 0 <= i2 < c && #[trigger] l[i2] as int == j;
            assert(l[i2] == l[c]);
        }
        assert(slot(t3, x, j) != -1);
        assert(nd(t3, x).children[j] is Some);
    }
    if has_child(nd(t3, x)) {
        let j = choose|j: int| 0 <= j < 8 && (#[trigger] nd(t3, x).children[j]) is Some;
        assert(slot(t3, x, j) != -1);
        assert(!s.contains(j));
        assert(slot(ta, x, j) != -1);
        assert(l.contains(j as usize));
        let q = choose|q: int| 0 <= q < l.len() && l[q] == j as usize;
        if q < c {
            lemma_slot_set_mem(l, c, j);
            assert(l[q] as int == j);
        }
    }
}
/// A positive weight over some slots comes from one of them.
proof fn lemma_msum_pos(t: Octree, f: spec_fn(Node) -> int, x: int, j: int, s: Set<int>) -> (jj: int)
    requires
        msum(t, f, x, j, s) > 0,
    ensures
        0 <= jj < j,
        s.contains(jj),
        sv(t, f, x, jj) > 0,
    decreases j,
{
    if j <= 0 {
        assert(msum(t, f, x, j, s) == 0);
        0
    } else if s.contains(j - 1) && sv(t, f, x, j - 1) > 0 {
        j - 1
    } else {
        lemma_msum_pos(t, f, x, j - 1, s)
    }
}

/// With non-negative weights, the weight over some slots is at least that of one of them.
proof fn lemma_msum_ge(t: Octree, f: spec_fn(Node) -> int, x: int, j: int, s: Set<int>, jj: int)
    requires
        forall|n: Node| #[trigger] f(n) >= 0,
        0 <= x < nn(t),
        0 <= jj < j <= 8,
        s.contains(jj),
    ensures
        msum(t, f, x, j, s) >= sv(t, f, x, jj),
    decreases j,
{
    lemma_msum_le(t, f, x, j - 1, s);
    if jj < j - 1 {
        lemma_msum_ge(t, f, x, j - 1, s, jj);
        let c = slot(t, x, j - 1);
        if 0 <= x < c < nn(t) {
            lemma_subw_nonneg(t, f, c);
        }
    }
}

/// Merging leaves into `x` keeps every leaf cell in one node.
proof fn lemma_merge_whole(ta: Octree, tu: Octree, x: int, l: Seq<usize>, c: int, acc: Seq<Pixel>)
    requires
        cells_whole(ta),
        merge_pre(ta, x, l, c),
        merge_post(ta, tu, x, l, c),
        nd(tu, x).pix@ == nd(ta, x).pix@ + acc,
        forall|v: Pixel| #[trigger] acc.to_multiset().count(v) == msum(ta, fcnt(v), x, 8, slot_set(l, c)),
        forall|v: Pixel| #[trigger] subw(tu, fcnt(v), 0) == subw(ta, fcnt(v), 0),
    ensures
        cells_whole(tu),
{
    broadcast use vstd::multiset::group_multiset_axioms;
    let s = slot_set(l, c);
    vstd::seq_lib::lemma_multiset_commutative(nd(ta, x).pix@, acc);
    assert forall|i: int, a: Pixel, b: Pixel|
        #![trigger held(nd(tu, i), a), held(nd(tu, i), b)]
        0 <= i < nn(tu) && held(nd(tu, i), a) > 0 && cell_eq(a, b, 7)
        implies held(nd(tu, i), b) == subw(tu, fcnt(b), 0) by {
        if i != x {
            assert(nd(tu, i) == nd(ta, i));
        } else {
            assert(held(nd(tu, x), b) == held(nd(ta, x), b) + acc.to_multiset().count(b));
            assert(held(nd(tu, x), a) == held(nd(ta, x), a) + acc.to_multiset().count(a));
            // No node holds more than the tree.
            lemma_csum_nonneg(tu, fcnt(b), x, 8);
            lemma_subw_le_root(tu, fcnt(b), x);
            if held(nd(ta, x), a) > 0 {
                assert(held(nd(ta, x), b) == subw(ta, fcnt(b), 0));
            } else {
                let jj = lemma_msum_pos(ta, fcnt(a), x, 8, s);
                let cc = slot(ta, x, jj);
                assert(x < cc < nn(ta));
                assert(childless(nd(ta, cc)));
                lemma_csum_childless(ta, fcnt(a), cc, 8);
                lemma_csum_childless(ta, fcnt(b), cc, 8);
                assert(held(nd(ta, cc), a) > 0);
                assert(held(nd(ta, cc), b) == subw(ta, fcnt(b), 0));
                lemma_msum_ge(ta, fcnt(b), x, 8, s, jj);
            }
        }
    }
}


/// The node that absorbs merged sums stays within bounds.
proof fn lemma_merged_node_ok(a: Node, b: Node, r: int, g: int, bl: int, p: int, m: int)
    requires
        node_ok(a, m),
        0 <= r <= 255 * p,
        0 <= g <= 255 * p,
        0 <= bl <= 255 * p,
        p >= 1,
        a.pixel_count + p <= m,
        a.r_sum + r <= 255 * MAX_PIXELS,
        a.g_sum + g <= 255 * MAX_PIXELS,
        a.b_sum + bl <= 255 * MAX_PIXELS,
        m <= MAX_PIXELS,
        b == (Node {
            r_sum: (a.r_sum + r) as u64,
            g_sum: (a.g_sum + g) as u64,
            b_sum: (a.b_sum + bl) as u64,
            pixel_count: (a.pixel_count + p) as u64,
            is_leaf: true,
            pix: b.pix,
            ..a
        }),
    ensures
        node_ok(b, m),
        b.pixel_count == a.pixel_count + p,
        b.pixel_count > 0,
{
    assert(255 * MAX_PIXELS == u64::MAX);
}

/// Moving the pixels of the merged leaves into `x` keeps the pixels below the root.
proof fn lemma_merge_counts(ta: Octree, t3: Octree, tu: Octree, x: int, l: Seq<usize>, c: int, acc: Seq<Pixel>)
    requires
        merge_pre(ta, x, l, c),
        detached(ta, t3, x, slot_set(l, c)),
        nn(tu) == nn(t3),
        forall|i: int| 0 <= i < nn(t3) && i != x ==> #[trigger] nd(tu, i) == nd(t3, i),
        nd(tu, x).parent == nd(t3, x).parent,
        nd(tu, x).children == nd(t3, x).children,
        nd(tu, x).pix@ == nd(ta, x).pix@ + acc,
        forall|v: Pixel| #[trigger] acc.to_multiset().count(v) == msum(ta, fcnt(v), x, 8, slot_set(l, c)),
    ensures
        forall|v: Pixel| #[trigger] subw(tu, fcnt(v), 0) == subw(ta, fcnt(v), 0),
{
    let s = slot_set(l, c);
    lemma_merge_detached(ta, t3, x, l, c);
    lemma_anc_root(ta, x);
    lemma_anc_root(t3, x);
    assert forall|v: Pixel| #[trigger] subw(tu, fcnt(v), 0) == subw(ta, fcnt(v), 0) by {
        broadcast use vstd::multiset::group_multiset_axioms;
        let f = fcnt(v);
        assert forall|y: int| 0 <= y < nn(ta) implies parent_of(ta, y) == #[trigger] parent_of(t3, y) by {}
        assert forall|y: int, j: int| 0 <= y < nn(ta) && y != x && 0 <= j < 8
            implies #[trigger] slot(ta, y, j) == slot(t3, y, j) by {
            assert(nd(t3, y) == nd(ta, y));
        }
        assert forall|y: int| 0 <= y < nn(ta) && y != x implies f(#[trigger] nd(ta, y)) == f(nd(t3, y)) by {
            assert(nd(t3, y) == nd(ta, y));
        }
        assert(same_but(ta, t3, f, x));
        assert forall|kk: int| 0 <= kk < 8 && s.contains(kk) implies #[trigger] slot(t3, x, kk) == -1 by {}
        assert forall|kk: int| 0 <= kk < 8 && !s.contains(kk) implies #[trigger] slot(t3, x, kk) == slot(ta, x, kk) by {}
        lemma_detach_sv(ta, t3, f, x, s);
        lemma_csum_clear(ta, t3, f, x, 8, s);
        lemma_sub_delta(ta, t3, f, x, 0);
        assert(f(nd(t3, x)) == f(nd(ta, x)));
        assert forall|y: int| 0 <= y < nn(t3) implies parent_of(t3, y) == #[trigger] parent_of(tu, y) by {
            if y != x {
                assert(nd(tu, y) == nd(t3, y));
            }
        }
        assert forall|y: int, j: int| 0 <= y < nn(t3) && y != x && 0 <= j < 8
            implies #[trigger] slot(t3, y, j) == slot(tu, y, j) by {
            assert(nd(tu, y) == nd(t3, y));
        }
        assert forall|y: int| 0 <= y < nn(t3) && y != x implies f(#[trigger] nd(t3, y)) == f(nd(tu, y)) by {
            assert(nd(tu, y) == nd(t3, y));
        }
        assert(same_but(t3, tu, f, x));
        assert forall|k: int| 0 <= k < 8 implies #[trigger] slot(tu, x, k) == slot(t3, x, k) by {}
        lemma_own_change(t3, tu, f, x);
        lemma_sub_delta(t3, tu, f, x, 0);
        vstd::seq_lib::lemma_multiset_commutative(nd(ta, x).pix@, acc);
        assert(f(nd(tu, x)) == f(nd(ta, x)) + msum(ta, f, x, 8, s));
    }
}

/// Changing only registration flags keeps the pixels of every node.
proof fn lemma_flags_counts(t1: Octree, t2: Octree)
    requires
        nn(t2) == nn(t1),
        forall|i: int| 0 <= i < nn(t1) ==> #[trigger] nd(t2, i) == (Node { in_reducible: nd(t2, i).in_reducible, ..nd(t1, i) }),
    ensures
        forall|v: Pixel| #[trigger] subw(t2, fcnt(v), 0) == subw(t1, fcnt(v), 0),
        pix_ok(t1) ==> pix_ok(t2),
        cells_whole(t1) ==> cells_whole(t2),
{
    assert forall|y: int, j: int| 0 <= y < nn(t1) && 0 <= j < 8 implies #[trigger] slot(t1, y, j) == slot(t2, y, j) by {
        assert(nd(t2, y) == (Node { in_reducible: nd(t2, y).in_reducible, ..nd(t1, y) }));
    }
    assert forall|v: Pixel| #[trigger] subw(t2, fcnt(v), 0) == subw(t1, fcnt(v), 0) by {
        assert forall|y: int| 0 <= y < nn(t1) implies fcnt(v)(#[trigger] nd(t1, y)) == fcnt(v)(nd(t2, y)) by {
            assert(nd(t2, y) == (Node { in_reducible: nd(t2, y).in_reducible, ..nd(t1, y) }));
        }
        lemma_subw_frame(t1, t2, fcnt(v), 0);
    }
    if pix_ok(t1) {
        assert forall|i: int| 0 <= i < nn(t2) implies pix_ok_node(#[trigger] nd(t2, i)) by {
            assert(pix_ok_node(nd(t1, i)));
            assert(nd(t2, i) == (Node { in_reducible: nd(t2, i).in_reducible, ..nd(t1, i) }));
        }
    }
    lemma_flags_whole(t1, t2);
}

/// Nodes that keep their pixels, in a tree that keeps its pixels, keep
/// leaf cells whole.
proof fn lemma_flags_whole(t1: Octree, t2: Octree)
    requires
        nn(t2) == nn(t1),
        forall|i: int| 0 <= i < nn(t1) ==> (#[trigger] nd(t2, i)).pix == nd(t1, i).pix,
        forall|v: Pixel| #[trigger] subw(t2, fcnt(v), 0) == subw(t1, fcnt(v), 0),
    ensures
        cells_whole(t1) ==> cells_whole(t2),
{
    if cells_whole(t1) {
        assert forall|i: int, a: Pixel, b: Pixel|
            #![trigger held(nd(t2, i), a), held(nd(t2, i), b)]
            0 <= i < nn(t2) && held(nd(t2, i), a) > 0 && cell_eq(a, b, 7)
            implies held(nd(t2, i), b) == subw(t2, fcnt(b), 0) by {
            assert(nd(t2, i).pix == nd(t1, i).pix);
            assert(held(nd(t2, i), a) == held(nd(t1, i), a));
            assert(held(nd(t2, i), b) == held(nd(t1, i), b));
            assert(held(nd(t1, i), b) == subw(t1, fcnt(b), 0));
            assert(subw(t2, fcnt(b), 0) == subw(t1, fcnt(b), 0));
        }
    }
}

/// Writing the merged sums into `x` completes the merge.
proof fn lemma_merge_update(ta: Octree, t3: Octree, tu: Octree, x: int, l: Seq<usize>, c: int)
    requires
        merge_pre(ta, x, l, c),
        detached(ta, t3, x, slot_set(l, c)),
        msum(ta, fleaf(), x, 8, slot_set(l, c)) == c,
        msum(ta, fnode(), x, 8, slot_set(l, c)) == c,
        msum(ta, fpix(), x, 8, slot_set(l, c)) >= c,
        nn(tu) == nn(t3),
        tu.root == t3.root,
        tu.depth == t3.depth,
        tu.reducible == t3.reducible,
        forall|i: int| 0 <= i < nn(t3) && i != x ==> #[trigger] nd(tu, i) == nd(t3, i),
        nd(tu, x) == (Node {
            r_sum: (nd(t3, x).r_sum + msum(ta, fr(), x, 8, slot_set(l, c))) as u64,
            g_sum: (nd(t3, x).g_sum + msum(ta, fg(), x, 8, slot_set(l, c))) as u64,
            b_sum: (nd(t3, x).b_sum + msum(ta, fb(), x, 8, slot_set(l, c))) as u64,
            pixel_count: (nd(t3, x).pixel_count + msum(ta, fpix(), x, 8, slot_set(l, c))) as u64,
            is_leaf: true,
            pix: nd(tu, x).pix,
            ..nd(t3, x)
        }),
        tu.leaf_count == ta.leaf_count - c + (if nd(ta, x).is_leaf { 0int } else { 1int }),
    ensures
        merge_post(ta, tu, x, l, c),
{
    let s = slot_set(l, c);
    let m = subw(ta, fpix(), 0);
    lemma_merge_detached(ta, t3, x, l, c);
    lemma_merge_rest(ta, t3, x, l, c);
    lemma_fleaf_le_fpix();
    assert forall|i: int| 0 <= i < nn(t3) implies #[trigger] nd(tu, i).parent == nd(t3, i).parent
        && nd(tu, i).children == nd(t3, i).children by {}
    lemma_wf_frame(t3, tu);
    assert forall|kk: int| 0 <= kk < 8 implies #[trigger] slot(tu, x, kk) == slot(t3, x, kk) by {}
    assert(same_but(t3, tu, fpix(), x));
    assert(same_but(t3, tu, fleaf(), x));
    assert(same_but(t3, tu, fnode(), x));
    lemma_own_change(t3, tu, fpix(), x);
    lemma_own_change(t3, tu, fleaf(), x);
    lemma_own_change(t3, tu, fnode(), x);
    lemma_sub_delta(t3, tu, fpix(), x, 0);
    lemma_sub_delta(t3, tu, fleaf(), x, 0);
    lemma_sub_delta(t3, tu, fnode(), x, 0);
    lemma_anc_root(t3, x);
    assert forall|y: int| 0 <= y < nn(t3) implies #[trigger] reach(tu, y) == reach(t3, y) by {
        if reach(t3, y) {
            lemma_reach_grow(t3, tu, y);
        }
        if reach(tu, y) {
            lemma_reach_grow(tu, t3, y);
        }
    }
    assert(node_ok(nd(ta, x), m));
    assert(nd(t3, x).pixel_count == nd(ta, x).pixel_count && nd(t3, x).r_sum == nd(ta, x).r_sum
        && nd(t3, x).g_sum == nd(ta, x).g_sum && nd(t3, x).b_sum == nd(ta, x).b_sum);
    lemma_msum_le(ta, fr(), x, 8, s);
    lemma_msum_le(ta, fg(), x, 8, s);
    lemma_msum_le(ta, fb(), x, 8, s);
    lemma_merged_node_ok(nd(t3, x), nd(tu, x), msum(ta, fr(), x, 8, s), msum(ta, fg(), x, 8, s),
        msum(ta, fb(), x, 8, s), msum(ta, fpix(), x, 8, s), m);
    assert(fleaf()(nd(t3, x)) == fleaf()(nd(ta, x)));
    assert(fleaf()(nd(tu, x)) == 1);
    assert forall|i: int| 0 <= i < nn(tu) implies node_ok(#[trigger] nd(tu, i), m) by {
        if i != x {
            assert(nd(tu, i) == nd(ta, i));
        }
    }
    assert forall|y: int| 0 <= y < nn(ta) && #[trigger] reach(ta, y) && (!nd(ta, y).is_leaf || has_child(nd(ta, y)))
        implies reach(tu, y) by {
        if merged_of(ta, x, s, y) {
            let j = choose|j: int| 0 <= j < 8 && s.contains(j) && #[trigger] slot(ta, x, j) == y;
            assert(nd(ta, slot(ta, x, j)).is_leaf);
            assert(has_child(nd(ta, y)));
            let jj = choose|jj: int| 0 <= jj < 8 && (#[trigger] nd(ta, y).children[jj]) is Some;
            assert(childless(nd(ta, y)));
        }
    }
    assert(has_child(nd(tu, x)) == has_child(nd(t3, x)));
}

/// Taking the deepest registered node `x` off its list: the tree is unchanged
/// but for the flag of `x`, and the children of `x` are childless leaves.
proof fn lemma_reduce_pop(t0: Octree, ta: Octree, x: int, dd: int)
    requires
        inv2(t0),
        0 <= dd < 7,
        deepest(t0) == dd,
        t0.reducible[dd]@.len() > 0,
        t0.reducible[dd]@.last().0 == x,
        nn(ta) == nn(t0),
        ta.root == t0.root,
        ta.depth == t0.depth,
        ta.leaf_count == t0.leaf_count,
        ta.nodes@ == t0.nodes@.update(x, Node { in_reducible: false, ..t0.nodes@[x] }),
    ensures
        wf(ta),
        nodes_ok(ta, subw(ta, fpix(), 0)),
        subw(ta, fpix(), 0) == subw(t0, fpix(), 0),
        subw(ta, fleaf(), 0) == subw(t0, fleaf(), 0),
        subw(ta, fnode(), 0) == subw(t0, fnode(), 0),
        ta.leaf_count == subw(ta, fleaf(), 0),
        0 <= x < nn(ta),
        dep(ta, x) == dd,
        reach(ta, x),
        has_child(nd(ta, x)),
        !nd(ta, x).in_reducible,
        nd(ta, x).is_leaf == nd(t0, x).is_leaf,
        nd(t0, x).in_reducible,
        forall|y: int| 0 <= y < nn(t0) && y != x ==> #[trigger] nd(ta, y) == nd(t0, y),
        forall|y: int| 0 <= y < nn(t0) ==> #[trigger] reach(ta, y) == reach(t0, y),
        forall|y: int| 0 <= y < nn(t0) ==> #[trigger] parent_of(ta, y) == parent_of(t0, y),
        forall|j: int| 0 <= j < 8 && #[trigger] slot(ta, x, j) != -1 ==> {
            &&& x < slot(ta, x, j) < nn(ta)
            &&& nd(ta, slot(ta, x, j)).is_leaf
            &&& childless(nd(ta, slot(ta, x, j)))
            &&& nd(ta, slot(ta, x, j)).pixel_count > 0
        },
{
    let m = subw(t0, fpix(), 0);
    let last = t0.reducible[dd]@.len() - 1;
    assert(t0.reducible[dd]@[last].0 == x);
    assert(0 <= x < nn(t0) && dep(t0, x) == dd && reach(t0, x) && nd(t0, x).in_reducible);
    assert(!nd(t0, x).is_leaf || has_child(nd(t0, x)));
    assert(has_child(nd(t0, x)));
    lemma_r2(t0, dd + 1);
    assert forall|i: int| 0 <= i < nn(t0) && i != x implies #[trigger] nd(ta, i) == nd(t0, i) by {}
    assert(nd(ta, x) == (Node { in_reducible: false, ..nd(t0, x) }));
    assert forall|i: int| 0 <= i < nn(t0) implies #[trigger] nd(ta, i).parent == nd(t0, i).parent
        && nd(ta, i).children == nd(t0, i).children by {}
    lemma_wf_frame(t0, ta);
    assert forall|i: int| 0 <= i < nn(t0) implies #[trigger] reach(ta, i) == reach(t0, i) by {
        if reach(t0, i) {
            lemma_reach_grow(t0, ta, i);
        }
        if reach(ta, i) {
            lemma_reach_grow(ta, t0, i);
        }
    }
    assert forall|y: int| 0 <= y < nn(t0) implies fpix()(#[trigger] nd(t0, y)) == fpix()(nd(ta, y))
        && fleaf()(nd(t0, y)) == fleaf()(nd(ta, y)) && fnode()(nd(t0, y)) == fnode()(nd(ta, y)) by {}
    lemma_subw_frame(t0, ta, fpix(), 0);
    lemma_subw_frame(t0, ta, fleaf(), 0);
    lemma_subw_frame(t0, ta, fnode(), 0);
    assert forall|i: int| 0 <= i < nn(ta) implies node_ok(#[trigger] nd(ta, i), m) by {
        assert(node_ok(nd(t0, i), m));
    }
    assert(has_child(nd(ta, x))) by {
        let j = choose|j: int| 0 <= j < 8 && (#[trigger] nd(t0, x).children[j]) is Some;
        assert(nd(ta, x).children[j] is Some);
    }
    // The children of `x` are attached, below the deepest level: childless leaves.
    assert forall|j: int| 0 <= j < 8 && #[trigger] slot(ta, x, j) != -1 implies {
        &&& x < slot(ta, x, j) < nn(ta)
        &&& nd(ta, slot(ta, x, j)).is_leaf
        &&& childless(nd(ta, slot(ta, x, j)))
        &&& nd(ta, slot(ta, x, j)).pixel_count > 0
    } by {
        let c = slot(ta, x, j);
        assert(slot(t0, x, j) == c);
        assert(reach(t0, c));
        assert(dep(t0, c) == dd + 1);
        assert(nd(ta, c) == nd(t0, c));
        assert(node_ok(nd(t0, c), m));
    }
}

// ── Code ─────────────────────────────────────────────────────────────────────

impl Node {
    fn new(parent: Option<NodeId>, key: Ghost<Pixel>) -> (n: Self)
        ensures
            n.r_sum == 0 && n.g_sum == 0 && n.b_sum == 0 && n.pixel_count == 0,
            !n.is_leaf && !n.in_reducible,
            n.parent == parent,
            childless(n),
            n.pix@ == Seq::<Pixel>::empty(),
            n.key == key,
    {
        Self {
            r_sum: 0,
            g_sum: 0,
            b_sum: 0,
            pixel_count: 0,
            is_leaf: false,
            in_reducible: false,
            parent,
            children: [None; 8],
            pix: Ghost(Seq::empty()),
            key,
        }
    }
}

impl Octree {
    fn new() -> (t: Self)
        ensures
            inv1(t),
            subw(t, fpix(), 0) == 0,
            pix_ok(t),
            holds(t, Multiset::empty()),
            keys_ok(t),
            cells_whole(t),
            t.leaf_count == 0,
            nn(t) == 1,
            t.root == NodeId(0),
            childless(nd(t, 0)),
            nd(t, 0).pixel_count == 0 && nd(t, 0).r_sum == 0 && nd(t, 0).g_sum == 0 && nd(t, 0).b_sum == 0,
            !nd(t, 0).is_leaf && !nd(t, 0).in_reducible && nd(t, 0).parent is None,
            forall|d: int| 0 <= d < 7 ==> #[trigger] t.reducible[d]@.len() == 0,
            arena(t) == arena_new(),
    {
        let mut nodes = Vec::with_capacity(8192);
        nodes.push(Node::new(None, Ghost([0u8, 0u8, 0u8])));
        let ghost d0: Seq<int> = seq![0int];
        let t = Self {
            nodes,
            root: NodeId(0),
            leaf_count: 0,
            reducible: [Vec::new(), Vec::new(), Vec::new(), Vec::new(), Vec::new(), Vec::new(), Vec::new()],
            depth: Ghost(d0),
        };
        proof {
            lemma_csum_childless(t, fpix(), 0, 8);
            lemma_csum_childless(t, fleaf(), 0, 8);
            assert(reach(t, 0));
            assert(nd(t, 0).pix@.to_multiset() =~= Multiset::<Pixel>::empty()) by {
                broadcast use vstd::seq_lib::group_to_multiset_ensures;
            }
            assert(cells_whole(t));
            lemma_erase_fresh(nd(t, 0));
            assert(arena(t).0 =~= arena_new().0);
            assert(arena(t).1 =~= arena_new().1);
            assert forall|v: Pixel| #[trigger] subw(t, fcnt(v), 0) == Multiset::<Pixel>::empty().count(v) by {
                broadcast use vstd::seq_lib::group_to_multiset_ensures;
                lemma_csum_childless(t, fcnt(v), 0, 8);
                assert(nd(t, 0).pix@.to_multiset() =~= Multiset::<Pixel>::empty());
            }
        }
        t
    }

    fn alloc_child(&mut self, parent: NodeId, key: Ghost<Pixel>) -> (id: NodeId)
        requires
            0 <= parent.0 < old(self).nodes@.len(),
            old(self).depth@.len() == old(self).nodes@.len(),
        ensures
            id.0 == old(self).nodes@.len(),
            final(self).nodes@.len() == old(self).nodes@.len() + 1,
            forall|y: int| 0 <= y < old(self).nodes@.len() ==> #[trigger] final(self).nodes@[y] == old(self).nodes@[y],
            ({
                let n = final(self).nodes@[id.0 as int];
                &&& n.r_sum == 0 && n.g_sum == 0 && n.b_sum == 0 && n.pixel_count == 0
                &&& !n.is_leaf && !n.in_reducible
                &&& n.parent == Some(parent)
                &&& childless(n)
                &&& n.pix@ == Seq::<Pixel>::empty()
                &&& n.key == key
            }),
            final(self).depth@ == old(self).depth@.push(old(self).depth@[parent.0 as int] + 1),
            final(self).root == old(self).root,
            final(self).leaf_count == old(self).leaf_count,
            final(self).reducible == old(self).reducible,
    {
        let id = NodeId(self.nodes.len());
        self.nodes.push(Node::new(Some(parent), key));
        self.depth = Ghost(self.depth@.push(self.depth@[parent.0 as int] + 1));
        id
    }

    fn register(&mut self, id: NodeId, depth: usize)
        requires
            depth < MAX_DEPTH,
            0 <= id.0 < old(self).nodes@.len(),
        ensures
            final(self).nodes@ == old(self).nodes@.update(
                id.0 as int,
                Node { in_reducible: true, ..old(self).nodes@[id.0 as int] },
            ),
            old(self).nodes@[id.0 as int].in_reducible ==> final(self).reducible == old(self).reducible,
            !old(self).nodes@[id.0 as int].in_reducible ==> {
                &&& final(self).reducible[depth as int]@ == old(self).reducible[depth as int]@.push(id)
                &&& forall|d: int| 0 <= d < 7 && d != depth ==> #[trigger] final(self).reducible[d] == old(self).reducible[d]
            },
            final(self).root == old(self).root,
            final(self).leaf_count == old(self).leaf_count,
            final(self).depth == old(self).depth,
            flags_up(*old(self), *final(self)),
    {
        if !self.nodes[id.0].in_reducible {
            self.nodes[id.0].in_reducible = true;
            self.reducible[depth].push(id);
        }
    }
}

/// The child slot (0–7) that a pixel takes at `depth`: one bit of each of
/// R, G and B, from the most significant down.
pub fn octant_index(pixel: Pixel, depth: usize) -> (idx: usize)
    requires
        depth <= MAX_DEPTH,
    ensures
        idx < 8,
        idx == octant_of(pixel, depth as int),
{
    let shift = (MAX_DEPTH - depth) as u8;
    let p0 = pixel[0];
    let p1 = pixel[1];
    let p2 = pixel[2];
    assert((p0 >> shift) & 1 <= 1) by (bit_vector);
    assert((p1 >> shift) & 1 <= 1) by (bit_vector);
    assert((p2 >> shift) & 1 <= 1) by (bit_vector);
    let r = ((p0 >> shift) & 1) as usize;
    let g = ((p1 >> shift) & 1) as usize;
    let b = ((p2 >> shift) & 1) as usize;
    assert((r << 2usize) | (g << 1usize) | b == r * 4 + g * 2 + b) by (bit_vector)
        requires r <= 1, g <= 1, b <= 1;
    (r << 2) | (g << 1) | b
}


impl Octree {
    /// Walks `pixel` down to depth 7, creating the missing nodes, and adds it
    /// to the leaf there.
    fn insert(&mut self, pixel: Pixel)
        requires
            inv1(*old(self)),
            pix_ok(*old(self)),
            keys_ok(*old(self)),
            cells_whole(*old(self)),
            subw(*old(self), fpix(), 0) + 1 <= MAX_PIXELS,
            subw(*old(self), fpix(), 0) + 1 <= usize::MAX,
        ensures
            inv1(*final(self)),
            pix_ok(*final(self)),
            keys_ok(*final(self)),
            cells_whole(*final(self)),
            subw(*final(self), fpix(), 0) == subw(*old(self), fpix(), 0) + 1,
            forall|v: Pixel| #[trigger] subw(*final(self), fcnt(v), 0)
                == subw(*old(self), fcnt(v), 0) + (if v == pixel { 1int } else { 0int }),
            final(self).leaf_count == old(self).leaf_count + (if has_cell(*old(self), pixel) { 0int } else { 1int }),
            nn(*old(self)) <= nn(*final(self)) <= nn(*old(self)) + 7,
            exists|x: int| #[trigger] inserted_at(*old(self), *final(self), x, pixel),
            has_cell(*old(self), pixel) ==> nn(*final(self)) == nn(*old(self)),
            nn(*final(self)) == nn(*old(self)) + 7 - path_depth(*old(self), pixel),
            arena(*final(self)) == a_insert(arena(*old(self)), pixel),
    {
        let ghost m = subw(*self, fpix(), 0);
        let ghost start = *self;
        let ghost w: Option<Pixel> = if has_cell(start, pixel) {
            Some(choose|q: Pixel| #[trigger] subw(start, fcnt(q), 0) > 0 && cell_eq(q, pixel, 7))
        } else {
            None
        };
        proof {
            lemma_fleaf_le_fpix();
        }
        let mut id = self.root;
        let mut depth: usize = 0;
        while depth < MAX_DEPTH
            invariant
                ins_inv(*self, m, id.0 as int, depth as int),
                m + 1 <= MAX_PIXELS,
                m + 1 <= usize::MAX,
                pix_ok(*self),
                forall|v: Pixel| #[trigger] subw(*self, fcnt(v), 0) == subw(start, fcnt(v), 0),
                keys_ok(*self),
                cell_eq(pixel, nd(*self, id.0 as int).key@, depth as int),
                self.leaf_count == start.leaf_count,
                (w is None) == !has_cell(start, pixel),
                w matches Some(q) ==> cell_eq(q, pixel, 7) && subw(*self, fcnt(q), id.0 as int) > 0,
                nn(start) <= nn(*self) <= nn(start) + depth,
                forall|y: int| 0 <= y < nn(start) ==> same_sums(#[trigger] nd(*self, y), nd(start, y)),
                forall|y: int| nn(start) <= y < nn(*self) ==> empty_node(#[trigger] nd(*self, y)),
                w is Some ==> *self == start,
                forall|d: int| 0 <= d < 6 ==> #[trigger] self.reducible[d]@ == start.reducible[d]@,
                depth < 7 ==> self.reducible[6]@ == start.reducible[6]@,
                id.0 >= nn(start) ==> childless(nd(*self, id.0 as int)),
                id.0 < nn(start) && 0 < depth < 7 ==> has_child(nd(*self, id.0 as int)),
                forall|y: int| nn(start) <= y < nn(*self) ==> #[trigger] dep(*self, y) <= depth,
                forall|y: int| nn(start) <= y < nn(*self) ==> #[trigger] dep(*self, y) == y - nn(*self) + depth + 1,
                a_insert_from(arena(*self), pixel, id.0 as int, depth as int) == a_insert(arena(start), pixel),
                nn(*self) == nn(start) ==> *self == start && path_depth(start, pixel)
                    == path_depth_from(start, pixel, id.0 as int, depth as int),
                nn(*self) > nn(start) ==> nn(*self) == nn(start) + depth - path_depth(start, pixel) && id.0 >= nn(start),
                depth == 7 ==> (nd(*self, id.0 as int).parent matches Some(pid) && self.reducible[6]@
                    == (if pid.0 >= nn(start) { start.reducible[6]@.push(pid) } else { start.reducible[6]@ })),
            decreases MAX_DEPTH - depth,
        {
            let ghost pre = *self;
            let idx = octant_index(pixel, depth);
            proof {
                if w is Some {
                    let q = w->0;
                    let x = id.0 as int;
                    assert(!nd(pre, x).is_leaf);
                    assert(node_ok(nd(pre, x), m));
                    assert(pix_ok_node(nd(pre, x)));
                    assert(nd(pre, x).pix@.len() == 0);
                    assert(nd(pre, x).pix@ =~= Seq::<Pixel>::empty());
                    assert(fcnt(q)(nd(pre, x)) == 0) by {
                        broadcast use vstd::seq_lib::group_to_multiset_ensures;
                        assert(nd(pre, x).pix@.to_multiset() =~= Multiset::<Pixel>::empty());
                    }
                    lemma_descend(pre, x, q);
                    assert(octant_of(q, depth as int) == octant_of(pixel, depth as int));
                    assert(slot(pre, x, idx as int) != -1);
                }
            }
            let ghost fresh = slot(pre, id.0 as int, idx as int) == -1;
            if self.nodes[id.0].children[idx].is_none() {
                let ghost t0 = *self;
                let child = self.alloc_child(id, Ghost(pixel));
                let ghost t1 = *self;
                self.nodes[id.0].children[idx] = Some(child);
                let ghost t2 = *self;
                proof {
                    let x = id.0 as int;
                    let c = child.0 as int;
                    assert forall|i: int| 0 <= i < nn(t0) implies #[trigger] nd(t1, i) == nd(t0, i) by {}
                    assert forall|i: int| 0 <= i < nn(t0) implies #[trigger] dep(t1, i) == dep(t0, i) by {}
                    assert(dep(t1, c) == dep(t0, x) + 1);
                    assert(parent_of(t1, c) == x);
                    assert forall|i: int| 0 <= i < nn(t0) implies #[trigger] parent_of(t1, i) == parent_of(t0, i) by {
                        assert(nd(t1, i) == nd(t0, i));
                    }
                    lemma_wf_push(t0, t1, id, x);
                    lemma_ext_subw(t0, t1, fpix(), 0);
                    lemma_ext_subw(t0, t1, fleaf(), 0);
                    assert forall|i: int| 0 <= i < nn(t0) implies #[trigger] reach(t1, i) by {
                        lemma_reach_grow(t0, t1, i);
                    }
                    // t2: slot `idx` of `x` now holds `c`.
                    assert forall|y: int| 0 <= y < nn(t1) && y != x implies #[trigger] nd(t2, y) == nd(t1, y) by {}
                    assert forall|y: int, j: int| 0 <= y < nn(t1) && (y != x || j != idx) && 0 <= j < 8
                        implies #[trigger] slot(t2, y, j) == slot(t1, y, j) by {}
                    assert(slot(t2, x, idx as int) == c);
                    assert(same_but(t1, t2, fpix(), x));
                    assert(same_but(t1, t2, fleaf(), x));
                    lemma_csum_childless(t2, fpix(), c, 8);
                    lemma_csum_childless(t2, fleaf(), c, 8);
                    lemma_slot_change(t1, t2, fpix(), x, idx as int);
                    lemma_slot_change(t1, t2, fleaf(), x, idx as int);
                    lemma_sub_delta(t1, t2, fpix(), x, 0);
                    lemma_sub_delta(t1, t2, fleaf(), x, 0);
                    assert forall|i: int| 0 <= i < nn(t2) implies #[trigger] reach(t2, i) by {
                        if i < nn(t0) {
                            lemma_reach_grow(t1, t2, i);
                        } else {
                            assert(i == c);
                            lemma_reach_grow(t1, t2, x);
                            assert(is_child(t2, x, c));
                        }
                    }
                    assert(has_child(nd(t2, x))) by {
                        assert(nd(t2, x).children[idx as int] is Some);
                    }
                    assert forall|j: int| 0 <= j < 8 implies #[trigger] slot(t1, x, j) != c by {
                        assert(slot(t1, x, j) == slot(t0, x, j));
                    }
                    assert(nd(t2, x).parent == nd(t1, x).parent);
                    assert(nd(t2, 0).parent == nd(t1, 0).parent);
                    assert forall|i: int| 0 <= i < nn(t1) implies #[trigger] parent_of(t2, i) == parent_of(t1, i) by {
                        assert(nd(t2, i).parent == nd(t1, i).parent);
                    }
                    lemma_wf_fill(t1, t2, x, idx as int, c);
                    assert forall|i: int| 0 <= i < nn(t2) && i != c implies #[trigger] nd(t2, i).in_reducible == nd(t0, i).in_reducible
                        && nd(t2, i).is_leaf == nd(t0, i).is_leaf && dep(t2, i) == dep(t0, i) by {}
                    assert forall|d: int, q: int| 0 <= d < 7 && 0 <= q < t2.reducible[d]@.len()
                        implies #[trigger] t2.reducible[d]@[q] == t0.reducible[d]@[q] by {}
                    assert forall|i: int| 0 <= i < nn(t0) && has_child(nd(t0, i)) implies #[trigger] has_child(nd(t2, i)) by {
                        let j = choose|j: int| 0 <= j < 8 && (#[trigger] nd(t0, i).children[j]) is Some;
                        assert(nd(t2, i).children[j] is Some);
                    }
                    assert(lists_ok(t2));
                    assert(nd(t1, c) == nd(t2, c));
                    lemma_grow_counts(t0, t1, t2, x, c, idx as int);
                    assert(forall|y: int| 0 <= y < nn(t0) ==> #[trigger] dep(t1, y) == dep(t0, y));
                    lemma_grow_keys(t0, t1, t2, x, c, idx as int, pixel);
                    assert forall|i: int| 0 <= i < nn(t2) implies pix_ok_node(#[trigger] nd(t2, i)) by {
                        if i < nn(t0) && i != x {
                            assert(nd(t2, i) == nd(t0, i));
                        } else if i == x {
                            assert(pix_ok_node(nd(t0, x)));
                        }
                    }
                }
                if depth + 1 == MAX_DEPTH {
                    self.register(id, depth);
                    let ghost t3 = *self;
                    proof {
                        let x = id.0 as int;
                        assert forall|y: int, j: int| 0 <= y < nn(t2) && 0 <= j < 8
                            implies #[trigger] slot(t2, y, j) == slot(t3, y, j) by {
                            if y == x {
                                assert(nd(t3, y).children == nd(t2, y).children);
                            }
                        }
                        assert forall|y: int| 0 <= y < nn(t2) implies fpix()(#[trigger] nd(t2, y)) == fpix()(nd(t3, y))
                            && fleaf()(nd(t2, y)) == fleaf()(nd(t3, y)) by {}
                        lemma_subw_frame(t2, t3, fpix(), 0);
                        lemma_subw_frame(t2, t3, fleaf(), 0);
                        assert forall|i: int| 0 <= i < nn(t3) implies #[trigger] reach(t3, i) by {
                            lemma_reach_grow(t2, t3, i);
                        }
                        assert(has_child(nd(t3, x))) by {
                            assert(nd(t3, x).children[idx as int] is Some);
                        }
                        assert forall|i: int| 0 <= i < nn(t2) implies #[trigger] nd(t3, i).parent == nd(t2, i).parent
                            && nd(t3, i).children == nd(t2, i).children by {}
                        lemma_wf_frame(t2, t3);
                        lemma_register_lists(t2, t3, id, depth as int);
                        lemma_flags_up(t2, t3);
                    }
                }
                proof {
                    let t = *self;
                    let x = id.0 as int;
                    let c = child.0 as int;
                    assert(nn(t) == nn(pre) + 1 && c == nn(pre));
                    assert(arena(t) == a_grow(arena(pre), x, idx as int, depth as int)) by {
                        broadcast use vstd::array::group_array_axioms;
                        let g = a_grow(arena(pre), x, idx as int, depth as int);
                        lemma_erase_fresh(nd(t, c));
                        assert(nd(t, x).children =~= vstd::array::spec_array_update(nd(pre, x).children, idx as int,
                            Some(NodeId(c as usize))));
                        assert(arena(t).0 =~= g.0) by {
                            assert forall|i: int| 0 <= i < nn(t) implies #[trigger] arena(t).0[i] == g.0[i] by {
                                if i < nn(pre) && i != x {
                                    assert(nd(t, i) == nd(pre, i));
                                }
                            }
                        }
                        assert(arena(t).1 =~= g.1);
                    }
                    assert forall|i: int| 0 <= i < nn(pre) && i != x implies #[trigger] nd(t, i) == nd(pre, i) by {}
                    assert forall|i: int| 0 <= i < nn(pre) implies #[trigger] dep(t, i) == dep(pre, i) by {}
                    assert(slot(t, x, idx as int) == c);
                    assert(nd(t, x).is_leaf == nd(pre, x).is_leaf);
                    assert(nd(t, x).in_reducible == (nd(pre, x).in_reducible || depth == 6));
                    assert(nd(t, c).is_leaf == false && nd(t, c).in_reducible == false && childless(nd(t, c)));
                    assert(nd(t, c).pixel_count == 0 && nd(t, c).r_sum == 0 && nd(t, c).g_sum == 0 && nd(t, c).b_sum == 0);
                    assert(dep(t, c) == depth + 1);
                    assert(wf(t) && lists_ok(t));
                    assert(forall|i: int| 0 <= i < nn(t) ==> #[trigger] reach(t, i));
                    assert(t.leaf_count == subw(t, fleaf(), 0) && m == subw(t, fpix(), 0));
                    assert(has_child(nd(t, x))) by {
                        assert(nd(t, x).children[idx as int] is Some);
                    }
                    assert(node_ok(nd(t, x), m)) by {
                        assert(nd(pre, x).r_sum == nd(t, x).r_sum && nd(pre, x).pixel_count == nd(t, x).pixel_count);
                        assert(nd(pre, x).g_sum == nd(t, x).g_sum && nd(pre, x).b_sum == nd(t, x).b_sum);
                    }
                }
            }
            let ghost prev = id.0 as int;
            id = self.nodes[id.0].children[idx].unwrap();
            depth = depth + 1;
            proof {
                let t = *self;
                let c = id.0 as int;
                let x = prev;
                assert(slot(t, x, idx as int) == c);
                assert(cell_eq(nd(t, c).key@, nd(t, x).key@, dep(t, x)));
                assert(octant_of(nd(t, c).key@, dep(t, x)) == idx);
                assert(nd(t, x).key == nd(pre, x).key);
                assert forall|e: int| 0 <= e < depth implies #[trigger] octant_of(pixel, e) == octant_of(nd(t, c).key@, e) by {
                    if e < depth - 1 {
                        assert(octant_of(pixel, e) == octant_of(nd(pre, x).key@, e));
                    }
                }
                if w is Some {
                    assert(t == pre);
                }
                assert(slot(t, x, idx as int) == c);
                assert(has_child(nd(t, x))) by {
                    assert(nd(t, x).children[idx as int] is Some);
                }
                if nn(t) == nn(pre) {
                    assert(t == pre);
                } else {
                    assert forall|i: int| 0 <= i < nn(t) && i != c && dep(t, i) < 7 implies has_child(#[trigger] nd(t, i)) by {
                        if i != x {
                            assert(nd(t, i) == nd(pre, i));
                        }
                    }
                    assert forall|i: int| 0 <= i < nn(t) && i != c && dep(t, i) == 7 implies (#[trigger] nd(t, i)).is_leaf by {
                        if i != x {
                            assert(nd(t, i) == nd(pre, i));
                        }
                    }
                    assert forall|i: int| 0 <= i < nn(t) && dep(t, i) < 7 implies !(#[trigger] nd(t, i)).is_leaf by {
                        if i != x && i != c {
                            assert(nd(t, i) == nd(pre, i));
                        }
                    }
                    assert forall|i: int| 0 <= i < nn(t) && i != c implies
                        ((#[trigger] nd(t, i)).in_reducible <==> dep(t, i) == 6) by {
                        if i != x {
                            assert(nd(t, i) == nd(pre, i));
                        }
                    }
                    assert forall|i: int| 0 <= i < nn(t) implies node_ok(#[trigger] nd(t, i), m) by {
                        if i != x && i != c {
                            assert(nd(t, i) == nd(pre, i));
                        }
                    }
                }
                assert(ins_inv(t, m, c, depth as int));
            }
            proof {
                let x = prev;
                let dd = depth - 1;
                if fresh {
                    assert(arena(*self) == a_grow(arena(pre), x, octant_of(pixel, dd), dd));
                } else {
                    assert(aslot(arena(pre), x, octant_of(pixel, dd)) == id.0);
                }
                assert(a_insert_from(arena(pre), pixel, x, dd) == a_insert_from(arena(*self), pixel, id.0 as int, depth as int));
                if nn(pre) == nn(start) {
                    if fresh {
                        assert(path_depth_from(start, pixel, x, dd) == dd);
                    } else {
                        assert(slot(start, x, octant_of(pixel, dd)) == id.0);
                        assert(path_depth_from(start, pixel, x, dd) == path_depth_from(start, pixel, id.0 as int, depth as int));
                    }
                } else {
                    assert(childless(nd(pre, x)));
                    assert(fresh);
                }
            }
        }
        // `id` is at depth 7: add the pixel to its leaf.
        let ghost ta = *self;
        proof {
            lemma_subw_mono(ta, fleaf(), fpix(), 0);
            let x = id.0 as int;
            assert(node_ok(nd(ta, x), m));
            assert(pix_ok_node(nd(ta, x)));
            assert(childless(nd(ta, x)));
            if w is Some {
                // The leaf already holds a pixel of this cell.
                let q = w->0;
                lemma_csum_childless(ta, fcnt(q), x, 8);
                assert(fcnt(q)(nd(ta, x)) > 0);
                assert(nd(ta, x).pix@.len() > 0) by {
                    broadcast use vstd::seq_lib::group_to_multiset_ensures;
                    if nd(ta, x).pix@.len() == 0 {
                        assert(nd(ta, x).pix@.to_multiset() =~= Multiset::<Pixel>::empty());
                    }
                }
                assert(nd(ta, x).is_leaf);
            } else if nd(ta, x).pixel_count > 0 {
                // A pixel already in this leaf would share the cell.
                let q0 = nd(ta, x).pix@[0];
                assert(cell_eq(nd(ta, x).pix@[0], nd(ta, x).key@, dep(ta, x)));
                assert(cell_eq(q0, pixel, 7)) by {
                    assert forall|e: int| 0 <= e < 7 implies #[trigger] octant_of(q0, e) == octant_of(pixel, e) by {
                        assert(octant_of(q0, e) == octant_of(nd(ta, x).key@, e));
                        assert(octant_of(pixel, e) == octant_of(nd(ta, x).key@, e));
                    }
                }
                assert(fcnt(q0)(nd(ta, x)) > 0) by {
                    broadcast use vstd::seq_lib::group_to_multiset_ensures;
                    assert(nd(ta, x).pix@.contains(q0));
                }
                lemma_csum_childless(ta, fcnt(q0), x, 8);
                lemma_subw_le_root(ta, fcnt(q0), x);
                assert(subw(start, fcnt(q0), 0) > 0);
                assert(has_cell(start, pixel));
            }
        }
        self.nodes[id.0].r_sum = self.nodes[id.0].r_sum + pixel[0] as u64;
        self.nodes[id.0].g_sum = self.nodes[id.0].g_sum + pixel[1] as u64;
        self.nodes[id.0].b_sum = self.nodes[id.0].b_sum + pixel[2] as u64;
        self.nodes[id.0].pixel_count = self.nodes[id.0].pixel_count + 1;
        self.nodes[id.0].pix = Ghost(self.nodes@[id.0 as int].pix@.push(pixel));
        if !self.nodes[id.0].is_leaf {
            self.nodes[id.0].is_leaf = true;
            self.leaf_count = self.leaf_count + 1;
        }
        let ghost tb = *self;
        proof {
            let x = id.0 as int;
            assert(childless(nd(ta, x)));
            assert forall|y: int, j: int| 0 <= y < nn(ta) && 0 <= j < 8
                implies #[trigger] slot(ta, y, j) == slot(tb, y, j) by {
                if y == x {
                    assert(nd(tb, y).children == nd(ta, y).children);
                }
            }
            assert(same_but(ta, tb, fpix(), x));
            assert(same_but(ta, tb, fleaf(), x));
            lemma_csum_childless(ta, fpix(), x, 8);
            lemma_csum_childless(tb, fpix(), x, 8);
            lemma_csum_childless(ta, fleaf(), x, 8);
            lemma_csum_childless(tb, fleaf(), x, 8);
            lemma_sub_delta(ta, tb, fpix(), x, 0);
            lemma_sub_delta(ta, tb, fleaf(), x, 0);
            lemma_anc_root(ta, x);
            assert forall|i: int| 0 <= i < nn(tb) implies #[trigger] reach(tb, i) by {
                lemma_reach_grow(ta, tb, i);
            }
            assert forall|i: int| 0 <= i < nn(tb) && i != x implies #[trigger] nd(tb, i) == nd(ta, i) by {}
            assert(lists_ok(tb)) by {
                assert forall|d: int, q: int| 0 <= d < 7 && 0 <= q < tb.reducible[d]@.len()
                    implies (#[trigger] tb.reducible[d]@[q]).0 != x by {}
            }
            assert forall|i: int| 0 <= i < nn(tb) implies #[trigger] dep(tb, i) == dep(ta, i) by {}
            assert forall|i: int| 0 <= i < nn(tb) && i != x implies #[trigger] nd(tb, i) == nd(ta, i) by {}
            assert(nd(tb, x).children == nd(ta, x).children);
            assert forall|i: int| 0 <= i < nn(tb) implies #[trigger] nd(tb, i).parent == nd(ta, i).parent
                && nd(tb, i).children == nd(ta, i).children by {}
            lemma_wf_frame(ta, tb);
            assert(subw(tb, fpix(), 0) == m + 1);
            assert forall|i: int| 0 <= i < nn(tb) implies node_ok(#[trigger] nd(tb, i), m + 1) by {}
            assert forall|i: int| 0 <= i < nn(tb) implies (dep(tb, i) == 7 <==> (#[trigger] nd(tb, i)).is_leaf) by {}
            assert forall|i: int| 0 <= i < nn(tb) && dep(tb, i) < 7 && (i > 0 || m + 1 > 0)
                implies has_child(#[trigger] nd(tb, i)) by {}
            assert forall|i: int| 0 <= i < nn(tb) implies ((#[trigger] nd(tb, i)).in_reducible <==> dep(tb, i) == 6) by {}
            lemma_leaf_counts(ta, tb, x, pixel);
            if x < nn(start) {
                assert(same_sums(nd(ta, x), nd(start, x)));
            } else {
                assert(empty_node(nd(ta, x)));
                assert(nd(ta, x).pix@ =~= Seq::<Pixel>::empty());
            }
            assert forall|y: int| 0 <= y < nn(start) && y != x implies same_sums(#[trigger] nd(tb, y), nd(start, y)) by {
                assert(nd(tb, y) == nd(ta, y));
            }
            assert forall|y: int| nn(start) <= y < nn(tb) && y != x implies empty_node(#[trigger] nd(tb, y)) by {
                assert(nd(tb, y) == nd(ta, y));
            }
            assert(inserted_at(start, tb, x, pixel));
            assert(keys_ok(tb)) by {
                assert forall|i: int, q: int| 0 <= i < nn(tb) && 0 <= q < nd(tb, i).pix@.len()
                    implies cell_eq(#[trigger] nd(tb, i).pix@[q], nd(tb, i).key@, dep(tb, i)) by {
                    if i == x {
                        if q < nd(ta, x).pix@.len() {
                            assert(nd(tb, x).pix@[q] == nd(ta, x).pix@[q]);
                            assert(cell_eq(nd(ta, x).pix@[q], nd(ta, x).key@, dep(ta, x)));
                        } else {
                            assert(nd(tb, x).pix@[q] == pixel);
                        }
                    } else {
                        assert(nd(tb, i) == nd(ta, i));
                        assert(cell_eq(nd(ta, i).pix@[q], nd(ta, i).key@, dep(ta, i)));
                    }
                }
                assert forall|i: int, j: int| 0 <= i < nn(tb) && 0 <= j < 8 && #[trigger] slot(tb, i, j) != -1 implies {
                    let cc = slot(tb, i, j);
                    &&& cell_eq(nd(tb, cc).key@, nd(tb, i).key@, dep(tb, i))
                    &&& octant_of(nd(tb, cc).key@, dep(tb, i)) == j
                } by {
                    assert(slot(ta, i, j) == slot(tb, i, j));
                    let cc = slot(tb, i, j);
                    assert(nd(tb, cc).key == nd(ta, cc).key);
                    assert(nd(tb, i).key == nd(ta, i).key);
                }
            }
            assert(pix_ok(tb)) by {
                assert forall|i: int| 0 <= i < nn(tb) implies pix_ok_node(#[trigger] nd(tb, i)) by {
                    assert(pix_ok_node(nd(ta, i)));
                    if i == x {
                        assert(nd(tb, x).pix@.drop_last() =~= nd(ta, x).pix@);
                        assert(nd(tb, x).pix@.last() == pixel);
                    }
                }
            }
            assert(inv1(tb));
            lemma_insert_whole(start, tb, x, pixel);
            assert forall|i: int| 0 <= i < nn(tb) implies pix_ok_node(#[trigger] nd(tb, i)) by {
                assert(pix_ok_node(nd(ta, i)));
                if i == x {
                    let s0 = nd(ta, x).pix@;
                    assert(nd(tb, x).pix@.drop_last() == s0);
                    assert(nd(tb, x).pix@.last() == pixel);
                }
            }
        }
    }
}


/// The colour that the sums of `n` stand for: each channel's rounded mean.
spec fn sums_color(n: Node) -> Color {
    Color {
        r: rounded_div(n.r_sum as int, n.pixel_count as int) as u8,
        g: rounded_div(n.g_sum as int, n.pixel_count as int) as u8,
        b: rounded_div(n.b_sum as int, n.pixel_count as int) as u8,
        pixel_count: n.pixel_count as usize,
    }
}

/// The colour of node `i` itself: that of its sums when it is a leaf that
/// holds pixels, none otherwise.
spec fn own_color(a: Arena, i: int) -> Seq<Color> {
    if a.0[i].is_leaf && a.0[i].pixel_count > 0 {
        seq![sums_color(a.0[i])]
    } else {
        Seq::empty()
    }
}

/// The colours of the subtree at `i`, in the order of a walk that gives a
/// node's own colour before those of its children, children in slot order.
spec fn walk_colors(a: Arena, i: int) -> Seq<Color>
    decreases a.0.len() - i, 1int, 0int,
{
    if 0 <= i < a.0.len() {
        own_color(a, i) + walk_children(a, i, 8)
    } else {
        Seq::empty()
    }
}

/// The colours of the subtrees in slots `0..j` of node `i`.
spec fn walk_children(a: Arena, i: int, j: int) -> Seq<Color>
    decreases a.0.len() - i, 0int, j,
{
    if j <= 0 || !(0 <= i < a.0.len()) {
        Seq::empty()
    } else {
        let c = aslot(a, i, j - 1);
        walk_children(a, i, j - 1) + (if i < c < a.0.len() { walk_colors(a, c) } else { Seq::empty() })
    }
}

impl Octree {
    fn collect_leaves(&self, palette: &mut Vec<Color>) -> (parts: Ghost<Seq<Seq<Pixel>>>)
        requires
            wf(*self),
            nodes_ok(*self, usize::MAX as int),
            pix_ok(*self),
        ensures
            final(palette)@.len() == old(palette)@.len() + subw(*self, fleaf(), 0),
            total_count(final(palette)@) == total_count(old(palette)@) + subw(*self, fpix(), 0),
            final(palette)@.subrange(0, old(palette)@.len() as int) == old(palette)@,
            forall|q: int| old(palette)@.len() <= q < final(palette)@.len() ==> #[trigger] final(palette)@[q].pixel_count > 0,
            parts@.len() == final(palette)@.len() - old(palette)@.len(),
            forall|q: int| 0 <= q < parts@.len() ==> (#[trigger] parts@[q]).len() > 0
                && final(palette)@[old(palette)@.len() + q] == mean_color_of(parts@[q]),
            forall|v: Pixel| #[trigger] parts_multiset(parts@).count(v) == subw(*self, fcnt(v), 0),
            forall|q: int| 0 <= q < parts@.len() ==> node_pix(*self, #[trigger] parts@[q]),
            final(palette)@ == old(palette)@ + walk_colors(arena(*self), 0),
    {
        self.collect_recursive(self.root, palette)
    }

    /// Outputs the node's own colour, if it is a leaf, then those of all its children.
    fn collect_recursive(&self, id: NodeId, palette: &mut Vec<Color>) -> (parts: Ghost<Seq<Seq<Pixel>>>)
        requires
            wf(*self),
            nodes_ok(*self, usize::MAX as int),
            pix_ok(*self),
            0 <= id.0 < nn(*self),
        ensures
            final(palette)@.len() == old(palette)@.len() + subw(*self, fleaf(), id.0 as int),
            total_count(final(palette)@) == total_count(old(palette)@) + subw(*self, fpix(), id.0 as int),
            final(palette)@.subrange(0, old(palette)@.len() as int) == old(palette)@,
            forall|q: int| old(palette)@.len() <= q < final(palette)@.len() ==> #[trigger] final(palette)@[q].pixel_count > 0,
            parts@.len() == final(palette)@.len() - old(palette)@.len(),
            forall|q: int| 0 <= q < parts@.len() ==> (#[trigger] parts@[q]).len() > 0
                && final(palette)@[old(palette)@.len() + q] == mean_color_of(parts@[q]),
            forall|v: Pixel| #[trigger] parts_multiset(parts@).count(v) == subw(*self, fcnt(v), id.0 as int),
            forall|q: int| 0 <= q < parts@.len() ==> node_pix(*self, #[trigger] parts@[q]),
            final(palette)@ == old(palette)@ + walk_colors(arena(*self), id.0 as int),
        decreases nn(*self) - id.0,
    {
        let ghost start = palette@;
        let ghost i = id.0 as int;
        let ghost mut parts: Seq<Seq<Pixel>> = Seq::empty();
        let node = &self.nodes[id.0];
        proof {
            assert(node_ok(nd(*self, i), usize::MAX as int));
            assert(!(node.is_leaf && node.pixel_count > 0) ==> node.pixel_count == 0);
            assert(pix_ok_node(nd(*self, i)));
        }
        if node.is_leaf && node.pixel_count > 0 {
            let n = node.pixel_count;
            proof {
                lemma_rounded_div_bounds(node.r_sum as int, n as int);
                lemma_rounded_div_bounds(node.g_sum as int, n as int);
                lemma_rounded_div_bounds(node.b_sum as int, n as int);
            }
            let r = rounded_div_u128(node.r_sum as u128, n as u128);
            let g = rounded_div_u128(node.g_sum as u128, n as u128);
            let b = rounded_div_u128(node.b_sum as u128, n as u128);
            let c = Color::new(r as u8, g as u8, b as u8, n as usize);
            proof {
                lemma_total_count_push(palette@, c);
                parts = seq![node.pix@];
                assert(c == mean_color_of(node.pix@));
                assert(nd(*self, i).pix@ == parts[0]);
                assert(node_pix(*self, parts[0]));
            }
            palette.push(c);
        }
        proof {
            broadcast use vstd::seq_lib::group_to_multiset_ensures;
            broadcast use vstd::multiset::group_multiset_axioms;
            assert(*node == nd(*self, i));
            if parts.len() == 0 {
                assert(node.pix@.len() == 0);
                assert(node.pix@.to_multiset() =~= Multiset::<Pixel>::empty());
                assert(parts_multiset(parts) =~= Multiset::<Pixel>::empty());
            } else {
                assert(parts == seq![node.pix@]);
                assert(parts.drop_last() =~= Seq::<Seq<Pixel>>::empty());
                assert(parts.last() == node.pix@);
                assert(parts_multiset(parts.drop_last()) == Multiset::<Pixel>::empty());
                assert(parts_multiset(parts) == parts_multiset(parts.drop_last()).add(parts.last().to_multiset()));
                assert(parts_multiset(parts) =~= node.pix@.to_multiset());
            }
            assert forall|v: Pixel| #[trigger] parts_multiset(parts).count(v) == fcnt(v)(nd(*self, i)) + csum(*self, fcnt(v), i, 0) by {
                assert(csum(*self, fcnt(v), i, 0) == 0);
                assert(fcnt(v)(nd(*self, i)) == node.pix@.to_multiset().count(v));
            }
        }
        let mut j: usize = 0;
        while j < 8
            invariant
                wf(*self),
                nodes_ok(*self, usize::MAX as int),
                0 <= i < nn(*self),
                i == id.0,
                node == nd(*self, i),
                j <= 8,
                palette@.len() == start.len() + w_leaf(nd(*self, i)) + csum(*self, fleaf(), i, j as int),
                total_count(palette@) == total_count(start) + w_pix(nd(*self, i)) + csum(*self, fpix(), i, j as int),
                start.len() <= palette@.len(),
                palette@.subrange(0, start.len() as int) == start,
                forall|q: int| start.len() <= q < palette@.len() ==> #[trigger] palette@[q].pixel_count > 0,
                pix_ok(*self),
                parts.len() == palette@.len() - start.len(),
                forall|q: int| 0 <= q < parts.len() ==> (#[trigger] parts[q]).len() > 0
                    && palette@[start.len() + q] == mean_color_of(parts[q]),
                forall|v: Pixel| #[trigger] parts_multiset(parts).count(v) == fcnt(v)(nd(*self, i)) + csum(*self, fcnt(v), i, j as int),
                forall|q: int| 0 <= q < parts.len() ==> node_pix(*self, #[trigger] parts[q]),
                palette@ == start + own_color(arena(*self), i) + walk_children(arena(*self), i, j as int),
            decreases 8 - j,
        {
            let ghost before = palette@;
            let ghost parts_before = parts;
            if let Some(child_id) = node.children[j] {
                proof {
                    assert(slot(*self, i, j as int) == child_id.0);
                    assert(i < child_id.0 < nn(*self));
                }
                let child_parts = self.collect_recursive(child_id, palette);
                proof {
                    let cp = child_parts@;
                    lemma_parts_multiset_concat(parts, cp);
                    assert forall|q: int| 0 <= q < parts.len() + cp.len() implies (#[trigger] (parts + cp)[q]).len() > 0
                        && palette@[start.len() + q] == mean_color_of((parts + cp)[q]) by {
                        if q < parts.len() {
                            assert(palette@.subrange(0, before.len() as int)[start.len() + q] == before[start.len() + q]);
                        } else {
                            assert(cp[q - parts.len()].len() > 0);
                        }
                    }
                    assert forall|q: int| 0 <= q < parts.len() + cp.len() implies node_pix(*self, #[trigger] (parts + cp)[q]) by {
                        if q >= parts.len() {
                            assert((parts + cp)[q] == cp[q - parts.len()]);
                        }
                    }
                    parts = parts + cp;
                    assert forall|v: Pixel| #[trigger] parts_multiset(parts).count(v)
                        == fcnt(v)(nd(*self, i)) + csum(*self, fcnt(v), i, j + 1) by {
                        broadcast use vstd::multiset::group_multiset_axioms;
                        assert(csum(*self, fcnt(v), i, j + 1) == csum(*self, fcnt(v), i, j as int) + sv(*self, fcnt(v), i, j as int));
                        assert(parts_multiset(parts_before).count(v) == fcnt(v)(nd(*self, i)) + csum(*self, fcnt(v), i, j as int));
                    }
                }
                proof {
                    lemma_fleaf_le_fpix();
                    lemma_subw_nonneg(*self, fleaf(), child_id.0 as int);
                    assert(palette@.subrange(0, start.len() as int) =~= before.subrange(0, start.len() as int)) by {
                        assert forall|q: int| 0 <= q < start.len() implies palette@[q] == before[q] by {
                            assert(palette@.subrange(0, before.len() as int)[q] == before[q]);
                        }
                    }
                    assert forall|q: int| start.len() <= q < palette@.len() implies #[trigger] palette@[q].pixel_count > 0 by {
                        if q < before.len() {
                            assert(palette@.subrange(0, before.len() as int)[q] == before[q]);
                        }
                    }
                }
            }
            proof {
                assert(csum(*self, fleaf(), i, j + 1) == csum(*self, fleaf(), i, j as int) + sv(*self, fleaf(), i, j as int));
                assert(csum(*self, fpix(), i, j + 1) == csum(*self, fpix(), i, j as int) + sv(*self, fpix(), i, j as int));
                if node.children[j as int] is None {
                    assert(slot(*self, i, j as int) == -1);
                    assert forall|v: Pixel| #[trigger] parts_multiset(parts).count(v)
                        == fcnt(v)(nd(*self, i)) + csum(*self, fcnt(v), i, j + 1) by {
                        assert(csum(*self, fcnt(v), i, j + 1) == csum(*self, fcnt(v), i, j as int) + sv(*self, fcnt(v), i, j as int));
                    }
                }
            }
            j = j + 1;
        }
        Ghost(parts)
    }
}

/// The arena after the first `n` pixels of `pixels` went into a new tree.
spec fn a_build(pixels: Seq<Pixel>, n: int) -> Arena
    decreases n,
{
    if n <= 0 {
        arena_new()
    } else {
        a_insert(a_build(pixels, n - 1), pixels[n - 1])
    }
}

/// `trace` is the reduction phase from `a` towards `k` leaves: one reduction
/// after another while more than `k` leaves remain, until that is no longer
/// so or no node is listed.
spec fn reduce_run(a: Arena, k: int, trace: Seq<Arena>) -> bool {
    &&& trace.len() >= 1
    &&& trace[0] == a
    &&& forall|i: int| 0 <= i < trace.len() - 1 ==> #[trigger] trace[i].2 > k && a_reduce(trace[i], k) == (trace[i + 1], true)
    &&& trace.last().2 <= k || !a_reduce(trace.last(), k).1
}

/// Two reduction phases from the same arena agree up to step `i`.
proof fn lemma_reduce_run_prefix(a: Arena, k: int, t1: Seq<Arena>, t2: Seq<Arena>, i: int)
    requires
        reduce_run(a, k, t1),
        reduce_run(a, k, t2),
        0 <= i < t1.len(),
        i < t2.len(),
    ensures
        t1[i] == t2[i],
    decreases i,
{
    if i > 0 {
        let u = i - 1;
        lemma_reduce_run_prefix(a, k, t1, t2, u);
        assert(t1[u].2 > k && a_reduce(t1[u], k) == (t1[u + 1], true));
        assert(t2[u].2 > k && a_reduce(t2[u], k) == (t2[u + 1], true));
    }
}

/// A reduction phase is no longer than another from the same arena.
proof fn lemma_reduce_run_len(a: Arena, k: int, t1: Seq<Arena>, t2: Seq<Arena>)
    requires
        reduce_run(a, k, t1),
        reduce_run(a, k, t2),
    ensures
        t1.len() <= t2.len(),
{
    if t1.len() > t2.len() {
        let u = t2.len() - 1;
        lemma_reduce_run_prefix(a, k, t1, t2, u);
        assert(t1[u].2 > k && a_reduce(t1[u], k) == (t1[u + 1], true));
    }
}

/// The reduction phase from an arena is one.
proof fn lemma_reduce_run_unique(a: Arena, k: int, t1: Seq<Arena>, t2: Seq<Arena>)
    requires
        reduce_run(a, k, t1),
        reduce_run(a, k, t2),
    ensures
        t1 == t2,
{
    lemma_reduce_run_len(a, k, t1, t2);
    lemma_reduce_run_len(a, k, t2, t1);
    assert forall|i: int| 0 <= i < t1.len() implies t1[i] == t2[i] by {
        lemma_reduce_run_prefix(a, k, t1, t2, i);
    }
    assert(t1 =~= t2);
}

/// The palette that octree quantisation gives for `pixels` and `max_colors`:
/// every pixel inserted into a new tree in order, the tree reduced while it
/// has more than `max_colors` leaves and a node is listed, and the colours of
/// its leaves read in a walk of the tree that gives a node's own colour
/// before those of its children, children in slot order.
pub closed spec fn octree_palette(pixels: Seq<Pixel>, max_colors: int) -> Seq<Color> {
    let a = a_build(pixels, pixels.len() as int);
    let trace = choose|trace: Seq<Arena>| reduce_run(a, max_colors, trace);
    walk_colors(trace.last(), 0)
}

/// Extracts the dominant colours with octree quantisation.
///
/// The colours are the rounded means of the pixels gathered in the leaves of
/// the reduced tree, in the order the tree is walked: a split of the pixels
/// into as many groups as `max_colors` asks for, or as many as the leaf cells
/// that the pixels fill if that is fewer (one group when none are asked for).
/// The palette is `octree_palette` of the pixels and `max_colors`.
pub fn extract(pixels: &[Pixel], config: &Config) -> (res: Result<Vec<Color>, DominantColorError>)
    requires
        pixels@.len() <= MAX_PIXELS,
    ensures
        pixels@.len() == 0 <==> res matches Err(DominantColorError::EmptyImage),
        pixels@.len() > 0 ==> res is Ok,
        res matches Ok(p) ==> {
            &&& total_count(p@) == pixels@.len()
            &&& forall|q: int| 0 <= q < p@.len() ==> #[trigger] p@[q].pixel_count > 0
            &&& 1 <= p@.len()
            &&& p@.len() <= config.max_colors || p@.len() == 1
            &&& is_partition_means(p@, pixels@)
            &&& is_cell_partition_means(p@, pixels@)
            &&& p@.len() == octree_color_count(config.max_colors as int, pixels@)
            &&& p@ == octree_palette(pixels@, config.max_colors as int)
        },
{
    if pixels.len() == 0 {
        return Err(DominantColorError::EmptyImage);
    }
    let k = config.max_colors;
    let mut octree = Octree::new();
    let mut i: usize = 0;
    proof {
        broadcast use vstd::seq_lib::group_to_multiset_ensures;
        assert(pixels@.take(0) =~= Seq::<Pixel>::empty());
        assert(pixels@.take(0).to_multiset() =~= Multiset::<Pixel>::empty());
        assert(leaf_cells(pixels@.take(0)) =~= Set::<(u8, u8, u8)>::empty());
    }
    while i < pixels.len()
        invariant
            inv1(octree),
            subw(octree, fpix(), 0) == i,
            i <= pixels@.len(),
            pixels@.len() <= MAX_PIXELS,
            pix_ok(octree),
            holds(octree, pixels@.take(i as int).to_multiset()),
            keys_ok(octree),
            cells_whole(octree),
            octree.leaf_count == leaf_cells(pixels@.take(i as int)).len(),
            arena(octree) == a_build(pixels@, i as int),
        decreases pixels@.len() - i,
    {
        let ghost before = octree;
        octree.insert(pixels[i]);
        proof {
            broadcast use vstd::seq_lib::group_to_multiset_ensures;
            broadcast use vstd::multiset::group_multiset_axioms;
            let s0 = pixels@.take(i as int);
            let t = pixels@.take(i + 1);
            let p = pixels@[i as int];
            assert(t =~= s0.push(p));
            assert forall|v: Pixel| #[trigger] subw(octree, fcnt(v), 0) == t.to_multiset().count(v) by {
                assert(subw(before, fcnt(v), 0) == s0.to_multiset().count(v));
            }
            // The new pixel adds a leaf exactly when its cell is new.
            let cs0 = s0.map_values(|q: Pixel| cell_of(q));
            assert(t.map_values(|q: Pixel| cell_of(q)) =~= cs0.push(cell_of(p)));
            cs0.lemma_push_to_set_commute(cell_of(p));
            vstd::seq_lib::seq_to_set_is_finite(cs0);
            vstd::set::axiom_set_insert_len(cs0.to_set(), cell_of(p));
            if has_cell(before, p) {
                let q = choose|q: Pixel| #[trigger] subw(before, fcnt(q), 0) > 0 && cell_eq(q, p, 7);
                assert(s0.to_multiset().count(q) > 0);
                assert(s0.contains(q));
                let r = choose|r: int| 0 <= r < s0.len() && s0[r] == q;
                lemma_cell_eq_leaf(q, p);
                assert(cs0[r] == cell_of(p));
                assert(cs0.to_set().contains(cell_of(p)));
            } else {
                if cs0.to_set().contains(cell_of(p)) {
                    let r = choose|r: int| 0 <= r < cs0.len() && cs0[r] == cell_of(p);
                    let q = s0[r];
                    lemma_cell_eq_leaf(q, p);
                    assert(s0.contains(q));
                    assert(s0.to_multiset().count(q) > 0);
                    assert(subw(before, fcnt(q), 0) > 0);
                    assert(has_cell(before, p));
                }
            }
        }
        i = i + 1;
    }
    proof {
        assert(pixels@.take(i as int) =~= pixels@);
    }
    let ghost cells: int = leaf_cells(pixels@).len() as int;
    proof {
        lemma_inv1_inv2(octree);
        lemma_subw_nonneg(octree, fnode(), 0);
    }
    let ghost built = arena(octree);
    let ghost mut trace: Seq<Arena> = seq![built];
    while octree.leaf_count > k
        invariant
            built == a_build(pixels@, pixels@.len() as int),
            trace.len() >= 1,
            trace[0] == built,
            forall|j: int| 0 <= j < trace.len() - 1 ==> #[trigger] trace[j].2 > k
                && a_reduce(trace[j], k as int) == (trace[j + 1], true),
            trace.last() == arena(octree),
            inv2(octree),
            subw(octree, fpix(), 0) == pixels@.len(),
            pixels@.len() <= MAX_PIXELS,
            subw(octree, fnode(), 0) >= 0,
            pix_ok(octree),
            holds(octree, pixels@.to_multiset()),
            cells_whole(octree),
            cells <= k ==> octree.leaf_count == cells,
            octree.leaf_count >= (if cells <= k { cells } else { k as int }),
        ensures
            octree.leaf_count <= k || deepest(octree) == -1,
            octree.leaf_count <= k || !a_reduce(arena(octree), k as int).1,
        decreases subw(octree, fnode(), 0),
    {
        let ghost before = octree;
        if !octree.reduce(k) {
            break;
        }
        proof {
            let prev = trace;
            trace = trace.push(arena(octree));
            assert forall|j: int| 0 <= j < trace.len() - 1 implies #[trigger] trace[j].2 > k
                && a_reduce(trace[j], k as int) == (trace[j + 1], true) by {
                if j < prev.len() - 1 {
                    assert(trace[j] == prev[j] && trace[j + 1] == prev[j + 1]);
                } else {
                    assert(trace[j] == arena(before));
                }
            }
        }
        assert forall|v: Pixel| #[trigger] subw(octree, fcnt(v), 0) == pixels@.to_multiset().count(v) by {
            assert(subw(before, fcnt(v), 0) == pixels@.to_multiset().count(v));
        }
        proof {
            lemma_subw_nonneg(octree, fnode(), 0);
        }
    }
    let mut palette: Vec<Color> = Vec::new();
    proof {
        let t = octree;
        assert forall|j: int| 0 <= j < nn(t) implies node_ok(#[trigger] nd(t, j), usize::MAX as int) by {
            assert(node_ok(nd(t, j), pixels@.len() as int));
        }
        lemma_leaf_exists(t);
        if t.leaf_count > k {
            // Nothing is registered: the root is a childless leaf, the only colour.
            lemma_r2(t, 0);
            assert(reach(t, 0));
            lemma_csum_childless(t, fleaf(), 0, 8);
            assert(t.leaf_count == 1);
        }
        assert(t.leaf_count == if k == 0 { 1int } else if cells <= k { cells } else { k as int });
    }
    let parts = octree.collect_leaves(&mut palette);
    proof {
        let ps = parts@;
        assert(parts_multiset(ps) =~= pixels@.to_multiset()) by {
            assert forall|v: Pixel| #[trigger] parts_multiset(ps).count(v) == pixels@.to_multiset().count(v) by {
                assert(subw(octree, fcnt(v), 0) == pixels@.to_multiset().count(v));
            }
        }
        assert forall|q: int| 0 <= q < ps.len() implies (#[trigger] ps[q]).len() > 0 && palette@[q] == mean_color_of(ps[q]) by {
            assert(palette@[0 + q] == mean_color_of(ps[q]));
        }
        assert(means_of_partition(palette@, ps, pixels@));
        lemma_keeps_cells(octree, ps, pixels@);
        assert(reduce_run(built, k as int, trace));
        let tr2 = choose|tr: Seq<Arena>| reduce_run(built, k as int, tr);
        lemma_reduce_run_unique(built, k as int, tr2, trace);
        assert(palette@ =~= walk_colors(arena(octree), 0));
        assert(palette@ == octree_palette(pixels@, k as int));
        assert(is_cell_partition_means(palette@, pixels@));
    }
    if palette.len() == 0 {
        return Err(DominantColorError::internal("八叉树未产生任何叶节点"));
    }
    Ok(palette)
}


/// Slot `x` comes no later than slot `y` when ordered by the pixel counts in
/// `keys`, smallest first, and equal counts by slot.
spec fn slot_le(keys: [u64; 8], x: usize, y: usize) -> bool {
    keys[x as int] < keys[y as int] || (keys[x as int] == keys[y as int] && x <= y)
}

/// Sorts child slots by the pixel count of the child they hold, smallest
/// first, and equal counts by slot: for slots listed in increasing order,
/// as `reduce` lists them, this is the stable sort by pixel count.
fn sort_slots_by_key(slots: &mut Vec<usize>, keys: &[u64; 8])
    requires
        forall|q: int| 0 <= q < old(slots)@.len() ==> #[trigger] old(slots)@[q] < 8,
    ensures
        final(slots)@.len() == old(slots)@.len(),
        final(slots)@.to_multiset() == old(slots)@.to_multiset(),
        forall|q: int| 0 <= q < final(slots)@.len() ==> #[trigger] final(slots)@[q] < 8,
        forall|a: int, b: int| 0 <= a < b < final(slots)@.len()
            ==> slot_le(*keys, #[trigger] final(slots)@[a], #[trigger] final(slots)@[b]),
        forall|a: int, b: int| 0 <= a < b < final(slots)@.len()
            ==> keys[final(slots)@[a] as int] <= keys[final(slots)@[b] as int],
{
    let n = slots.len();
    let mut i: usize = 1;
    while i < n
        invariant
            n == slots@.len(),
            slots@.to_multiset() == old(slots)@.to_multiset(),
            forall|q: int| 0 <= q < slots@.len() ==> #[trigger] slots@[q] < 8,
            forall|a: int, b: int| 0 <= a < b < i && b < n ==> slot_le(*keys, #[trigger] slots@[a], #[trigger] slots@[b]),
        decreases n - i,
    {
        let mut j: usize = i;
        while j > 0 && (keys[slots[j - 1]] > keys[slots[j]] || (keys[slots[j - 1]] == keys[slots[j]] && slots[j - 1] > slots[j]))
            invariant
                n == slots@.len(),
                0 <= j <= i < n,
                slots@.to_multiset() == old(slots)@.to_multiset(),
                forall|q: int| 0 <= q < slots@.len() ==> #[trigger] slots@[q] < 8,
                forall|a: int, b: int| 0 <= a < b < j ==> slot_le(*keys, #[trigger] slots@[a], #[trigger] slots@[b]),
                forall|a: int, b: int| j < a < b <= i ==> slot_le(*keys, #[trigger] slots@[a], #[trigger] slots@[b]),
                forall|a: int, b: int| 0 <= a < j && j < b <= i ==> slot_le(*keys, #[trigger] slots@[a], #[trigger] slots@[b]),
                forall|b: int| j < b <= i ==> slot_le(*keys, slots@[j as int], #[trigger] slots@[b]),
            decreases j,
        {
            let a = slots[j - 1];
            let b = slots[j];
            let ghost before = slots@;
            slots.set(j - 1, b);
            slots.set(j, a);
            proof {
                broadcast use vstd::multiset::group_multiset_axioms;
                broadcast use vstd::seq_lib::group_to_multiset_ensures;
                assert(before[j - 1] == a && before[j as int] == b);
                assert(before.update(j - 1, b)[j as int] == b);
                vstd::seq_lib::to_multiset_update(before, j - 1, b);
                vstd::seq_lib::to_multiset_update(before.update(j - 1, b), j as int, a);
                assert(before.update(j - 1, b).update(j as int, a).to_multiset()
                    =~= before.to_multiset());
            }
            j = j - 1;
        }
        i = i + 1;
    }
}


/// The slots listed in `l[..q]`.
spec fn slot_set(l: Seq<usize>, q: int) -> Set<int> {
    l.subrange(0, q).map_values(|v: usize| v as int).to_set()
}

/// Once pixels are inserted, the tree satisfies the reduction invariant.
proof fn lemma_inv1_inv2(t: Octree)
    requires
        inv1(t),
        subw(t, fpix(), 0) > 0,
    ensures
        inv2(t),
{
    assert forall|y: int| 0 < y < nn(t) && reach(t, y) && (#[trigger] nd(t, y)).is_leaf && !nd(t, parent_of(t, y)).is_leaf
        implies nd(t, parent_of(t, y)).in_reducible by {
        let p = parent_of(t, y);
        assert(dep(t, y) == 7);
        assert(dep(t, p) == 6);
    }
}

impl Octree {
    fn deepest_reducible(&self) -> (d: Option<usize>)
        ensures
            d is None ==> deepest(*self) == -1,
            d matches Some(dd) ==> dd < 7 && dd as int == deepest(*self),
    {
        let mut d: usize = MAX_DEPTH;
        while d > 0
            invariant
                d <= 7,
                deepest(*self) == deepest_from(*self, d - 1),
            decreases d,
        {
            if self.reducible[d - 1].len() > 0 {
                return Some(d - 1);
            }
            d = d - 1;
        }
        None
    }
    /// Moves the sums of the leaf children in slots `slots[..count]` of
    /// `node_id` into it, empties those slots and makes the node a leaf.
    fn merge_leaves(&mut self, node_id: NodeId, slots: &Vec<usize>, count: usize)
        requires
            merge_pre(*old(self), node_id.0 as int, slots@, count as int),
            pix_ok(*old(self)),
            cells_whole(*old(self)),
        ensures
            merge_post(*old(self), *final(self), node_id.0 as int, slots@, count as int),
            nd(*final(self), node_id.0 as int).parent == nd(*old(self), node_id.0 as int).parent,
            pix_ok(*final(self)),
            cells_whole(*final(self)),
            nd(*final(self), node_id.0 as int).pixel_count == nd(*old(self), node_id.0 as int).pixel_count
                + msum(*old(self), fpix(), node_id.0 as int, 8, slot_set(slots@, count as int)),
            nd(*final(self), node_id.0 as int).r_sum == nd(*old(self), node_id.0 as int).r_sum
                + msum(*old(self), fr(), node_id.0 as int, 8, slot_set(slots@, count as int)),
            nd(*final(self), node_id.0 as int).g_sum == nd(*old(self), node_id.0 as int).g_sum
                + msum(*old(self), fg(), node_id.0 as int, 8, slot_set(slots@, count as int)),
            nd(*final(self), node_id.0 as int).b_sum == nd(*old(self), node_id.0 as int).b_sum
                + msum(*old(self), fb(), node_id.0 as int, 8, slot_set(slots@, count as int)),
            forall|v: Pixel| #[trigger] subw(*final(self), fcnt(v), 0) == subw(*old(self), fcnt(v), 0),
    {
        let ghost ta = *self;
        let ghost x = node_id.0 as int;
        let ghost l = slots@;
        let ghost m = subw(ta, fpix(), 0);
        // Pass 1: add up the leaves to be merged.
        let mut r_acc: u64 = 0;
        let mut g_acc: u64 = 0;
        let mut b_acc: u64 = 0;
        let mut pc_acc: u64 = 0;
        let mut q: usize = 0;
        let ghost mut acc: Seq<Pixel> = Seq::empty();
        proof {
            lemma_fleaf_le_fpix();
            assert(slot_set(l, 0) =~= Set::<int>::empty());
            assert forall|v: Pixel| #[trigger] acc.to_multiset().count(v) == msum(ta, fcnt(v), x, 8, slot_set(l, 0)) by {
                broadcast use vstd::seq_lib::group_to_multiset_ensures;
                lemma_msum_empty(ta, fcnt(v), x, 8);
                assert(acc.to_multiset() =~= Multiset::<Pixel>::empty());
            }
            lemma_msum_empty(ta, fr(), x, 8);
            lemma_msum_empty(ta, fg(), x, 8);
            lemma_msum_empty(ta, fb(), x, 8);
            lemma_msum_empty(ta, fpix(), x, 8);
            lemma_msum_empty(ta, fleaf(), x, 8);
            lemma_msum_empty(ta, fnode(), x, 8);
        }
        while q < count
            invariant
                *self == ta,
                merge_pre(ta, x, l, count as int),
                x == node_id.0,
                m == subw(ta, fpix(), 0),
                slots@ == l,
                q <= count,
                r_acc == msum(ta, fr(), x, 8, slot_set(l, q as int)),
                g_acc == msum(ta, fg(), x, 8, slot_set(l, q as int)),
                b_acc == msum(ta, fb(), x, 8, slot_set(l, q as int)),
                pc_acc == msum(ta, fpix(), x, 8, slot_set(l, q as int)),
                pc_acc >= q,
                q == msum(ta, fleaf(), x, 8, slot_set(l, q as int)),
                q == msum(ta, fnode(), x, 8, slot_set(l, q as int)),
                pix_ok(ta),
                acc.len() == pc_acc,
                channel_sum(acc, 0) == r_acc,
                channel_sum(acc, 1) == g_acc,
                channel_sum(acc, 2) == b_acc,
                forall|v: Pixel| #[trigger] acc.to_multiset().count(v) == msum(ta, fcnt(v), x, 8, slot_set(l, q as int)),
            decreases count - q,
        {
            let si = slots[q];
            let cid = self.nodes[node_id.0].children[si].unwrap();
            let ghost c = cid.0 as int;
            proof {
                lemma_fleaf_le_fpix();
                assert(slot(ta, x, si as int) == c);
                assert(!slot_set(l, q as int).contains(si as int)) by {
                    if slot_set(l, q as int).contains(si as int) {
                        let mv = l.subrange(0, q as int).map_values(|v: usize| v as int);
                        let i2 = choose|i2: int| 0 <= i2 < mv.len() && mv[i2] == si as int;
                        assert(l[i2] == l[q as int]);
                    }
                }
                assert(node_ok(nd(ta, c), m));
                lemma_to_set_prefix(l, q as int);
                lemma_csum_childless(ta, fr(), c, 8);
                lemma_csum_childless(ta, fg(), c, 8);
                lemma_csum_childless(ta, fb(), c, 8);
                lemma_csum_childless(ta, fpix(), c, 8);
                lemma_csum_childless(ta, fleaf(), c, 8);
                lemma_csum_childless(ta, fnode(), c, 8);
                lemma_msum_insert(ta, fr(), x, 8, slot_set(l, q as int), si as int);
                lemma_msum_insert(ta, fg(), x, 8, slot_set(l, q as int), si as int);
                lemma_msum_insert(ta, fb(), x, 8, slot_set(l, q as int), si as int);
                lemma_msum_insert(ta, fpix(), x, 8, slot_set(l, q as int), si as int);
                lemma_msum_insert(ta, fleaf(), x, 8, slot_set(l, q as int), si as int);
                lemma_msum_insert(ta, fnode(), x, 8, slot_set(l, q as int), si as int);
                let s1 = slot_set(l, q + 1);
                lemma_msum_le(ta, fpix(), x, 8, s1);
                lemma_subw_le_root(ta, fpix(), x);
                lemma_msum_scale(ta, fr(), x, 8, s1, m);
                lemma_msum_scale(ta, fg(), x, 8, s1, m);
                lemma_msum_scale(ta, fb(), x, 8, s1, m);
                assert(255 * msum(ta, fpix(), x, 8, s1) <= 255 * MAX_PIXELS);
                let pc = nd(ta, c).pix@;
                assert(pix_ok_node(nd(ta, c)));
                lemma_channel_sum_append(acc, pc, 0);
                lemma_channel_sum_append(acc, pc, 1);
                lemma_channel_sum_append(acc, pc, 2);
                vstd::seq_lib::lemma_multiset_commutative(acc, pc);
                assert forall|v: Pixel| #[trigger] (acc + pc).to_multiset().count(v) == msum(ta, fcnt(v), x, 8, s1) by {
                    broadcast use vstd::multiset::group_multiset_axioms;
                    lemma_csum_childless(ta, fcnt(v), c, 8);
                    lemma_msum_insert(ta, fcnt(v), x, 8, slot_set(l, q as int), si as int);
                }
                acc = acc + pc;
            }
            r_acc = r_acc + self.nodes[cid.0].r_sum;
            g_acc = g_acc + self.nodes[cid.0].g_sum;
            b_acc = b_acc + self.nodes[cid.0].b_sum;
            pc_acc = pc_acc + self.nodes[cid.0].pixel_count;
            q = q + 1;
        }
        let ghost s = slot_set(l, count as int);
        // Pass 2: detach them.
        let mut q: usize = 0;
        while q < count
            invariant
                nn(*self) == nn(ta),
                0 <= x < nn(ta),
                x == node_id.0,
                count <= l.len(),
                slots@ == l,
                forall|qq: int| 0 <= qq < l.len() ==> #[trigger] l[qq] < 8,
                q <= count,
                forall|i: int| 0 <= i < nn(ta) && i != x ==> #[trigger] nd(*self, i) == nd(ta, i),
                nd(*self, x) == (Node { children: nd(*self, x).children, ..nd(ta, x) }),
                forall|j: int| 0 <= j < 8 ==> #[trigger] slot(*self, x, j)
                    == (if slot_set(l, q as int).contains(j) { -1 } else { slot(ta, x, j) }),
                self.reducible == ta.reducible,
                self.root == ta.root,
                self.depth == ta.depth,
                self.leaf_count == ta.leaf_count,
            decreases count - q,
        {
            let si = slots[q];
            let ghost before = *self;
            self.nodes[node_id.0].children[si] = None;
            proof {
                lemma_to_set_prefix(l, q as int);
                assert forall|j: int| 0 <= j < 8 implies #[trigger] slot(*self, x, j)
                    == (if slot_set(l, q + 1).contains(j) { -1 } else { slot(ta, x, j) }) by {
                    if j != si as int {
                        assert(slot(*self, x, j) == slot(before, x, j));
                    }
                }
                assert forall|i: int| 0 <= i < nn(ta) && i != x implies #[trigger] nd(*self, i) == nd(ta, i) by {
                    assert(nd(*self, i) == nd(before, i));
                }
            }
            q = q + 1;
        }
        let ghost t3 = *self;
        proof {
            lemma_merge_detached(ta, t3, x, l, count as int);
        }
        // Update the node itself.
        self.nodes[node_id.0].r_sum = self.nodes[node_id.0].r_sum + r_acc;
        self.nodes[node_id.0].g_sum = self.nodes[node_id.0].g_sum + g_acc;
        self.nodes[node_id.0].b_sum = self.nodes[node_id.0].b_sum + b_acc;
        self.nodes[node_id.0].pixel_count = self.nodes[node_id.0].pixel_count + pc_acc;
        self.nodes[node_id.0].pix = Ghost(self.nodes@[node_id.0 as int].pix@ + acc);
        self.leaf_count = self.leaf_count - count;
        if !self.nodes[node_id.0].is_leaf {
            self.nodes[node_id.0].is_leaf = true;
            self.leaf_count = self.leaf_count + 1;
        }
        proof {
            lemma_merge_update(ta, t3, *self, x, l, count as int);
            let tu = *self;
            lemma_merge_counts(ta, t3, tu, x, l, count as int, acc);
            lemma_merge_whole(ta, tu, x, l, count as int, acc);
            assert forall|i: int| 0 <= i < nn(tu) implies pix_ok_node(#[trigger] nd(tu, i)) by {
                assert(pix_ok_node(nd(ta, i)));
                if i == x {
                    lemma_channel_sum_append(nd(ta, x).pix@, acc, 0);
                    lemma_channel_sum_append(nd(ta, x).pix@, acc, 1);
                    lemma_channel_sum_append(nd(ta, x).pix@, acc, 2);
                } else {
                    assert(nd(tu, i) == nd(ta, i));
                }
            }
        }
    }

    /// Takes the last node of the deepest non-empty list and merges into it
    /// its leaf children with the fewest pixels (equal counts in slot order),
    /// at most as many as keep the leaf count at or above `k`.  Returns
    /// `false`, changing nothing, when no node is registered.
    #[verifier::rlimit(100)]
    #[verifier::spinoff_prover]
    fn reduce(&mut self, k: usize) -> (res: bool)
        requires
            inv2(*old(self)),
            pix_ok(*old(self)),
            cells_whole(*old(self)),
            subw(*old(self), fpix(), 0) <= MAX_PIXELS,
        ensures
            res ==> pix_ok(*final(self)),
            res ==> cells_whole(*final(self)),
            res ==> forall|v: Pixel| #[trigger] subw(*final(self), fcnt(v), 0) == subw(*old(self), fcnt(v), 0),
            !res ==> *final(self) == *old(self) && deepest(*old(self)) == -1,
            res ==> inv2(*final(self)),
            res ==> subw(*final(self), fpix(), 0) == subw(*old(self), fpix(), 0),
            res ==> subw(*final(self), fnode(), 0) < subw(*old(self), fnode(), 0),
            res && old(self).leaf_count > k ==> final(self).leaf_count >= k,
            res ==> final(self).leaf_count <= old(self).leaf_count,
            res == (deepest(*old(self)) != -1),
            res ==> nn(*final(self)) == nn(*old(self)) && smallest_merged(*old(self), *final(self)),
            res && old(self).leaf_count > k ==> final(self).leaf_count == k || siblings_merged(*old(self), *final(self)),
            res ==> reduced_at(*old(self), *final(self)),
            arena(*final(self)) == a_reduce(arena(*old(self)), k as int).0,
            res == a_reduce(arena(*old(self)), k as int).1,
    {
        let depth = match self.deepest_reducible() {
            Some(d) => d,
            None => {
                proof {
                    lemma_a_deepest(*self, 6);
                    reveal(a_reduce);
                }
                return false;
            },
        };
        let ghost t0 = *self;
        proof {
            lemma_deepest_bounds(t0, 6);
            lemma_a_deepest(t0, 6);
        }
        let node_id = self.reducible[depth].pop().unwrap();
        self.nodes[node_id.0].in_reducible = false;
        let ghost ta = *self;
        let ghost x = node_id.0 as int;
        let ghost dd = depth as int;
        proof {
            lemma_reduce_pop(t0, ta, x, dd);
            assert forall|i: int| 0 <= i < nn(t0) implies #[trigger] nd(ta, i)
                == (Node { in_reducible: nd(ta, i).in_reducible, ..nd(t0, i) }) by {}
            lemma_flags_counts(t0, ta);
        }
        let already_leaf = self.nodes[node_id.0].is_leaf;
        let budget = self.leaf_count.saturating_sub(k);
        let mut leaf_indices: Vec<usize> = Vec::new();
        let mut i: usize = 0;
        while i < 8
            invariant
                *self == ta,
                wf(ta),
                0 <= x < nn(ta),
                x == node_id.0,
                i <= 8,
                forall|q: int| 0 <= q < leaf_indices@.len() ==> #[trigger] leaf_indices@[q] < i
                    && slot(ta, x, leaf_indices@[q] as int) != -1,
                forall|q1: int, q2: int| 0 <= q1 < q2 < leaf_indices@.len() ==> leaf_indices@[q1] < leaf_indices@[q2],
                forall|j: int| 0 <= j < i && slot(ta, x, j) != -1 ==> leaf_indices@.contains(j as usize),
                forall|j: int| 0 <= j < 8 && #[trigger] slot(ta, x, j) != -1 ==> nd(ta, slot(ta, x, j)).is_leaf,
                leaf_indices@ == a_leaf_slots(arena(ta), x, i as int),
            decreases 8 - i,
        {
            let ghost before = leaf_indices@;
            proof {
                let c = slot(ta, x, i as int);
                assert(aslot(arena(ta), x, i as int) == c);
                if c != -1 {
                    assert(arena(ta).0[c] == erase(nd(ta, c)));
                }
            }
            if let Some(cid) = self.nodes[node_id.0].children[i] {
                proof {
                    assert(slot(ta, x, i as int) == cid.0);
                    assert(0 <= cid.0 < nn(ta));
                }
                if self.nodes[cid.0].is_leaf {
                    leaf_indices.push(i);
                    proof {
                        assert forall|j: int| 0 <= j < i + 1 && slot(ta, x, j) != -1 implies leaf_indices@.contains(j as usize) by {
                            if j < i {
                                let q = choose|q: int| 0 <= q < before.len() && before[q] == j as usize;
                                assert(leaf_indices@[q] == j as usize);
                            } else {
                                assert(leaf_indices@[before.len() as int] == j as usize);
                            }
                        }
                    }
                }
            } else {
                proof {
                    assert(slot(ta, x, i as int) == -1);
                }
            }
            i = i + 1;
        }
        proof {
            let j0 = choose|j: int| 0 <= j < 8 && (#[trigger] nd(ta, x).children[j]) is Some;
            assert(slot(ta, x, j0) != -1);
            assert(leaf_indices@.contains(j0 as usize));
        }
        if leaf_indices.len() == 0 {
            return true;
        }
        let mut keys: [u64; 8] = [0; 8];
        let mut j: usize = 0;
        while j < 8
            invariant
                *self == ta,
                wf(ta),
                0 <= x < nn(ta),
                x == node_id.0,
                j <= 8,
                forall|jj: int| 0 <= jj < j && slot(ta, x, jj) != -1 ==> #[trigger] keys[jj]
                    == nd(ta, slot(ta, x, jj)).pixel_count,
            decreases 8 - j,
        {
            if let Some(cid) = self.nodes[node_id.0].children[j] {
                proof {
                    assert(slot(ta, x, j as int) == cid.0);
                }
                keys[j] = self.nodes[cid.0].pixel_count;
            }
            j = j + 1;
        }
        let ghost unsorted = leaf_indices@;
        sort_slots_by_key(&mut leaf_indices, &keys);
        let n = leaf_indices.len();
        // Saturating: a budget of `usize::MAX` allows as many merges as any large budget.
        let max_merge = if already_leaf { budget.max(1) } else { budget.saturating_add(1) };
        let merge_count = n.min(max_merge);
        proof {
            let l = leaf_indices@;
            broadcast use vstd::seq_lib::group_to_multiset_ensures;
            assert(unsorted.no_duplicates());
            unsorted.lemma_multiset_has_no_duplicates();
            assert forall|v: usize| l.to_multiset().contains(v) implies l.to_multiset().count(v) == 1 by {
                assert(unsorted.to_multiset().count(v) == l.to_multiset().count(v));
            }
            l.lemma_multiset_has_no_duplicates_conv();
            assert forall|v: usize| #[trigger] l.contains(v) == unsorted.contains(v) by {
                assert(unsorted.to_multiset().count(v) == l.to_multiset().count(v));
            }
            assert forall|q: int| 0 <= q < l.len() implies slot(ta, x, #[trigger] l[q] as int) != -1 by {
                assert(l.contains(l[q]));
                assert(unsorted.contains(l[q]));
            }
            assert forall|jj: int| 0 <= jj < 8 && #[trigger] slot(ta, x, jj) != -1 implies l.contains(jj as usize) by {
                assert(unsorted.contains(jj as usize));
            }
            assert(merge_pre(ta, x, l, merge_count as int));
            lemma_reduce_sorted(ta, x, l, unsorted, keys);
        }
        self.merge_leaves(node_id, &leaf_indices, merge_count);
        let ghost tu = *self;
        proof {
            assert forall|y: int| 0 <= y < nn(t0) && reach(t0, y) && (!nd(t0, y).is_leaf || has_child(nd(t0, y)))
                implies #[trigger] reach(tu, y) by {
                assert(reach(ta, y));
                if y != x {
                    assert(nd(ta, y) == nd(t0, y));
                }
            }
            lemma_reduce_shape(t0, tu, x);
            lemma_reduce_lists(t0, tu, x, dd);
        }
        let ghost mut called = false;
        let ghost mut pidg = NodeId(0);
        if depth > 0 {
            if let Some(pid) = self.nodes[node_id.0].parent {
                if !self.nodes[pid.0].is_leaf {
                    proof {
                        called = true;
                        pidg = pid;
                        assert(x > 0);
                        assert(parent_of(tu, x) == pid.0);
                        assert(reach(tu, pid.0 as int));
                    }
                    self.register(pid, depth - 1);
                    proof {
                        lemma_flags_up(tu, *self);
                        lemma_register_lists(tu, *self, pid, dd - 1);
                    }
                }
            }
        }
        let ghost tp = *self;
        proof {
            assert(flags_up(tu, tp));
            assert(lists_ok(tp));
            lemma_flags_up(tu, tp);
        }
        if merge_count < n {
            self.register(node_id, depth);
            proof {
                lemma_flags_up(tp, *self);
                lemma_register_lists(tp, *self, node_id, dd);
            }
        }
        proof {
            let tf = *self;
            assert(flags_up(tp, tf));
            lemma_flags_up(tp, tf);
            lemma_reduce_finish(tu, tp, tf, x);
            lemma_reduce_smallest(t0, ta, tu, tf, x, leaf_indices@, merge_count as int, keys);
            let sset = slot_set(leaf_indices@, merge_count as int);
            assert(merged_slots(t0, tf, x) =~= sset) by {
                assert forall|j: int| #[trigger] sset.contains(j) implies 0 <= j < 8 && slot(t0, x, j) != -1 by {
                    lemma_slot_set_mem(leaf_indices@, merge_count as int, j);
                    let q = choose|q: int| 0 <= q < merge_count && #[trigger] leaf_indices@[q] as int == j;
                    assert(slot(ta, x, leaf_indices@[q] as int) != -1);
                }
                assert forall|j: int| 0 <= j < 8 implies #[trigger] slot(tf, x, j) == slot(tu, x, j) by {
                    assert(nd(tf, x).children == nd(tu, x).children);
                }
            }
            assert forall|y: int, jj: int| 0 <= y < nn(t0) && 0 <= jj < 8 implies #[trigger] slot(ta, y, jj) == slot(t0, y, jj) by {
                assert(nd(ta, y).children == nd(t0, y).children);
            }
            lemma_msum_frame(ta, t0, fpix(), x, 8, sset);
            lemma_msum_frame(ta, t0, fr(), x, 8, sset);
            lemma_msum_frame(ta, t0, fg(), x, 8, sset);
            lemma_msum_frame(ta, t0, fb(), x, 8, sset);
            assert(nd(tf, x).pixel_count == nd(tu, x).pixel_count && nd(tf, x).r_sum == nd(tu, x).r_sum
                && nd(tf, x).g_sum == nd(tu, x).g_sum && nd(tf, x).b_sum == nd(tu, x).b_sum);
            if t0.leaf_count > k {
                lemma_merge_count(t0.leaf_count as int, k as int, n as int, merge_count as int, already_leaf,
                    budget as int, max_merge as int, usize::MAX as int);
            }
            lemma_reduce_arena(t0, ta, tu, tp, tf, x, dd, leaf_indices@, merge_count as int, k as int, called, pidg);
        }
        true
    }
}

} // verus!
