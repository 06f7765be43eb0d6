//! Mathematical model of the index: a ghost KD-tree over integer
//! coordinate vectors, the insertion, lookup and k-nearest-neighbor
//! search on it, and the lemmas that relate them.

use vstd::prelude::*;

verus! {

/// Ghost picture of the spatial tree: each node carries the point, the
/// identity assigned at insertion, and the opaque metadata payload.
pub enum Tree {
    Empty,
    Node {
        point: Seq<i32>,
        id: int,
        meta: Seq<char>,
        left: Box<Tree>,
        right: Box<Tree>,
    },
}

/// Squared Euclidean distance restricted to the first `n` coordinates.
pub open spec fn sq_dist_to(a: Seq<i32>, b: Seq<i32>, n: int) -> int
    decreases n,
{
    if n <= 0 {
        0
    } else {
        sq_dist_to(a, b, n - 1) + (a[n - 1] - b[n - 1]) * (a[n - 1] - b[n - 1])
    }
}

/// Exact squared Euclidean distance between two vectors of equal length.
pub open spec fn sq_dist(a: Seq<i32>, b: Seq<i32>) -> int {
    sq_dist_to(a, b, a.len() as int)
}

/// Insertion descent: at depth `d` compare on axis `d % dim`; strictly
/// smaller goes left, anything else goes right, until an empty slot.
pub open spec fn tree_insert(t: Tree, dim: nat, p: Seq<i32>, id: int, m: Seq<char>, depth: nat) -> Tree
    decreases t,
{
    match t {
        Tree::Empty => Tree::Node {
            point: p,
            id,
            meta: m,
            left: Box::new(Tree::Empty),
            right: Box::new(Tree::Empty),
        },
        Tree::Node { point, id: nid, meta, left, right } => {
            let axis = (depth % dim) as int;
            if p[axis] < point[axis] {
                Tree::Node {
                    point,
                    id: nid,
                    meta,
                    left: Box::new(tree_insert(*left, dim, p, id, m, depth + 1)),
                    right,
                }
            } else {
                Tree::Node {
                    point,
                    id: nid,
                    meta,
                    left,
                    right: Box::new(tree_insert(*right, dim, p, id, m, depth + 1)),
                }
            }
        },
    }
}

/// The tree obtained by inserting `pts[i]` with identity `i` and metadata
/// `ms[i]`, for `i` in order: the shape of the index is a function of the
/// insertion history alone.
pub open spec fn tree_build(dim: nat, pts: Seq<Seq<i32>>, ms: Seq<Seq<char>>) -> Tree
    decreases pts.len(),
{
    if pts.len() == 0 {
        Tree::Empty
    } else {
        tree_insert(
            tree_build(dim, pts.drop_last(), ms.drop_last()),
            dim,
            pts.last(),
            pts.len() - 1,
            ms.last(),
            0,
        )
    }
}

/// Identity lookup by replaying the insertion descent of vector `v`:
/// the node that matches `id` is met on that very path, because lookup
/// and insertion compare with the identical `<` / `>=` rule.
pub open spec fn tree_find(t: Tree, dim: nat, v: Seq<i32>, id: int, depth: nat) -> Option<Seq<char>>
    decreases t,
{
    match t {
        Tree::Empty => None,
        Tree::Node { point, id: nid, meta, left, right } => {
            if nid == id {
                Some(meta)
            } else {
                let axis = (depth % dim) as int;
                if v[axis] < point[axis] {
                    tree_find(*left, dim, v, id, depth + 1)
                } else {
                    tree_find(*right, dim, v, id, depth + 1)
                }
            }
        },
    }
}

/// Every identity stored in the tree is below `bound`.
pub open spec fn ids_below(t: Tree, bound: int) -> bool
    decreases t,
{
    match t {
        Tree::Empty => true,
        Tree::Node { id, left, right, .. } => id < bound && ids_below(*left, bound) && ids_below(
            *right,
            bound,
        ),
    }
}

/// Every point stored in the tree has exactly `dim` coordinates.
pub open spec fn all_len(t: Tree, dim: nat) -> bool
    decreases t,
{
    match t {
        Tree::Empty => true,
        Tree::Node { point, left, right, .. } => point.len() == dim && all_len(*left, dim)
            && all_len(*right, dim),
    }
}

/// Number of nodes in the tree.
pub open spec fn tree_size(t: Tree) -> nat
    decreases t,
{
    match t {
        Tree::Empty => 0,
        Tree::Node { left, right, .. } => 1 + tree_size(*left) + tree_size(*right),
    }
}

/// Position at which a candidate with distance `d` enters the ranked
/// candidate list: after every candidate whose distance is at most `d`.
pub open spec fn insert_pos(acc: Seq<(int, int)>, d: int) -> int
    decreases acc.len(),
{
    if acc.len() == 0 {
        0
    } else if acc[0].1 <= d {
        1 + insert_pos(acc.drop_first(), d)
    } else {
        0
    }
}

/// A linear scan that has passed `i` candidates of distance at most `d`
/// has located the entry position up to what remains.
pub proof fn lemma_insert_pos_prefix(s: Seq<(int, int)>, d: int, i: int)
    requires
        0 <= i <= s.len(),
        forall|j: int| 0 <= j < i ==> (#[trigger] s[j]).1 <= d,
    ensures
        insert_pos(s, d) == i + insert_pos(s.skip(i), d),
    decreases i,
{
    if i == 0 {
        assert(s.skip(0) =~= s);
    } else {
        lemma_insert_pos_prefix(s.drop_first(), d, i - 1);
        assert(s.drop_first().skip(i - 1) =~= s.skip(i));
    }
}

/// Place `(id, d)` into the ranked candidate list, keeping it sorted by
/// non-decreasing distance; among equal distances the earlier admission
/// stays first.
pub open spec fn insert_sorted(acc: Seq<(int, int)>, id: int, d: int) -> Seq<(int, int)> {
    acc.insert(insert_pos(acc, d), (id, d))
}

/// Admission into the bounded structure of capacity `k`: a candidate is
/// taken in while the structure is not full, or when it is strictly
/// closer than the current worst, which is then evicted.
pub open spec fn offer(acc: Seq<(int, int)>, k: nat, id: int, d: int) -> Seq<(int, int)> {
    if acc.len() < k {
        insert_sorted(acc, id, d)
    } else if acc.len() > 0 && d < acc.last().1 {
        insert_sorted(acc.drop_last(), id, d)
    } else {
        acc
    }
}

/// Identities stay below a bound that itself may grow.
pub proof fn lemma_ids_below_mono(t: Tree, b1: int, b2: int)
    requires
        ids_below(t, b1),
        b1 <= b2,
    ensures
        ids_below(t, b2),
    decreases t,
{
    match t {
        Tree::Empty => {},
        Tree::Node { left, right, .. } => {
            lemma_ids_below_mono(*left, b1, b2);
            lemma_ids_below_mono(*right, b1, b2);
        },
    }
}

/// Inserting an identity below the bound keeps every identity below it.
pub proof fn lemma_insert_ids_below(t: Tree, dim: nat, p: Seq<i32>, id: int, m: Seq<char>, depth: nat, b: int)
    requires
        ids_below(t, b),
        id < b,
    ensures
        ids_below(tree_insert(t, dim, p, id, m, depth), b),
    decreases t,
{
    match t {
        Tree::Empty => {},
        Tree::Node { point, left, right, .. } => {
            let axis = (depth % dim) as int;
            if p[axis] < point[axis] {
                lemma_insert_ids_below(*left, dim, p, id, m, depth + 1, b);
            } else {
                lemma_insert_ids_below(*right, dim, p, id, m, depth + 1, b);
            }
        },
    }
}

/// A freshly inserted point is found again by replaying its own
/// descent: lookup compares with the identical rule insertion used, so
/// it follows the very path on which the new leaf was attached.
pub proof fn lemma_find_inserted(t: Tree, dim: nat, p: Seq<i32>, id: int, m: Seq<char>, depth: nat)
    requires
        ids_below(t, id),
    ensures
        tree_find(tree_insert(t, dim, p, id, m, depth), dim, p, id, depth) == Some(m),
    decreases t,
{
    match t {
        Tree::Empty => {},
        Tree::Node { point, left, right, .. } => {
            let axis = (depth % dim) as int;
            if p[axis] < point[axis] {
                lemma_find_inserted(*left, dim, p, id, m, depth + 1);
            } else {
                lemma_find_inserted(*right, dim, p, id, m, depth + 1);
            }
        },
    }
}

/// A later insertion with a different identity never disturbs an
/// existing lookup: the new leaf hangs below an absent slot that no
/// successful lookup ever crossed.
pub proof fn lemma_find_stable(
    t: Tree,
    dim: nat,
    p2: Seq<i32>,
    id2: int,
    m2: Seq<char>,
    v: Seq<i32>,
    id: int,
    depth: nat,
)
    requires
        id != id2,
        tree_find(t, dim, v, id, depth) is Some,
    ensures
        tree_find(tree_insert(t, dim, p2, id2, m2, depth), dim, v, id, depth) == tree_find(
            t,
            dim,
            v,
            id,
            depth,
        ),
    decreases t,
{
    match t {
        Tree::Empty => {},
        Tree::Node { point, id: nid, left, right, .. } => {
            if nid == id {
            } else {
                let axis = (depth % dim) as int;
                if v[axis] < point[axis] {
                    if p2[axis] < point[axis] {
                        lemma_find_stable(*left, dim, p2, id2, m2, v, id, depth + 1);
                    }
                } else {
                    if !(p2[axis] < point[axis]) {
                        lemma_find_stable(*right, dim, p2, id2, m2, v, id, depth + 1);
                    }
                }
            }
        },
    }
}

/// Every identity the built tree holds is below the number of points.
pub proof fn lemma_build_ids_below(dim: nat, pts: Seq<Seq<i32>>, ms: Seq<Seq<char>>)
    ensures
        ids_below(tree_build(dim, pts, ms), pts.len() as int),
    decreases pts.len(),
{
    if pts.len() > 0 {
        lemma_build_ids_below(dim, pts.drop_last(), ms.drop_last());
        lemma_ids_below_mono(
            tree_build(dim, pts.drop_last(), ms.drop_last()),
            pts.len() - 1,
            pts.len() as int,
        );
        lemma_insert_ids_below(
            tree_build(dim, pts.drop_last(), ms.drop_last()),
            dim,
            pts.last(),
            pts.len() - 1,
            ms.last(),
            0,
            pts.len() as int,
        );
    }
}

/// In the tree built from the insertion history, replaying the descent
/// of the vector inserted with identity `i` finds exactly the metadata
/// supplied at that insertion.
pub proof fn lemma_build_find(dim: nat, pts: Seq<Seq<i32>>, ms: Seq<Seq<char>>, i: int)
    requires
        pts.len() == ms.len(),
        0 <= i < pts.len(),
    ensures
        tree_find(tree_build(dim, pts, ms), dim, pts[i], i, 0) == Some(ms[i]),
    decreases pts.len(),
{
    let prev = tree_build(dim, pts.drop_last(), ms.drop_last());
    if i == pts.len() - 1 {
        lemma_build_ids_below(dim, pts.drop_last(), ms.drop_last());
        lemma_find_inserted(prev, dim, pts.last(), i, ms.last(), 0);
    } else {
        lemma_build_find(dim, pts.drop_last(), ms.drop_last(), i);
        lemma_find_stable(
            prev,
            dim,
            pts.last(),
            pts.len() - 1,
            ms.last(),
            pts[i],
            i,
            0,
        );
    }
}

/// Branch-and-bound k-nearest-neighbor descent. At each node the point
/// is offered to the bounded structure, the child on the probe's side of
/// the splitting plane is searched first, and the far child is searched
/// only when the structure is not yet full or the squared distance to
/// the splitting plane does not exceed the current worst squared
/// distance held.
pub open spec fn knn(t: Tree, dim: nat, probe: Seq<i32>, k: nat, depth: nat, acc: Seq<(int, int)>) -> Seq<(int, int)>
    decreases t,
{
    match t {
        Tree::Empty => acc,
        Tree::Node { point, id, meta, left, right } => {
            let d = sq_dist(probe, point);
            let acc1 = offer(acc, k, id, d);
            let axis = (depth % dim) as int;
            let diff = probe[axis] - point[axis];
            if probe[axis] < point[axis] {
                let acc2 = knn(*left, dim, probe, k, depth + 1, acc1);
                if acc2.len() < k || (acc2.len() > 0 && diff * diff <= acc2.last().1) {
                    knn(*right, dim, probe, k, depth + 1, acc2)
                } else {
                    acc2
                }
            } else {
                let acc2 = knn(*right, dim, probe, k, depth + 1, acc1);
                if acc2.len() < k || (acc2.len() > 0 && diff * diff <= acc2.last().1) {
                    knn(*left, dim, probe, k, depth + 1, acc2)
                } else {
                    acc2
                }
            }
        },
    }
}

/// A ranked candidate list is sorted by non-decreasing distance.
pub open spec fn sorted_by_dist(s: Seq<(int, int)>) -> bool {
    forall|i: int, j: int| 0 <= i < j < s.len() ==> (#[trigger] s[i]).1 <= (#[trigger] s[j]).1
}

/// The entry position splits the list into distances at most `d` and
/// distances above `d` (the latter only when the list is sorted there).
pub proof fn lemma_insert_pos_bounds(s: Seq<(int, int)>, d: int)
    ensures
        0 <= insert_pos(s, d) <= s.len(),
        forall|j: int| 0 <= j < insert_pos(s, d) ==> (#[trigger] s[j]).1 <= d,
        insert_pos(s, d) < s.len() ==> s[insert_pos(s, d)].1 > d,
    decreases s.len(),
{
    if s.len() > 0 && s[0].1 <= d {
        lemma_insert_pos_bounds(s.drop_first(), d);
        assert forall|j: int| 0 <= j < insert_pos(s, d) implies (#[trigger] s[j]).1 <= d by {
            if j > 0 {
                assert(s.drop_first()[j - 1] == s[j]);
            }
        }
        if insert_pos(s, d) < s.len() {
            assert(s.drop_first()[insert_pos(s.drop_first(), d)] == s[insert_pos(s, d)]);
        }
    }
}

/// Ranked insertion keeps the list sorted.
pub proof fn lemma_insert_sorted_sorted(s: Seq<(int, int)>, id: int, d: int)
    requires
        sorted_by_dist(s),
    ensures
        sorted_by_dist(insert_sorted(s, id, d)),
{
    lemma_insert_pos_bounds(s, d);
    let p = insert_pos(s, d);
    let s2 = s.insert(p, (id, d));
    assert forall|i: int, j: int| 0 <= i < j < s2.len() implies (#[trigger] s2[i]).1 <= (
    #[trigger] s2[j]).1 by {
        if i < p && j > p {
            assert(s2[i] == s[i]);
            assert(s2[j] == s[j - 1]);
            if j - 1 >= p {
                if p < s.len() {
                    assert(s[j - 1].1 >= d || j - 1 == p || s[j - 1].1 >= s[p].1);
                }
            }
        }
    }
}

/// Every element of a ranked insertion is an old element or the new one.
pub proof fn lemma_insert_sorted_members(s: Seq<(int, int)>, id: int, d: int, x: (int, int))
    requires
        insert_sorted(s, id, d).contains(x),
    ensures
        s.contains(x) || x == (id, d),
{
    lemma_insert_pos_bounds(s, d);
    let p = insert_pos(s, d);
    let s2 = s.insert(p, (id, d));
    let i = choose|i: int| 0 <= i < s2.len() && s2[i] == x;
    if i < p {
        assert(s[i] == x);
    } else if i > p {
        assert(s[i - 1] == x);
    }
}

/// Admission keeps the list sorted.
pub proof fn lemma_offer_sorted(s: Seq<(int, int)>, k: nat, id: int, d: int)
    requires
        sorted_by_dist(s),
    ensures
        sorted_by_dist(offer(s, k, id, d)),
{
    if s.len() < k {
        lemma_insert_sorted_sorted(s, id, d);
    } else if s.len() > 0 && d < s.last().1 {
        assert(sorted_by_dist(s.drop_last()));
        lemma_insert_sorted_sorted(s.drop_last(), id, d);
    }
}

/// Admission grows the list by one while it is not full and never past
/// the capacity.
pub proof fn lemma_offer_len(s: Seq<(int, int)>, k: nat, id: int, d: int)
    requires
        s.len() <= k,
    ensures
        offer(s, k, id, d).len() == if s.len() < k {
            s.len() + 1nat
        } else {
            s.len()
        },
{
    lemma_insert_pos_bounds(s, d);
    if !(s.len() < k) && s.len() > 0 && d < s.last().1 {
        lemma_insert_pos_bounds(s.drop_last(), d);
    }
}

/// Every element admitted is an old element or the offered one.
pub proof fn lemma_offer_members(s: Seq<(int, int)>, k: nat, id: int, d: int, x: (int, int))
    requires
        offer(s, k, id, d).contains(x),
    ensures
        s.contains(x) || x == (id, d),
{
    if s.len() < k {
        lemma_insert_sorted_members(s, id, d, x);
    } else if s.len() > 0 && d < s.last().1 {
        lemma_insert_sorted_members(s.drop_last(), id, d, x);
        if s.drop_last().contains(x) {
            let i = choose|i: int| 0 <= i < s.drop_last().len() && s.drop_last()[i] == x;
            assert(s[i] == x);
        }
    }
}

/// The number of points the built tree holds.
pub proof fn lemma_insert_size(t: Tree, dim: nat, p: Seq<i32>, id: int, m: Seq<char>, depth: nat)
    ensures
        tree_size(tree_insert(t, dim, p, id, m, depth)) == tree_size(t) + 1,
    decreases t,
{
    match t {
        Tree::Empty => {},
        Tree::Node { point, left, right, .. } => {
            let axis = (depth % dim) as int;
            if p[axis] < point[axis] {
                lemma_insert_size(*left, dim, p, id, m, depth + 1);
            } else {
                lemma_insert_size(*right, dim, p, id, m, depth + 1);
            }
        },
    }
}

/// The built tree holds exactly one node per inserted point.
pub proof fn lemma_build_size(dim: nat, pts: Seq<Seq<i32>>, ms: Seq<Seq<char>>)
    ensures
        tree_size(tree_build(dim, pts, ms)) == pts.len(),
    decreases pts.len(),
{
    if pts.len() > 0 {
        lemma_build_size(dim, pts.drop_last(), ms.drop_last());
        lemma_insert_size(
            tree_build(dim, pts.drop_last(), ms.drop_last()),
            dim,
            pts.last(),
            pts.len() - 1,
            ms.last(),
            0,
        );
    }
}

/// The descent keeps the ranked list sorted at every step.
pub proof fn lemma_knn_sorted(t: Tree, dim: nat, probe: Seq<i32>, k: nat, depth: nat, acc: Seq<(int, int)>)
    requires
        sorted_by_dist(acc),
    ensures
        sorted_by_dist(knn(t, dim, probe, k, depth, acc)),
    decreases t,
{
    match t {
        Tree::Empty => {},
        Tree::Node { point, id, meta, left, right } => {
            let d = sq_dist(probe, point);
            let acc1 = offer(acc, k, id, d);
            lemma_offer_sorted(acc, k, id, d);
            let axis = (depth % dim) as int;
            if probe[axis] < point[axis] {
                lemma_knn_sorted(*left, dim, probe, k, depth + 1, acc1);
                lemma_knn_sorted(*right, dim, probe, k, depth + 1, knn(*left, dim, probe, k, depth + 1, acc1));
            } else {
                lemma_knn_sorted(*right, dim, probe, k, depth + 1, acc1);
                lemma_knn_sorted(*left, dim, probe, k, depth + 1, knn(*right, dim, probe, k, depth + 1, acc1));
            }
        },
    }
}

/// The descent returns exactly `k` of the reachable points, or all of
/// them when fewer than `k` exist.
pub proof fn lemma_knn_len(t: Tree, dim: nat, probe: Seq<i32>, k: nat, depth: nat, acc: Seq<(int, int)>)
    requires
        acc.len() <= k,
    ensures
        knn(t, dim, probe, k, depth, acc).len() == if acc.len() + tree_size(t) <= k {
            acc.len() + tree_size(t)
        } else {
            k
        },
    decreases t,
{
    match t {
        Tree::Empty => {},
        Tree::Node { point, id, meta, left, right } => {
            let d = sq_dist(probe, point);
            let acc1 = offer(acc, k, id, d);
            lemma_offer_len(acc, k, id, d);
            let axis = (depth % dim) as int;
            if probe[axis] < point[axis] {
                lemma_knn_len(*left, dim, probe, k, depth + 1, acc1);
                let acc2 = knn(*left, dim, probe, k, depth + 1, acc1);
                lemma_knn_len(*right, dim, probe, k, depth + 1, acc2);
            } else {
                lemma_knn_len(*right, dim, probe, k, depth + 1, acc1);
                let acc2 = knn(*right, dim, probe, k, depth + 1, acc1);
                lemma_knn_len(*left, dim, probe, k, depth + 1, acc2);
            }
        },
    }
}

/// Whether the tree holds a node whose identity is `id` and whose
/// point lies at squared distance `d` from the probe.
pub open spec fn tree_has_pair(t: Tree, probe: Seq<i32>, id: int, d: int) -> bool
    decreases t,
{
    match t {
        Tree::Empty => false,
        Tree::Node { point, id: nid, left, right, .. } => (nid == id && d == sq_dist(probe, point))
            || tree_has_pair(*left, probe, id, d) || tree_has_pair(*right, probe, id, d),
    }
}

/// Soundness of the descent: every returned pair either was already
/// held or names a real stored point together with its true squared
/// distance from the probe.
pub proof fn lemma_knn_sound(
    t: Tree,
    dim: nat,
    probe: Seq<i32>,
    k: nat,
    depth: nat,
    acc: Seq<(int, int)>,
    x: (int, int),
)
    requires
        knn(t, dim, probe, k, depth, acc).contains(x),
    ensures
        acc.contains(x) || tree_has_pair(t, probe, x.0, x.1),
    decreases t,
{
    match t {
        Tree::Empty => {},
        Tree::Node { point, id, meta, left, right } => {
            let d = sq_dist(probe, point);
            let acc1 = offer(acc, k, id, d);
            let axis = (depth % dim) as int;
            let (near, far) = if probe[axis] < point[axis] {
                (*left, *right)
            } else {
                (*right, *left)
            };
            let acc2 = knn(near, dim, probe, k, depth + 1, acc1);
            let diff = probe[axis] - point[axis];
            let went_far = acc2.len() < k || (acc2.len() > 0 && diff * diff <= acc2.last().1);
            if went_far {
                lemma_knn_sound(far, dim, probe, k, depth + 1, acc2, x);
            }
            if acc2.contains(x) {
                lemma_knn_sound(near, dim, probe, k, depth + 1, acc1, x);
            }
            if acc1.contains(x) {
                lemma_offer_members(acc, k, id, d, x);
            }
        },
    }
}

/// A pair found after an insertion is the inserted point or an old one.
pub proof fn lemma_insert_has_pair(
    t: Tree,
    dim: nat,
    p: Seq<i32>,
    id2: int,
    m: Seq<char>,
    depth: nat,
    probe: Seq<i32>,
    id: int,
    d: int,
)
    requires
        tree_has_pair(tree_insert(t, dim, p, id2, m, depth), probe, id, d),
    ensures
        tree_has_pair(t, probe, id, d) || (id == id2 && d == sq_dist(probe, p)),
    decreases t,
{
    match t {
        Tree::Empty => {},
        Tree::Node { point, left, right, .. } => {
            let axis = (depth % dim) as int;
            if p[axis] < point[axis] {
                if tree_has_pair(tree_insert(*left, dim, p, id2, m, depth + 1), probe, id, d) {
                    lemma_insert_has_pair(*left, dim, p, id2, m, depth + 1, probe, id, d);
                }
            } else {
                if tree_has_pair(tree_insert(*right, dim, p, id2, m, depth + 1), probe, id, d) {
                    lemma_insert_has_pair(*right, dim, p, id2, m, depth + 1, probe, id, d);
                }
            }
        },
    }
}

/// A pair found in the built tree names a stored identity together
/// with the true squared distance from the probe to its vector.
pub proof fn lemma_build_has_pair(
    dim: nat,
    pts: Seq<Seq<i32>>,
    ms: Seq<Seq<char>>,
    probe: Seq<i32>,
    id: int,
    d: int,
)
    requires
        tree_has_pair(tree_build(dim, pts, ms), probe, id, d),
    ensures
        0 <= id < pts.len(),
        d == sq_dist(probe, pts[id]),
    decreases pts.len(),
{
    if pts.len() > 0 {
        let prev = tree_build(dim, pts.drop_last(), ms.drop_last());
        lemma_insert_has_pair(prev, dim, pts.last(), pts.len() - 1, ms.last(), 0, probe, id, d);
        if tree_has_pair(prev, probe, id, d) {
            lemma_build_has_pair(dim, pts.drop_last(), ms.drop_last(), probe, id, d);
        }
    }
}

/// Insertion contributes exactly the new point's pair on top of the
/// existing ones.
pub proof fn lemma_insert_pair_set(
    t: Tree,
    dim: nat,
    p: Seq<i32>,
    id2: int,
    m: Seq<char>,
    depth: nat,
    probe: Seq<i32>,
    id: int,
    d: int,
)
    requires
        tree_has_pair(t, probe, id, d) || (id == id2 && d == sq_dist(probe, p)),
    ensures
        tree_has_pair(tree_insert(t, dim, p, id2, m, depth), probe, id, d),
    decreases t,
{
    match t {
        Tree::Empty => {},
        Tree::Node { point, left, right, .. } => {
            let axis = (depth % dim) as int;
            if p[axis] < point[axis] {
                if tree_has_pair(*left, probe, id, d) || (id == id2 && d == sq_dist(probe, p)) {
                    lemma_insert_pair_set(*left, dim, p, id2, m, depth + 1, probe, id, d);
                }
            } else {
                if tree_has_pair(*right, probe, id, d) || (id == id2 && d == sq_dist(probe, p)) {
                    lemma_insert_pair_set(*right, dim, p, id2, m, depth + 1, probe, id, d);
                }
            }
        },
    }
}

/// The built tree holds, for every assigned identity, the pair of that
/// identity with its vector's squared distance from the probe.
pub proof fn lemma_build_pairs(
    dim: nat,
    pts: Seq<Seq<i32>>,
    ms: Seq<Seq<char>>,
    probe: Seq<i32>,
    id: int,
)
    requires
        0 <= id < pts.len(),
    ensures
        tree_has_pair(tree_build(dim, pts, ms), probe, id, sq_dist(probe, pts[id])),
    decreases pts.len(),
{
    let prev = tree_build(dim, pts.drop_last(), ms.drop_last());
    if id == pts.len() - 1 {
        lemma_insert_pair_set(
            prev,
            dim,
            pts.last(),
            id,
            ms.last(),
            0,
            probe,
            id,
            sq_dist(probe, pts.last()),
        );
    } else {
        lemma_build_pairs(dim, pts.drop_last(), ms.drop_last(), probe, id);
        lemma_insert_pair_set(
            prev,
            dim,
            pts.last(),
            pts.len() - 1,
            ms.last(),
            0,
            probe,
            id,
            sq_dist(probe, pts[id]),
        );
    }
}

/// Ranked insertion keeps every held element.
pub proof fn lemma_insert_sorted_keeps(s: Seq<(int, int)>, id: int, d: int, x: (int, int))
    requires
        s.contains(x) || x == (id, d),
    ensures
        insert_sorted(s, id, d).contains(x),
{
    lemma_insert_pos_bounds(s, d);
    let p = insert_pos(s, d);
    let s2 = s.insert(p, (id, d));
    if x == (id, d) {
        assert(s2[p] == x);
    } else {
        let i = choose|i: int| 0 <= i < s.len() && s[i] == x;
        if i < p {
            assert(s2[i] == x);
        } else {
            assert(s2[i + 1] == x);
        }
    }
}

/// While the reachable points number at most the capacity, nothing is
/// ever pruned or evicted: every held pair and every reachable point's
/// pair ends up in the result.
pub proof fn lemma_knn_complete_small(
    t: Tree,
    dim: nat,
    probe: Seq<i32>,
    k: nat,
    depth: nat,
    acc: Seq<(int, int)>,
    x: (int, int),
)
    requires
        acc.len() + tree_size(t) <= k,
        acc.contains(x) || tree_has_pair(t, probe, x.0, x.1),
    ensures
        knn(t, dim, probe, k, depth, acc).contains(x),
    decreases t,
{
    match t {
        Tree::Empty => {},
        Tree::Node { point, id, meta, left, right } => {
            let d = sq_dist(probe, point);
            let acc1 = offer(acc, k, id, d);
            lemma_offer_len(acc, k, id, d);
            if x == (id, d) || acc.contains(x) {
                lemma_insert_sorted_keeps(acc, id, d, x);
            }
            let axis = (depth % dim) as int;
            let (near, far) = if probe[axis] < point[axis] {
                (*left, *right)
            } else {
                (*right, *left)
            };
            lemma_knn_len(near, dim, probe, k, depth + 1, acc1);
            let acc2 = knn(near, dim, probe, k, depth + 1, acc1);
            if acc1.contains(x) || tree_has_pair(near, probe, x.0, x.1) {
                lemma_knn_complete_small(near, dim, probe, k, depth + 1, acc1, x);
            }
            if tree_size(far) > 0 {
                assert(acc2.len() < k);
            }
            let went_far = acc2.len() < k || (acc2.len() > 0 && (probe[axis] - point[axis]) * (
            probe[axis] - point[axis]) <= acc2.last().1);
            if went_far {
                lemma_knn_complete_small(far, dim, probe, k, depth + 1, acc2, x);
            } else {
                assert(tree_size(far) == 0);
                assert(!tree_has_pair(far, probe, x.0, x.1));
            }
        },
    }
}

/// Every point in the tree lies on the stated side of the splitting
/// value `c` on `axis`: strictly below it for a left subtree, at or
/// above it for a right subtree.
pub open spec fn all_on_side(t: Tree, axis: int, c: i32, left_side: bool) -> bool
    decreases t,
{
    match t {
        Tree::Empty => true,
        Tree::Node { point, left, right, .. } => (if left_side {
            point[axis] < c
        } else {
            point[axis] >= c
        }) && all_on_side(*left, axis, c, left_side) && all_on_side(*right, axis, c, left_side),
    }
}

/// The KD ordering invariant: at every node of depth `depth`, the left
/// subtree lies strictly below the node's value on the node's axis and
/// the right subtree at or above it.
pub open spec fn kd_ok(t: Tree, dim: nat, depth: nat) -> bool
    decreases t,
{
    match t {
        Tree::Empty => true,
        Tree::Node { point, left, right, .. } => {
            let axis = (depth % dim) as int;
            &&& all_on_side(*left, axis, point[axis], true)
            &&& all_on_side(*right, axis, point[axis], false)
            &&& kd_ok(*left, dim, depth + 1)
            &&& kd_ok(*right, dim, depth + 1)
        },
    }
}

/// Insertion respects an enclosing side constraint that the inserted
/// point itself satisfies.
pub proof fn lemma_insert_on_side(
    t: Tree,
    dim: nat,
    p: Seq<i32>,
    id: int,
    m: Seq<char>,
    depth: nat,
    axis: int,
    c: i32,
    left_side: bool,
)
    requires
        all_on_side(t, axis, c, left_side),
        if left_side {
            p[axis] < c
        } else {
            p[axis] >= c
        },
    ensures
        all_on_side(tree_insert(t, dim, p, id, m, depth), axis, c, left_side),
    decreases t,
{
    match t {
        Tree::Empty => {},
        Tree::Node { point, left, right, .. } => {
            let a = (depth % dim) as int;
            if p[a] < point[a] {
                lemma_insert_on_side(*left, dim, p, id, m, depth + 1, axis, c, left_side);
            } else {
                lemma_insert_on_side(*right, dim, p, id, m, depth + 1, axis, c, left_side);
            }
        },
    }
}

/// Insertion by the descent rule preserves the KD ordering invariant.
pub proof fn lemma_insert_kd_ok(t: Tree, dim: nat, p: Seq<i32>, id: int, m: Seq<char>, depth: nat)
    requires
        kd_ok(t, dim, depth),
    ensures
        kd_ok(tree_insert(t, dim, p, id, m, depth), dim, depth),
    decreases t,
{
    match t {
        Tree::Empty => {
            let a = (depth % dim) as int;
            assert(all_on_side(Tree::Empty, a, p[a], true));
            assert(kd_ok(Tree::Empty, dim, depth + 1));
            assert(kd_ok(tree_insert(t, dim, p, id, m, depth), dim, depth));
        },
        Tree::Node { point, left, right, .. } => {
            let a = (depth % dim) as int;
            if p[a] < point[a] {
                lemma_insert_kd_ok(*left, dim, p, id, m, depth + 1);
                lemma_insert_on_side(*left, dim, p, id, m, depth + 1, a, point[a], true);
            } else {
                lemma_insert_kd_ok(*right, dim, p, id, m, depth + 1);
                lemma_insert_on_side(*right, dim, p, id, m, depth + 1, a, point[a], false);
            }
        },
    }
}

/// The tree grown by inserting the whole history satisfies the KD
/// ordering invariant.
pub proof fn lemma_build_kd_ok(dim: nat, pts: Seq<Seq<i32>>, ms: Seq<Seq<char>>)
    ensures
        kd_ok(tree_build(dim, pts, ms), dim, 0),
    decreases pts.len(),
{
    if pts.len() > 0 {
        lemma_build_kd_ok(dim, pts.drop_last(), ms.drop_last());
        lemma_insert_kd_ok(
            tree_build(dim, pts.drop_last(), ms.drop_last()),
            dim,
            pts.last(),
            pts.len() - 1,
            ms.last(),
            0,
        );
    }
}

/// The squared distance dominates the squared difference on any single
/// coordinate.
pub proof fn lemma_sq_dist_term(a: Seq<i32>, b: Seq<i32>, n: int, j: int)
    requires
        0 <= j < n,
    ensures
        sq_dist_to(a, b, n) >= (a[j] - b[j]) * (a[j] - b[j]),
    decreases n,
{
    if j == n - 1 {
        lemma_sq_dist_nonneg(a, b, n - 1);
    } else {
        lemma_sq_dist_term(a, b, n - 1, j);
        assert((a[n - 1] - b[n - 1]) * (a[n - 1] - b[n - 1]) >= 0) by (nonlinear_arith);
    }
}

/// Squared distances are never negative.
pub proof fn lemma_sq_dist_nonneg(a: Seq<i32>, b: Seq<i32>, n: int)
    ensures
        sq_dist_to(a, b, n) >= 0,
    decreases n,
{
    if n > 0 {
        lemma_sq_dist_nonneg(a, b, n - 1);
        assert((a[n - 1] - b[n - 1]) * (a[n - 1] - b[n - 1]) >= 0) by (nonlinear_arith);
    }
}

/// A pair found in a subtree that lies wholly on the far side of the
/// splitting plane is at least the squared plane distance away.
pub proof fn lemma_far_side_bound(
    t: Tree,
    dim: nat,
    probe: Seq<i32>,
    axis: int,
    c: i32,
    left_side: bool,
    id: int,
    d: int,
)
    requires
        all_on_side(t, axis, c, left_side),
        all_len(t, dim),
        0 <= axis < dim,
        probe.len() == dim,
        tree_has_pair(t, probe, id, d),
        if left_side {
            probe[axis] >= c
        } else {
            probe[axis] < c
        },
    ensures
        d >= (probe[axis] - c) * (probe[axis] - c),
    decreases t,
{
    match t {
        Tree::Empty => {},
        Tree::Node { point, id: nid, left, right, .. } => {
            if nid == id && d == sq_dist(probe, point) {
                lemma_sq_dist_term(probe, point, probe.len() as int, axis);
                assert((probe[axis] - point[axis]) * (probe[axis] - point[axis]) >= (probe[axis]
                    - c) * (probe[axis] - c)) by (nonlinear_arith)
                    requires
                        if left_side {
                            point[axis] < c <= probe[axis]
                        } else {
                            probe[axis] < c <= point[axis]
                        },
                ;
            } else if tree_has_pair(*left, probe, id, d) {
                lemma_far_side_bound(*left, dim, probe, axis, c, left_side, id, d);
            } else {
                lemma_far_side_bound(*right, dim, probe, axis, c, left_side, id, d);
            }
        },
    }
}

/// Once the structure is full, admission keeps it full and never
/// worsens the worst distance held.
pub proof fn lemma_offer_full_mono(acc: Seq<(int, int)>, k: nat, id: int, d: int)
    requires
        sorted_by_dist(acc),
        acc.len() == k,
        k > 0,
    ensures
        offer(acc, k, id, d).len() == k,
        offer(acc, k, id, d).last().1 <= acc.last().1,
{
    if d < acc.last().1 {
        let dl = acc.drop_last();
        lemma_insert_pos_bounds(dl, d);
        let p = insert_pos(dl, d);
        let r = dl.insert(p, (id, d));
        if p == k - 1 {
            assert(r.last() == (id, d));
        } else {
            assert(r.last() == dl[k - 2]);
            assert(dl[k - 2] == acc[k - 2]);
        }
    }
}

/// A candidate shut out or evicted by admission is at least as far as
/// everything the full structure then holds.
pub proof fn lemma_offer_excluded(acc: Seq<(int, int)>, k: nat, id: int, d: int, x: (int, int))
    requires
        sorted_by_dist(acc),
        acc.len() <= k,
        k > 0,
        acc.contains(x) || x == (id, d),
        !offer(acc, k, id, d).contains(x),
    ensures
        offer(acc, k, id, d).len() == k,
        x.1 >= offer(acc, k, id, d).last().1,
{
    if acc.len() < k {
        lemma_insert_sorted_keeps(acc, id, d, x);
    } else if d < acc.last().1 {
        lemma_offer_full_mono(acc, k, id, d);
        let dl = acc.drop_last();
        if x == (id, d) {
            lemma_insert_sorted_keeps(dl, id, d, x);
        } else {
            let i = choose|i: int| 0 <= i < acc.len() && acc[i] == x;
            if i < k - 1 {
                assert(dl[i] == x);
                lemma_insert_sorted_keeps(dl, id, d, x);
            } else {
                assert(x == acc.last());
            }
        }
    } else {
        if acc.contains(x) {
        } else {
            assert(x == (id, d));
        }
    }
}

/// Once the structure is full, the whole descent keeps it full and
/// never worsens the worst distance held.
pub proof fn lemma_knn_full_mono(t: Tree, dim: nat, probe: Seq<i32>, k: nat, depth: nat, acc: Seq<(int, int)>)
    requires
        sorted_by_dist(acc),
        acc.len() == k,
        k > 0,
    ensures
        knn(t, dim, probe, k, depth, acc).len() == k,
        knn(t, dim, probe, k, depth, acc).last().1 <= acc.last().1,
    decreases t,
{
    match t {
        Tree::Empty => {},
        Tree::Node { point, id, meta, left, right } => {
            let d = sq_dist(probe, point);
            let acc1 = offer(acc, k, id, d);
            lemma_offer_full_mono(acc, k, id, d);
            lemma_offer_sorted(acc, k, id, d);
            let axis = (depth % dim) as int;
            let (near, far) = if probe[axis] < point[axis] {
                (*left, *right)
            } else {
                (*right, *left)
            };
            lemma_knn_full_mono(near, dim, probe, k, depth + 1, acc1);
            lemma_knn_sorted(near, dim, probe, k, depth + 1, acc1);
            let acc2 = knn(near, dim, probe, k, depth + 1, acc1);
            lemma_knn_full_mono(far, dim, probe, k, depth + 1, acc2);
        },
    }
}

/// Branch-and-bound pruning is lossless: under the KD ordering
/// invariant, every candidate pair — held beforehand or naming any
/// reachable point with its true squared distance — that the descent
/// leaves out of its result is at least as far from the probe as
/// everything the then-full result holds.
pub proof fn lemma_knn_excluded(
    t: Tree,
    dim: nat,
    probe: Seq<i32>,
    k: nat,
    depth: nat,
    acc: Seq<(int, int)>,
    x: (int, int),
)
    requires
        sorted_by_dist(acc),
        acc.len() <= k,
        k > 0,
        dim >= 1,
        probe.len() == dim,
        kd_ok(t, dim, depth),
        all_len(t, dim),
        acc.contains(x) || tree_has_pair(t, probe, x.0, x.1),
        !knn(t, dim, probe, k, depth, acc).contains(x),
    ensures
        knn(t, dim, probe, k, depth, acc).len() == k,
        x.1 >= knn(t, dim, probe, k, depth, acc).last().1,
    decreases t,
{
    match t {
        Tree::Empty => {},
        Tree::Node { point, id, meta, left, right } => {
            let d = sq_dist(probe, point);
            let acc1 = offer(acc, k, id, d);
            lemma_offer_sorted(acc, k, id, d);
            lemma_offer_len(acc, k, id, d);
            let axis = (depth % dim) as int;
            let (near, far) = if probe[axis] < point[axis] {
                (*left, *right)
            } else {
                (*right, *left)
            };
            lemma_knn_sorted(near, dim, probe, k, depth + 1, acc1);
            lemma_knn_len(near, dim, probe, k, depth + 1, acc1);
            let acc2 = knn(near, dim, probe, k, depth + 1, acc1);
            let diff = probe[axis] - point[axis];
            let went_far = acc2.len() < k || (acc2.len() > 0 && diff * diff <= acc2.last().1);
            let res = knn(t, dim, probe, k, depth, acc);
            if acc.contains(x) || x == (id, d) || tree_has_pair(near, probe, x.0, x.1) {
                if !acc1.contains(x) && (acc.contains(x) || x == (id, d)) {
                    lemma_offer_excluded(acc, k, id, d, x);
                    lemma_knn_full_mono(near, dim, probe, k, depth + 1, acc1);
                    if went_far {
                        lemma_knn_full_mono(far, dim, probe, k, depth + 1, acc2);
                    }
                } else if !acc2.contains(x) {
                    lemma_knn_excluded(near, dim, probe, k, depth + 1, acc1, x);
                    if went_far {
                        lemma_knn_full_mono(far, dim, probe, k, depth + 1, acc2);
                    }
                } else {
                    assert(went_far);
                    lemma_knn_excluded(far, dim, probe, k, depth + 1, acc2, x);
                }
            } else {
                assert(tree_has_pair(far, probe, x.0, x.1));
                if went_far {
                    lemma_knn_excluded(far, dim, probe, k, depth + 1, acc2, x);
                } else {
                    assert(acc2.len() == k);
                    assert(diff * diff > acc2.last().1);
                    if probe[axis] < point[axis] {
                        lemma_far_side_bound(
                            far,
                            dim,
                            probe,
                            axis,
                            point[axis],
                            false,
                            x.0,
                            x.1,
                        );
                    } else {
                        lemma_far_side_bound(far, dim, probe, axis, point[axis], true, x.0, x.1);
                    }
                }
            }
        },
    }
}

/// Squared distance of a vector to itself is zero.
pub proof fn lemma_sq_dist_self(v: Seq<i32>, n: int)
    ensures
        sq_dist_to(v, v, n) == 0,
    decreases n,
{
    if n > 0 {
        lemma_sq_dist_self(v, n - 1);
    }
}

/// A fresh index holding one point answers a probe at that point with
/// exactly that point at distance zero.
pub proof fn lemma_knn_single(dim: nat, v: Seq<i32>, m: Seq<char>, k: nat)
    requires
        k >= 1,
        dim >= 1,
    ensures
        knn(tree_build(dim, seq![v], seq![m]), dim, v, k, 0, Seq::empty()) == seq![(0int, 0int)],
{
    let t = tree_build(dim, seq![v], seq![m]);
    assert(seq![v].len() == 1 && seq![v].last() == v && seq![m].last() == m);
    assert(seq![v].drop_last() =~= Seq::<Seq<i32>>::empty());
    assert(seq![m].drop_last() =~= Seq::<Seq<char>>::empty());
    assert(tree_build(dim, seq![v].drop_last(), seq![m].drop_last()) == Tree::Empty);
    let node = Tree::Node {
        point: v,
        id: 0,
        meta: m,
        left: Box::new(Tree::Empty),
        right: Box::new(Tree::Empty),
    };
    assert(t == node);
    lemma_sq_dist_self(v, v.len() as int);
    assert(sq_dist(v, v) == 0);
    let e = Seq::<(int, int)>::empty();
    let one = seq![(0int, 0int)];
    assert(insert_pos(e, 0) == 0);
    assert(offer(e, k, 0, 0) =~= one);
    assert(0nat % dim == 0);
    assert(!(v[0] < v[0]));
    assert(knn(Tree::Empty, dim, v, k, 1, one) == one);
    assert(one.last().1 == 0);
    assert(one.len() < k || (one.len() > 0 && (v[0] - v[0]) * (v[0] - v[0]) <= one.last().1));
    assert(knn(t, dim, v, k, 0, e) =~= one);
}

} // verus!
