//! The executable vector index: an unbalanced KD-tree over
//! fixed-dimension `i32` coordinate vectors with string metadata,
//! together with the parallel identity-ordered vector store.

use vstd::prelude::*;

use crate::codec::{
    dec_vecs, enc_tree, enc_vecs, encode_tree, ids_in_usize, le64, le64_at, lemma_dec_vecs,
    lemma_le64_roundtrip, lemma_view_tree_ids, parse_tree, parse_u64, parse_vecs, put_u64, put_vec,
};
use crate::model::{
    all_len, insert_pos, insert_sorted, knn, lemma_build_find, lemma_build_has_pair,
    lemma_build_pairs, lemma_build_size, lemma_insert_pos_prefix,
    lemma_build_kd_ok, lemma_knn_complete_small, lemma_knn_excluded, lemma_knn_len,
    lemma_knn_single, lemma_knn_sorted, lemma_knn_sound,
    offer, sorted_by_dist, sq_dist, sq_dist_to, tree_build, tree_find, tree_insert, Tree,
};

verus! {

/// One tree node: the point, the identity assigned at insertion, the
/// opaque metadata payload, and the exclusively owned children.
pub(crate) struct KDNode {
    pub(crate) point: Vec<i32>,
    pub(crate) id: usize,
    pub(crate) metadata: String,
    pub(crate) left: Option<Box<KDNode>>,
    pub(crate) right: Option<Box<KDNode>>,
}

/// Errors surfaced by the index.
#[derive(Debug, PartialEq, Eq, Structural, Clone, Copy)]
pub enum IndexError {
    /// An inserted vector's length differs from the index dimension.
    DimensionMismatch,
    /// A persisted byte stream is malformed or truncated.
    Deserialization,
}

/// The vector index: a KD-tree keyed by alternating coordinate axes, a
/// flat identity-ordered store of all inserted vectors, and the
/// monotonically increasing identity counter.
pub struct KDTreeVectorDB {
    pub(crate) dimension: usize,
    pub(crate) root: Option<Box<KDNode>>,
    pub(crate) next_id: usize,
    pub(crate) all_vectors: Vec<Vec<i32>>,
    pub(crate) metas: Ghost<Seq<Seq<char>>>,
}

/// Ghost picture of an optional subtree.
pub(crate) open spec fn view_tree(n: Option<Box<KDNode>>) -> Tree
    decreases n,
{
    match n {
        None => Tree::Empty,
        Some(b) => Tree::Node {
            point: b.point@,
            id: b.id as int,
            meta: b.metadata@,
            left: Box::new(view_tree(b.left)),
            right: Box::new(view_tree(b.right)),
        },
    }
}

/// Ghost picture of a ranked candidate list.
pub open spec fn pairs_view(s: Seq<(usize, u128)>) -> Seq<(int, int)> {
    s.map_values(|p: (usize, u128)| (p.0 as int, p.1 as int))
}

impl KDTreeVectorDB {
    /// The fixed dimension every stored and probed vector must match.
    pub closed spec fn dim(self) -> nat {
        self.dimension as nat
    }

    /// The identity-ordered sequence of all inserted vectors:
    /// `self.points()[i]` is the vector inserted with identity `i`.
    pub closed spec fn points(self) -> Seq<Seq<i32>> {
        self.all_vectors@.map_values(|v: Vec<i32>| v@)
    }

    /// The identity-ordered sequence of all inserted metadata payloads.
    pub closed spec fn metadatas(self) -> Seq<Seq<char>> {
        self.metas@
    }

    /// Count of ever-inserted points, which equals the next identity.
    pub closed spec fn spec_size(self) -> nat {
        self.next_id as nat
    }

    /// Ghost picture of the whole tree.
    pub(crate) closed spec fn tree(self) -> Tree {
        view_tree(self.root)
    }

    /// Well-formedness: the counter, the flat store and the metadata
    /// history agree, every stored vector has the index dimension, and
    /// the tree is exactly the one grown by inserting the stored
    /// vectors in identity order.
    pub closed spec fn wf(self) -> bool {
        &&& self.dimension >= 1
        &&& self.next_id == self.all_vectors@.len()
        &&& self.metas@.len() == self.next_id
        &&& (forall|i: int|
            0 <= i < self.points().len() ==> (#[trigger] self.points()[i]).len() == self.dim())
        &&& all_len(self.tree(), self.dim())
        &&& self.tree() == tree_build(self.dim(), self.points(), self.metadatas())
    }

    /// Creates an empty index with the given fixed dimension.
    pub fn new(dim: usize) -> (db: Self)
        requires
            dim >= 1,
        ensures
            db.wf(),
            db.dim() == dim as nat,
            db.spec_size() == 0,
            db.points() == Seq::<Seq<i32>>::empty(),
            db.metadatas() == Seq::<Seq<char>>::empty(),
    {
        let db = KDTreeVectorDB {
            dimension: dim,
            root: None,
            next_id: 0,
            all_vectors: Vec::new(),
            metas: Ghost(Seq::empty()),
        };
        proof {
            assert(db.points() =~= Seq::<Seq<i32>>::empty());
        }
        db
    }

    /// Returns the count of ever-inserted points.
    pub fn size(&self) -> (n: usize)
        ensures
            n == self.spec_size(),
    {
        self.next_id
    }

    /// Resets the index: the tree becomes empty, the identity counter
    /// restarts at zero, and the flat store is emptied.
    pub fn clear(&mut self)
        requires
            old(self).wf(),
        ensures
            final (self).wf(),
            final (self).dim() == old(self).dim(),
            final (self).spec_size() == 0,
            final (self).points() == Seq::<Seq<i32>>::empty(),
            final (self).metadatas() == Seq::<Seq<char>>::empty(),
    {
        self.root = None;
        self.next_id = 0;
        self.all_vectors = Vec::new();
        self.metas = Ghost(Seq::empty());
        proof {
            assert(self.points() =~= Seq::<Seq<i32>>::empty());
        }
    }

    /// Inserts a vector with its metadata. The vector must match the
    /// index dimension exactly; a mismatch is a fatal error for the
    /// call and leaves the index unchanged. On success the new point
    /// receives the next identity, the vector is appended to the flat
    /// store, and the point is attached as a leaf on its descent path.
    pub fn insert(&mut self, vec: Vec<i32>, meta: String) -> (r: Result<usize, IndexError>)
        requires
            old(self).wf(),
        ensures
            final (self).wf(),
            final (self).dim() == old(self).dim(),
            vec@.len() != old(self).dim() ==> r == Err::<usize, IndexError>(
                IndexError::DimensionMismatch,
            ) && *final (self) == *old(self),
            vec@.len() == old(self).dim() ==> {
                &&& r == Ok::<usize, IndexError>(old(self).spec_size() as usize)
                &&& final (self).spec_size() == old(self).spec_size() + 1
                &&& final (self).points() == old(self).points().push(vec@)
                &&& final (self).metadatas() == old(self).metadatas().push(meta@)
            },
    {
        if vec.len() != self.dimension {
            return Err(IndexError::DimensionMismatch);
        }
        let id = self.next_id;
        let ghost old_self = *self;
        self.all_vectors.push(vec.clone());
        self.next_id = self.all_vectors.len();
        proof {
            self.metas = Ghost(self.metas@.push(meta@));
        }
        let ghost depth: nat = 0;
        Self::insert_into(&mut self.root, vec, id, meta, 0, self.dimension, Ghost(depth));
        proof {
            assert(self.points() =~= old_self.points().push(self.all_vectors@.last()@));
            assert(self.points().drop_last() =~= old_self.points());
            assert(self.metadatas().drop_last() =~= old_self.metadatas());
            assert(self.tree() == tree_build(self.dim(), self.points(), self.metadatas()));
        }
        Ok(id)
    }

    /// The ranked result of a k-nearest-neighbor query: the `k` stored
    /// points closest to the probe under squared Euclidean distance, as
    /// `(identity, squared distance)` pairs sorted by non-decreasing
    /// distance. Empty when the probe's length differs from the index
    /// dimension.
    pub closed spec fn spec_query(self, probe: Seq<i32>, k: nat) -> Seq<(int, int)> {
        if probe.len() != self.dim() {
            Seq::empty()
        } else {
            knn(self.tree(), self.dim(), probe, k, 0, Seq::empty())
        }
    }

    /// Answers a k-nearest-neighbor query. A probe of the wrong length
    /// or an empty index yields an empty result, never an error. The
    /// result is a function of the index value, the probe and `k`
    /// alone, so repeated queries of an unchanged index return
    /// identical results.
    pub fn query(&self, query_vec: &Vec<i32>, k: usize) -> (r: Vec<(usize, u128)>)
        requires
            self.wf(),
        ensures
            pairs_view(r@) == self.spec_query(query_vec@, k as nat),
    {
        let mut best: Vec<(usize, u128)> = Vec::new();
        proof {
            assert(pairs_view(best@) =~= Seq::<(int, int)>::empty());
        }
        if query_vec.len() != self.dimension {
            return best;
        }
        Self::knn_rec(&self.root, query_vec, k, &mut best, 0, self.dimension, Ghost(0nat));
        best
    }

    /// Exact squared Euclidean distance between two equal-length
    /// vectors, accumulated without overflow in 128 bits.
    fn sq_distance(a: &Vec<i32>, b: &Vec<i32>) -> (r: u128)
        requires
            a@.len() == b@.len(),
        ensures
            r as int == sq_dist(a@, b@),
    {
        let mut sum: u128 = 0;
        let mut i: usize = 0;
        let n = a.len();
        while i < n
            invariant
                n == a@.len(),
                a@.len() == b@.len(),
                i <= a@.len(),
                sum as int == sq_dist_to(a@, b@, i as int),
                sum as int <= (i as int) * 0xFFFF_FFFE_0000_0001,
            decreases a@.len() - i,
        {
            let d: i64 = (a[i] as i64) - (b[i] as i64);
            let ad: u64 = if d < 0 {
                (-d) as u64
            } else {
                d as u64
            };
            proof {
                let x = a@[i as int] - b@[i as int];
                assert((ad as int) * (ad as int) == x * x && (ad as int) * (ad as int)
                    <= 0xFFFF_FFFE_0000_0001) by (nonlinear_arith)
                    requires
                        ad as int == if x >= 0 {
                            x
                        } else {
                            -x
                        },
                        -0xFFFF_FFFFi64 <= x <= 0xFFFF_FFFFi64,
                ;
                assert((sum as int) + (ad as int) * (ad as int) <= ((i as int) + 1)
                    * 0xFFFF_FFFE_0000_0001 && ((i as int) + 1) * 0xFFFF_FFFE_0000_0001
                    <= 0xFFFF_FFFF_FFFF_FFFF * 0xFFFF_FFFE_0000_0001) by (nonlinear_arith)
                    requires
                        sum as int <= (i as int) * 0xFFFF_FFFE_0000_0001,
                        (ad as int) * (ad as int) <= 0xFFFF_FFFE_0000_0001,
                        0 <= i as int,
                        (i as int) + 1 <= 0xFFFF_FFFF_FFFF_FFFF,
                ;
            }
            let sq: u128 = (ad as u128) * (ad as u128);
            sum = sum + sq;
            i = i + 1;
        }
        sum
    }

    /// Offers a candidate to the bounded structure of capacity `k`:
    /// admitted while fewer than `k` are held, or by evicting the
    /// current worst when strictly closer than it.
    fn offer_candidate(best: &mut Vec<(usize, u128)>, k: usize, id: usize, d: u128)
        ensures
            pairs_view(final (best)@) == offer(
                pairs_view(old(best)@),
                k as nat,
                id as int,
                d as int,
            ),
    {
        let n = best.len();
        if n < k {
            Self::insert_ranked(best, id, d);
        } else if n > 0 {
            let worst = best[n - 1].1;
            if d < worst {
                let ghost before = pairs_view(best@);
                best.pop();
                proof {
                    assert(pairs_view(best@) =~= before.drop_last());
                }
                Self::insert_ranked(best, id, d);
            }
        }
    }

    /// Places `(id, d)` at its rank: after every held candidate whose
    /// distance is at most `d`.
    fn insert_ranked(best: &mut Vec<(usize, u128)>, id: usize, d: u128)
        ensures
            pairs_view(final (best)@) == insert_sorted(
                pairs_view(old(best)@),
                id as int,
                d as int,
            ),
    {
        let ghost s = pairs_view(best@);
        let mut i: usize = 0;
        while i < best.len() && best[i].1 <= d
            invariant
                i <= best@.len(),
                best@ == old(best)@,
                s == pairs_view(best@),
                forall|j: int| 0 <= j < i ==> (#[trigger] s[j]).1 <= d as int,
            decreases best@.len() - i,
        {
            i = i + 1;
        }
        proof {
            lemma_insert_pos_prefix(s, d as int, i as int);
            if i < best@.len() {
                assert(s.skip(i as int)[0].1 > d as int);
            } else {
                assert(s.skip(i as int) =~= Seq::<(int, int)>::empty());
            }
            assert(insert_pos(s, d as int) == i as int);
        }
        best.insert(i, (id, d));
        proof {
            assert(pairs_view(best@) =~= s.insert(i as int, (id as int, d as int)));
        }
    }

    /// Branch-and-bound descent: offer the node's point, search the
    /// child on the probe's side of the splitting plane first, and
    /// search the far child only while the structure is not full or the
    /// squared distance to the splitting plane does not exceed the
    /// current worst squared distance held.
    fn knn_rec(
        node: &Option<Box<KDNode>>,
        probe: &Vec<i32>,
        k: usize,
        best: &mut Vec<(usize, u128)>,
        axis: usize,
        dim: usize,
        Ghost(depth): Ghost<nat>,
    )
        requires
            dim >= 1,
            probe@.len() == dim,
            axis as nat == depth % (dim as nat),
            all_len(view_tree(*node), dim as nat),
        ensures
            pairs_view(final (best)@) == knn(
                view_tree(*node),
                dim as nat,
                probe@,
                k as nat,
                depth,
                pairs_view(old(best)@),
            ),
        decreases node,
    {
        match node {
            None => {},
            Some(b) => {
                let d = Self::sq_distance(probe, &b.point);
                Self::offer_candidate(best, k, b.id, d);
                let next_axis = if axis + 1 == dim {
                    0
                } else {
                    axis + 1
                };
                proof {
                    assert(next_axis as nat == (depth + 1) % (dim as nat)) by (nonlinear_arith)
                        requires
                            dim >= 1,
                            axis as nat == depth % (dim as nat),
                            next_axis == if axis + 1 == dim {
                                0usize
                            } else {
                                (axis + 1) as usize
                            },
                    ;
                }
                let dd: i64 = (probe[axis] as i64) - (b.point[axis] as i64);
                let add: u64 = if dd < 0 {
                    (-dd) as u64
                } else {
                    dd as u64
                };
                proof {
                    let x = probe@[axis as int] - b.point@[axis as int];
                    assert((add as int) * (add as int) == x * x && (add as int) * (add as int)
                        <= 0xFFFF_FFFE_0000_0001) by (nonlinear_arith)
                        requires
                            add as int == if x >= 0 {
                                x
                            } else {
                                -x
                            },
                            -0xFFFF_FFFFi64 <= x <= 0xFFFF_FFFFi64,
                    ;
                }
                let diff_sq: u128 = (add as u128) * (add as u128);
                if probe[axis] < b.point[axis] {
                    Self::knn_rec(&b.left, probe, k, best, next_axis, dim, Ghost(depth + 1));
                    let n = best.len();
                    if n < k || (n > 0 && diff_sq <= best[n - 1].1) {
                        Self::knn_rec(&b.right, probe, k, best, next_axis, dim, Ghost(depth + 1));
                    }
                } else {
                    Self::knn_rec(&b.right, probe, k, best, next_axis, dim, Ghost(depth + 1));
                    let n = best.len();
                    if n < k || (n > 0 && diff_sq <= best[n - 1].1) {
                        Self::knn_rec(&b.left, probe, k, best, next_axis, dim, Ghost(depth + 1));
                    }
                }
            },
        }
    }

    /// The query result never exceeds `k` pairs and is sorted by
    /// non-decreasing distance; a probe of the index dimension gets
    /// exactly `k` results, or every stored point when fewer than `k`
    /// exist.
    pub proof fn lemma_query_shape(db: KDTreeVectorDB, probe: Seq<i32>, k: nat)
        requires
            db.wf(),
        ensures
            db.spec_query(probe, k).len() <= k,
            sorted_by_dist(db.spec_query(probe, k)),
            probe.len() == db.dim() ==> db.spec_query(probe, k).len() == if db.spec_size() <= k {
                db.spec_size()
            } else {
                k
            },
    {
        if probe.len() == db.dim() {
            lemma_knn_sorted(db.tree(), db.dim(), probe, k, 0, Seq::empty());
            lemma_knn_len(db.tree(), db.dim(), probe, k, 0, Seq::empty());
            lemma_build_size(db.dim(), db.points(), db.metadatas());
        }
    }

    /// Soundness of the query: every returned pair names an identity
    /// the index really assigned, paired with the exact squared
    /// Euclidean distance from the probe to that identity's vector.
    pub proof fn lemma_query_sound(db: KDTreeVectorDB, probe: Seq<i32>, k: nat, x: (int, int))
        requires
            db.wf(),
            db.spec_query(probe, k).contains(x),
        ensures
            0 <= x.0 < db.spec_size(),
            x.1 == sq_dist(probe, db.points()[x.0]),
    {
        lemma_knn_sound(db.tree(), db.dim(), probe, k, 0, Seq::empty(), x);
        lemma_build_has_pair(db.dim(), db.points(), db.metadatas(), probe, x.0, x.1);
    }

    /// Completeness while the index is not larger than `k`: the query
    /// returns every stored point, each with its exact squared
    /// distance. Together with the count, order and soundness
    /// properties, the result then is precisely a brute-force scan of
    /// all stored points sorted by distance.
    pub proof fn lemma_query_complete_when_small(
        db: KDTreeVectorDB,
        probe: Seq<i32>,
        k: nat,
        id: int,
    )
        requires
            db.wf(),
            probe.len() == db.dim(),
            db.spec_size() <= k,
            0 <= id < db.spec_size(),
        ensures
            db.spec_query(probe, k).contains((id, sq_dist(probe, db.points()[id]))),
    {
        lemma_build_size(db.dim(), db.points(), db.metadatas());
        lemma_build_pairs(db.dim(), db.points(), db.metadatas(), probe, id);
        lemma_knn_complete_small(
            db.tree(),
            db.dim(),
            probe,
            k,
            0,
            Seq::empty(),
            (id, sq_dist(probe, db.points()[id])),
        );
    }

    /// Exactness of branch-and-bound pruning, for any insertion
    /// order: a stored point whose pair is not returned lies at least
    /// as far from the probe as everything the then-full result
    /// holds. Together with the count, order, soundness and
    /// completeness properties, the returned distances are exactly
    /// those of a brute-force linear scan over all stored points,
    /// sorted, cut off at `k`; among equal distances the choice and
    /// order follow the admission sequence.
    pub proof fn lemma_query_exact(db: KDTreeVectorDB, probe: Seq<i32>, k: nat, id: int)
        requires
            db.wf(),
            probe.len() == db.dim(),
            k > 0,
            0 <= id < db.spec_size(),
            !db.spec_query(probe, k).contains((id, sq_dist(probe, db.points()[id]))),
        ensures
            db.spec_query(probe, k).len() == k,
            sq_dist(probe, db.points()[id]) >= db.spec_query(probe, k).last().1,
    {
        lemma_build_kd_ok(db.dim(), db.points(), db.metadatas());
        lemma_build_pairs(db.dim(), db.points(), db.metadatas(), probe, id);
        lemma_knn_excluded(
            db.tree(),
            db.dim(),
            probe,
            k,
            0,
            Seq::empty(),
            (id, sq_dist(probe, db.points()[id])),
        );
    }

    /// An empty index — fresh, or just cleared — answers every query,
    /// with any probe and any `k`, with the empty result.
    pub proof fn lemma_query_of_empty(db: KDTreeVectorDB, probe: Seq<i32>, k: nat)
        requires
            db.wf(),
            db.spec_size() == 0,
        ensures
            db.spec_query(probe, k) == Seq::<(int, int)>::empty(),
    {
        assert(db.points().len() == 0);
        assert(db.points() =~= Seq::<Seq<i32>>::empty());
    }

    /// Querying with the very vector of the only stored point returns
    /// exactly that point, at squared distance zero.
    pub proof fn lemma_query_single(db: KDTreeVectorDB, v: Seq<i32>, k: nat)
        requires
            db.wf(),
            db.spec_size() == 1,
            db.points()[0] == v,
            v.len() == db.dim(),
            k >= 1,
        ensures
            db.spec_query(v, k) == seq![(0int, 0int)],
    {
        assert(db.points() =~= seq![v]);
        assert(db.metadatas() =~= seq![db.metadatas()[0]]);
        lemma_knn_single(db.dim(), v, db.metadatas()[0], k);
    }

    /// Returns the metadata supplied at the insertion that produced
    /// `id`, or absent when `id` was never assigned. The lookup replays
    /// the original insertion descent of `all_vectors[id]`, comparing
    /// with the identical `<` / `>=` rule insertion used.
    pub fn get_metadata(&self, id: usize) -> (r: Option<String>)
        requires
            self.wf(),
        ensures
            match r {
                Some(m) => id < self.spec_size() && m@ == self.metadatas()[id as int],
                None => id >= self.spec_size(),
            },
    {
        if id >= self.next_id {
            return None;
        }
        let target = &self.all_vectors[id];
        proof {
            lemma_build_find(self.dim(), self.points(), self.metadatas(), id as int);
            assert(self.points()[id as int] == target@);
        }
        Self::find_rec(&self.root, target, id, 0, self.dimension, Ghost(0nat))
    }

    /// Replays the insertion descent of `target`, reporting the
    /// metadata of the first node met whose identity equals `id`.
    fn find_rec(
        node: &Option<Box<KDNode>>,
        target: &Vec<i32>,
        id: usize,
        axis: usize,
        dim: usize,
        Ghost(depth): Ghost<nat>,
    ) -> (r: Option<String>)
        requires
            dim >= 1,
            target@.len() == dim,
            axis as nat == depth % (dim as nat),
            all_len(view_tree(*node), dim as nat),
        ensures
            match r {
                Some(m) => tree_find(view_tree(*node), dim as nat, target@, id as int, depth)
                    == Some(m@),
                None => tree_find(view_tree(*node), dim as nat, target@, id as int, depth)
                    is None,
            },
        decreases node,
    {
        match node {
            None => None,
            Some(b) => {
                if b.id == id {
                    return Some(b.metadata.clone());
                }
                let next_axis = if axis + 1 == dim {
                    0
                } else {
                    axis + 1
                };
                proof {
                    assert(next_axis as nat == (depth + 1) % (dim as nat)) by (nonlinear_arith)
                        requires
                            dim >= 1,
                            axis as nat == depth % (dim as nat),
                            next_axis == if axis + 1 == dim {
                                0usize
                            } else {
                                (axis + 1) as usize
                            },
                    ;
                }
                if target[axis] < b.point[axis] {
                    Self::find_rec(&b.left, target, id, next_axis, dim, Ghost(depth + 1))
                } else {
                    Self::find_rec(&b.right, target, id, next_axis, dim, Ghost(depth + 1))
                }
            },
        }
    }

    /// The exact byte stream that `persist` produces: the dimension,
    /// the next identity, the length-prefixed flat vector store, and
    /// the tree, in that fixed order.
    pub closed spec fn spec_persist(self) -> Seq<u8> {
        le64(self.dimension as u64) + le64(self.next_id as u64) + le64(
            self.all_vectors@.len() as u64,
        ) + enc_vecs(self.points()) + enc_tree(self.tree())
    }

    /// Serializes the whole index as one atomic binary record.
    #[verifier::loop_isolation(false)]
    pub fn persist(&self) -> (r: Vec<u8>)
        requires
            self.wf(),
        ensures
            r@ == self.spec_persist(),
    {
        let mut out: Vec<u8> = Vec::new();
        put_u64(&mut out, self.dimension as u64);
        put_u64(&mut out, self.next_id as u64);
        put_u64(&mut out, self.all_vectors.len() as u64);
        let ghost header = out@;
        let n = self.all_vectors.len();
        let mut i: usize = 0;
        proof {
            assert(self.points().take(0) =~= Seq::<Seq<i32>>::empty());
        }
        while i < n
            invariant
                i <= n,
                out@ == header + enc_vecs(self.points().take(i as int)),
            decreases n - i,
        {
            put_vec(&mut out, &self.all_vectors[i]);
            proof {
                assert(self.points().take(i + 1).drop_last() =~= self.points().take(i as int));
                assert(self.points().take(i + 1).last() == self.all_vectors@[i as int]@);
                assert(out@ =~= header + enc_vecs(self.points().take(i + 1)));
            }
            i = i + 1;
        }
        proof {
            assert(self.points().take(n as int) =~= self.points());
        }
        encode_tree(&self.root, &mut out);
        proof {
            assert(out@ =~= self.spec_persist());
        }
        out
    }

    /// What each field of a well-formed index's persisted bytes reads
    /// back as, at its fixed position.
    #[verifier::rlimit(100)]
    proof fn lemma_persist_decompose(db: KDTreeVectorDB, b: Seq<u8>)
        requires
            db.wf(),
            b == db.spec_persist(),
            b.len() <= u64::MAX,
        ensures
            b.len() == 24 + enc_vecs(db.points()).len() + enc_tree(db.tree()).len(),
            le64_at(b, 0) == db.dimension as u64,
            le64_at(b, 8) == db.next_id as u64,
            le64_at(b, 16) == db.all_vectors@.len() as u64,
            dec_vecs(b, 24, db.points().len() as int) == Some(
                (db.points(), 24 + enc_vecs(db.points()).len() as int),
            ),
            b.skip(24 + enc_vecs(db.points()).len() as int) == enc_tree(db.tree()) + Seq::<u8>::empty(),
            ids_in_usize(db.tree()),
    {
        let s1 = le64(db.dimension as u64);
        let s2 = le64(db.next_id as u64);
        let s3 = le64(db.all_vectors@.len() as u64);
        let ev = enc_vecs(db.points());
        let et = enc_tree(db.tree());
        assert(b =~= s1 + (s2 + (s3 + (ev + et))));
        assert forall|j: int| 0 <= j < 8 implies b[0 + j] == #[trigger] le64(
            db.dimension as u64,
        )[j] by {
            assert((s1 + (s2 + (s3 + (ev + et))))[j] == s1[j]);
        }
        lemma_le64_roundtrip(b, 0, db.dimension as u64);
        assert forall|j: int| 0 <= j < 8 implies b[8 + j] == #[trigger] le64(
            db.next_id as u64,
        )[j] by {
            assert((s1 + (s2 + (s3 + (ev + et))))[8 + j] == s2[j]);
        }
        lemma_le64_roundtrip(b, 8, db.next_id as u64);
        assert forall|j: int| 0 <= j < 8 implies b[16 + j] == #[trigger] le64(
            db.all_vectors@.len() as u64,
        )[j] by {
            assert((s1 + (s2 + (s3 + (ev + et))))[16 + j] == s3[j]);
        }
        lemma_le64_roundtrip(b, 16, db.all_vectors@.len() as u64);
        assert forall|i: int| 0 <= i < b.len() - 24 implies b.skip(24)[i] == (ev + et)[i] by {
            assert(b.skip(24)[i] == b[24 + i]);
            assert((s1 + (s2 + (s3 + (ev + et))))[24 + i] == (ev + et)[i]);
        }
        assert(b.skip(24) =~= ev + et);
        lemma_dec_vecs(b, 24, db.points(), et);
        let q: int = 24 + ev.len() as int;
        assert forall|i: int| 0 <= i < b.len() - q implies b.skip(q)[i] == et[i] by {
            assert(b.skip(q)[i] == b[q + i]);
            assert(b[q + i] == b.skip(24)[ev.len() + i]);
        }
        assert(b.skip(q) =~= et + Seq::<u8>::empty());
        lemma_view_tree_ids(db.root);
    }

    /// Checks that every point in the subtree has `dim` coordinates.
    fn check_len(node: &Option<Box<KDNode>>, dim: usize) -> (r: bool)
        ensures
            r == all_len(view_tree(*node), dim as nat),
        decreases node,
    {
        match node {
            None => true,
            Some(b) => b.point.len() == dim && Self::check_len(&b.left, dim) && Self::check_len(
                &b.right,
                dim,
            ),
        }
    }

    /// Parses and validates a persisted stream: the header fields,
    /// the flat vector store, and the tree, refusing a stream that is
    /// truncated, carries inconsistent counters, holds a vector of the
    /// wrong length, or leaves trailing bytes.
    #[verifier::loop_isolation(false)]
    #[verifier::rlimit(100)]
    fn parse_stream(bytes: &Vec<u8>) -> (r: Option<
        (usize, usize, Vec<Vec<i32>>, Option<Box<KDNode>>),
    >)
        ensures
            r matches Some(v) ==> {
                &&& v.0 >= 1
                &&& v.2@.len() == v.1
                &&& (forall|j: int| 0 <= j < v.1 ==> (#[trigger] v.2@[j])@.len() == v.0)
                &&& all_len(view_tree(v.3), v.0 as nat)
            },
            forall|db: KDTreeVectorDB| db.wf() && bytes@ == #[trigger] db.spec_persist() ==> {
                &&& r is Some
                &&& r->Some_0.0 == db.dimension
                &&& r->Some_0.1 as nat == db.spec_size()
                &&& r->Some_0.2@.map_values(|x: Vec<i32>| x@) == db.points()
                &&& view_tree(r->Some_0.3) == db.tree()
            },
    {
        let total = bytes.len();
        let h1 = parse_u64(bytes, 0);
        let h2 = if total >= 8 {
            parse_u64(bytes, 8)
        } else {
            None
        };
        let h3 = if total >= 16 {
            parse_u64(bytes, 16)
        } else {
            None
        };
        if h1.is_none() || h2.is_none() || h3.is_none() {
            proof {
                assert forall|db: KDTreeVectorDB|
                    db.wf() && bytes@ == #[trigger] db.spec_persist() implies false by {
                    Self::lemma_persist_decompose(db, bytes@);
                }
            }
            return None;
        }
        let (dim64, _) = h1.unwrap();
        let (nid64, _) = h2.unwrap();
        let (cnt64, p3) = h3.unwrap();
        if dim64 < 1 || dim64 > usize::MAX as u64 || nid64 != cnt64 || cnt64 > usize::MAX as u64 {
            proof {
                assert forall|db: KDTreeVectorDB|
                    db.wf() && bytes@ == #[trigger] db.spec_persist() implies false by {
                    Self::lemma_persist_decompose(db, bytes@);
                    vstd::std_specs::vec::axiom_spec_len(&db.all_vectors);
                }
            }
            return None;
        }
        let dim = dim64 as usize;
        let cnt = cnt64 as usize;
        let pv = parse_vecs(bytes, p3, cnt);
        if pv.is_none() {
            proof {
                assert forall|db: KDTreeVectorDB|
                    db.wf() && bytes@ == #[trigger] db.spec_persist() implies false by {
                    Self::lemma_persist_decompose(db, bytes@);
                    vstd::std_specs::vec::axiom_spec_len(&db.all_vectors);
                }
            }
            return None;
        }
        let (vectors, p4) = pv.unwrap();
        let mut i: usize = 0;
        while i < cnt
            invariant
                i <= cnt,
                forall|j: int| 0 <= j < i ==> (#[trigger] vectors@[j])@.len() == dim,
            decreases cnt - i,
        {
            if vectors[i].len() != dim {
                proof {
                    assert forall|db: KDTreeVectorDB|
                        db.wf() && bytes@ == #[trigger] db.spec_persist() implies false by {
                        Self::lemma_persist_decompose(db, bytes@);
                        vstd::std_specs::vec::axiom_spec_len(&db.all_vectors);
                        assert(vectors@.map_values(|x: Vec<i32>| x@) == db.points());
                        assert(vectors@[i as int]@ == db.points()[i as int]);
                    }
                }
                return None;
            }
            i = i + 1;
        }
        let pt = parse_tree(bytes, p4);
        if pt.is_none() {
            proof {
                assert forall|db: KDTreeVectorDB|
                    db.wf() && bytes@ == #[trigger] db.spec_persist() implies false by {
                    Self::lemma_persist_decompose(db, bytes@);
                    vstd::std_specs::vec::axiom_spec_len(&db.all_vectors);
                    assert(bytes@.skip(p4 as int) == enc_tree(db.tree()) + Seq::<u8>::empty());
                }
            }
            return None;
        }
        let (rootnode, p5) = pt.unwrap();
        if p5 != total {
            proof {
                assert forall|db: KDTreeVectorDB|
                    db.wf() && bytes@ == #[trigger] db.spec_persist() implies false by {
                    Self::lemma_persist_decompose(db, bytes@);
                    vstd::std_specs::vec::axiom_spec_len(&db.all_vectors);
                    assert(bytes@.skip(p4 as int) == enc_tree(db.tree()) + Seq::<u8>::empty());
                }
            }
            return None;
        }
        if !Self::check_len(&rootnode, dim) {
            proof {
                assert forall|db: KDTreeVectorDB|
                    db.wf() && bytes@ == #[trigger] db.spec_persist() implies false by {
                    Self::lemma_persist_decompose(db, bytes@);
                    vstd::std_specs::vec::axiom_spec_len(&db.all_vectors);
                    assert(bytes@.skip(p4 as int) == enc_tree(db.tree()) + Seq::<u8>::empty());
                    assert(view_tree(rootnode) == db.tree());
                }
            }
            return None;
        }
        let result = Some((dim, cnt, vectors, rootnode));
        proof {
            assert forall|db: KDTreeVectorDB|
                db.wf() && bytes@ == #[trigger] db.spec_persist() implies (result->Some_0.0
                == db.dimension && result->Some_0.1 as nat == db.spec_size()
                && result->Some_0.2@.map_values(|x: Vec<i32>| x@) == db.points() && view_tree(
                result->Some_0.3,
            ) == db.tree()) by {
                Self::lemma_persist_decompose(db, bytes@);
                vstd::std_specs::vec::axiom_spec_len(&db.all_vectors);
                assert(bytes@.skip(p4 as int) == enc_tree(db.tree()) + Seq::<u8>::empty());
                assert(view_tree(rootnode) == db.tree());
                assert(vectors@.map_values(|x: Vec<i32>| x@) == db.points());
            }
        }
        result
    }

    /// Replaces the whole index with the one a byte stream persists:
    /// the stream is validated and rebuilt into a fresh well-formed
    /// index, which replaces the current one only on success; a
    /// malformed or truncated stream is refused and leaves the index
    /// unchanged. Restoring what `persist` produced reproduces an
    /// index whose queries and lookups answer exactly as the original.
    #[verifier::loop_isolation(false)]
    #[verifier::rlimit(100)]
    pub fn restore(&mut self, bytes: &Vec<u8>) -> (r: Result<(), IndexError>)
        ensures
            r is Err ==> *final (self) == *old(self),
            r is Ok ==> final (self).wf(),
            forall|db: KDTreeVectorDB| db.wf() && bytes@ == #[trigger] db.spec_persist() ==> {
                &&& r is Ok
                &&& final (self).wf()
                &&& final (self).dim() == db.dim()
                &&& final (self).spec_size() == db.spec_size()
                &&& final (self).points() == db.points()
                &&& final (self).metadatas() == db.metadatas()
            },
    {
        let parsed = Self::parse_stream(bytes);
        if parsed.is_none() {
            return Err(IndexError::Deserialization);
        }
        let (dim, cnt, vectors, rootnode) = parsed.unwrap();
        let mut metas_v: Vec<String> = Vec::new();
        let mut i: usize = 0;
        while i < cnt
            invariant
                i <= cnt,
                metas_v@.len() == i,
                forall|j: int|
                    0 <= j < i ==> tree_find(
                        view_tree(rootnode),
                        dim as nat,
                        (#[trigger] vectors@[j])@,
                        j,
                        0,
                    ) == Some(metas_v@[j]@),
            decreases cnt - i,
        {
            let fr = Self::find_rec(&rootnode, &vectors[i], i, 0, dim, Ghost(0nat));
            match fr {
                Some(m) => {
                    metas_v.push(m);
                },
                None => {
                    proof {
                        assert forall|db: KDTreeVectorDB|
                            db.wf() && bytes@ == #[trigger] db.spec_persist() implies false by {
                            lemma_build_find(db.dim(), db.points(), db.metadatas(), i as int);
                            assert(vectors@[i as int]@ == db.points()[i as int]);
                        }
                    }
                    return Err(IndexError::Deserialization);
                },
            }
            i = i + 1;
        }
        let mut db2 = Self::new(dim);
        let mut i: usize = 0;
        proof {
            assert(vectors@.take(0).map_values(|v: Vec<i32>| v@) =~= Seq::<Seq<i32>>::empty());
            assert(metas_v@.take(0).map_values(|s: String| s@) =~= Seq::<Seq<char>>::empty());
        }
        while i < cnt
            invariant
                i <= cnt,
                db2.wf(),
                db2.dim() == dim as nat,
                db2.spec_size() == i,
                db2.points() == vectors@.take(i as int).map_values(|v: Vec<i32>| v@),
                db2.metadatas() == metas_v@.take(i as int).map_values(|s: String| s@),
            decreases cnt - i,
        {
            let r2 = db2.insert(vectors[i].clone(), metas_v[i].clone());
            proof {
                assert(r2 is Ok);
                assert(vectors@.take(i + 1).map_values(|v: Vec<i32>| v@) =~= vectors@.take(
                    i as int,
                ).map_values(|v: Vec<i32>| v@).push(vectors@[i as int]@));
                assert(metas_v@.take(i + 1).map_values(|s: String| s@) =~= metas_v@.take(
                    i as int,
                ).map_values(|s: String| s@).push(metas_v@[i as int]@));
            }
            i = i + 1;
        }
        proof {
            assert(vectors@.take(cnt as int) =~= vectors@);
            assert(metas_v@.take(cnt as int) =~= metas_v@);
        }
        *self = db2;
        proof {
            assert forall|db: KDTreeVectorDB|
                db.wf() && bytes@ == #[trigger] db.spec_persist() implies {
                &&& self.dim() == db.dim()
                &&& self.spec_size() == db.spec_size()
                &&& self.points() == db.points()
                &&& self.metadatas() == db.metadatas()
            } by {
                assert(vectors@.map_values(|x: Vec<i32>| x@) == db.points());
                assert(self.points() =~= db.points());
                assert forall|j: int| 0 <= j < cnt implies metas_v@[j]@ == db.metadatas()[j] by {
                    lemma_build_find(db.dim(), db.points(), db.metadatas(), j);
                    assert(vectors@[j]@ == db.points()[j]);
                }
                assert(self.metadatas() =~= db.metadatas());
            }
        }
        Ok(())
    }

    /// Descends from `node` comparing on the axis for the current
    /// depth — strictly smaller goes left, anything else right — and
    /// attaches a new leaf at the first absent child reached.
    fn insert_into(
        node: &mut Option<Box<KDNode>>,
        vec: Vec<i32>,
        id: usize,
        meta: String,
        axis: usize,
        dim: usize,
        Ghost(depth): Ghost<nat>,
    )
        requires
            dim >= 1,
            vec@.len() == dim,
            axis as nat == depth % (dim as nat),
            all_len(view_tree(*old(node)), dim as nat),
        ensures
            view_tree(*final (node)) == tree_insert(
                view_tree(*old(node)),
                dim as nat,
                vec@,
                id as int,
                meta@,
                depth,
            ),
            all_len(view_tree(*final (node)), dim as nat),
        decreases *old(node),
    {
        match node.take() {
            None => {
                *node = Some(
                    Box::new(KDNode { point: vec, id, metadata: meta, left: None, right: None }),
                );
            },
            Some(mut b) => {
                let next_axis = if axis + 1 == dim {
                    0
                } else {
                    axis + 1
                };
                proof {
                    assert(next_axis as nat == (depth + 1) % (dim as nat)) by (nonlinear_arith)
                        requires
                            dim >= 1,
                            axis as nat == depth % (dim as nat),
                            next_axis == if axis + 1 == dim {
                                0usize
                            } else {
                                (axis + 1) as usize
                            },
                    ;
                }
                if vec[axis] < b.point[axis] {
                    Self::insert_into(&mut b.left, vec, id, meta, next_axis, dim, Ghost(depth + 1));
                } else {
                    Self::insert_into(
                        &mut b.right,
                        vec,
                        id,
                        meta,
                        next_axis,
                        dim,
                        Ghost(depth + 1),
                    );
                }
                *node = Some(b);
            },
        }
    }
}

} // verus!
