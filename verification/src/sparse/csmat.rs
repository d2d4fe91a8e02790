//! Compressed sparse matrices (CSR and CSC) and the operations the
//! construction routines are built from.
use vstd::prelude::*;
use crate::errors::SprsError;
use crate::sparse::lanes::{Lane, lane_valid, lane_lookup, cross_lane, lanes_nnz, lemma_lookup_absent, lemma_cross_lane_valid, lemma_cross_lane_lookup, lemma_lanes_equal_by_lookup};

verus! {

/// Orientation of the compressed storage.
#[derive(PartialEq, Eq, Structural, Clone, Copy, Debug)]
pub enum CompressedStorage {
    /// Compressed sparse rows: the outer lanes are rows.
    CSR,
    /// Compressed sparse columns: the outer lanes are columns.
    CSC,
}

impl CompressedStorage {
    /// The other orientation.
    pub open spec fn spec_other(self) -> CompressedStorage {
        match self {
            CompressedStorage::CSR => CompressedStorage::CSC,
            CompressedStorage::CSC => CompressedStorage::CSR,
        }
    }

    /// The other orientation.
    pub fn other_storage(&self) -> (r: CompressedStorage)
        ensures
            r == self.spec_other(),
    {
        match self {
            CompressedStorage::CSR => CompressedStorage::CSC,
            CompressedStorage::CSC => CompressedStorage::CSR,
        }
    }
}

/// The mathematical value of a compressed matrix: its orientation, its shape
/// and its outer lanes.
pub struct CsMatModel<N> {
    pub storage: CompressedStorage,
    pub nrows: nat,
    pub ncols: nat,
    pub lanes: Seq<Lane<N>>,
}

impl<N> CsMatModel<N> {
    /// Number of outer lanes the shape calls for.
    pub open spec fn outer_dims(self) -> nat {
        if self.storage == CompressedStorage::CSR {
            self.nrows
        } else {
            self.ncols
        }
    }

    /// Length of the outer lanes, in the inner direction.
    pub open spec fn inner_dims(self) -> nat {
        if self.storage == CompressedStorage::CSR {
            self.ncols
        } else {
            self.nrows
        }
    }

    /// One lane per outer index, each with valid, strictly increasing indices.
    pub open spec fn valid(self) -> bool {
        &&& self.lanes.len() == self.outer_dims()
        &&& forall|k: int| 0 <= k < self.lanes.len() ==> lane_valid(#[trigger] self.lanes[k], self.inner_dims())
    }

    /// Number of stored entries.
    pub open spec fn nnz(self) -> nat {
        lanes_nnz(self.lanes)
    }

    /// The stored value at row `i`, column `j`, if any.
    pub open spec fn entry(self, i: int, j: int) -> Option<N> {
        let o = if self.storage == CompressedStorage::CSR { i } else { j };
        let n = if self.storage == CompressedStorage::CSR { j } else { i };
        if 0 <= o < self.lanes.len() {
            lane_lookup(self.lanes[o], n)
        } else {
            None
        }
    }

    /// The same matrix stored in orientation `s`.
    pub open spec fn in_storage(self, s: CompressedStorage) -> CsMatModel<N> {
        if self.storage == s {
            self
        } else {
            CsMatModel {
                storage: s,
                nrows: self.nrows,
                ncols: self.ncols,
                lanes: Seq::new(
                    self.inner_dims(),
                    |n: int| cross_lane(self.lanes, n, self.lanes.len() as int),
                ),
            }
        }
    }

    /// The transposed matrix, obtained by reading the lanes in the other
    /// orientation.
    pub open spec fn transposed(self) -> CsMatModel<N> {
        CsMatModel {
            storage: self.storage.spec_other(),
            nrows: self.ncols,
            ncols: self.nrows,
            lanes: self.lanes,
        }
    }
}

/// The lane made of positions `lo..hi` of the index and data arrays.
pub open spec fn segment<N>(indices: Seq<usize>, data: Seq<N>, lo: int, hi: int) -> Lane<N> {
    Seq::new((hi - lo) as nat, |t: int| (indices[lo + t] as nat, data[lo + t]))
}

/// The lanes that an `indptr` array delimits in the index and data arrays.
pub open spec fn lanes_of<N>(indptr: Seq<usize>, indices: Seq<usize>, data: Seq<N>) -> Seq<Lane<N>> {
    Seq::new(
        (indptr.len() - 1) as nat,
        |k: int| segment(indices, data, indptr[k] as int, indptr[k + 1] as int),
    )
}

/// Outer dimension for a storage orientation and a shape.
pub open spec fn outer_of(storage: CompressedStorage, nrows: nat, ncols: nat) -> nat {
    if storage == CompressedStorage::CSR {
        nrows
    } else {
        ncols
    }
}

/// Inner dimension for a storage orientation and a shape.
pub open spec fn inner_of(storage: CompressedStorage, nrows: nat, ncols: nat) -> nat {
    if storage == CompressedStorage::CSR {
        ncols
    } else {
        nrows
    }
}

/// The arrays form a valid compressed structure of the given orientation and
/// shape.
pub open spec fn structure_ok<N>(
    storage: CompressedStorage,
    nrows: nat,
    ncols: nat,
    indptr: Seq<usize>,
    indices: Seq<usize>,
    data: Seq<N>,
) -> bool {
    let outer = outer_of(storage, nrows, ncols);
    let inner = inner_of(storage, nrows, ncols);
    &&& indptr.len() == outer + 1
    &&& indptr[0] == 0
    &&& forall|s: int, t: int| 0 <= s <= t <= outer ==> #[trigger] indptr[s] <= #[trigger] indptr[t]
    &&& indptr[outer as int] == indices.len()
    &&& indices.len() == data.len()
    &&& forall|k: int| 0 <= k < outer ==> lane_valid(#[trigger] lanes_of(indptr, indices, data)[k], inner)
}

/// Arrays under construction: finished lanes delimited by `indptr`, and a
/// pending lane after the last delimiter.
pub(crate) struct LaneBuilder<N> {
    indptr: Vec<usize>,
    indices: Vec<usize>,
    data: Vec<N>,
}

impl<N> LaneBuilder<N> {
    pub closed spec fn inv(&self) -> bool {
        &&& self.indptr@.len() >= 1
        &&& self.indptr@[0] == 0
        &&& forall|s: int, t: int| 0 <= s <= t < self.indptr@.len() ==> #[trigger] self.indptr@[s] <= #[trigger] self.indptr@[t]
        &&& self.indptr@.last() <= self.indices@.len()
        &&& self.indices@.len() == self.data@.len()
    }

    /// Finished lanes.
    pub closed spec fn lanes(&self) -> Seq<Lane<N>> {
        lanes_of(self.indptr@, self.indices@, self.data@)
    }

    /// Entries pushed since the last finished lane.
    pub closed spec fn pending(&self) -> Lane<N> {
        segment(self.indices@, self.data@, self.indptr@.last() as int, self.indices@.len() as int)
    }

    pub fn new() -> (b: Self)
        ensures
            b.inv(),
            b.lanes() == Seq::<Lane<N>>::empty(),
            b.pending() == Seq::<(nat, N)>::empty(),
    {
        let mut indptr: Vec<usize> = Vec::new();
        indptr.push(0);
        let b = LaneBuilder { indptr, indices: Vec::new(), data: Vec::new() };
        assert(b.lanes() =~= Seq::<Lane<N>>::empty());
        assert(b.pending() =~= Seq::<(nat, N)>::empty());
        b
    }

    /// Appends an entry to the pending lane.
    pub fn push(&mut self, index: usize, value: N)
        requires
            old(self).inv(),
        ensures
            final(self).inv(),
            final(self).lanes() == old(self).lanes(),
            final(self).pending() == old(self).pending().push((index as nat, value)),
    {
        let ghost old_lanes = self.lanes();
        let ghost old_pending = self.pending();
        self.indices.push(index);
        self.data.push(value);
        assert forall|k: int| 0 <= k < self.lanes().len() implies #[trigger] self.lanes()[k] =~= old_lanes[k] by {
            assert(self.indptr@[k] <= self.indptr@[k + 1]);
            assert(self.indptr@[k + 1] <= self.indptr@.last());
        }
        assert(self.lanes() =~= old_lanes);
        assert(self.pending() =~= old_pending.push((index as nat, value)));
    }

    /// Closes the pending lane, which becomes the last finished lane.
    pub fn finish_lane(&mut self)
        requires
            old(self).inv(),
        ensures
            final(self).inv(),
            final(self).lanes() == old(self).lanes().push(old(self).pending()),
            final(self).pending() == Seq::<(nat, N)>::empty(),
    {
        let ghost old_lanes = self.lanes();
        let ghost old_pending = self.pending();
        let ghost old_indptr = self.indptr@;
        let end = self.indices.len();
        self.indptr.push(end);
        assert forall|s: int, t: int| 0 <= s <= t < self.indptr@.len() implies #[trigger] self.indptr@[s] <= #[trigger] self.indptr@[t] by {
            if t == self.indptr@.len() - 1 {
                if s < t {
                    assert(old_indptr[s] <= old_indptr.last());
                }
            }
        }
        assert forall|k: int| 0 <= k < old_lanes.len() implies #[trigger] self.lanes()[k] =~= old_lanes[k] by {
        }
        assert(self.lanes() =~= old_lanes.push(old_pending));
        assert(self.pending() =~= Seq::<(nat, N)>::empty());
    }

    /// Number of finished lanes.
    pub fn lanes_len(&self) -> (r: usize)
        requires
            self.inv(),
        ensures
            r == self.lanes().len(),
    {
        self.indptr.len() - 1
    }
}

/// A compressed sparse matrix.
#[derive(PartialEq, Debug)]
pub struct CsMat<N> {
    storage: CompressedStorage,
    nrows: usize,
    ncols: usize,
    indptr: Vec<usize>,
    indices: Vec<usize>,
    data: Vec<N>,
}

impl<N> CsMat<N> {
    /// The arrays form a valid compressed structure for the orientation and
    /// shape.
    #[verifier::type_invariant]
    pub closed spec fn wf(self) -> bool {
        structure_ok(
            self.storage,
            self.nrows as nat,
            self.ncols as nat,
            self.indptr@,
            self.indices@,
            self.data@,
        )
    }

    pub closed spec fn model(self) -> CsMatModel<N> {
        CsMatModel {
            storage: self.storage,
            nrows: self.nrows as nat,
            ncols: self.ncols as nat,
            lanes: lanes_of(self.indptr@, self.indices@, self.data@),
        }
    }

    /// The `indptr` array.
    pub closed spec fn indptr_seq(self) -> Seq<usize> {
        self.indptr@
    }

    /// The `indices` array.
    pub closed spec fn indices_seq(self) -> Seq<usize> {
        self.indices@
    }

    /// The `data` array.
    pub closed spec fn data_seq(self) -> Seq<N> {
        self.data@
    }
}

impl<N> View for CsMat<N> {
    type V = CsMatModel<N>;

    open spec fn view(&self) -> CsMatModel<N> {
        self.model()
    }
}


impl<N> LaneBuilder<N> {
    /// Turns the finished lanes into a matrix of the given orientation and
    /// shape.
    pub fn into_matrix(self, storage: CompressedStorage, nrows: usize, ncols: usize) -> (m: CsMat<N>)
        requires
            self.inv(),
            self.pending().len() == 0,
            self.lanes().len() == outer_of(storage, nrows as nat, ncols as nat),
            forall|k: int|
                0 <= k < self.lanes().len() ==> lane_valid(
                    #[trigger] self.lanes()[k],
                    inner_of(storage, nrows as nat, ncols as nat),
                ),
        ensures
            m@ == (CsMatModel { storage, nrows: nrows as nat, ncols: ncols as nat, lanes: self.lanes() }),
    {
        let LaneBuilder { indptr, indices, data } = self;
        let m = CsMat { storage, nrows, ncols, indptr, indices, data };
        m
    }
}

impl<N> CsMat<N> {
    /// Every matrix satisfies its model's validity.
    pub proof fn lemma_valid(&self)
        requires
            self.wf(),
        ensures
            self@.valid(),
    {
    }

    /// Number of rows.
    pub fn rows(&self) -> (r: usize)
        ensures
            r == self@.nrows,
    {
        self.nrows
    }

    /// Number of columns.
    pub fn cols(&self) -> (r: usize)
        ensures
            r == self@.ncols,
    {
        self.ncols
    }

    /// Orientation of the storage.
    pub fn storage(&self) -> (r: CompressedStorage)
        ensures
            r == self@.storage,
    {
        self.storage
    }

    /// Whether the storage is CSR.
    pub fn is_csr(&self) -> (r: bool)
        ensures
            r == (self@.storage == CompressedStorage::CSR),
    {
        self.storage == CompressedStorage::CSR
    }

    /// Whether the storage is CSC.
    pub fn is_csc(&self) -> (r: bool)
        ensures
            r == (self@.storage == CompressedStorage::CSC),
    {
        self.storage == CompressedStorage::CSC
    }

    /// Number of outer lanes.
    pub fn outer_dims(&self) -> (r: usize)
        ensures
            r == self@.outer_dims(),
    {
        if self.storage == CompressedStorage::CSR {
            self.nrows
        } else {
            self.ncols
        }
    }

    /// Length of the lanes in the inner direction.
    pub fn inner_dims(&self) -> (r: usize)
        ensures
            r == self@.inner_dims(),
    {
        if self.storage == CompressedStorage::CSR {
            self.ncols
        } else {
            self.nrows
        }
    }

    /// Appends lane `k` of this matrix to the builder as a finished lane.
    pub(crate) fn append_lane_to(&self, k: usize, b: &mut LaneBuilder<N>)
        where
            N: Copy,
        requires
            old(b).inv(),
            old(b).pending().len() == 0,
            k < self@.lanes.len(),
        ensures
            final(b).inv(),
            final(b).pending().len() == 0,
            final(b).lanes() == old(b).lanes().push(self@.lanes[k as int]),
    {
        proof {
            use_type_invariant(self);
        }
        let lo = self.indptr[k];
        let hi = self.indptr[k + 1];
        let ghost lane = self@.lanes[k as int];
        assert(self.indptr@[k as int] <= self.indptr@[k + 1]);
        assert(self.indptr@[k + 1] <= self.indptr@[self.indptr@.len() - 1]);
        let mut p = lo;
        while p < hi
            invariant
                lo <= p <= hi,
                hi <= self.indices@.len(),
                self.indices@.len() == self.data@.len(),
                lane == segment(self.indices@, self.data@, lo as int, hi as int),
                b.inv(),
                b.lanes() == old(b).lanes(),
                b.pending() == lane.take(p - lo),
            decreases hi - p,
        {
            let ix = self.indices[p];
            let v = self.data[p];
            b.push(ix, v);
            p = p + 1;
            assert(b.pending() =~= lane.take(p - lo));
        }
        assert(lane.take(hi - lo) =~= lane);
        b.finish_lane();
    }
}


/// Pairs up two equally long sequences into a lane.
pub open spec fn zip_lane<N>(idx: Seq<usize>, val: Seq<N>) -> Lane<N> {
    Seq::new(idx.len(), |t: int| (idx[t] as nat, val[t]))
}

/// A copy of a vector of copyable values.
pub(crate) fn copy_vec<T: Copy>(v: &Vec<T>) -> (r: Vec<T>)
    ensures
        r@ == v@,
{
    let mut r: Vec<T> = Vec::new();
    let mut i: usize = 0;
    while i < v.len()
        invariant
            i <= v@.len(),
            r@ == v@.take(i as int),
        decreases v@.len() - i,
    {
        r.push(v[i]);
        i = i + 1;
        assert(r@ =~= v@.take(i as int));
    }
    assert(v@.take(i as int) =~= v@);
    r
}

impl<N: Copy> CsMat<N> {
    /// An owned copy of the matrix.
    pub fn to_owned(&self) -> (r: CsMat<N>)
        ensures
            r@ == self@,
            r.indptr_seq() == self.indptr_seq(),
            r.indices_seq() == self.indices_seq(),
            r.data_seq() == self.data_seq(),
    {
        proof {
            use_type_invariant(self);
        }
        CsMat {
            storage: self.storage,
            nrows: self.nrows,
            ncols: self.ncols,
            indptr: copy_vec(&self.indptr),
            indices: copy_vec(&self.indices),
            data: copy_vec(&self.data),
        }
    }

    /// The same matrix stored in the other orientation (CSR becomes CSC and
    /// the other way round).
    pub fn to_other_storage(&self) -> (r: CsMat<N>)
        requires
            self@.inner_dims() < usize::MAX,
        ensures
            r@ == self@.in_storage(self@.storage.spec_other()),
    {
        proof {
            use_type_invariant(self);
        }
        let ghost lanes = self@.lanes;
        let outer = self.outer_dims();
        let inner = self.inner_dims();
        let mut bidx: Vec<Vec<usize>> = Vec::new();
        let mut bval: Vec<Vec<N>> = Vec::new();
        let mut n: usize = 0;
        while n < inner
            invariant
                n <= inner,
                bidx@.len() == n,
                bval@.len() == n,
                forall|m: int| 0 <= m < n ==> (#[trigger] bidx@[m])@.len() == 0 && bval@[m]@.len() == 0,
            decreases inner - n,
        {
            bidx.push(Vec::new());
            bval.push(Vec::new());
            n = n + 1;
        }
        assert forall|m: int| 0 <= m < inner implies zip_lane((#[trigger] bidx@[m])@, bval@[m]@) =~= cross_lane(lanes, m, 0) by {}
        let mut o: usize = 0;
        while o < outer
            invariant
                self.wf(),
                lanes == self@.lanes,
                outer == self@.outer_dims(),
                inner == self@.inner_dims(),
                o <= outer,
                bidx@.len() == inner,
                bval@.len() == inner,
                forall|m: int| 0 <= m < inner ==> (#[trigger] bidx@[m])@.len() == bval@[m]@.len(),
                forall|m: int| 0 <= m < inner ==> zip_lane((#[trigger] bidx@[m])@, bval@[m]@) == cross_lane(lanes, m, o as int),
            decreases outer - o,
        {
            let lo = self.indptr[o];
            let hi = self.indptr[o + 1];
            assert(self.indptr@[o as int] <= self.indptr@[o + 1]);
            assert(self.indptr@[o + 1] <= self.indptr@[outer as int]);
            let ghost lane = lanes[o as int];
            assert(lane_valid(lane, inner as nat));
            let mut p = lo;
            while p < hi
                invariant
                    self.wf(),
                    lanes == self@.lanes,
                    inner == self@.inner_dims(),
                    o < outer,
                    outer == self@.outer_dims(),
                    lane == lanes[o as int],
                    lane_valid(lane, inner as nat),
                    lo == self.indptr@[o as int],
                    hi == self.indptr@[o + 1],
                    lo <= p <= hi,
                    hi <= self.indices@.len(),
                    lane == segment(self.indices@, self.data@, lo as int, hi as int),
                    bidx@.len() == inner,
                    bval@.len() == inner,
                    forall|m: int| 0 <= m < inner ==> (#[trigger] bidx@[m])@.len() == bval@[m]@.len(),
                    forall|m: int|
                        0 <= m < inner ==> zip_lane((#[trigger] bidx@[m])@, bval@[m]@) == match lane_lookup(
                            lane.take(p - lo),
                            m,
                        ) {
                            Some(v) => cross_lane(lanes, m, o as int).push((o as nat, v)),
                            None => cross_lane(lanes, m, o as int),
                        },
                decreases hi - p,
            {
                let ix = self.indices[p];
                let v = self.data[p];
                let ghost t = p - lo;
                let ghost before = lane.take(t);
                let ghost after = lane.take(t + 1);
                assert(lane[t] == (ix as nat, v));
                assert(ix < inner);
                assert(after.drop_last() =~= before);
                proof {
                    assert forall|u: int| 0 <= u < before.len() implies #[trigger] before[u].0 != ix by {
                        assert(before[u] == lane[u]);
                        assert(lane[u].0 < lane[t].0);
                    }
                    lemma_lookup_absent(before, ix as int);
                }
                let ghost old_bidx = bidx@;
                let ghost old_bval = bval@;
                bidx[ix].push(o);
                bval[ix].push(v);
                p = p + 1;
                assert forall|m: int| 0 <= m < inner implies (#[trigger] bidx@[m])@.len() == bval@[m]@.len() by {
                    if m != ix {
                        assert(bidx@[m] == old_bidx[m]);
                        assert(bval@[m] == old_bval[m]);
                    }
                }
                assert forall|m: int|
                    0 <= m < inner implies zip_lane((#[trigger] bidx@[m])@, bval@[m]@) == match lane_lookup(
                        lane.take(p - lo),
                        m,
                    ) {
                        Some(v) => cross_lane(lanes, m, o as int).push((o as nat, v)),
                        None => cross_lane(lanes, m, o as int),
                    } by {
                    assert(lane.take(p - lo) == after);
                    if m != ix {
                        assert(bidx@[m] == old_bidx[m]);
                        assert(bval@[m] == old_bval[m]);
                    } else {
                        assert(zip_lane(bidx@[m]@, bval@[m]@) =~= zip_lane(old_bidx[m]@, old_bval[m]@).push((o as nat, v)));
                    }
                }
            }
            assert(lane.take(hi - lo) =~= lane);
            o = o + 1;
        }
        let mut b: LaneBuilder<N> = LaneBuilder::new();
        let mut n: usize = 0;
        while n < inner
            invariant
                self.wf(),
                lanes == self@.lanes,
                outer == self@.outer_dims(),
                inner == self@.inner_dims(),
                lanes.len() == outer,
                n <= inner,
                bidx@.len() == inner,
                bval@.len() == inner,
                forall|m: int| 0 <= m < inner ==> (#[trigger] bidx@[m])@.len() == bval@[m]@.len(),
                forall|m: int| 0 <= m < inner ==> zip_lane((#[trigger] bidx@[m])@, bval@[m]@) == cross_lane(lanes, m, outer as int),
                b.inv(),
                b.pending().len() == 0,
                b.lanes() == Seq::new(n as nat, |m: int| cross_lane(lanes, m, outer as int)),
            decreases inner - n,
        {
            let len = bidx[n].len();
            let ghost target = zip_lane(bidx@[n as int]@, bval@[n as int]@);
            let mut t: usize = 0;
            while t < len
                invariant
                    n < inner,
                    bidx@.len() == inner,
                    bval@.len() == inner,
                    len == bidx@[n as int]@.len(),
                    len == bval@[n as int]@.len(),
                    target == zip_lane(bidx@[n as int]@, bval@[n as int]@),
                    t <= len,
                    b.inv(),
                    b.lanes() == Seq::new(n as nat, |m: int| cross_lane(lanes, m, outer as int)),
                    b.pending() == target.take(t as int),
                decreases len - t,
            {
                b.push(bidx[n][t], bval[n][t]);
                t = t + 1;
                assert(b.pending() =~= target.take(t as int));
            }
            assert(target.take(len as int) =~= target);
            b.finish_lane();
            n = n + 1;
            assert(b.lanes() =~= Seq::new(n as nat, |m: int| cross_lane(lanes, m, outer as int)));
        }
        let new_storage = self.storage.other_storage();
        proof {
            assert forall|k: int| 0 <= k < b.lanes().len() implies lane_valid(
                #[trigger] b.lanes()[k],
                inner_of(new_storage, self.nrows as nat, self.ncols as nat),
            ) by {
                lemma_cross_lane_valid(lanes, k, outer as int);
            }
        }
        let r = b.into_matrix(new_storage, self.nrows, self.ncols);
        assert(r@.lanes =~= self@.in_storage(self@.storage.spec_other()).lanes);
        r
    }
}


impl<N: Copy> CsMat<N> {
    /// The same matrix in CSR storage.
    pub fn to_csr(&self) -> (r: CsMat<N>)
        requires
            self@.storage == CompressedStorage::CSC ==> self@.nrows < usize::MAX,
        ensures
            r@ == self@.in_storage(CompressedStorage::CSR),
    {
        if self.storage == CompressedStorage::CSR {
            self.to_owned()
        } else {
            self.to_other_storage()
        }
    }

    /// The same matrix in CSC storage.
    pub fn to_csc(&self) -> (r: CsMat<N>)
        requires
            self@.storage == CompressedStorage::CSR ==> self@.ncols < usize::MAX,
        ensures
            r@ == self@.in_storage(CompressedStorage::CSC),
    {
        if self.storage == CompressedStorage::CSC {
            self.to_owned()
        } else {
            self.to_other_storage()
        }
    }
}

impl<N> CsMat<N> {
    /// The transposed matrix, sharing the arrays: the lanes are read in the
    /// other orientation.
    pub fn transpose_into(self) -> (r: CsMat<N>)
        ensures
            r@ == self@.transposed(),
            r.indptr_seq() == self.indptr_seq(),
            r.indices_seq() == self.indices_seq(),
            r.data_seq() == self.data_seq(),
    {
        proof {
            use_type_invariant(&self);
        }
        let storage = self.storage.other_storage();
        let CsMat { storage: _, nrows, ncols, indptr, indices, data } = self;
        CsMat { storage, nrows: ncols, ncols: nrows, indptr, indices, data }
    }

    /// A matrix of the given orientation, with `inner` as its inner
    /// dimension and no outer lane.
    pub fn empty(storage: CompressedStorage, inner: usize) -> (r: CsMat<N>)
        ensures
            r@.storage == storage,
            r@.inner_dims() == inner,
            r@.lanes == Seq::<Lane<N>>::empty(),
            r@.outer_dims() == 0,
    {
        let b: LaneBuilder<N> = LaneBuilder::new();
        if storage == CompressedStorage::CSR {
            b.into_matrix(storage, 0, inner)
        } else {
            b.into_matrix(storage, inner, 0)
        }
    }

    /// The CSR matrix of the given shape with no stored entry.
    pub fn zero(shape: (usize, usize)) -> (r: CsMat<N>)
        requires
            shape.0 < usize::MAX,
        ensures
            r@.storage == CompressedStorage::CSR,
            r@.nrows == shape.0,
            r@.ncols == shape.1,
            r@.lanes == Seq::new(shape.0 as nat, |k: int| Seq::<(nat, N)>::empty()),
    {
        let (rows, cols) = shape;
        let mut b: LaneBuilder<N> = LaneBuilder::new();
        let mut k: usize = 0;
        while k < rows
            invariant
                k <= rows,
                b.inv(),
                b.pending().len() == 0,
                b.lanes() == Seq::new(k as nat, |k: int| Seq::<(nat, N)>::empty()),
            decreases rows - k,
        {
            assert(b.pending() =~= Seq::<(nat, N)>::empty());
            b.finish_lane();
            k = k + 1;
            assert(b.lanes() =~= Seq::new(k as nat, |k: int| Seq::<(nat, N)>::empty()));
        }
        b.into_matrix(CompressedStorage::CSR, rows, cols)
    }
}


/// The first error that the structure check reports for the arrays, or none
/// when they form a valid compressed structure.
pub open spec fn structure_error<N>(
    storage: CompressedStorage,
    nrows: nat,
    ncols: nat,
    indptr: Seq<usize>,
    indices: Seq<usize>,
    data: Seq<N>,
) -> Option<SprsError> {
    let outer = outer_of(storage, nrows, ncols);
    let inner = inner_of(storage, nrows, ncols);
    let lanes = lanes_of(indptr, indices, data);
    if indptr.len() != outer + 1 {
        Some(SprsError::BadIndptrLength)
    } else if indices.len() != data.len() {
        Some(SprsError::DataIndicesMismatch)
    } else if indptr[0] != 0 {
        Some(SprsError::OutOfBoundsIndptr)
    } else if !(forall|s: int, t: int| 0 <= s <= t <= outer ==> #[trigger] indptr[s] <= #[trigger] indptr[t]) {
        Some(SprsError::UnsortedIndptr)
    } else if indptr[outer as int] != indices.len() {
        Some(SprsError::BadNnzCount)
    } else if !(forall|k: int, t: int|
        0 <= k < outer && 0 <= t < lanes[k].len() ==> #[trigger] lanes[k][t].0 < inner) {
        Some(SprsError::OutOfBoundsIndex)
    } else if !(forall|k: int| 0 <= k < outer ==> lane_valid(#[trigger] lanes[k], inner)) {
        Some(SprsError::NonSortedIndices)
    } else {
        None
    }
}

/// The structure check passes exactly on valid compressed structures.
pub proof fn lemma_structure_error_none<N>(
    storage: CompressedStorage,
    nrows: nat,
    ncols: nat,
    indptr: Seq<usize>,
    indices: Seq<usize>,
    data: Seq<N>,
)
    ensures
        structure_error(storage, nrows, ncols, indptr, indices, data) is None <==> structure_ok(
            storage,
            nrows,
            ncols,
            indptr,
            indices,
            data,
        ),
{
}

/// Checks that the arrays form a valid compressed structure of the given
/// orientation and shape, and reports the first problem found.
pub fn check_structure<N>(
    storage: CompressedStorage,
    nrows: usize,
    ncols: usize,
    indptr: &Vec<usize>,
    indices: &Vec<usize>,
    data: &Vec<N>,
) -> (r: Result<(), SprsError>)
    ensures
        r == (match structure_error(storage, nrows as nat, ncols as nat, indptr@, indices@, data@) {
            None => Ok(()),
            Some(e) => Err(e),
        }),
{
    let ghost lanes = lanes_of(indptr@, indices@, data@);
    let outer = if storage == CompressedStorage::CSR { nrows } else { ncols };
    let inner = if storage == CompressedStorage::CSR { ncols } else { nrows };
    let len = indptr.len();
    if outer == usize::MAX || len != outer + 1 {
        return Err(SprsError::BadIndptrLength);
    }
    if indices.len() != data.len() {
        return Err(SprsError::DataIndicesMismatch);
    }
    if indptr[0] != 0 {
        return Err(SprsError::OutOfBoundsIndptr);
    }
    let mut k: usize = 0;
    while k < outer
        invariant
            k <= outer,
            outer as nat == outer_of(storage, nrows as nat, ncols as nat),
            inner as nat == inner_of(storage, nrows as nat, ncols as nat),
            indptr@.len() == outer + 1,
            indptr@[0] == 0,
            indices@.len() == data@.len(),
            forall|s: int, t: int| 0 <= s <= t <= k ==> #[trigger] indptr@[s] <= #[trigger] indptr@[t],
        decreases outer - k,
    {
        if indptr[k] > indptr[k + 1] {
            assert(!(indptr@[k as int] <= indptr@[k + 1]));
            return Err(SprsError::UnsortedIndptr);
        }
        k = k + 1;
        assert forall|s: int, t: int| 0 <= s <= t <= k implies #[trigger] indptr@[s] <= #[trigger] indptr@[t] by {
            if t == k && s < t {
                assert(indptr@[s] <= indptr@[k - 1]);
            }
        }
    }
    if indptr[outer] != indices.len() {
        return Err(SprsError::BadNnzCount);
    }
    let mut k: usize = 0;
    while k < outer
        invariant
            k <= outer,
            outer as nat == outer_of(storage, nrows as nat, ncols as nat),
            inner as nat == inner_of(storage, nrows as nat, ncols as nat),
            indptr@.len() == outer + 1,
            indptr@[0] == 0,
            indices@.len() == data@.len(),
            indptr@[outer as int] == indices@.len(),
            lanes == lanes_of(indptr@, indices@, data@),
            forall|s: int, t: int| 0 <= s <= t <= outer ==> #[trigger] indptr@[s] <= #[trigger] indptr@[t],
            forall|k2: int, t: int| 0 <= k2 < k && 0 <= t < lanes[k2].len() ==> #[trigger] lanes[k2][t].0 < inner,
        decreases outer - k,
    {
        let lo = indptr[k];
        let hi = indptr[k + 1];
        assert(indptr@[k as int] <= indptr@[k + 1]);
        assert(indptr@[k + 1] <= indptr@[outer as int]);
        let mut p = lo;
        while p < hi
            invariant
                k < outer,
                lo == indptr@[k as int],
                hi == indptr@[k + 1],
                lo <= p <= hi,
                hi <= indices@.len(),
                outer as nat == outer_of(storage, nrows as nat, ncols as nat),
                inner as nat == inner_of(storage, nrows as nat, ncols as nat),
                indices@.len() == data@.len(),
                indptr@.len() == outer + 1,
                indptr@[0] == 0,
                indptr@[outer as int] == indices@.len(),
                forall|s: int, t: int| 0 <= s <= t <= outer ==> #[trigger] indptr@[s] <= #[trigger] indptr@[t],
                lanes == lanes_of(indptr@, indices@, data@),
                forall|k2: int, t: int| 0 <= k2 < k && 0 <= t < lanes[k2].len() ==> #[trigger] lanes[k2][t].0 < inner,
                forall|t: int| 0 <= t < p - lo ==> #[trigger] lanes[k as int][t].0 < inner,
            decreases hi - p,
        {
            if indices[p] >= inner {
                assert(lanes[k as int][p - lo].0 == indices@[p as int]);
                return Err(SprsError::OutOfBoundsIndex);
            }
            p = p + 1;
        }
        k = k + 1;
    }
    let mut k: usize = 0;
    while k < outer
        invariant
            k <= outer,
            outer as nat == outer_of(storage, nrows as nat, ncols as nat),
            inner as nat == inner_of(storage, nrows as nat, ncols as nat),
            indptr@.len() == outer + 1,
            indptr@[0] == 0,
            indices@.len() == data@.len(),
            indptr@[outer as int] == indices@.len(),
            lanes == lanes_of(indptr@, indices@, data@),
            forall|s: int, t: int| 0 <= s <= t <= outer ==> #[trigger] indptr@[s] <= #[trigger] indptr@[t],
            forall|k2: int, t: int| 0 <= k2 < outer && 0 <= t < lanes[k2].len() ==> #[trigger] lanes[k2][t].0 < inner,
            forall|k2: int| 0 <= k2 < k ==> lane_valid(#[trigger] lanes[k2], inner as nat),
        decreases outer - k,
    {
        let lo = indptr[k];
        let hi = indptr[k + 1];
        let ghost lane = lanes[k as int];
        assert(indptr@[k as int] <= indptr@[k + 1]);
        assert(indptr@[k + 1] <= indptr@[outer as int]);
        if lo < hi {
            let mut p = lo + 1;
            while p < hi
                invariant
                    k < outer,
                    lo == indptr@[k as int],
                    hi == indptr@[k + 1],
                    lo < p <= hi,
                    hi <= indices@.len(),
                    outer as nat == outer_of(storage, nrows as nat, ncols as nat),
                    inner as nat == inner_of(storage, nrows as nat, ncols as nat),
                    indices@.len() == data@.len(),
                    indptr@.len() == outer + 1,
                    indptr@[0] == 0,
                    indptr@[outer as int] == indices@.len(),
                    forall|s: int, t: int| 0 <= s <= t <= outer ==> #[trigger] indptr@[s] <= #[trigger] indptr@[t],
                    forall|k2: int, t: int| 0 <= k2 < outer && 0 <= t < lanes[k2].len() ==> #[trigger] lanes[k2][t].0 < inner,
                    forall|k2: int| 0 <= k2 < k ==> lane_valid(#[trigger] lanes[k2], inner as nat),
                    lane == lanes[k as int],
                    lanes == lanes_of(indptr@, indices@, data@),
                    forall|s: int, t: int| 0 <= s < t < p - lo ==> #[trigger] lane[s].0 < #[trigger] lane[t].0,
                decreases hi - p,
            {
                if indices[p - 1] >= indices[p] {
                    assert(lane[p - 1 - lo].0 == indices@[p - 1]);
                    assert(lane[p - lo].0 == indices@[p as int]);
                    assert(!(lane[p - 1 - lo].0 < lane[p - lo].0));
                    return Err(SprsError::NonSortedIndices);
                }
                p = p + 1;
                assert forall|s: int, t: int| 0 <= s < t < p - lo implies #[trigger] lane[s].0 < #[trigger] lane[t].0 by {
                    if t == p - lo - 1 && s < t - 1 {
                        assert(lane[s].0 < lane[t - 1].0);
                    }
                }
            }
        }
        assert(lane_valid(lane, inner as nat));
        k = k + 1;
    }
    Ok(())
}

impl<N> CsMat<N> {
    /// A matrix of the given orientation and shape holding the arrays, or
    /// the first problem the structure check finds in them.
    pub fn try_new(
        storage: CompressedStorage,
        shape: (usize, usize),
        indptr: Vec<usize>,
        indices: Vec<usize>,
        data: Vec<N>,
    ) -> (r: Result<CsMat<N>, SprsError>)
        ensures
            r is Ok <==> structure_error(storage, shape.0 as nat, shape.1 as nat, indptr@, indices@, data@) is None,
            r matches Err(e) ==> structure_error(storage, shape.0 as nat, shape.1 as nat, indptr@, indices@, data@) == Some(e),
            r matches Ok(m) ==> {
                &&& m@ == CsMatModel {
                    storage,
                    nrows: shape.0 as nat,
                    ncols: shape.1 as nat,
                    lanes: lanes_of(indptr@, indices@, data@),
                }
                &&& m.indptr_seq() == indptr@
                &&& m.indices_seq() == indices@
                &&& m.data_seq() == data@
            },
    {
        match check_structure(storage, shape.0, shape.1, &indptr, &indices, &data) {
            Ok(()) => Ok(CsMat { storage, nrows: shape.0, ncols: shape.1, indptr, indices, data }),
            Err(e) => Err(e),
        }
    }

    /// The CSR matrix of the given shape holding the arrays, which must form
    /// a valid compressed structure.
    pub fn new(shape: (usize, usize), indptr: Vec<usize>, indices: Vec<usize>, data: Vec<N>) -> (m: CsMat<N>)
        requires
            structure_ok(CompressedStorage::CSR, shape.0 as nat, shape.1 as nat, indptr@, indices@, data@),
        ensures
            m@ == (CsMatModel {
                storage: CompressedStorage::CSR,
                nrows: shape.0 as nat,
                ncols: shape.1 as nat,
                lanes: lanes_of(indptr@, indices@, data@),
            }),
            m.indptr_seq() == indptr@,
            m.indices_seq() == indices@,
            m.data_seq() == data@,
    {
        CsMat { storage: CompressedStorage::CSR, nrows: shape.0, ncols: shape.1, indptr, indices, data }
    }

    /// The CSC matrix of the given shape holding the arrays, which must form
    /// a valid compressed structure.
    pub fn new_csc(shape: (usize, usize), indptr: Vec<usize>, indices: Vec<usize>, data: Vec<N>) -> (m: CsMat<N>)
        requires
            structure_ok(CompressedStorage::CSC, shape.0 as nat, shape.1 as nat, indptr@, indices@, data@),
        ensures
            m@ == (CsMatModel {
                storage: CompressedStorage::CSC,
                nrows: shape.0 as nat,
                ncols: shape.1 as nat,
                lanes: lanes_of(indptr@, indices@, data@),
            }),
            m.indptr_seq() == indptr@,
            m.indices_seq() == indices@,
            m.data_seq() == data@,
    {
        CsMat { storage: CompressedStorage::CSC, nrows: shape.0, ncols: shape.1, indptr, indices, data }
    }
}


/// All entries of the lanes, lane after lane.
pub open spec fn flatten<N>(lanes: Seq<Lane<N>>) -> Lane<N>
    decreases lanes.len(),
{
    if lanes.len() == 0 {
        Seq::empty()
    } else {
        flatten(lanes.drop_last()) + lanes.last()
    }
}

/// In a valid structure the first `k` lanes are the first `indptr[k]`
/// positions of the index and data arrays.
proof fn lemma_flatten_prefix<N>(
    storage: CompressedStorage,
    nrows: nat,
    ncols: nat,
    indptr: Seq<usize>,
    indices: Seq<usize>,
    data: Seq<N>,
    k: int,
)
    requires
        structure_ok(storage, nrows, ncols, indptr, indices, data),
        0 <= k <= outer_of(storage, nrows, ncols),
    ensures
        flatten(lanes_of(indptr, indices, data).take(k)) == zip_lane(indices, data).take(indptr[k] as int),
    decreases k,
{
    let lanes = lanes_of(indptr, indices, data);
    let outer = outer_of(storage, nrows, ncols);
    let z = zip_lane(indices, data);
    if k == 0 {
        assert(lanes.take(0) =~= Seq::<Lane<N>>::empty());
        assert(z.take(0) =~= Seq::<(nat, N)>::empty());
    } else {
        lemma_flatten_prefix(storage, nrows, ncols, indptr, indices, data, k - 1);
        assert(lanes.take(k).drop_last() =~= lanes.take(k - 1));
        assert(indptr[k - 1] <= indptr[k]);
        assert(indptr[k] <= indptr[outer as int]);
        assert(z.take(indptr[k] as int) =~= z.take(indptr[k - 1] as int) + lanes[k - 1]);
    }
}

/// A matrix's index and data arrays list its lanes one after the other, and
/// `indptr[k]` counts the entries of the first `k` lanes.
pub proof fn lemma_arrays_from_lanes<N>(m: CsMat<N>)
    requires
        m.wf(),
    ensures
        zip_lane(m.indices_seq(), m.data_seq()) == flatten(m@.lanes),
        m.indptr_seq().len() == m@.lanes.len() + 1,
        forall|k: int| 0 <= k <= m@.lanes.len() ==> #[trigger] m.indptr_seq()[k] == flatten(m@.lanes.take(k)).len(),
{
    let outer = m@.outer_dims() as int;
    lemma_flatten_prefix(m.storage, m.nrows as nat, m.ncols as nat, m.indptr@, m.indices@, m.data@, outer);
    assert(m@.lanes.take(outer) =~= m@.lanes);
    assert(zip_lane(m.indices@, m.data@).take(m.indices@.len() as int) =~= zip_lane(m.indices@, m.data@));
    assert forall|k: int| 0 <= k <= m@.lanes.len() implies #[trigger] m.indptr_seq()[k] == flatten(m@.lanes.take(k)).len() by {
        lemma_flatten_prefix(m.storage, m.nrows as nat, m.ncols as nat, m.indptr@, m.indices@, m.data@, k);
        assert(m.indptr@[k] <= m.indptr@[outer]);
    }
}

/// Law: the compressed representation is canonical.  Two matrices with the
/// same model (orientation, shape and lanes) have identical arrays.
pub proof fn lemma_model_determines_arrays<N>(a: CsMat<N>, b: CsMat<N>)
    requires
        a.wf(),
        b.wf(),
        a@ == b@,
    ensures
        a.indptr_seq() == b.indptr_seq(),
        a.indices_seq() == b.indices_seq(),
        a.data_seq() == b.data_seq(),
{
    lemma_arrays_from_lanes(a);
    lemma_arrays_from_lanes(b);
    let za = zip_lane(a.indices_seq(), a.data_seq());
    let zb = zip_lane(b.indices_seq(), b.data_seq());
    assert(za.len() == zb.len());
    assert forall|t: int| 0 <= t < za.len() implies a.indices_seq()[t] == b.indices_seq()[t] && a.data_seq()[t] == b.data_seq()[t] by {
        assert(za[t] == zb[t]);
    }
    assert(a.indices_seq() =~= b.indices_seq());
    assert(a.data_seq().len() == za.len());
    assert(b.data_seq().len() == zb.len());
    assert forall|t: int| 0 <= t < a.data_seq().len() implies a.data_seq()[t] == b.data_seq()[t] by {
        assert(za[t] == zb[t]);
    }
    assert(a.data_seq() =~= b.data_seq());
    assert forall|k: int| 0 <= k < a.indptr_seq().len() implies a.indptr_seq()[k] == b.indptr_seq()[k] by {
        assert(a.indptr_seq()[k] == flatten(a@.lanes.take(k)).len());
        assert(b.indptr_seq()[k] == flatten(b@.lanes.take(k)).len());
    }
    assert(a.indptr_seq() =~= b.indptr_seq());
}

/// Law: a valid matrix is determined by its orientation, its shape and the
/// value it stores at each position.
pub proof fn lemma_entries_determine_model<N>(a: CsMatModel<N>, b: CsMatModel<N>)
    requires
        a.valid(),
        b.valid(),
        a.storage == b.storage,
        a.nrows == b.nrows,
        a.ncols == b.ncols,
        forall|i: int, j: int| a.entry(i, j) == b.entry(i, j),
    ensures
        a == b,
{
    assert forall|k: int| 0 <= k < a.lanes.len() implies a.lanes[k] == b.lanes[k] by {
        assert forall|n: int| lane_lookup(a.lanes[k], n) == lane_lookup(b.lanes[k], n) by {
            if a.storage == CompressedStorage::CSR {
                assert(a.entry(k, n) == b.entry(k, n));
            } else {
                assert(a.entry(n, k) == b.entry(n, k));
            }
        }
        lemma_lanes_equal_by_lookup(a.lanes[k], b.lanes[k], a.inner_dims());
    }
    assert(a.lanes =~= b.lanes);
}

/// Law: changing the orientation of a valid matrix keeps it valid and keeps
/// every entry.
pub proof fn lemma_in_storage_entries<N>(m: CsMatModel<N>, s: CompressedStorage)
    requires
        m.valid(),
    ensures
        m.in_storage(s).valid(),
        m.in_storage(s).storage == s,
        m.in_storage(s).nrows == m.nrows,
        m.in_storage(s).ncols == m.ncols,
        forall|i: int, j: int| #[trigger] m.in_storage(s).entry(i, j) == m.entry(i, j),
{
    if m.storage != s {
        let r = m.in_storage(s);
        let outer = m.lanes.len() as int;
        assert forall|k: int| 0 <= k < r.lanes.len() implies lane_valid(#[trigger] r.lanes[k], r.inner_dims()) by {
            lemma_cross_lane_valid(m.lanes, k, outer);
        }
        assert forall|i: int, j: int| #[trigger] r.entry(i, j) == m.entry(i, j) by {
            let o = if m.storage == CompressedStorage::CSR { i } else { j };
            let n = if m.storage == CompressedStorage::CSR { j } else { i };
            if 0 <= n < r.lanes.len() {
                lemma_cross_lane_lookup(m.lanes, n, outer, o);
            } else if 0 <= o < outer {
                assert forall|t: int| 0 <= t < m.lanes[o].len() implies #[trigger] m.lanes[o][t].0 != n by {
                    assert(lane_valid(m.lanes[o], m.inner_dims()));
                }
                lemma_lookup_absent(m.lanes[o], n);
            }
        }
    }
}

/// Law: the transposed matrix is valid and holds at (i, j) what the matrix
/// holds at (j, i).
pub proof fn lemma_transposed_entries<N>(m: CsMatModel<N>)
    requires
        m.valid(),
    ensures
        m.transposed().valid(),
        forall|i: int, j: int| #[trigger] m.transposed().entry(i, j) == m.entry(j, i),
{
}

/// Law: the number of stored entries of a matrix is the length of its data.
pub proof fn lemma_nnz_is_data_len<N>(m: CsMat<N>)
    requires
        m.wf(),
    ensures
        m@.nnz() == m.data_seq().len(),
        m@.nnz() == m.indices_seq().len(),
{
    lemma_arrays_from_lanes(m);
    lemma_flatten_len(m@.lanes);
}

/// Flattening keeps every entry: its length is the total count of entries.
pub proof fn lemma_flatten_len<N>(lanes: Seq<Lane<N>>)
    ensures
        flatten(lanes).len() == lanes_nnz(lanes),
    decreases lanes.len(),
{
    if lanes.len() > 0 {
        lemma_flatten_len(lanes.drop_last());
    }
}

impl<N> CsMat<N> {
    /// Number of stored entries.
    pub fn nnz(&self) -> (r: usize)
        ensures
            r == self@.nnz(),
    {
        proof {
            use_type_invariant(self);
            lemma_nnz_is_data_len(*self);
        }
        self.data.len()
    }

    /// The `indptr` array: lane `k` occupies positions `indptr[k]..indptr[k+1]`.
    pub fn indptr(&self) -> (r: &[usize])
        ensures
            r@ == self.indptr_seq(),
    {
        self.indptr.as_slice()
    }

    /// The inner index of each stored entry.
    pub fn indices(&self) -> (r: &[usize])
        ensures
            r@ == self.indices_seq(),
    {
        self.indices.as_slice()
    }

    /// The value of each stored entry.
    pub fn data(&self) -> (r: &[N])
        ensures
            r@ == self.data_seq(),
    {
        self.data.as_slice()
    }
}


/// Law: converting a valid matrix to the other orientation and back gives
/// the matrix again.
pub proof fn lemma_storage_round_trip<N>(m: CsMatModel<N>)
    requires
        m.valid(),
    ensures
        m.in_storage(m.storage.spec_other()).in_storage(m.storage) == m,
{
    let o = m.in_storage(m.storage.spec_other());
    lemma_in_storage_entries(m, m.storage.spec_other());
    lemma_in_storage_entries(o, m.storage);
    let back = o.in_storage(m.storage);
    assert forall|i: int, j: int| back.entry(i, j) == m.entry(i, j) by {
        assert(back.entry(i, j) == o.entry(i, j));
        assert(o.entry(i, j) == m.entry(i, j));
    }
    lemma_entries_determine_model(back, m);
}

} // verus!
