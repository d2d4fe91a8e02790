//! High level construction of sparse matrices: stacking, assembly from
//! blocks, and compression of dense matrices.
use vstd::prelude::*;
use crate::sparse::csmat::{CompressedStorage, CsMat, CsMatModel, LaneBuilder, lemma_in_storage_entries, lemma_entries_determine_model, outer_of, inner_of};
use crate::sparse::dense::{DenseMatrix, DenseModel};
use crate::errors::SprsError;
use crate::sparse::lanes::{Lane, lane_valid, lane_lookup, lemma_lookup_absent};

verus! {

/// The models of a list of matrices.
pub open spec fn models<N>(mats: Seq<&CsMat<N>>) -> Seq<CsMatModel<N>> {
    Seq::new(mats.len(), |k: int| mats[k]@)
}

/// The outer lanes of the matrices, one matrix after the other.
pub open spec fn concat_lanes<N>(ms: Seq<CsMatModel<N>>) -> Seq<Lane<N>>
    decreases ms.len(),
{
    if ms.len() == 0 {
        Seq::empty()
    } else {
        concat_lanes(ms.drop_last()) + ms.last().lanes
    }
}

/// The matrices stacked along their outer dimension: the orientation and
/// inner dimension of the first one, and all their lanes in order.
pub open spec fn stack_outer<N>(ms: Seq<CsMatModel<N>>) -> CsMatModel<N> {
    let storage = ms[0].storage;
    let inner = ms[0].inner_dims();
    let lanes = concat_lanes(ms);
    CsMatModel {
        storage,
        nrows: if storage == CompressedStorage::CSR { lanes.len() } else { inner },
        ncols: if storage == CompressedStorage::CSR { inner } else { lanes.len() },
        lanes,
    }
}

/// Total number of rows.
pub open spec fn rows_sum<N>(ms: Seq<CsMatModel<N>>) -> nat
    decreases ms.len(),
{
    if ms.len() == 0 {
        0
    } else {
        rows_sum(ms.drop_last()) + ms.last().nrows
    }
}

/// Total number of columns.
pub open spec fn cols_sum<N>(ms: Seq<CsMatModel<N>>) -> nat
    decreases ms.len(),
{
    if ms.len() == 0 {
        0
    } else {
        cols_sum(ms.drop_last()) + ms.last().ncols
    }
}

/// The value at (i, j) of the matrices put one above the other.
pub open spec fn vstack_entry<N>(ms: Seq<CsMatModel<N>>, i: int, j: int) -> Option<N>
    decreases ms.len(),
{
    if ms.len() == 0 {
        None
    } else {
        let off = rows_sum(ms.drop_last());
        if i >= off {
            ms.last().entry(i - off, j)
        } else {
            vstack_entry(ms.drop_last(), i, j)
        }
    }
}

/// The value at (i, j) of the matrices put side by side.
pub open spec fn hstack_entry<N>(ms: Seq<CsMatModel<N>>, i: int, j: int) -> Option<N>
    decreases ms.len(),
{
    if ms.len() == 0 {
        None
    } else {
        let off = cols_sum(ms.drop_last());
        if j >= off {
            ms.last().entry(i, j - off)
        } else {
            hstack_entry(ms.drop_last(), i, j)
        }
    }
}

/// Concatenating the lanes of valid matrices gives lanes that are valid for
/// the common inner dimension.
proof fn lemma_concat_valid<N>(ms: Seq<CsMatModel<N>>, inner: nat)
    requires
        forall|k: int| 0 <= k < ms.len() ==> (#[trigger] ms[k]).valid() && ms[k].inner_dims() == inner,
    ensures
        forall|q: int| 0 <= q < concat_lanes(ms).len() ==> lane_valid(#[trigger] concat_lanes(ms)[q], inner),
    decreases ms.len(),
{
    if ms.len() > 0 {
        let d = ms.drop_last();
        assert forall|k: int| 0 <= k < d.len() implies (#[trigger] d[k]).valid() && d[k].inner_dims() == inner by {
            assert(d[k] == ms[k]);
        }
        lemma_concat_valid(d, inner);
        let last = ms[ms.len() - 1];
        assert forall|q: int| 0 <= q < concat_lanes(ms).len() implies lane_valid(#[trigger] concat_lanes(ms)[q], inner) by {
            if q >= concat_lanes(d).len() {
                assert(concat_lanes(ms)[q] == last.lanes[q - concat_lanes(d).len()]);
            } else {
                assert(concat_lanes(ms)[q] == concat_lanes(d)[q]);
            }
        }
    }
}

/// Reading the concatenated lanes of CSR matrices row by row gives the
/// matrices one above the other.
proof fn lemma_concat_rows<N>(ms: Seq<CsMatModel<N>>, i: int, j: int)
    requires
        forall|k: int| 0 <= k < ms.len() ==> (#[trigger] ms[k]).valid() && ms[k].storage == CompressedStorage::CSR,
    ensures
        concat_lanes(ms).len() == rows_sum(ms),
        (if 0 <= i < concat_lanes(ms).len() {
            lane_lookup(concat_lanes(ms)[i], j)
        } else {
            None
        }) == vstack_entry(ms, i, j),
    decreases ms.len(),
{
    if ms.len() > 0 {
        let d = ms.drop_last();
        assert forall|k: int| 0 <= k < d.len() implies (#[trigger] d[k]).valid() && d[k].storage == CompressedStorage::CSR by {
            assert(d[k] == ms[k]);
        }
        lemma_concat_rows(d, i, j);
        let last = ms[ms.len() - 1];
        assert(last.valid());
        let off = concat_lanes(d).len() as int;
        if i >= off && i < concat_lanes(ms).len() {
            assert(concat_lanes(ms)[i] == last.lanes[i - off]);
        } else if 0 <= i < off {
            assert(concat_lanes(ms)[i] == concat_lanes(d)[i]);
        }
    }
}

/// Reading the concatenated lanes of CSC matrices column by column gives
/// the matrices side by side.
proof fn lemma_concat_cols<N>(ms: Seq<CsMatModel<N>>, i: int, j: int)
    requires
        forall|k: int| 0 <= k < ms.len() ==> (#[trigger] ms[k]).valid() && ms[k].storage == CompressedStorage::CSC,
    ensures
        concat_lanes(ms).len() == cols_sum(ms),
        (if 0 <= j < concat_lanes(ms).len() {
            lane_lookup(concat_lanes(ms)[j], i)
        } else {
            None
        }) == hstack_entry(ms, i, j),
    decreases ms.len(),
{
    if ms.len() > 0 {
        let d = ms.drop_last();
        assert forall|k: int| 0 <= k < d.len() implies (#[trigger] d[k]).valid() && d[k].storage == CompressedStorage::CSC by {
            assert(d[k] == ms[k]);
        }
        lemma_concat_cols(d, i, j);
        let last = ms[ms.len() - 1];
        assert(last.valid());
        let off = concat_lanes(d).len() as int;
        if j >= off && j < concat_lanes(ms).len() {
            assert(concat_lanes(ms)[j] == last.lanes[j - off]);
        } else if 0 <= j < off {
            assert(concat_lanes(ms)[j] == concat_lanes(d)[j]);
        }
    }
}

/// Stack the given matrices into a new one, using the most efficient stacking
/// direction (ie vertical stack for CSR matrices, horizontal stack for CSC):
/// the lanes of the result are the lanes of the matrices, one after the
/// other.
pub fn same_storage_fast_stack<N: Copy>(mats: &[&CsMat<N>]) -> (r: CsMat<N>)
    requires
        mats@.len() > 0,
        forall|k: int| 0 <= k < mats@.len() ==> (#[trigger] mats@[k])@.inner_dims() == mats@[0]@.inner_dims(),
        forall|k: int| 0 <= k < mats@.len() ==> (#[trigger] mats@[k])@.storage == mats@[0]@.storage,
    ensures
        r@ == stack_outer(models(mats@)),
        r@.valid(),
{
    let ghost ms = models(mats@);
    let storage = mats[0].storage();
    let inner = mats[0].inner_dims();
    let mut b: LaneBuilder<N> = LaneBuilder::new();
    let mut k: usize = 0;
    while k < mats.len()
        invariant
            ms == models(mats@),
            storage == ms[0].storage,
            inner == ms[0].inner_dims(),
            forall|q: int| 0 <= q < mats@.len() ==> (#[trigger] mats@[q])@.inner_dims() == mats@[0]@.inner_dims(),
            forall|q: int| 0 <= q < mats@.len() ==> (#[trigger] mats@[q])@.storage == mats@[0]@.storage,
            forall|q: int| 0 <= q < k ==> (#[trigger] ms[q]).valid(),
            k <= mats@.len(),
            b.inv(),
            b.pending().len() == 0,
            b.lanes() == concat_lanes(ms.take(k as int)),
        decreases mats@.len() - k,
    {
        let m: &CsMat<N> = mats[k];
        proof {
            use_type_invariant(m);
            m.lemma_valid();
        }
        let outer = m.outer_dims();
        let ghost start = b.lanes();
        let mut o: usize = 0;
        while o < outer
            invariant
                m@ == ms[k as int],
                m@.valid(),
                outer == m@.outer_dims(),
                o <= outer,
                b.inv(),
                b.pending().len() == 0,
                b.lanes() == start + m@.lanes.take(o as int),
            decreases outer - o,
        {
            m.append_lane_to(o, &mut b);
            o = o + 1;
            assert(b.lanes() =~= start + m@.lanes.take(o as int));
        }
        assert(m@.lanes.take(outer as int) =~= m@.lanes);
        assert(ms.take(k + 1).drop_last() =~= ms.take(k as int));
        k = k + 1;
    }
    assert(ms.take(mats@.len() as int) =~= ms);
    let nl = b.lanes_len();
    proof {
        lemma_concat_valid(ms, inner as nat);
    }
    if storage == CompressedStorage::CSR {
        b.into_matrix(storage, nl, inner)
    } else {
        b.into_matrix(storage, inner, nl)
    }
}


/// Matrices with the same heights and the same entries stack to the same
/// entries.
proof fn lemma_vstack_congruent<N>(a: Seq<CsMatModel<N>>, b: Seq<CsMatModel<N>>, i: int, j: int)
    requires
        a.len() == b.len(),
        forall|k: int| 0 <= k < a.len() ==> (#[trigger] a[k]).nrows == b[k].nrows,
        forall|k: int, i2: int, j2: int| 0 <= k < a.len() ==> (#[trigger] a[k].entry(i2, j2)) == b[k].entry(i2, j2),
    ensures
        rows_sum(a) == rows_sum(b),
        vstack_entry(a, i, j) == vstack_entry(b, i, j),
    decreases a.len(),
{
    if a.len() > 0 {
        let da = a.drop_last();
        let db = b.drop_last();
        assert forall|k: int| 0 <= k < da.len() implies (#[trigger] da[k]).nrows == db[k].nrows by {
            assert(da[k] == a[k] && db[k] == b[k]);
        }
        assert forall|k: int, i2: int, j2: int| 0 <= k < da.len() implies (#[trigger] da[k].entry(i2, j2)) == db[k].entry(i2, j2) by {
            assert(da[k] == a[k] && db[k] == b[k]);
        }
        lemma_vstack_congruent(da, db, i, j);
        let off = rows_sum(da);
        assert(a.last().entry(i - off, j) == b.last().entry(i - off, j));
    }
}

/// Matrices with the same widths and the same entries stack side by side to
/// the same entries.
proof fn lemma_hstack_congruent<N>(a: Seq<CsMatModel<N>>, b: Seq<CsMatModel<N>>, i: int, j: int)
    requires
        a.len() == b.len(),
        forall|k: int| 0 <= k < a.len() ==> (#[trigger] a[k]).ncols == b[k].ncols,
        forall|k: int, i2: int, j2: int| 0 <= k < a.len() ==> (#[trigger] a[k].entry(i2, j2)) == b[k].entry(i2, j2),
    ensures
        cols_sum(a) == cols_sum(b),
        hstack_entry(a, i, j) == hstack_entry(b, i, j),
    decreases a.len(),
{
    if a.len() > 0 {
        let da = a.drop_last();
        let db = b.drop_last();
        assert forall|k: int| 0 <= k < da.len() implies (#[trigger] da[k]).ncols == db[k].ncols by {
            assert(da[k] == a[k] && db[k] == b[k]);
        }
        assert forall|k: int, i2: int, j2: int| 0 <= k < da.len() implies (#[trigger] da[k].entry(i2, j2)) == db[k].entry(i2, j2) by {
            assert(da[k] == a[k] && db[k] == b[k]);
        }
        lemma_hstack_congruent(da, db, i, j);
        let off = cols_sum(da);
        assert(a.last().entry(i, j - off) == b.last().entry(i, j - off));
    }
}

/// Law: stacking CSR matrices along their rows puts them one above the
/// other.
pub proof fn lemma_stack_outer_rows<N>(ms: Seq<CsMatModel<N>>)
    requires
        ms.len() > 0,
        forall|k: int| 0 <= k < ms.len() ==> (#[trigger] ms[k]).valid() && ms[k].storage == CompressedStorage::CSR,
        forall|k: int| 0 <= k < ms.len() ==> (#[trigger] ms[k]).ncols == ms[0].ncols,
    ensures
        stack_outer(ms).valid(),
        stack_outer(ms).storage == CompressedStorage::CSR,
        stack_outer(ms).nrows == rows_sum(ms),
        stack_outer(ms).ncols == ms[0].ncols,
        forall|i: int, j: int| #[trigger] stack_outer(ms).entry(i, j) == vstack_entry(ms, i, j),
{
    lemma_concat_valid(ms, ms[0].ncols);
    lemma_concat_rows(ms, 0, 0);
    assert forall|i: int, j: int| #[trigger] stack_outer(ms).entry(i, j) == vstack_entry(ms, i, j) by {
        lemma_concat_rows(ms, i, j);
    }
}

/// Law: stacking CSC matrices along their columns puts them side by side.
pub proof fn lemma_stack_outer_cols<N>(ms: Seq<CsMatModel<N>>)
    requires
        ms.len() > 0,
        forall|k: int| 0 <= k < ms.len() ==> (#[trigger] ms[k]).valid() && ms[k].storage == CompressedStorage::CSC,
        forall|k: int| 0 <= k < ms.len() ==> (#[trigger] ms[k]).nrows == ms[0].nrows,
    ensures
        stack_outer(ms).valid(),
        stack_outer(ms).storage == CompressedStorage::CSC,
        stack_outer(ms).ncols == cols_sum(ms),
        stack_outer(ms).nrows == ms[0].nrows,
        forall|i: int, j: int| #[trigger] stack_outer(ms).entry(i, j) == hstack_entry(ms, i, j),
{
    lemma_concat_valid(ms, ms[0].nrows);
    lemma_concat_cols(ms, 0, 0);
    assert forall|i: int, j: int| #[trigger] stack_outer(ms).entry(i, j) == hstack_entry(ms, i, j) by {
        lemma_concat_cols(ms, i, j);
    }
}

/// Copies of the matrices, each in orientation `s`.
fn convert_all<N: Copy>(mats: &[&CsMat<N>], s: CompressedStorage) -> (r: Vec<CsMat<N>>)
    requires
        forall|k: int|
            0 <= k < mats@.len() ==> #[trigger] mats@[k]@.storage != s ==> mats@[k]@.inner_dims() < usize::MAX,
    ensures
        r@.len() == mats@.len(),
        forall|k: int| 0 <= k < r@.len() ==> (#[trigger] r@[k])@ == mats@[k]@.in_storage(s),
        forall|k: int| 0 <= k < r@.len() ==> (#[trigger] mats@[k])@.valid(),
{
    let mut r: Vec<CsMat<N>> = Vec::new();
    let mut k: usize = 0;
    while k < mats.len()
        invariant
            k <= mats@.len(),
            r@.len() == k,
            forall|q: int|
                0 <= q < mats@.len() ==> #[trigger] mats@[q]@.storage != s ==> mats@[q]@.inner_dims() < usize::MAX,
            forall|q: int| 0 <= q < k ==> (#[trigger] r@[q])@ == mats@[q]@.in_storage(s),
            forall|q: int| 0 <= q < k ==> (#[trigger] mats@[q])@.valid(),
        decreases mats@.len() - k,
    {
        let m: &CsMat<N> = mats[k];
        proof {
            use_type_invariant(m);
            m.lemma_valid();
        }
        let c = if m.storage() == s {
            m.to_owned()
        } else {
            m.to_other_storage()
        };
        proof {
            if m@.storage != s {
                assert(s == m@.storage.spec_other()) by {
                    match s {
                        CompressedStorage::CSR => {},
                        CompressedStorage::CSC => {},
                    }
                }
            }
        }
        r.push(c);
        k = k + 1;
    }
    r
}

/// Borrows of each matrix of a vector.
fn borrow_all<N>(v: &Vec<CsMat<N>>) -> (r: Vec<&CsMat<N>>)
    ensures
        r@.len() == v@.len(),
        forall|k: int| 0 <= k < r@.len() ==> *(#[trigger] r@[k]) == v@[k],
{
    let mut r: Vec<&CsMat<N>> = Vec::new();
    let mut k: usize = 0;
    while k < v.len()
        invariant
            k <= v@.len(),
            r@.len() == k,
            forall|q: int| 0 <= q < k ==> *(#[trigger] r@[q]) == v@[q],
        decreases v@.len() - k,
    {
        r.push(&v[k]);
        k = k + 1;
    }
    r
}

/// Whether every matrix has the given orientation; also records that every
/// matrix is valid.
fn all_in_storage<N>(mats: &[&CsMat<N>], s: CompressedStorage) -> (r: bool)
    ensures
        r == (forall|k: int| 0 <= k < mats@.len() ==> (#[trigger] mats@[k])@.storage == s),
        forall|k: int| 0 <= k < mats@.len() ==> (#[trigger] mats@[k])@.valid(),
{
    let mut all = true;
    let mut k: usize = 0;
    while k < mats.len()
        invariant
            k <= mats@.len(),
            all == (forall|q: int| 0 <= q < k ==> (#[trigger] mats@[q])@.storage == s),
            forall|q: int| 0 <= q < k ==> (#[trigger] mats@[q])@.valid(),
        decreases mats@.len() - k,
    {
        let m: &CsMat<N> = mats[k];
        proof {
            use_type_invariant(m);
            m.lemma_valid();
        }
        if m.storage() != s {
            all = false;
        }
        k = k + 1;
    }
    all
}

/// Construct a sparse matrix by vertically stacking other matrices: the
/// result is the CSR matrix made of the given matrices one above the other.
pub fn vstack<N: Copy>(mats: &[&CsMat<N>]) -> (r: CsMat<N>)
    requires
        mats@.len() > 0,
        forall|k: int| 0 <= k < mats@.len() ==> (#[trigger] mats@[k])@.ncols == mats@[0]@.ncols,
        forall|k: int|
            0 <= k < mats@.len() ==> #[trigger] mats@[k]@.storage == CompressedStorage::CSC ==> mats@[k]@.nrows
                < usize::MAX,
    ensures
        r@.valid(),
        r@.storage == CompressedStorage::CSR,
        r@.nrows == rows_sum(models(mats@)),
        r@.ncols == mats@[0]@.ncols,
        forall|i: int, j: int| #[trigger] r@.entry(i, j) == vstack_entry(models(mats@), i, j),
{
    let ghost ms = models(mats@);
    if all_in_storage(mats, CompressedStorage::CSR) {
        let r = same_storage_fast_stack(mats);
        proof {
            lemma_stack_outer_rows(ms);
        }
        return r;
    }
    let owned = convert_all(mats, CompressedStorage::CSR);
    let refs = borrow_all(&owned);
    let r = same_storage_fast_stack(refs.as_slice());
    proof {
        let cs = models(refs@);
        assert forall|k: int| 0 <= k < ms.len() implies #[trigger] cs[k] == ms[k].in_storage(CompressedStorage::CSR) by {
            assert(cs[k] == refs@[k]@);
        }
        assert forall|k: int| 0 <= k < ms.len() implies (#[trigger] cs[k]).valid() && cs[k].storage
            == CompressedStorage::CSR && cs[k].nrows == ms[k].nrows && cs[k].ncols == ms[k].ncols by {
            lemma_in_storage_entries(ms[k], CompressedStorage::CSR);
        }
        assert forall|k: int, i2: int, j2: int| 0 <= k < cs.len() implies (#[trigger] cs[k].entry(i2, j2))
            == ms[k].entry(i2, j2) by {
            lemma_in_storage_entries(ms[k], CompressedStorage::CSR);
        }
        lemma_stack_outer_rows(cs);
        lemma_vstack_congruent(cs, ms, 0, 0);
        assert forall|i: int, j: int| #[trigger] r@.entry(i, j) == vstack_entry(ms, i, j) by {
            lemma_vstack_congruent(cs, ms, i, j);
        }
    }
    r
}

/// Construct a sparse matrix by horizontally stacking other matrices: the
/// result is the CSC matrix made of the given matrices side by side.
pub fn hstack<N: Copy>(mats: &[&CsMat<N>]) -> (r: CsMat<N>)
    requires
        mats@.len() > 0,
        forall|k: int| 0 <= k < mats@.len() ==> (#[trigger] mats@[k])@.nrows == mats@[0]@.nrows,
        forall|k: int|
            0 <= k < mats@.len() ==> #[trigger] mats@[k]@.storage == CompressedStorage::CSR ==> mats@[k]@.ncols
                < usize::MAX,
    ensures
        r@.valid(),
        r@.storage == CompressedStorage::CSC,
        r@.ncols == cols_sum(models(mats@)),
        r@.nrows == mats@[0]@.nrows,
        forall|i: int, j: int| #[trigger] r@.entry(i, j) == hstack_entry(models(mats@), i, j),
{
    let ghost ms = models(mats@);
    if all_in_storage(mats, CompressedStorage::CSC) {
        let r = same_storage_fast_stack(mats);
        proof {
            lemma_stack_outer_cols(ms);
        }
        return r;
    }
    let owned = convert_all(mats, CompressedStorage::CSC);
    let refs = borrow_all(&owned);
    let r = same_storage_fast_stack(refs.as_slice());
    proof {
        let cs = models(refs@);
        assert forall|k: int| 0 <= k < ms.len() implies #[trigger] cs[k] == ms[k].in_storage(CompressedStorage::CSC) by {
            assert(cs[k] == refs@[k]@);
        }
        assert forall|k: int| 0 <= k < ms.len() implies (#[trigger] cs[k]).valid() && cs[k].storage
            == CompressedStorage::CSC && cs[k].nrows == ms[k].nrows && cs[k].ncols == ms[k].ncols by {
            lemma_in_storage_entries(ms[k], CompressedStorage::CSC);
        }
        assert forall|k: int, i2: int, j2: int| 0 <= k < cs.len() implies (#[trigger] cs[k].entry(i2, j2))
            == ms[k].entry(i2, j2) by {
            lemma_in_storage_entries(ms[k], CompressedStorage::CSC);
        }
        lemma_stack_outer_cols(cs);
        lemma_hstack_congruent(cs, ms, 0, 0);
        assert forall|i: int, j: int| #[trigger] r@.entry(i, j) == hstack_entry(ms, i, j) by {
            lemma_hstack_congruent(cs, ms, i, j);
        }
    }
    r
}


/// The larger of two natural numbers.
pub open spec fn nat_max(a: nat, b: nat) -> nat {
    if a >= b {
        a
    } else {
        b
    }
}

/// The models of a grid of optional blocks.
pub open spec fn block_models<N>(mats: Seq<Vec<Option<&CsMat<N>>>>) -> Seq<Seq<Option<CsMatModel<N>>>> {
    Seq::new(
        mats.len(),
        |bi: int|
            Seq::new(
                mats[bi]@.len(),
                |bj: int|
                    match mats[bi]@[bj] {
                        Some(m) => Some(m@),
                        None => None,
                    },
            ),
    )
}

/// Rows of an optional block (none for a missing block).
pub open spec fn opt_nrows<N>(o: Option<CsMatModel<N>>) -> nat {
    match o {
        Some(m) => m.nrows,
        None => 0,
    }
}

/// Columns of an optional block (none for a missing block).
pub open spec fn opt_ncols<N>(o: Option<CsMatModel<N>>) -> nat {
    match o {
        Some(m) => m.ncols,
        None => 0,
    }
}

/// Height of a row of blocks: the most rows of its blocks.
pub open spec fn row_height<N>(row: Seq<Option<CsMatModel<N>>>) -> nat
    decreases row.len(),
{
    if row.len() == 0 {
        0
    } else {
        nat_max(row_height(row.drop_last()), opt_nrows(row.last()))
    }
}

/// Width of block column `bj`: the most columns of its blocks.
pub open spec fn col_width<N>(blocks: Seq<Seq<Option<CsMatModel<N>>>>, bj: int) -> nat
    decreases blocks.len(),
{
    if blocks.len() == 0 {
        0
    } else {
        nat_max(col_width(blocks.drop_last(), bj), opt_ncols(blocks.last()[bj]))
    }
}

/// The CSR matrix of the given shape with no entry.
pub open spec fn zero_model<N>(nrows: nat, ncols: nat) -> CsMatModel<N> {
    CsMatModel {
        storage: CompressedStorage::CSR,
        nrows,
        ncols,
        lanes: Seq::new(nrows, |k: int| Seq::<(nat, N)>::empty()),
    }
}

/// Block row `bi` with each missing block replaced by a matrix without
/// entries, as high as the row and as wide as the block column.
pub open spec fn filled_row<N>(blocks: Seq<Seq<Option<CsMatModel<N>>>>, bi: int) -> Seq<CsMatModel<N>> {
    Seq::new(
        blocks[bi].len(),
        |bj: int|
            match blocks[bi][bj] {
                Some(m) => m,
                None => zero_model(row_height(blocks[bi]), col_width(blocks, bj)),
            },
    )
}

/// Total height of the first `count` block rows.
pub open spec fn heights_upto<N>(blocks: Seq<Seq<Option<CsMatModel<N>>>>, count: int) -> nat
    decreases count,
{
    if count <= 0 {
        0
    } else {
        heights_upto(blocks, count - 1) + row_height(blocks[count - 1])
    }
}

/// The value at (i, j) of the first `count` block rows put one above the
/// other, each block row being its blocks put side by side.
pub open spec fn bmat_entry_upto<N>(blocks: Seq<Seq<Option<CsMatModel<N>>>>, count: int, i: int, j: int) -> Option<N>
    decreases count,
{
    if count <= 0 {
        None
    } else {
        let off = heights_upto(blocks, count - 1);
        if i >= off {
            hstack_entry(filled_row(blocks, count - 1), i - off, j)
        } else {
            bmat_entry_upto(blocks, count - 1, i, j)
        }
    }
}

/// The value at (i, j) of the block matrix.
pub open spec fn bmat_entry<N>(blocks: Seq<Seq<Option<CsMatModel<N>>>>, i: int, j: int) -> Option<N> {
    bmat_entry_upto(blocks, blocks.len() as int, i, j)
}

/// Some block of the row is present.
pub open spec fn row_has_block<N>(row: Seq<Option<CsMatModel<N>>>) -> bool {
    exists|bj: int| 0 <= bj < row.len() && (#[trigger] row[bj]) is Some
}

/// Some block of block column `bj` is present.
pub open spec fn col_has_block<N>(blocks: Seq<Seq<Option<CsMatModel<N>>>>, bj: int) -> bool {
    exists|bi: int| 0 <= bi < blocks.len() && (#[trigger] blocks[bi][bj]) is Some
}

/// What is wrong with a grid of blocks, in the order the checks are made,
/// or nothing when the blocks can be assembled.
pub open spec fn bmat_error<N>(blocks: Seq<Seq<Option<CsMatModel<N>>>>) -> Option<SprsError> {
    if blocks.len() == 0 || blocks[0].len() == 0 {
        Some(SprsError::EmptyStackingList)
    } else if !(forall|bi: int| 0 <= bi < blocks.len() ==> (#[trigger] blocks[bi]).len() == blocks[0].len()) {
        Some(SprsError::IncompatibleDimensions)
    } else if !(forall|bi: int| 0 <= bi < blocks.len() ==> #[trigger] row_has_block(blocks[bi])) {
        Some(SprsError::EmptyBmatRow)
    } else if !(forall|bj: int| 0 <= bj < blocks[0].len() ==> #[trigger] col_has_block(blocks, bj)) {
        Some(SprsError::EmptyBmatCol)
    } else if !(forall|bi: int, bj: int|
        0 <= bi < blocks.len() && 0 <= bj < blocks[0].len() && (#[trigger] blocks[bi][bj]) is Some ==> blocks[bi][bj]->0.nrows
            == row_height(blocks[bi])) {
        Some(SprsError::IncompatibleDimensions)
    } else if !(forall|bi: int|
        0 <= bi < blocks.len() ==> #[trigger] cols_sum(filled_row(blocks, bi)) == cols_sum(filled_row(blocks, 0))) {
        Some(SprsError::IncompatibleDimensions)
    } else {
        None
    }
}

/// Every block has fewer than `usize::MAX` rows and columns.
pub open spec fn blocks_fit<N>(blocks: Seq<Seq<Option<CsMatModel<N>>>>) -> bool {
    forall|bi: int, bj: int|
        0 <= bi < blocks.len() && 0 <= bj < blocks[bi].len() && (#[trigger] blocks[bi][bj]) is Some ==> blocks[bi][bj]->0.nrows
            < usize::MAX && blocks[bi][bj]->0.ncols < usize::MAX
}

proof fn lemma_row_height_bound<N>(row: Seq<Option<CsMatModel<N>>>, bound: nat)
    requires
        forall|bj: int| 0 <= bj < row.len() ==> opt_nrows(#[trigger] row[bj]) < bound,
        bound > 0,
    ensures
        row_height(row) < bound,
    decreases row.len(),
{
    if row.len() > 0 {
        let d = row.drop_last();
        assert forall|bj: int| 0 <= bj < d.len() implies opt_nrows(#[trigger] d[bj]) < bound by {
            assert(d[bj] == row[bj]);
        }
        lemma_row_height_bound(d, bound);
        assert(opt_nrows(row[row.len() - 1]) < bound);
    }
}

proof fn lemma_col_width_bound<N>(blocks: Seq<Seq<Option<CsMatModel<N>>>>, bj: int, bound: nat)
    requires
        forall|bi: int| 0 <= bi < blocks.len() ==> opt_ncols(#[trigger] blocks[bi][bj]) < bound,
        bound > 0,
    ensures
        col_width(blocks, bj) < bound,
    decreases blocks.len(),
{
    if blocks.len() > 0 {
        let d = blocks.drop_last();
        assert forall|bi: int| 0 <= bi < d.len() implies opt_ncols(#[trigger] d[bi][bj]) < bound by {
            assert(d[bi] == blocks[bi]);
        }
        lemma_col_width_bound(d, bj, bound);
        assert(opt_ncols(blocks[blocks.len() - 1][bj]) < bound);
    }
}

/// Stacking the assembled block rows one above the other gives the block
/// matrix.
proof fn lemma_bmat_rows<N>(blocks: Seq<Seq<Option<CsMatModel<N>>>>, ss: Seq<CsMatModel<N>>, i: int, j: int)
    requires
        ss.len() <= blocks.len(),
        forall|bi: int| 0 <= bi < ss.len() ==> (#[trigger] ss[bi]).nrows == row_height(blocks[bi]),
        forall|bi: int, i2: int, j2: int|
            0 <= bi < ss.len() ==> (#[trigger] ss[bi].entry(i2, j2)) == hstack_entry(filled_row(blocks, bi), i2, j2),
    ensures
        rows_sum(ss) == heights_upto(blocks, ss.len() as int),
        vstack_entry(ss, i, j) == bmat_entry_upto(blocks, ss.len() as int, i, j),
    decreases ss.len(),
{
    if ss.len() > 0 {
        let d = ss.drop_last();
        assert forall|bi: int| 0 <= bi < d.len() implies (#[trigger] d[bi]).nrows == row_height(blocks[bi]) by {
            assert(d[bi] == ss[bi]);
        }
        assert forall|bi: int, i2: int, j2: int| 0 <= bi < d.len() implies (#[trigger] d[bi].entry(i2, j2))
            == hstack_entry(filled_row(blocks, bi), i2, j2) by {
            assert(d[bi] == ss[bi]);
        }
        lemma_bmat_rows(blocks, d, i, j);
        let off = rows_sum(d);
        assert(ss[ss.len() - 1].entry(i - off, j) == hstack_entry(filled_row(blocks, ss.len() - 1), i - off, j));
    }
}


/// The blocks form a grid: at least one block row, all as long as the first.
pub open spec fn is_grid<N>(blocks: Seq<Seq<Option<CsMatModel<N>>>>) -> bool {
    &&& blocks.len() > 0
    &&& forall|bi: int| 0 <= bi < blocks.len() ==> (#[trigger] blocks[bi]).len() == blocks[0].len()
}

/// The height of each block row.
fn block_row_heights<N>(mats: &[Vec<Option<&CsMat<N>>>]) -> (r: Vec<usize>)
    requires
        is_grid(block_models(mats@)),
    ensures
        r@.len() == mats@.len(),
        forall|q: int| 0 <= q < mats@.len() ==> #[trigger] r@[q] == row_height(block_models(mats@)[q]),
{
    let ghost blocks = block_models(mats@);
    let super_rows = mats.len();
    let super_cols = mats[0].len();
    let mut rows_per_row: Vec<usize> = Vec::new();
    let mut bi: usize = 0;
    while bi < super_rows
        invariant
            blocks == block_models(mats@),
            is_grid(blocks),
            super_rows == mats@.len(),
            super_cols == blocks[0].len(),
            bi <= super_rows,
            rows_per_row@.len() == bi,
            forall|q: int| 0 <= q < bi ==> #[trigger] rows_per_row@[q] == row_height(blocks[q]),
        decreases super_rows - bi,
    {
        let row = &mats[bi];
        assert(blocks[bi as int].len() == blocks[0].len());
        assert(row@.len() == super_cols);
        let mut h: usize = 0;
        let mut bj: usize = 0;
        while bj < super_cols
            invariant
                blocks == block_models(mats@),
                bi < super_rows,
                super_rows == mats@.len(),
                *row == mats@[bi as int],
                row@.len() == super_cols,
                blocks[bi as int].len() == super_cols,
                bj <= super_cols,
                h == row_height(blocks[bi as int].take(bj as int)),
            decreases super_cols - bj,
        {
            assert(blocks[bi as int].take(bj + 1).drop_last() =~= blocks[bi as int].take(bj as int));
            match row[bj] {
                Some(m) => {
                    assert(blocks[bi as int][bj as int] == Some(m@));
                    if m.rows() > h {
                        h = m.rows();
                    }
                },
                None => {},
            }
            bj = bj + 1;
        }
        assert(blocks[bi as int].take(super_cols as int) =~= blocks[bi as int]);
        rows_per_row.push(h);
        bi = bi + 1;
    }
    rows_per_row
}

/// The width of each block column.
fn block_col_widths<N>(mats: &[Vec<Option<&CsMat<N>>>]) -> (r: Vec<usize>)
    requires
        is_grid(block_models(mats@)),
    ensures
        r@.len() == mats@[0]@.len(),
        forall|q: int| 0 <= q < mats@[0]@.len() ==> #[trigger] r@[q] == col_width(block_models(mats@), q),
{
    let ghost blocks = block_models(mats@);
    let super_rows = mats.len();
    let super_cols = mats[0].len();
    let mut cols_per_col: Vec<usize> = Vec::new();
    let mut bj: usize = 0;
    while bj < super_cols
        invariant
            blocks == block_models(mats@),
            is_grid(blocks),
            super_rows == mats@.len(),
            super_cols == blocks[0].len(),
            bj <= super_cols,
            cols_per_col@.len() == bj,
            forall|q: int| 0 <= q < bj ==> #[trigger] cols_per_col@[q] == col_width(blocks, q),
        decreases super_cols - bj,
    {
        let mut w: usize = 0;
        let mut bi: usize = 0;
        while bi < super_rows
            invariant
                blocks == block_models(mats@),
                is_grid(blocks),
                super_rows == mats@.len(),
                super_cols == blocks[0].len(),
                bj < super_cols,
                bi <= super_rows,
                w == col_width(blocks.take(bi as int), bj as int),
            decreases super_rows - bi,
        {
            assert(blocks.take(bi + 1).drop_last() =~= blocks.take(bi as int));
            assert(blocks.take(bi + 1).last() == blocks[bi as int]);
            assert(blocks[bi as int].len() == blocks[0].len());
            assert(mats@[bi as int]@.len() == super_cols);
            match mats[bi][bj] {
                Some(m) => {
                    assert(blocks[bi as int][bj as int] == Some(m@));
                    if m.cols() > w {
                        w = m.cols();
                    }
                },
                None => {},
            }
            bi = bi + 1;
        }
        assert(blocks.take(super_rows as int) =~= blocks);
        cols_per_col.push(w);
        bj = bj + 1;
    }
    cols_per_col
}

/// Specify a sparse matrix by constructing it from blocks of other matrices.
/// Block (bi, bj) is `mats[bi][bj]` where present; a missing block holds no
/// entry and takes the height of its block row and the width of its block
/// column.  The result is in CSR storage.
pub fn bmat<N: Copy>(mats: &[Vec<Option<&CsMat<N>>>]) -> (r: CsMat<N>)
    requires
        bmat_error(block_models(mats@)) is None,
        blocks_fit(block_models(mats@)),
    ensures
        r@.valid(),
        r@.storage == CompressedStorage::CSR,
        r@.nrows == heights_upto(block_models(mats@), mats@.len() as int),
        r@.ncols == cols_sum(filled_row(block_models(mats@), 0)),
        forall|i: int, j: int| #[trigger] r@.entry(i, j) == bmat_entry(block_models(mats@), i, j),
{
    let ghost blocks = block_models(mats@);
    let super_rows = mats.len();
    let super_cols = mats[0].len();
    assert(forall|bi: int| 0 <= bi < blocks.len() ==> (#[trigger] blocks[bi]).len() == blocks[0].len());
    let rows_per_row = block_row_heights(mats);
    let cols_per_col = block_col_widths(mats);
    proof {
        assert forall|q: int| 0 <= q < blocks.len() implies row_height(#[trigger] blocks[q]) < usize::MAX by {
            assert forall|bj: int| 0 <= bj < blocks[q].len() implies opt_nrows(#[trigger] blocks[q][bj]) < usize::MAX by {
            }
            lemma_row_height_bound(blocks[q], usize::MAX as nat);
        }
        assert forall|q: int| 0 <= q < blocks[0].len() implies #[trigger] col_width(blocks, q) < usize::MAX by {
            assert forall|bi: int| 0 <= bi < blocks.len() implies opt_ncols(#[trigger] blocks[bi][q]) < usize::MAX by {
            }
            lemma_col_width_bound(blocks, q, usize::MAX as nat);
        }
    }
    // assemble each block row side by side
    let mut stacked: Vec<CsMat<N>> = Vec::new();
    let mut bi: usize = 0;
    while bi < super_rows
        invariant
            blocks == block_models(mats@),
            bmat_error(blocks) is None,
            super_rows == mats@.len(),
            super_rows > 0,
            super_cols == blocks[0].len(),
            forall|q: int| 0 <= q < blocks.len() ==> (#[trigger] blocks[q]).len() == blocks[0].len(),
            blocks_fit(blocks),
            rows_per_row@.len() == super_rows,
            forall|q: int| 0 <= q < super_rows ==> #[trigger] rows_per_row@[q] == row_height(blocks[q]),
            cols_per_col@.len() == super_cols,
            forall|q: int| 0 <= q < super_cols ==> #[trigger] cols_per_col@[q] == col_width(blocks, q),
            forall|q: int| 0 <= q < blocks.len() ==> row_height(#[trigger] blocks[q]) < usize::MAX,
            forall|q: int| 0 <= q < blocks[0].len() ==> #[trigger] col_width(blocks, q) < usize::MAX,
            bi <= super_rows,
            stacked@.len() == bi,
            forall|q: int| 0 <= q < bi ==> (#[trigger] stacked@[q])@.valid(),
            forall|q: int| 0 <= q < bi ==> (#[trigger] stacked@[q])@.storage == CompressedStorage::CSC,
            forall|q: int| 0 <= q < bi ==> (#[trigger] stacked@[q])@.nrows == row_height(blocks[q]),
            forall|q: int| 0 <= q < bi ==> (#[trigger] stacked@[q])@.ncols == cols_sum(filled_row(blocks, q)),
            forall|q: int, i2: int, j2: int|
                0 <= q < bi ==> (#[trigger] stacked@[q]@.entry(i2, j2)) == hstack_entry(filled_row(blocks, q), i2, j2),
        decreases super_rows - bi,
    {
        let ghost filled = filled_row(blocks, bi as int);
        let row = &mats[bi];
        let h = rows_per_row[bi];
        let mut with_zeros: Vec<CsMat<N>> = Vec::new();
        let mut bj: usize = 0;
        while bj < super_cols
            invariant
                blocks == block_models(mats@),
                bi < super_rows,
                super_rows == mats@.len(),
                *row == mats@[bi as int],
                row@.len() == super_cols,
                blocks[bi as int].len() == super_cols,
                filled == filled_row(blocks, bi as int),
                h == row_height(blocks[bi as int]),
                cols_per_col@.len() == super_cols,
                forall|q: int| 0 <= q < super_cols ==> #[trigger] cols_per_col@[q] == col_width(blocks, q),
                h < usize::MAX,
                bj <= super_cols,
                with_zeros@.len() == bj,
                forall|q: int| 0 <= q < bj ==> (#[trigger] with_zeros@[q])@ == filled[q],
            decreases super_cols - bj,
        {
            match row[bj] {
                Some(m) => {
                    assert(blocks[bi as int][bj as int] == Some(m@));
                    with_zeros.push(m.to_owned());
                },
                None => {
                    assert(blocks[bi as int][bj as int] is None);
                    let z: CsMat<N> = CsMat::zero((h, cols_per_col[bj]));
                    assert(z@ == zero_model::<N>(h as nat, cols_per_col@[bj as int] as nat));
                    with_zeros.push(z);
                },
            }
            bj = bj + 1;
        }
        let refs = borrow_all(&with_zeros);
        proof {
            assert(models(refs@) =~= filled);
            assert forall|q: int| 0 <= q < refs@.len() implies (#[trigger] refs@[q])@.nrows == refs@[0]@.nrows by {
                assert(refs@[q]@ == filled[q]);
                assert(refs@[0]@ == filled[0]);
                if blocks[bi as int][q] is Some {
                    assert(blocks[bi as int][q] is Some ==> blocks[bi as int][q]->0.nrows == row_height(blocks[bi as int]));
                }
                if blocks[bi as int][0] is Some {
                    assert(blocks[bi as int][0] is Some ==> blocks[bi as int][0]->0.nrows == row_height(blocks[bi as int]));
                }
            }
            assert forall|q: int|
                0 <= q < refs@.len() && #[trigger] refs@[q]@.storage == CompressedStorage::CSR implies refs@[q]@.ncols
                < usize::MAX by {
                assert(refs@[q]@ == filled[q]);
                if blocks[bi as int][q] is None {
                    assert(col_width(blocks, q) < usize::MAX);
                }
            }
        }
        let stacked_row = hstack(refs.as_slice());
        stacked.push(stacked_row);
        proof {
            assert(stacked@[bi as int]@.nrows == row_height(blocks[bi as int])) by {
                assert(refs@[0]@ == filled[0]);
                if blocks[bi as int][0] is Some {
                    assert(blocks[bi as int][0] is Some ==> blocks[bi as int][0]->0.nrows == row_height(blocks[bi as int]));
                }
            }
        }
        bi = bi + 1;
    }
    let refs = borrow_all(&stacked);
    proof {
        assert forall|q: int| 0 <= q < refs@.len() implies (#[trigger] refs@[q])@.ncols == refs@[0]@.ncols by {
            assert(cols_sum(filled_row(blocks, q)) == cols_sum(filled_row(blocks, 0)));
        }
    }
    let r = vstack(refs.as_slice());
    proof {
        let ss = models(refs@);
        assert forall|q: int| 0 <= q < ss.len() implies (#[trigger] ss[q]).nrows == row_height(blocks[q]) by {
            assert(ss[q] == stacked@[q]@);
        }
        assert forall|q: int, i2: int, j2: int| 0 <= q < ss.len() implies (#[trigger] ss[q].entry(i2, j2))
            == hstack_entry(filled_row(blocks, q), i2, j2) by {
            assert(ss[q] == stacked@[q]@);
        }
        lemma_bmat_rows(blocks, ss, 0, 0);
        assert forall|i: int, j: int| #[trigger] r@.entry(i, j) == bmat_entry(blocks, i, j) by {
            lemma_bmat_rows(blocks, ss, i, j);
        }
        assert(ss[0] == stacked@[0]@);
    }
    r
}


/// Outer line `o` of the dense matrix read in orientation `s`: row `o` for
/// CSR, column `o` for CSC.
pub open spec fn dense_line<N>(d: DenseModel<N>, s: CompressedStorage, o: int) -> Seq<N> {
    if s == CompressedStorage::CSR {
        d.rows[o]
    } else {
        Seq::new(d.nrows(), |n: int| d.rows[n][o])
    }
}

/// The (position, value) pairs of the first `upto` positions of a line that
/// the mask keeps, in order.
pub open spec fn kept_lane<N>(line: Seq<N>, mask: Seq<bool>, upto: int) -> Lane<N>
    decreases upto,
{
    if upto <= 0 {
        Seq::empty()
    } else {
        let prev = kept_lane(line, mask, upto - 1);
        if mask[upto - 1] {
            prev.push(((upto - 1) as nat, line[upto - 1]))
        } else {
            prev
        }
    }
}

/// `mask[i][j]` is what `keep` answered for the value at row `i`, column `j`.
pub open spec fn is_keep_mask<N, F: Fn(&N) -> bool>(d: DenseModel<N>, keep: F, mask: Seq<Seq<bool>>) -> bool {
    &&& mask.len() == d.nrows()
    &&& forall|i: int| 0 <= i < d.nrows() ==> (#[trigger] mask[i]).len() == d.ncols
    &&& forall|i: int, j: int|
        0 <= i < d.nrows() && 0 <= j < d.ncols ==> call_ensures(keep, (&d.rows[i][j],), #[trigger] mask[i][j])
}

/// The value at (i, j) of the dense matrix where the mask keeps it.
pub open spec fn masked_entry<N>(d: DenseModel<N>, mask: Seq<Seq<bool>>, i: int, j: int) -> Option<N> {
    if 0 <= i < d.nrows() && 0 <= j < d.ncols && mask[i][j] {
        Some(d.rows[i][j])
    } else {
        None
    }
}

proof fn lemma_kept_lane_valid<N>(line: Seq<N>, mask: Seq<bool>, upto: int)
    requires
        0 <= upto,
    ensures
        lane_valid(kept_lane(line, mask, upto), upto as nat),
    decreases upto,
{
    if upto > 0 {
        lemma_kept_lane_valid(line, mask, upto - 1);
    }
}

proof fn lemma_kept_lane_lookup<N>(line: Seq<N>, mask: Seq<bool>, upto: int, n: int)
    requires
        0 <= upto,
    ensures
        lane_lookup(kept_lane(line, mask, upto), n) == (if 0 <= n < upto && mask[n] {
            Some(line[n])
        } else {
            None
        }),
    decreases upto,
{
    if upto > 0 {
        lemma_kept_lane_lookup(line, mask, upto - 1, n);
        let prev = kept_lane(line, mask, upto - 1);
        if mask[upto - 1] {
            assert(prev.push(((upto - 1) as nat, line[upto - 1])).drop_last() =~= prev);
        }
    } else {
        assert(kept_lane(line, mask, upto).len() == 0);
    }
}

/// Compresses a dense matrix into orientation `storage`, keeping the values
/// for which `keep` answers true; also gives the answers, lane by lane.
fn compress_dense<N: Copy, F: Fn(&N) -> bool>(m: &DenseMatrix<N>, keep: F, storage: CompressedStorage) -> (r: (
    CsMat<N>,
    Ghost<Seq<Seq<bool>>>,
))
    requires
        forall|x: &N| #[trigger] call_requires(keep, (x,)),
        outer_of(storage, m@.nrows(), m@.ncols) < usize::MAX,
    ensures
        r.0@ == (CsMatModel {
            storage,
            nrows: m@.nrows(),
            ncols: m@.ncols,
            lanes: Seq::new(
                outer_of(storage, m@.nrows(), m@.ncols),
                |o: int| kept_lane(dense_line(m@, storage, o), r.1@[o], inner_of(storage, m@.nrows(), m@.ncols) as int),
            ),
        }),
        r.1@.len() == outer_of(storage, m@.nrows(), m@.ncols),
        forall|o: int| 0 <= o < r.1@.len() ==> (#[trigger] r.1@[o]).len() == inner_of(storage, m@.nrows(), m@.ncols),
        forall|o: int, n: int|
            0 <= o < r.1@.len() && 0 <= n < inner_of(storage, m@.nrows(), m@.ncols) ==> call_ensures(
                keep,
                (&dense_line(m@, storage, o)[n],),
                #[trigger] r.1@[o][n],
            ),
{
    proof {
        use_type_invariant(m);
        m.lemma_rows_len();
    }
    let nrows = m.nrows();
    let ncols = m.ncols();
    let csr = storage == CompressedStorage::CSR;
    let outer = if csr { nrows } else { ncols };
    let inner = if csr { ncols } else { nrows };
    let ghost d = m@;
    let ghost mut omask: Seq<Seq<bool>> = Seq::empty();
    let mut b: LaneBuilder<N> = LaneBuilder::new();
    let mut o: usize = 0;
    while o < outer
        invariant
            d == m@,
            forall|i: int| 0 <= i < d.nrows() ==> (#[trigger] d.rows[i]).len() == d.ncols,
            forall|x: &N| #[trigger] call_requires(keep, (x,)),
            nrows == d.nrows(),
            ncols == d.ncols,
            csr == (storage == CompressedStorage::CSR),
            outer == outer_of(storage, d.nrows(), d.ncols),
            inner == inner_of(storage, d.nrows(), d.ncols),
            o <= outer,
            omask.len() == o,
            forall|q: int| 0 <= q < o ==> (#[trigger] omask[q]).len() == inner,
            forall|q: int, n: int|
                0 <= q < o && 0 <= n < inner ==> call_ensures(keep, (&dense_line(d, storage, q)[n],), #[trigger] omask[q][n]),
            b.inv(),
            b.pending().len() == 0,
            b.lanes() == Seq::new(o as nat, |q: int| kept_lane(dense_line(d, storage, q), omask[q], inner as int)),
        decreases outer - o,
    {
        let ghost line = dense_line(d, storage, o as int);
        let ghost mut row_mask: Seq<bool> = Seq::empty();
        let ghost done = b.lanes();
        let mut n: usize = 0;
        while n < inner
            invariant
                d == m@,
                forall|i: int| 0 <= i < d.nrows() ==> (#[trigger] d.rows[i]).len() == d.ncols,
                forall|x: &N| #[trigger] call_requires(keep, (x,)),
                nrows == d.nrows(),
                ncols == d.ncols,
                csr == (storage == CompressedStorage::CSR),
                outer == outer_of(storage, d.nrows(), d.ncols),
                inner == inner_of(storage, d.nrows(), d.ncols),
                o < outer,
                line == dense_line(d, storage, o as int),
                n <= inner,
                row_mask.len() == n,
                forall|t: int| 0 <= t < n ==> call_ensures(keep, (&line[t],), #[trigger] row_mask[t]),
                b.inv(),
                b.lanes() == done,
                b.pending() == kept_lane(line, row_mask, n as int),
            decreases inner - n,
        {
            let x: N = if csr {
                *m.get(o, n)
            } else {
                *m.get(n, o)
            };
            assert(x == line[n as int]);
            let k = keep(&x);
            proof {
                let old_mask = row_mask;
                row_mask = row_mask.push(k);
                lemma_kept_lane_prefix(line, old_mask, row_mask, n as int);
            }
            if k {
                b.push(n, x);
            }
            n = n + 1;
        }
        b.finish_lane();
        proof {
            omask = omask.push(row_mask);
            assert forall|q: int| 0 <= q < o implies kept_lane(dense_line(d, storage, q), omask[q], inner as int)
                == kept_lane(dense_line(d, storage, q), omask.drop_last()[q], inner as int) by {
                assert(omask[q] == omask.drop_last()[q]);
            }
        }
        o = o + 1;
        assert(b.lanes() =~= Seq::new(o as nat, |q: int| kept_lane(dense_line(d, storage, q), omask[q], inner as int)));
    }
    proof {
        assert forall|k: int| 0 <= k < b.lanes().len() implies lane_valid(
            #[trigger] b.lanes()[k],
            inner_of(storage, nrows as nat, ncols as nat),
        ) by {
            lemma_kept_lane_valid(dense_line(d, storage, k), omask[k], inner as int);
        }
    }
    let r = b.into_matrix(storage, nrows, ncols);
    (r, Ghost(omask))
}

/// The kept lane only depends on the mask positions it has read.
proof fn lemma_kept_lane_prefix<N>(line: Seq<N>, a: Seq<bool>, b: Seq<bool>, upto: int)
    requires
        0 <= upto,
        upto <= a.len(),
        upto <= b.len(),
        forall|t: int| 0 <= t < upto ==> a[t] == b[t],
    ensures
        kept_lane(line, a, upto) == kept_lane(line, b, upto),
    decreases upto,
{
    if upto > 0 {
        lemma_kept_lane_prefix(line, a, b, upto - 1);
    }
}


/// Create a CSR matrix from a dense matrix, keeping the values for which
/// `keep` answers true (for instance those larger than a threshold in
/// magnitude).  `keep` is asked once about each value.
pub fn csr_from_dense<N: Copy, F: Fn(&N) -> bool>(m: &DenseMatrix<N>, keep: F) -> (r: CsMat<N>)
    requires
        forall|x: &N| #[trigger] call_requires(keep, (x,)),
        m@.nrows() < usize::MAX,
    ensures
        r@.valid(),
        r@.storage == CompressedStorage::CSR,
        r@.nrows == m@.nrows(),
        r@.ncols == m@.ncols,
        exists|mask: Seq<Seq<bool>>|
            #[trigger] is_keep_mask(m@, keep, mask) && forall|i: int, j: int|
                #[trigger] r@.entry(i, j) == masked_entry(m@, mask, i, j),
{
    proof {
        use_type_invariant(m);
        m.lemma_rows_len();
    }
    let (r, Ghost(mask)) = compress_dense(m, keep, CompressedStorage::CSR);
    proof {
        let d = m@;
        assert forall|i: int| 0 <= i < d.nrows() implies dense_line(d, CompressedStorage::CSR, i) == d.rows[i] by {}
        assert(is_keep_mask(d, keep, mask)) by {
            assert forall|i: int, j: int| 0 <= i < d.nrows() && 0 <= j < d.ncols implies call_ensures(
                keep,
                (&d.rows[i][j],),
                #[trigger] mask[i][j],
            ) by {
                assert(dense_line(d, CompressedStorage::CSR, i)[j] == d.rows[i][j]);
            }
        }
        assert forall|i: int, j: int| #[trigger] r@.entry(i, j) == masked_entry(d, mask, i, j) by {
            if 0 <= i < d.nrows() {
                lemma_kept_lane_lookup(dense_line(d, CompressedStorage::CSR, i), mask[i], d.ncols as int, j);
            }
        }
        assert forall|k: int| 0 <= k < r@.lanes.len() implies lane_valid(#[trigger] r@.lanes[k], r@.inner_dims()) by {
            lemma_kept_lane_valid(dense_line(d, CompressedStorage::CSR, k), mask[k], d.ncols as int);
        }
    }
    r
}

/// Create a CSC matrix from a dense matrix, keeping the values for which
/// `keep` answers true (for instance those larger than a threshold in
/// magnitude).  `keep` is asked once about each value.
pub fn csc_from_dense<N: Copy, F: Fn(&N) -> bool>(m: &DenseMatrix<N>, keep: F) -> (r: CsMat<N>)
    requires
        forall|x: &N| #[trigger] call_requires(keep, (x,)),
        m@.ncols < usize::MAX,
    ensures
        r@.valid(),
        r@.storage == CompressedStorage::CSC,
        r@.nrows == m@.nrows(),
        r@.ncols == m@.ncols,
        exists|mask: Seq<Seq<bool>>|
            #[trigger] is_keep_mask(m@, keep, mask) && forall|i: int, j: int|
                #[trigger] r@.entry(i, j) == masked_entry(m@, mask, i, j),
{
    proof {
        use_type_invariant(m);
        m.lemma_rows_len();
    }
    let (r, Ghost(omask)) = compress_dense(m, keep, CompressedStorage::CSC);
    proof {
        let d = m@;
        let mask = Seq::new(d.nrows(), |i: int| Seq::new(d.ncols, |j: int| omask[j][i]));
        assert(is_keep_mask(d, keep, mask)) by {
            assert forall|i: int, j: int| 0 <= i < d.nrows() && 0 <= j < d.ncols implies call_ensures(
                keep,
                (&d.rows[i][j],),
                #[trigger] mask[i][j],
            ) by {
                assert(dense_line(d, CompressedStorage::CSC, j)[i] == d.rows[i][j]);
                assert(mask[i][j] == omask[j][i]);
            }
        }
        assert forall|i: int, j: int| #[trigger] r@.entry(i, j) == masked_entry(d, mask, i, j) by {
            if 0 <= j < d.ncols {
                lemma_kept_lane_lookup(dense_line(d, CompressedStorage::CSC, j), omask[j], d.nrows() as int, i);
                if 0 <= i < d.nrows() {
                    assert(mask[i][j] == omask[j][i]);
                }
            }
        }
        assert forall|k: int| 0 <= k < r@.lanes.len() implies lane_valid(#[trigger] r@.lanes[k], r@.inner_dims()) by {
            lemma_kept_lane_valid(dense_line(d, CompressedStorage::CSC, k), omask[k], d.nrows() as int);
        }
    }
    r
}


/// The outcome of a check: success, or the error found.
pub open spec fn check_result(e: Option<SprsError>) -> Result<(), SprsError> {
    match e {
        None => Ok(()),
        Some(e) => Err(e),
    }
}

/// What is wrong with a list of matrices to stack along their outer
/// dimension, or nothing.
pub open spec fn stack_error<N>(ms: Seq<CsMatModel<N>>) -> Option<SprsError> {
    if ms.len() == 0 {
        Some(SprsError::EmptyStackingList)
    } else if !(forall|k: int| 0 <= k < ms.len() ==> (#[trigger] ms[k]).inner_dims() == ms[0].inner_dims()) {
        Some(SprsError::IncompatibleDimensions)
    } else if !(forall|k: int| 0 <= k < ms.len() ==> (#[trigger] ms[k]).storage == ms[0].storage) {
        Some(SprsError::IncompatibleStorages)
    } else {
        None
    }
}

/// What is wrong with a list of matrices to put one above the other, or
/// nothing.
pub open spec fn vstack_error<N>(ms: Seq<CsMatModel<N>>) -> Option<SprsError> {
    if ms.len() == 0 {
        Some(SprsError::EmptyStackingList)
    } else if !(forall|k: int| 0 <= k < ms.len() ==> (#[trigger] ms[k]).ncols == ms[0].ncols) {
        Some(SprsError::IncompatibleDimensions)
    } else {
        None
    }
}

/// What is wrong with a list of matrices to put side by side, or nothing.
pub open spec fn hstack_error<N>(ms: Seq<CsMatModel<N>>) -> Option<SprsError> {
    if ms.len() == 0 {
        Some(SprsError::EmptyStackingList)
    } else if !(forall|k: int| 0 <= k < ms.len() ==> (#[trigger] ms[k]).nrows == ms[0].nrows) {
        Some(SprsError::IncompatibleDimensions)
    } else {
        None
    }
}

/// Checks the arguments of `same_storage_fast_stack`.
pub fn check_same_storage_stack<N>(mats: &[&CsMat<N>]) -> (r: Result<(), SprsError>)
    ensures
        r == check_result(stack_error(models(mats@))),
{
    let ghost ms = models(mats@);
    if mats.len() == 0 {
        return Err(SprsError::EmptyStackingList);
    }
    let inner = mats[0].inner_dims();
    let storage = mats[0].storage();
    let mut k: usize = 0;
    while k < mats.len()
        invariant
            ms == models(mats@),
            ms.len() > 0,
            inner == ms[0].inner_dims(),
            k <= ms.len(),
            forall|q: int| 0 <= q < k ==> (#[trigger] ms[q]).inner_dims() == inner,
        decreases ms.len() - k,
    {
        if mats[k].inner_dims() != inner {
            assert(ms[k as int].inner_dims() != ms[0].inner_dims());
            return Err(SprsError::IncompatibleDimensions);
        }
        k = k + 1;
    }
    let mut k: usize = 0;
    while k < mats.len()
        invariant
            ms == models(mats@),
            ms.len() > 0,
            storage == ms[0].storage,
            forall|q: int| 0 <= q < ms.len() ==> (#[trigger] ms[q]).inner_dims() == ms[0].inner_dims(),
            k <= ms.len(),
            forall|q: int| 0 <= q < k ==> (#[trigger] ms[q]).storage == storage,
        decreases ms.len() - k,
    {
        if mats[k].storage() != storage {
            assert(ms[k as int].storage != ms[0].storage);
            return Err(SprsError::IncompatibleStorages);
        }
        k = k + 1;
    }
    Ok(())
}

/// Checks the arguments of `vstack`.
pub fn check_vstack<N>(mats: &[&CsMat<N>]) -> (r: Result<(), SprsError>)
    ensures
        r == check_result(vstack_error(models(mats@))),
{
    let ghost ms = models(mats@);
    if mats.len() == 0 {
        return Err(SprsError::EmptyStackingList);
    }
    let cols = mats[0].cols();
    let mut k: usize = 0;
    while k < mats.len()
        invariant
            ms == models(mats@),
            ms.len() > 0,
            cols == ms[0].ncols,
            k <= ms.len(),
            forall|q: int| 0 <= q < k ==> (#[trigger] ms[q]).ncols == cols,
        decreases ms.len() - k,
    {
        if mats[k].cols() != cols {
            assert(ms[k as int].ncols != ms[0].ncols);
            return Err(SprsError::IncompatibleDimensions);
        }
        k = k + 1;
    }
    Ok(())
}

/// Checks the arguments of `hstack`.
pub fn check_hstack<N>(mats: &[&CsMat<N>]) -> (r: Result<(), SprsError>)
    ensures
        r == check_result(hstack_error(models(mats@))),
{
    let ghost ms = models(mats@);
    if mats.len() == 0 {
        return Err(SprsError::EmptyStackingList);
    }
    let rows = mats[0].rows();
    let mut k: usize = 0;
    while k < mats.len()
        invariant
            ms == models(mats@),
            ms.len() > 0,
            rows == ms[0].nrows,
            k <= ms.len(),
            forall|q: int| 0 <= q < k ==> (#[trigger] ms[q]).nrows == rows,
        decreases ms.len() - k,
    {
        if mats[k].rows() != rows {
            assert(ms[k as int].nrows != ms[0].nrows);
            return Err(SprsError::IncompatibleDimensions);
        }
        k = k + 1;
    }
    Ok(())
}


/// Width of block row `bi`: the columns of its blocks, a missing block
/// counting as wide as its block column.
fn block_row_width<N>(mats: &[Vec<Option<&CsMat<N>>>], bi: usize, cols_per_col: &Vec<usize>) -> (r: u128)
    requires
        is_grid(block_models(mats@)),
        bi < mats@.len(),
        cols_per_col@.len() == mats@[0]@.len(),
        forall|q: int| 0 <= q < mats@[0]@.len() ==> #[trigger] cols_per_col@[q] == col_width(block_models(mats@), q),
    ensures
        r == cols_sum(filled_row(block_models(mats@), bi as int)),
{
    let ghost blocks = block_models(mats@);
    let ghost filled = filled_row(blocks, bi as int);
    let row = &mats[bi];
    assert(blocks[bi as int].len() == blocks[0].len());
    let len = row.len();
    let mut w: u128 = 0;
    let mut bj: usize = 0;
    while bj < len
        invariant
            blocks == block_models(mats@),
            filled == filled_row(blocks, bi as int),
            bi < mats@.len(),
            *row == mats@[bi as int],
            len == row@.len(),
            len == blocks[bi as int].len(),
            len == blocks[0].len(),
            cols_per_col@.len() == len,
            forall|q: int| 0 <= q < len ==> #[trigger] cols_per_col@[q] == col_width(blocks, q),
            bj <= len,
            w == cols_sum(filled.take(bj as int)),
            w <= bj * 0xffff_ffff_ffff_ffffu128,
        decreases len - bj,
    {
        assert(filled.take(bj + 1).drop_last() =~= filled.take(bj as int));
        let c: usize = match row[bj] {
            Some(m) => {
                assert(blocks[bi as int][bj as int] == Some(m@));
                m.cols()
            },
            None => cols_per_col[bj],
        };
        assert(c == filled[bj as int].ncols);
        w = w + c as u128;
        bj = bj + 1;
    }
    assert(filled.take(len as int) =~= filled);
    w
}

/// Checks the arguments of `bmat`.
pub fn check_bmat<N>(mats: &[Vec<Option<&CsMat<N>>>]) -> (r: Result<(), SprsError>)
    ensures
        r == check_result(bmat_error(block_models(mats@))),
{
    let ghost blocks = block_models(mats@);
    if mats.len() == 0 || mats[0].len() == 0 {
        return Err(SprsError::EmptyStackingList);
    }
    let super_rows = mats.len();
    let super_cols = mats[0].len();
    let mut bi: usize = 0;
    while bi < super_rows
        invariant
            blocks == block_models(mats@),
            super_rows == blocks.len(),
            super_rows > 0,
            super_cols == blocks[0].len(),
            super_cols > 0,
            bi <= super_rows,
            forall|q: int| 0 <= q < bi ==> (#[trigger] blocks[q]).len() == blocks[0].len(),
        decreases super_rows - bi,
    {
        if mats[bi].len() != super_cols {
            assert(blocks[bi as int].len() != blocks[0].len());
            assert(!(blocks.len() == 0 || blocks[0].len() == 0));
            assert(!(forall|q: int| 0 <= q < blocks.len() ==> (#[trigger] blocks[q]).len() == blocks[0].len()));
            assert(bmat_error(blocks) == Some(SprsError::IncompatibleDimensions));
            return Err(SprsError::IncompatibleDimensions);
        }
        bi = bi + 1;
    }
    assert(is_grid(blocks));
    let mut bi: usize = 0;
    while bi < super_rows
        invariant
            blocks == block_models(mats@),
            is_grid(blocks),
            super_rows == blocks.len(),
            super_cols == blocks[0].len(),
            super_cols > 0,
            bi <= super_rows,
            forall|q: int| 0 <= q < bi ==> #[trigger] row_has_block(blocks[q]),
        decreases super_rows - bi,
    {
        let row = &mats[bi];
        assert(blocks[bi as int].len() == blocks[0].len());
        let mut found = false;
        let mut bj: usize = 0;
        while bj < super_cols
            invariant
                blocks == block_models(mats@),
                bi < super_rows,
                super_rows == blocks.len(),
                *row == mats@[bi as int],
                row@.len() == super_cols,
                blocks[bi as int].len() == super_cols,
                bj <= super_cols,
                found ==> row_has_block(blocks[bi as int]),
                !found ==> forall|q: int| 0 <= q < bj ==> (#[trigger] blocks[bi as int][q]) is None,
            decreases super_cols - bj,
        {
            if row[bj].is_some() {
                assert(blocks[bi as int][bj as int] is Some);
                found = true;
            }
            bj = bj + 1;
        }
        if !found {
            assert(!row_has_block(blocks[bi as int]));
            assert(!(forall|q: int| 0 <= q < blocks.len() ==> #[trigger] row_has_block(blocks[q])));
            return Err(SprsError::EmptyBmatRow);
        }
        bi = bi + 1;
    }
    let mut bj: usize = 0;
    while bj < super_cols
        invariant
            blocks == block_models(mats@),
            is_grid(blocks),
            forall|q: int| 0 <= q < blocks.len() ==> #[trigger] row_has_block(blocks[q]),
            super_rows == blocks.len(),
            super_cols == blocks[0].len(),
            super_cols > 0,
            bj <= super_cols,
            forall|q: int| 0 <= q < bj ==> #[trigger] col_has_block(blocks, q),
        decreases super_cols - bj,
    {
        let mut found = false;
        let mut bi: usize = 0;
        while bi < super_rows
            invariant
                blocks == block_models(mats@),
                is_grid(blocks),
                super_rows == blocks.len(),
                super_cols == blocks[0].len(),
                super_cols > 0,
            super_cols > 0,
                bj < super_cols,
                bi <= super_rows,
                found ==> col_has_block(blocks, bj as int),
                !found ==> forall|q: int| 0 <= q < bi ==> (#[trigger] blocks[q][bj as int]) is None,
            decreases super_rows - bi,
        {
            assert(blocks[bi as int].len() == blocks[0].len());
            if mats[bi][bj].is_some() {
                assert(blocks[bi as int][bj as int] is Some);
                found = true;
            }
            bi = bi + 1;
        }
        if !found {
            assert(!col_has_block(blocks, bj as int));
            assert(!(forall|q: int| 0 <= q < blocks[0].len() ==> #[trigger] col_has_block(blocks, q)));
            return Err(SprsError::EmptyBmatCol);
        }
        bj = bj + 1;
    }
    let rows_per_row = block_row_heights(mats);
    let mut bi: usize = 0;
    while bi < super_rows
        invariant
            blocks == block_models(mats@),
            is_grid(blocks),
            forall|q: int| 0 <= q < blocks.len() ==> #[trigger] row_has_block(blocks[q]),
            forall|q: int| 0 <= q < blocks[0].len() ==> #[trigger] col_has_block(blocks, q),
            super_rows == blocks.len(),
            super_cols == blocks[0].len(),
            super_cols > 0,
            rows_per_row@.len() == super_rows,
            forall|q: int| 0 <= q < super_rows ==> #[trigger] rows_per_row@[q] == row_height(blocks[q]),
            bi <= super_rows,
            forall|q: int, bj: int|
                0 <= q < bi && 0 <= bj < blocks[0].len() && (#[trigger] blocks[q][bj]) is Some ==> blocks[q][bj]->0.nrows
                    == row_height(blocks[q]),
        decreases super_rows - bi,
    {
        let row = &mats[bi];
        assert(blocks[bi as int].len() == blocks[0].len());
        let h = rows_per_row[bi];
        let mut bj: usize = 0;
        while bj < super_cols
            invariant
                blocks == block_models(mats@),
                is_grid(blocks),
                forall|q: int| 0 <= q < blocks.len() ==> #[trigger] row_has_block(blocks[q]),
                forall|q: int| 0 <= q < blocks[0].len() ==> #[trigger] col_has_block(blocks, q),
            forall|q: int| 0 <= q < blocks.len() ==> #[trigger] row_has_block(blocks[q]),
            forall|q: int| 0 <= q < blocks[0].len() ==> #[trigger] col_has_block(blocks, q),
                bi < super_rows,
                super_rows == blocks.len(),
                super_cols == blocks[0].len(),
                super_cols > 0,
            super_cols > 0,
                *row == mats@[bi as int],
                row@.len() == super_cols,
                h == row_height(blocks[bi as int]),
                bj <= super_cols,
                forall|q: int, b2: int|
                    0 <= q < bi && 0 <= b2 < blocks[0].len() && (#[trigger] blocks[q][b2]) is Some ==> blocks[q][b2]->0.nrows
                        == row_height(blocks[q]),
                forall|b2: int|
                    0 <= b2 < bj && (#[trigger] blocks[bi as int][b2]) is Some ==> blocks[bi as int][b2]->0.nrows == h,
            decreases super_cols - bj,
        {
            match row[bj] {
                Some(m) => {
                    assert(blocks[bi as int][bj as int] == Some(m@));
                    if m.rows() != h {
                        assert(!(forall|q: int, b2: int|
                            0 <= q < blocks.len() && 0 <= b2 < blocks[0].len() && (#[trigger] blocks[q][b2]) is Some
                                ==> blocks[q][b2]->0.nrows == row_height(blocks[q])));
                        return Err(SprsError::IncompatibleDimensions);
                    }
                },
                None => {},
            }
            bj = bj + 1;
        }
        bi = bi + 1;
    }
    let cols_per_col = block_col_widths(mats);
    let width0 = block_row_width(mats, 0, &cols_per_col);
    let mut bi: usize = 0;
    while bi < super_rows
        invariant
            blocks == block_models(mats@),
            is_grid(blocks),
            forall|q: int| 0 <= q < blocks.len() ==> #[trigger] row_has_block(blocks[q]),
            forall|q: int| 0 <= q < blocks[0].len() ==> #[trigger] col_has_block(blocks, q),
            super_rows == blocks.len(),
            super_cols == blocks[0].len(),
            super_cols > 0,
            cols_per_col@.len() == mats@[0]@.len(),
            forall|q: int| 0 <= q < mats@[0]@.len() ==> #[trigger] cols_per_col@[q] == col_width(blocks, q),
            width0 == cols_sum(filled_row(blocks, 0)),
            bi <= super_rows,
            forall|q: int| 0 <= q < bi ==> #[trigger] cols_sum(filled_row(blocks, q)) == cols_sum(filled_row(blocks, 0)),
        decreases super_rows - bi,
    {
        let w = block_row_width(mats, bi, &cols_per_col);
        if w != width0 {
            assert(!(forall|q: int|
                0 <= q < blocks.len() ==> #[trigger] cols_sum(filled_row(blocks, q)) == cols_sum(filled_row(blocks, 0))));
            return Err(SprsError::IncompatibleDimensions);
        }
        bi = bi + 1;
    }
    Ok(())
}


/// Law: putting the transposes of matrices side by side gives the transpose
/// of putting the matrices one above the other.
pub proof fn lemma_hstack_of_transposes<N>(ms: Seq<CsMatModel<N>>, i: int, j: int)
    ensures
        cols_sum(Seq::new(ms.len(), |k: int| ms[k].transposed())) == rows_sum(ms),
        hstack_entry(Seq::new(ms.len(), |k: int| ms[k].transposed()), i, j) == vstack_entry(ms, j, i),
    decreases ms.len(),
{
    let ts = Seq::new(ms.len(), |k: int| ms[k].transposed());
    if ms.len() > 0 {
        let d = ms.drop_last();
        lemma_hstack_of_transposes(d, i, j);
        assert(ts.drop_last() =~= Seq::new(d.len(), |k: int| d[k].transposed()));
    }
}

/// Law: a CSR matrix and a CSC matrix that both keep the values of a dense
/// matrix chosen by the same mask are one matrix in two orientations.
pub proof fn lemma_dense_orientations<N>(d: DenseModel<N>, mask: Seq<Seq<bool>>, a: CsMatModel<N>, b: CsMatModel<N>)
    requires
        a.valid(),
        b.valid(),
        a.storage == CompressedStorage::CSR,
        b.storage == CompressedStorage::CSC,
        a.nrows == d.nrows() && a.ncols == d.ncols,
        b.nrows == d.nrows() && b.ncols == d.ncols,
        forall|i: int, j: int| #[trigger] a.entry(i, j) == masked_entry(d, mask, i, j),
        forall|i: int, j: int| #[trigger] b.entry(i, j) == masked_entry(d, mask, i, j),
    ensures
        b == a.in_storage(CompressedStorage::CSC),
        a == b.in_storage(CompressedStorage::CSR),
{
    lemma_in_storage_entries(a, CompressedStorage::CSC);
    lemma_in_storage_entries(b, CompressedStorage::CSR);
    let ac = a.in_storage(CompressedStorage::CSC);
    let br = b.in_storage(CompressedStorage::CSR);
    assert forall|i: int, j: int| ac.entry(i, j) == b.entry(i, j) by {
        assert(ac.entry(i, j) == a.entry(i, j));
    }
    assert forall|i: int, j: int| br.entry(i, j) == a.entry(i, j) by {
        assert(br.entry(i, j) == b.entry(i, j));
    }
    lemma_entries_determine_model(ac, b);
    lemma_entries_determine_model(br, a);
}

/// Law: a grid of a single block assembles to that block.
pub proof fn lemma_bmat_single_block<N>(m: CsMatModel<N>, i: int, j: int)
    ensures
        bmat_entry(seq![seq![Some(m)]], i, j) == m.entry(i, j),
        heights_upto(seq![seq![Some(m)]], 1) == m.nrows,
        cols_sum(filled_row(seq![seq![Some(m)]], 0)) == m.ncols,
{
    let blocks = seq![seq![Some(m)]];
    assert(blocks[0].drop_last() =~= Seq::<Option<CsMatModel<N>>>::empty());
    assert(blocks[0].last() == Some(m));
    assert(row_height(blocks[0].drop_last()) == 0);
    assert(row_height(blocks[0]) == m.nrows);
    assert(heights_upto(blocks, 0) == 0);
    let row = filled_row(blocks, 0);
    assert(row =~= seq![m]);
    assert(row.drop_last() =~= Seq::<CsMatModel<N>>::empty());
    assert(cols_sum(row.drop_last()) == 0);
    assert(hstack_entry(row.drop_last(), i, j) == None::<N>);
    assert(bmat_entry_upto(blocks, 0, i, j) == None::<N>);
    if i < 0 || j < 0 {
        let o = if m.storage == CompressedStorage::CSR { i } else { j };
        let n = if m.storage == CompressedStorage::CSR { j } else { i };
        if 0 <= o < m.lanes.len() {
            lemma_lookup_absent(m.lanes[o], n);
        }
    }
}


/// Law: the `vstack` argument check fails on an empty list, and otherwise
/// succeeds exactly when all matrices have the same number of columns,
/// whatever their orientations and numbers of rows.
pub proof fn lemma_vstack_check_exact<N>(ms: Seq<CsMatModel<N>>)
    ensures
        vstack_error(ms) == Some(SprsError::EmptyStackingList) <==> ms.len() == 0,
        vstack_error(ms) is None <==> (ms.len() > 0 && forall|k: int| 0 <= k < ms.len() ==> (#[trigger] ms[k]).ncols == ms[0].ncols),
        vstack_error(ms) is Some ==> vstack_error(ms) == Some(SprsError::EmptyStackingList) || vstack_error(ms)
            == Some(SprsError::IncompatibleDimensions),
{
    if ms.len() > 0 && !(forall|k: int| 0 <= k < ms.len() ==> (#[trigger] ms[k]).ncols == ms[0].ncols) {
        let k = choose|k: int| !(0 <= k < ms.len() ==> (#[trigger] ms[k]).ncols == ms[0].ncols);
        assert(!(0 <= k < ms.len() ==> (#[trigger] ms[k]).ncols == ms[0].ncols));
    }
}

/// Law: the `hstack` argument check fails on an empty list, and otherwise
/// succeeds exactly when all matrices have the same number of rows,
/// whatever mix of orientations they use.
pub proof fn lemma_hstack_check_exact<N>(ms: Seq<CsMatModel<N>>)
    ensures
        hstack_error(ms) == Some(SprsError::EmptyStackingList) <==> ms.len() == 0,
        hstack_error(ms) is None <==> (ms.len() > 0 && forall|k: int| 0 <= k < ms.len() ==> (#[trigger] ms[k]).nrows == ms[0].nrows),
        hstack_error(ms) is Some ==> hstack_error(ms) == Some(SprsError::EmptyStackingList) || hstack_error(ms)
            == Some(SprsError::IncompatibleDimensions),
{
    if ms.len() > 0 && !(forall|k: int| 0 <= k < ms.len() ==> (#[trigger] ms[k]).nrows == ms[0].nrows) {
        let k = choose|k: int| !(0 <= k < ms.len() ==> (#[trigger] ms[k]).nrows == ms[0].nrows);
        assert(!(0 <= k < ms.len() ==> (#[trigger] ms[k]).nrows == ms[0].nrows));
    }
}

/// Law: the fast-stack argument check fails on an empty list, and otherwise
/// succeeds exactly when all matrices share one orientation and one inner
/// dimension, whatever their outer dimensions; a storage mismatch is reported
/// only when the inner dimensions agree.
pub proof fn lemma_fast_stack_check_exact<N>(ms: Seq<CsMatModel<N>>)
    ensures
        stack_error(ms) == Some(SprsError::EmptyStackingList) <==> ms.len() == 0,
        stack_error(ms) is None <==> (ms.len() > 0 && (forall|k: int|
            0 <= k < ms.len() ==> (#[trigger] ms[k]).inner_dims() == ms[0].inner_dims() && ms[k].storage == ms[0].storage)),
        stack_error(ms) == Some(SprsError::IncompatibleStorages) <==> (ms.len() > 0 && (forall|k: int|
            0 <= k < ms.len() ==> (#[trigger] ms[k]).inner_dims() == ms[0].inner_dims()) && exists|k: int|
            0 <= k < ms.len() && (#[trigger] ms[k]).storage != ms[0].storage),
{
    if ms.len() > 0 {
        if !(forall|k: int| 0 <= k < ms.len() ==> (#[trigger] ms[k]).inner_dims() == ms[0].inner_dims()) {
            let k = choose|k: int| !(0 <= k < ms.len() ==> (#[trigger] ms[k]).inner_dims() == ms[0].inner_dims());
            assert(!(0 <= k < ms.len() ==> (#[trigger] ms[k]).inner_dims() == ms[0].inner_dims()));
        } else if !(forall|k: int| 0 <= k < ms.len() ==> (#[trigger] ms[k]).storage == ms[0].storage) {
            let k = choose|k: int| !(0 <= k < ms.len() ==> (#[trigger] ms[k]).storage == ms[0].storage);
            assert(!(0 <= k < ms.len() ==> (#[trigger] ms[k]).storage == ms[0].storage));
        } else {
            assert forall|k: int| 0 <= k < ms.len() implies (#[trigger] ms[k]).inner_dims() == ms[0].inner_dims() && ms[k].storage
                == ms[0].storage by {
                assert(ms[k].inner_dims() == ms[0].inner_dims());
                assert(ms[k].storage == ms[0].storage);
            }
        }
    }
}

/// The height of a block row bounds every present block and, when positive,
/// is the height of one of them.
proof fn lemma_row_height_attained<N>(row: Seq<Option<CsMatModel<N>>>)
    ensures
        forall|bj: int| 0 <= bj < row.len() && (#[trigger] row[bj]) is Some ==> row[bj]->0.nrows <= row_height(row),
        row_height(row) == 0 || exists|bj: int|
            0 <= bj < row.len() && (#[trigger] row[bj]) is Some && row[bj]->0.nrows == row_height(row),
    decreases row.len(),
{
    if row.len() > 0 {
        let d = row.drop_last();
        lemma_row_height_attained(d);
        assert forall|bj: int| 0 <= bj < row.len() && (#[trigger] row[bj]) is Some implies row[bj]->0.nrows
            <= row_height(row) by {
            if bj < d.len() {
                assert(d[bj] == row[bj]);
            }
        }
        if row_height(row) != 0 {
            if opt_nrows(row.last()) >= row_height(d) {
                assert(row[row.len() - 1] is Some);
            } else {
                let bj = choose|bj: int| 0 <= bj < d.len() && (#[trigger] d[bj]) is Some && d[bj]->0.nrows == row_height(d);
                assert(d[bj] == row[bj]);
            }
        }
    }
}

/// Block row `bi` holds a block in some position.
pub open spec fn block_row_occupied<N>(blocks: Seq<Seq<Option<CsMatModel<N>>>>, bi: int) -> bool {
    exists|bj: int| 0 <= bj < blocks[bi].len() && #[trigger] blocks[bi][bj] is Some
}

/// Some block row holds a block in block column `bj`.
pub open spec fn block_col_occupied<N>(blocks: Seq<Seq<Option<CsMatModel<N>>>>, bj: int) -> bool {
    exists|bi: int| 0 <= bi < blocks.len() && #[trigger] blocks[bi][bj] is Some
}

/// Law: the `bmat` argument check succeeds exactly on the grids that can be
/// assembled: a non-empty rectangular grid in which every block row and
/// every block column holds some block, the blocks of one block row all
/// have the same height (different block rows may differ), and all block
/// rows have the same total width.  A block column is reported empty only
/// when no block row has a block in it, and a block row only when it has no
/// block.
pub proof fn lemma_bmat_check_exact<N>(blocks: Seq<Seq<Option<CsMatModel<N>>>>)
    ensures
        bmat_error(blocks) is None <==> {
            &&& blocks.len() > 0
            &&& blocks[0].len() > 0
            &&& forall|bi: int| 0 <= bi < blocks.len() ==> (#[trigger] blocks[bi]).len() == blocks[0].len()
            &&& forall|bi: int| 0 <= bi < blocks.len() ==> #[trigger] block_row_occupied(blocks, bi)
            &&& forall|bj: int| 0 <= bj < blocks[0].len() ==> #[trigger] block_col_occupied(blocks, bj)
            &&& forall|bi: int, bj: int, bk: int|
                0 <= bi < blocks.len() && 0 <= bj < blocks[0].len() && 0 <= bk < blocks[0].len() && (#[trigger] blocks[bi][bj]) is Some
                    && (#[trigger] blocks[bi][bk]) is Some ==> blocks[bi][bj]->0.nrows == blocks[bi][bk]->0.nrows
            &&& forall|bi: int| 0 <= bi < blocks.len() ==> #[trigger] cols_sum(filled_row(blocks, bi)) == cols_sum(filled_row(blocks, 0))
        },
        bmat_error(blocks) == Some(SprsError::EmptyBmatCol) ==> exists|bj: int| #![trigger blocks[0][bj]]
            0 <= bj < blocks[0].len() && forall|bi: int| 0 <= bi < blocks.len() ==> #[trigger] blocks[bi][bj] is None,
        bmat_error(blocks) == Some(SprsError::EmptyBmatRow) ==> exists|bi: int| #![trigger blocks[bi]]
            0 <= bi < blocks.len() && forall|bj: int| 0 <= bj < blocks[bi].len() ==> #[trigger] blocks[bi][bj] is None,
        bmat_error(blocks) == Some(SprsError::EmptyStackingList) <==> (blocks.len() == 0 || blocks[0].len() == 0),
{
    if blocks.len() > 0 && blocks[0].len() > 0 {
        let rect = forall|bi: int| 0 <= bi < blocks.len() ==> (#[trigger] blocks[bi]).len() == blocks[0].len();
        let rows_ok = forall|bi: int| 0 <= bi < blocks.len() ==> #[trigger] row_has_block(blocks[bi]);
        let cols_ok = forall|bj: int| 0 <= bj < blocks[0].len() ==> #[trigger] col_has_block(blocks, bj);
        let e_rows = forall|bi: int| 0 <= bi < blocks.len() ==> #[trigger] block_row_occupied(blocks, bi);
        let e_cols = forall|bj: int| 0 <= bj < blocks[0].len() ==> #[trigger] block_col_occupied(blocks, bj);
        let h_ok = forall|bi: int, bj: int|
            0 <= bi < blocks.len() && 0 <= bj < blocks[0].len() && (#[trigger] blocks[bi][bj]) is Some ==> blocks[bi][bj]->0.nrows
                == row_height(blocks[bi]);
        let same_h = forall|bi: int, bj: int, bk: int|
            0 <= bi < blocks.len() && 0 <= bj < blocks[0].len() && 0 <= bk < blocks[0].len() && (#[trigger] blocks[bi][bj]) is Some
                && (#[trigger] blocks[bi][bk]) is Some ==> blocks[bi][bj]->0.nrows == blocks[bi][bk]->0.nrows;
        // block columns
        assert(cols_ok ==> e_cols) by {
            if cols_ok {
                assert forall|bj: int| 0 <= bj < blocks[0].len() implies #[trigger] block_col_occupied(blocks, bj) by {
                    assert(col_has_block(blocks, bj));
                }
            }
        }
        assert(e_cols ==> cols_ok) by {
            if e_cols {
                assert forall|bj: int| 0 <= bj < blocks[0].len() implies #[trigger] col_has_block(blocks, bj) by {
                    assert(block_col_occupied(blocks, bj));
                }
            }
        }
        if !cols_ok {
            let bj = choose|bj: int| !(0 <= bj < blocks[0].len() ==> #[trigger] col_has_block(blocks, bj));
            assert(!col_has_block(blocks, bj));
            assert forall|bi: int| 0 <= bi < blocks.len() implies #[trigger] blocks[bi][bj] is None by {
                assert(blocks[bi][bj] is Some ==> col_has_block(blocks, bj));
            }
            assert(blocks[0][bj] is None);
        }
        if rect {
            // block rows
            assert(rows_ok ==> e_rows) by {
                if rows_ok {
                    assert forall|bi: int| 0 <= bi < blocks.len() implies #[trigger] block_row_occupied(blocks, bi) by {
                        assert(row_has_block(blocks[bi]));
                    }
                }
            }
            assert(e_rows ==> rows_ok) by {
                if e_rows {
                    assert forall|bi: int| 0 <= bi < blocks.len() implies #[trigger] row_has_block(blocks[bi]) by {
                        assert(block_row_occupied(blocks, bi));
                    }
                }
            }
            if !rows_ok {
                let bi = choose|bi: int| !(0 <= bi < blocks.len() ==> #[trigger] row_has_block(blocks[bi]));
                assert(!row_has_block(blocks[bi]));
                assert forall|bj: int| 0 <= bj < blocks[bi].len() implies #[trigger] blocks[bi][bj] is None by {
                    assert(blocks[bi][bj] is Some ==> row_has_block(blocks[bi]));
                }
            }
            // heights within block rows
            if h_ok {
                assert forall|bi: int, bj: int, bk: int|
                    0 <= bi < blocks.len() && 0 <= bj < blocks[0].len() && 0 <= bk < blocks[0].len()
                        && (#[trigger] blocks[bi][bj]) is Some && (#[trigger] blocks[bi][bk]) is Some implies blocks[bi][bj]->0.nrows
                    == blocks[bi][bk]->0.nrows by {
                    assert(blocks[bi][bj]->0.nrows == row_height(blocks[bi]));
                    assert(blocks[bi][bk]->0.nrows == row_height(blocks[bi]));
                }
            }
            if same_h {
                assert forall|bi: int, bj: int|
                    0 <= bi < blocks.len() && 0 <= bj < blocks[0].len() && (#[trigger] blocks[bi][bj]) is Some implies blocks[bi][bj]->0.nrows
                    == row_height(blocks[bi]) by {
                    let row = blocks[bi];
                    assert(row.len() == blocks[0].len());
                    lemma_row_height_attained(row);
                    assert(row[bj] is Some);
                    if row_height(row) == 0 {
                        assert(row[bj]->0.nrows <= row_height(row));
                    } else {
                        let bk = choose|bk: int|
                            0 <= bk < row.len() && (#[trigger] row[bk]) is Some && row[bk]->0.nrows == row_height(row);
                        assert(blocks[bi][bk] is Some);
                        assert(blocks[bi][bj]->0.nrows == blocks[bi][bk]->0.nrows);
                    }
                }
            }
        } else {
            let bi = choose|bi: int| !(0 <= bi < blocks.len() ==> (#[trigger] blocks[bi]).len() == blocks[0].len());
            assert(!(0 <= bi < blocks.len() ==> blocks[bi].len() == blocks[0].len()));
        }
        let w_ok = forall|bi: int|
            0 <= bi < blocks.len() ==> #[trigger] cols_sum(filled_row(blocks, bi)) == cols_sum(filled_row(blocks, 0));
        assert(bmat_error(blocks) is None <==> (rect && rows_ok && cols_ok && h_ok && w_ok));
        assert(rect ==> (rows_ok <==> e_rows));
        assert(cols_ok <==> e_cols);
        assert(rect ==> (h_ok <==> same_h));
        assert(bmat_error(blocks) is None <==> (rect && e_rows && e_cols && same_h && w_ok));
    }
}

} // verus!
