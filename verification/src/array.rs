//! The n-dimensional array value: a shape and a flat row-major buffer,
//! with the product-of-dimensions arithmetic every operator rests on.
use vstd::prelude::*;
use crate::buffer::{buf_view, buf_from_vec, buf_slice};

verus! {

broadcast use vstd::arithmetic::mul::group_mul_basics,
    vstd::arithmetic::mul::lemma_mul_is_commutative,
    vstd::arithmetic::mul::lemma_mul_is_associative,
    vstd::arithmetic::mul::lemma_mul_nonnegative;

/// Product of a sequence of dimension sizes. The empty shape (a
/// scalar) has one element.
pub open spec fn prod(s: Seq<usize>) -> nat
    decreases s.len(),
{
    if s.len() == 0 {
        1
    } else {
        (s[0] as nat) * prod(s.drop_first())
    }
}

pub proof fn lemma_prod_push(s: Seq<usize>, d: usize)
    ensures
        prod(s.push(d)) == prod(s) * (d as nat),
    decreases s.len(),
{
    if s.len() == 0 {
        assert(s =~= Seq::<usize>::empty());
        assert(s.push(d).drop_first() =~= s);
    } else {
        assert(s.push(d).drop_first() =~= s.drop_first().push(d));
        lemma_prod_push(s.drop_first(), d);
        assert(prod(s) == (s[0] as nat) * prod(s.drop_first()));
        assert(prod(s.push(d)) == (s[0] as nat) * prod(s.drop_first().push(d)));
        assert((s[0] as nat) * (prod(s.drop_first()) * (d as nat)) == ((s[0] as nat) * prod(
            s.drop_first(),
        )) * (d as nat)) by (nonlinear_arith);
    }
}

pub proof fn lemma_prod_split(s: Seq<usize>, k: int)
    requires
        0 <= k <= s.len(),
    ensures
        prod(s) == prod(s.take(k)) * prod(s.skip(k)),
    decreases k,
{
    if k == 0 {
        assert(s.take(0) =~= Seq::<usize>::empty());
        assert(s.skip(0) =~= s);
    } else {
        assert(s.take(k).drop_first() =~= s.drop_first().take(k - 1));
        assert(s.skip(k) =~= s.drop_first().skip(k - 1));
        lemma_prod_split(s.drop_first(), k - 1);
        assert(prod(s) == (s[0] as nat) * prod(s.drop_first()));
        assert(s.take(k)[0] == s[0]);
        assert(prod(s.take(k)) == (s[0] as nat) * prod(s.drop_first().take(k - 1)));
        assert((s[0] as nat) * (prod(s.drop_first().take(k - 1)) * prod(s.drop_first().skip(k - 1)))
            == ((s[0] as nat) * prod(s.drop_first().take(k - 1))) * prod(
            s.drop_first().skip(k - 1),
        )) by (nonlinear_arith);
    }
}

pub proof fn lemma_prod_has_zero(s: Seq<usize>, i: int)
    requires
        0 <= i < s.len(),
        s[i] == 0,
    ensures
        prod(s) == 0,
    decreases s.len(),
{
    if i == 0 {
    } else {
        lemma_prod_has_zero(s.drop_first(), i - 1);
    }
}

pub proof fn lemma_prod_all_pos(s: Seq<usize>)
    requires
        forall|i: int| 0 <= i < s.len() ==> s[i] > 0,
    ensures
        prod(s) >= 1,
    decreases s.len(),
{
    if s.len() > 0 {
        lemma_prod_all_pos(s.drop_first());
        assert((s[0] as nat) * prod(s.drop_first()) >= 1 * 1) by (nonlinear_arith)
            requires
                s[0] as nat >= 1,
                prod(s.drop_first()) >= 1,
        ;
    }
}

/// A factor group of a product bounds the rest: if the other dimensions
/// multiply to something positive, each part is at most the whole.
pub proof fn lemma_prod_part_le(s: Seq<usize>, k: int)
    requires
        0 <= k <= s.len(),
        prod(s.take(k)) >= 1,
    ensures
        prod(s.skip(k)) <= prod(s),
{
    lemma_prod_split(s, k);
    assert(prod(s.take(k)) * prod(s.skip(k)) >= 1 * prod(s.skip(k))) by (nonlinear_arith)
        requires
            prod(s.take(k)) >= 1,
    ;
}

/// A positive product has positive parts.
pub proof fn lemma_prod_sub_pos(s: Seq<usize>, k: int)
    requires
        0 <= k <= s.len(),
        prod(s) >= 1,
    ensures
        prod(s.take(k)) >= 1,
        prod(s.skip(k)) >= 1,
{
    lemma_prod_split(s, k);
    assert(prod(s.take(k)) >= 1 && prod(s.skip(k)) >= 1) by (nonlinear_arith)
        requires
            prod(s.take(k)) * prod(s.skip(k)) >= 1,
    ;
}

/// The prefix of a product bounds the rest, stated for the prefix.
pub proof fn lemma_prod_part_le2_export(s: Seq<usize>, k: int)
    requires
        0 <= k <= s.len(),
        prod(s.skip(k)) >= 1,
    ensures
        prod(s.take(k)) <= prod(s),
{
    lemma_prod_split(s, k);
    assert(prod(s.take(k)) * prod(s.skip(k)) >= prod(s.take(k)) * 1) by (nonlinear_arith)
        requires
            prod(s.skip(k)) >= 1,
    ;
}

/// Peeling one dimension off the front of a shape suffix.
pub proof fn lemma_prod_skip_unfold(s: Seq<usize>, j: int)
    requires
        0 <= j < s.len(),
    ensures
        prod(s.skip(j)) == (s[j] as nat) * prod(s.skip(j + 1)),
{
    assert(s.skip(j).drop_first() =~= s.skip(j + 1));
    assert(prod(s.skip(j)) == (s.skip(j)[0] as nat) * prod(s.skip(j).drop_first()));
}

/// An n-dimensional array: `shape` lists the dimension sizes (empty =
/// scalar) and `data` holds `prod(shape)` elements flat, row-major
/// (last axis fastest-varying). `keys` is an optional side table of
/// per-row labels owned by the surrounding runtime; the operators only
/// drop or relocate it, never interpret it.
#[derive(Debug)]
pub struct Array {
    pub shape: Vec<usize>,
    pub data: ecow::EcoVec<i64>,
    pub keys: Option<Vec<i64>>,
}

impl Array {
    pub open spec fn shapev(self) -> Seq<usize> {
        self.shape@
    }

    pub open spec fn datav(self) -> Seq<i64> {
        buf_view(self.data)
    }

    pub open spec fn keysv(self) -> Option<Seq<i64>> {
        match self.keys {
            Option::Some(k) => Option::Some(k@),
            Option::None => Option::None,
        }
    }

    /// The one invariant every public operation preserves: the flat
    /// buffer holds exactly the product of the dimensions.
    pub open spec fn wf(self) -> bool {
        self.datav().len() == prod(self.shapev())
    }

    pub open spec fn srank(self) -> nat {
        self.shapev().len()
    }

    /// How many rows the leading axis has; a scalar counts as one row.
    pub open spec fn srow_count(self) -> nat {
        if self.srank() == 0 {
            1
        } else {
            self.shapev()[0] as nat
        }
    }

    /// The shape of one row: every dimension but the leading one (a
    /// scalar's row shape is its own empty shape).
    pub open spec fn srow_shape(self) -> Seq<usize> {
        if self.srank() == 0 {
            self.shapev()
        } else {
            self.shapev().drop_first()
        }
    }

    /// Elements per row: the product of all but the leading dimension.
    pub open spec fn srow_len(self) -> nat {
        prod(self.srow_shape())
    }

    /// The row shape of a raw shape sequence.
    pub open spec fn row_shape_of(sh: Seq<usize>) -> Seq<usize> {
        if sh.len() == 0 {
            sh
        } else {
            sh.drop_first()
        }
    }

    pub fn rank(&self) -> (r: usize)
        ensures
            r == self.srank(),
    {
        self.shape.len()
    }

    pub fn element_count(&self) -> (r: usize)
        ensures
            r == self.datav().len(),
    {
        buf_slice(&self.data).len()
    }

    pub fn row_count(&self) -> (r: usize)
        ensures
            r == self.srow_count(),
    {
        if self.shape.len() == 0 {
            1
        } else {
            self.shape[0]
        }
    }

    /// The elements in one row, where that fits the machine; a row too
    /// large to address can only stand in an array with no rows.
    pub fn try_row_len(&self) -> (r: Option<usize>)
        requires
            self.wf(),
        ensures
            r matches Some(v) ==> v as nat == self.srow_len(),
            r is None ==> self.srow_count() == 0 && self.datav().len() == 0 && self.srow_len()
                > usize::MAX,
    {
        let rank: usize = self.shape.len();
        if rank == 0 {
            proof {
                assert(self.srow_shape() =~= Seq::<usize>::empty());
            }
            return Some(1);
        }
        let len: usize = self.element_count();
        proof {
            assert(self.srow_shape() =~= self.shapev().skip(1));
            lemma_prod_skip_unfold(self.shapev(), 0);
            assert(self.shapev().skip(0) =~= self.shapev());
        }
        match checked_prod(vstd::slice::slice_subrange(self.shape.as_slice(), 1, rank)) {
            Some(v) => Some(v),
            None => {
                proof {
                    assert(self.srow_count() == 0) by (nonlinear_arith)
                        requires
                            (self.srow_count() as nat) * self.srow_len() == self.datav().len(),
                            self.srow_len() > usize::MAX,
                            self.datav().len() <= usize::MAX,
                    ;
                    assert(self.datav().len() == 0) by (nonlinear_arith)
                        requires
                            (self.srow_count() as nat) * self.srow_len() == self.datav().len(),
                            self.srow_count() == 0,
                    ;
                }
                None
            },
        }
    }

    /// Builds an array from parts; the caller proves the buffer length
    /// matches the shape.
    pub fn make(shape: Vec<usize>, data: Vec<i64>) -> (r: Array)
        requires
            data@.len() == prod(shape@),
        ensures
            r.wf(),
            r.shapev() == shape@,
            r.datav() == data@,
            r.keysv() is None,
    {
        Array { shape, data: buf_from_vec(data), keys: None }
    }

    /// A 1-dimensional array over the given elements.
    pub fn from_list(data: Vec<i64>) -> (r: Array)
        ensures
            r.wf(),
            r.shapev() =~= seq![data@.len() as usize],
            r.datav() == data@,
            r.keysv() is None,
    {
        let n: usize = data.len();
        let mut shape: Vec<usize> = Vec::new();
        shape.push(n);
        proof {
            assert(shape@ =~= seq![n]);
            assert(shape@.drop_first() =~= Seq::<usize>::empty());
            assert(prod(shape@) == (n as nat) * prod(shape@.drop_first()));
        }
        Array { shape, data: buf_from_vec(data), keys: None }
    }

    /// A scalar (rank-0) array.
    pub fn scalar(v: i64) -> (r: Array)
        ensures
            r.wf(),
            r.shapev() =~= Seq::<usize>::empty(),
            r.datav() =~= seq![v],
            r.keysv() is None,
    {
        let mut data: Vec<i64> = Vec::new();
        data.push(v);
        Array { shape: Vec::new(), data: buf_from_vec(data), keys: None }
    }

    /// The flat buffer as a plain vector, for callers outside the
    /// library.
    pub fn data_vec(&self) -> (r: Vec<i64>)
        ensures
            r@ == self.datav(),
    {
        vstd::slice::slice_to_vec(buf_slice(&self.data))
    }

    /// The shape as a plain vector.
    pub fn shape_vec(&self) -> (r: Vec<usize>)
        ensures
            r@ == self.shapev(),
    {
        let mut out: Vec<usize> = Vec::new();
        let mut i: usize = 0;
        while i < self.shape.len()
            invariant
                0 <= i <= self.shape.len(),
                out@ =~= self.shape@.take(i as int),
            decreases self.shape.len() - i,
        {
            out.push(self.shape[i]);
            i = i + 1;
        }
        proof {
            assert(out@ =~= self.shape@);
        }
        out
    }
}

/// Product of dimensions that is known to be addressable.
pub fn prod_all(dims: &[usize]) -> (r: usize)
    requires
        prod(dims@) <= usize::MAX,
    ensures
        r as nat == prod(dims@),
{
    match checked_prod(dims) {
        Some(p) => p,
        None => {
            proof {
                assert(false);
            }
            0
        },
    }
}

/// The product of the given dimensions, or `None` when it cannot be
/// addressed on this machine: the size guard every operator calls
/// before allocating.
pub fn checked_prod(dims: &[usize]) -> (r: Option<usize>)
    ensures
        r matches Some(p) ==> p as nat == prod(dims@),
        r is None ==> prod(dims@) > usize::MAX,
{
    let n: usize = dims.len();
    let mut i: usize = 0;
    while i < n
        invariant
            0 <= i <= n,
            forall|j: int| 0 <= j < i ==> dims@[j] > 0,
        decreases n - i,
    {
        if dims[i] == 0 {
            proof {
                lemma_prod_has_zero(dims@, i as int);
            }
            return Some(0);
        }
        i = i + 1;
    }
    let mut acc: usize = 1;
    let mut k: usize = 0;
    proof {
        assert(dims@.take(0) =~= Seq::<usize>::empty());
    }
    while k < n
        invariant
            0 <= k <= n,
            forall|j: int| 0 <= j < n ==> dims@[j] > 0,
            acc as nat == prod(dims@.take(k as int)),
        decreases n - k,
    {
        proof {
            assert(dims@.take(k + 1) =~= dims@.take(k as int).push(dims@[k as int]));
            lemma_prod_push(dims@.take(k as int), dims@[k as int]);
        }
        match acc.checked_mul(dims[k]) {
            Some(v) => {
                acc = v;
            },
            None => {
                proof {
                    assert forall|j: int| 0 <= j < dims@.skip(k + 1).len() implies #[trigger] dims@.skip(
                        k + 1,
                    )[j] > 0 by {
                        assert(dims@.skip(k + 1)[j] == dims@[j + k + 1]);
                    }
                    lemma_prod_all_pos(dims@.skip(k + 1));
                    lemma_prod_split(dims@, k + 1);
                    assert(prod(dims@.take(k + 1)) * prod(dims@.skip(k + 1)) >= prod(
                        dims@.take(k + 1),
                    ) * 1) by (nonlinear_arith)
                        requires
                            prod(dims@.skip(k + 1)) >= 1,
                    ;
                }
                return None;
            },
        }
        k = k + 1;
    }
    proof {
        assert(dims@.take(n as int) =~= dims@);
    }
    Some(acc)
}

} // verus!
