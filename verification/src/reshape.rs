//! Reshape: relabel, truncate, extend or reverse an array into a new
//! shape, deriving at most one placeholder dimension from the element
//! count.
use vstd::prelude::*;
use crate::ArrayError;
use crate::array::{Array, prod, prod_all, checked_prod, lemma_prod_split,
    lemma_prod_part_le, lemma_prod_sub_pos, lemma_prod_skip_unfold};
use crate::buffer::{buf_from_vec, buf_slice};
use crate::index::lemma_div_block_bound;

verus! {

/// One entry of a reshape specifier: a concrete dimension (negative
/// means "reverse along this axis"), or a placeholder whose size is
/// derived from the element count (its flag asks for reversal too).
#[derive(Clone, Copy, Debug, PartialEq, Eq, Structural)]
pub enum DimSpec {
    Fixed(isize),
    Derive(bool),
}

pub open spec fn nat_abs(v: int) -> nat {
    if v >= 0 {
        v as nat
    } else {
        (-v) as nat
    }
}

/// Where the flat element at offset `i` of a buffer reversed along an
/// axis of extent `axis` (with `inner` elements under each axis step)
/// comes from.
pub open spec fn rev3(i: int, axis: nat, inner: nat) -> int {
    let block = axis * inner;
    let o = i / (block as int);
    let a = (i % (block as int)) / (inner as int);
    let r = i % (inner as int);
    o * (block as int) + (axis - 1 - a) * (inner as int) + r
}

/// A buffer reversed along one axis, element by element.
pub open spec fn axis_reversed(data: Seq<i64>, axis: nat, inner: nat) -> Seq<i64> {
    Seq::new(data.len(), |i: int| data[rev3(i, axis, inner)])
}

/// A buffer reversed along every axis of `shape` whose specifier in
/// `axes` is negative, from axis `j` outward.
pub open spec fn rev_axes_from(shape: Seq<usize>, data: Seq<i64>, axes: Seq<isize>, j: nat)
    -> Seq<i64>
    decreases axes.len() - j,
{
    if j >= axes.len() {
        data
    } else {
        let d2 = if axes[j as int] < 0 {
            axis_reversed(data, shape[j as int] as nat, prod(shape.skip(j as int + 1)))
        } else {
            data
        };
        rev_axes_from(shape, d2, axes, j + 1)
    }
}

/// A whole buffer repeated `n` times over.
pub open spec fn repeat_whole(data: Seq<i64>, n: nat) -> Seq<i64>
    decreases n,
{
    if n == 0 {
        Seq::empty()
    } else {
        repeat_whole(data, (n - 1) as nat) + data
    }
}

pub proof fn lemma_repeat_whole_len(data: Seq<i64>, n: nat)
    ensures
        repeat_whole(data, n).len() == n * data.len(),
    decreases n,
{
    if n == 0 {
    } else {
        lemma_repeat_whole_len(data, (n - 1) as nat);
        assert(repeat_whole(data, n) == repeat_whole(data, (n - 1) as nat) + data);
        assert((n - 1) * data.len() + data.len() == n * data.len()) by (nonlinear_arith);
    }
}

/// Reversal along the leading axis (a scalar is left alone).
pub open spec fn rev0(shape: Seq<usize>, data: Seq<i64>) -> Seq<i64> {
    if shape.len() == 0 {
        data
    } else {
        axis_reversed(data, shape[0] as nat, prod(shape.drop_first()))
    }
}

/// The reshaped buffer before any axis reversal: truncated when the
/// target is smaller; extended by the fill value when one exists;
/// otherwise repeated cyclically (which also covers broadcasting a
/// scalar).
pub open spec fn reshaped_base(data: Seq<i64>, target: nat, fill: Option<i64>) -> Seq<i64> {
    if target <= data.len() {
        data.take(target as int)
    } else if fill is Some {
        data + Seq::new((target - data.len()) as nat, |i: int| fill->0)
    } else {
        Seq::new(target, |i: int| data[i % (data.len() as int)])
    }
}

/// How many placeholder entries a specifier list holds.
pub open spec fn ph_count(dims: Seq<DimSpec>) -> nat
    decreases dims.len(),
{
    if dims.len() == 0 {
        0
    } else {
        (if dims[0] is Derive {
            1nat
        } else {
            0nat
        }) + ph_count(dims.drop_first())
    }
}

/// The magnitudes of the concrete entries, in order, placeholders
/// skipped.
pub open spec fn fixed_mags(dims: Seq<DimSpec>) -> Seq<usize>
    decreases dims.len(),
{
    if dims.len() == 0 {
        Seq::empty()
    } else {
        match dims[0] {
            DimSpec::Fixed(v) => seq![nat_abs(v as int) as usize] + fixed_mags(dims.drop_first()),
            DimSpec::Derive(_) => fixed_mags(dims.drop_first()),
        }
    }
}

/// Product of the magnitudes of all concrete entries: what the one
/// placeholder divides the element count by.
pub open spec fn others_prod(dims: Seq<DimSpec>) -> nat {
    prod(fixed_mags(dims))
}

pub proof fn lemma_ph_count_push(s: Seq<DimSpec>, d: DimSpec)
    ensures
        ph_count(s.push(d)) == ph_count(s) + (if d is Derive {
            1nat
        } else {
            0nat
        }),
    decreases s.len(),
{
    if s.len() == 0 {
        assert(s.push(d).drop_first() =~= s);
        assert(ph_count(s.push(d)) == (if d is Derive {
            1nat
        } else {
            0nat
        }) + ph_count(s));
    } else {
        assert(s.push(d).drop_first() =~= s.drop_first().push(d));
        lemma_ph_count_push(s.drop_first(), d);
        assert(ph_count(s.push(d)) == (if s[0] is Derive {
            1nat
        } else {
            0nat
        }) + ph_count(s.drop_first().push(d)));
        assert(ph_count(s) == (if s[0] is Derive {
            1nat
        } else {
            0nat
        }) + ph_count(s.drop_first()));
    }
}

pub proof fn lemma_fixed_mags_push(s: Seq<DimSpec>, d: DimSpec)
    ensures
        fixed_mags(s.push(d)) == fixed_mags(s) + (match d {
            DimSpec::Fixed(v) => seq![nat_abs(v as int) as usize],
            DimSpec::Derive(_) => Seq::<usize>::empty(),
        }),
    decreases s.len(),
{
    let tail = (match d {
        DimSpec::Fixed(v) => seq![nat_abs(v as int) as usize],
        DimSpec::Derive(_) => Seq::<usize>::empty(),
    });
    if s.len() == 0 {
        assert(s.push(d).drop_first() =~= s);
        assert(fixed_mags(s.push(d)) =~= fixed_mags(s) + tail);
    } else {
        assert(s.push(d).drop_first() =~= s.drop_first().push(d));
        lemma_fixed_mags_push(s.drop_first(), d);
        assert(fixed_mags(s.push(d)) =~= fixed_mags(s) + tail);
    }
}

/// The ceiling of `total / op` for positive `op`.
pub open spec fn div_ceil(total: nat, op: nat) -> nat {
    (((total + op - 1) as int) / (op as int)) as nat
}

/// The axes list once the single placeholder is solved as `q` (signed
/// by its reversal flag).
pub open spec fn derived_axes(dims: Seq<DimSpec>, q: nat) -> Seq<isize> {
    Seq::new(
        dims.len(),
        |j: int|
            match dims[j] {
                DimSpec::Fixed(v) => v,
                DimSpec::Derive(rev) => (if rev {
                    -(q as int)
                } else {
                    q as int
                }) as isize,
            },
    )
}

pub open spec fn fixed_vals(dims: Seq<DimSpec>) -> Seq<isize> {
    Seq::new(
        dims.len(),
        |j: int|
            match dims[j] {
                DimSpec::Fixed(v) => v,
                DimSpec::Derive(_) => 0,
            },
    )
}

/// What solving a reshape specifier yields: the concrete axes when no
/// placeholder stands in it; with one placeholder, its dimension is
/// the element count divided by the other dimensions (rounded up when
/// a fill value can pad, down otherwise); two or more placeholders are
/// ambiguous.
pub open spec fn spec_derive(total: nat, dims: Seq<DimSpec>, has_fill: bool) -> Result<
    Seq<isize>,
    ArrayError,
> {
    if ph_count(dims) == 0 {
        Result::Ok(fixed_vals(dims))
    } else if ph_count(dims) >= 2 {
        Result::Err(ArrayError::AmbiguousShape)
    } else {
        let op = others_prod(dims);
        if op == 0 {
            Result::Err(ArrayError::ZeroOrNegativeDimension)
        } else if op > usize::MAX {
            Result::Err(ArrayError::SizeOverflow)
        } else {
            let q = if has_fill {
                div_ceil(total, op)
            } else {
                (((total as int) / (op as int)) as nat)
            };
            if q > isize::MAX {
                Result::Err(ArrayError::SizeOverflow)
            } else {
                Result::Ok(derived_axes(dims, q))
            }
        }
    }
}

/// The shape that an axes list names: the magnitude of each entry.
pub open spec fn abs_shape(axes: Seq<isize>) -> Seq<usize> {
    Seq::new(axes.len(), |j: int| nat_abs(axes[j] as int) as usize)
}

/// Ceiling division computed without overflowing the machine word.
fn div_ceil_exec(total: usize, op: usize) -> (r: usize)
    requires
        op > 0,
    ensures
        r as nat == div_ceil(total as nat, op as nat),
{
    let d: usize = total / op;
    let m: usize = total % op;
    proof {
        vstd::arithmetic::div_mod::lemma_fundamental_div_mod(total as int, op as int);
        vstd::arithmetic::div_mod::lemma_mod_bound(total as int, op as int);
        if m == 0 {
            assert(total as int + op - 1 == d * op + (op - 1)) by (nonlinear_arith)
                requires
                    total as int == op * d + m,
                    m == 0,
            ;
            vstd::arithmetic::div_mod::lemma_fundamental_div_mod_converse(
                total as int + op - 1,
                op as int,
                d as int,
                op as int - 1,
            );
        } else {
            assert(total as int + op - 1 == (d + 1) * op + (m - 1)) by (nonlinear_arith)
                requires
                    total as int == op * d + m,
            ;
            assert(d < usize::MAX) by (nonlinear_arith)
                requires
                    total as int == op * d + m,
                    1 <= m,
                    1 <= op,
                    0 <= d,
                    total <= usize::MAX,
            ;
            vstd::arithmetic::div_mod::lemma_fundamental_div_mod_converse(
                total as int + op - 1,
                op as int,
                d as int + 1,
                m as int - 1,
            );
        }
    }
    if m == 0 {
        d
    } else {
        d + 1
    }
}

/// Solves a reshape specifier against an array's shape: concrete
/// entries pass through; a single placeholder becomes the element
/// count over the product of the other entries' magnitudes.
pub fn derive_shape(shape: &[usize], dims: &[DimSpec], has_fill: bool) -> (r: Result<
    Vec<isize>,
    ArrayError,
>)
    requires
        prod(shape@) <= usize::MAX,
    ensures
        r matches Ok(w) ==> spec_derive(prod(shape@), dims@, has_fill) == Result::<
            Seq<isize>,
            ArrayError,
        >::Ok(w@),
        r matches Err(e) ==> spec_derive(prod(shape@), dims@, has_fill) == Result::<
            Seq<isize>,
            ArrayError,
        >::Err(e),
{
    let n: usize = dims.len();
    let mut cnt: usize = 0;
    let mut i: usize = 0;
    proof {
        assert(dims@.take(0) =~= Seq::<DimSpec>::empty());
    }
    while i < n
        invariant
            0 <= i <= n,
            n == dims@.len(),
            cnt as nat == ph_count(dims@.take(i as int)),
            cnt <= i,
        decreases n - i,
    {
        proof {
            assert(dims@.take(i + 1) =~= dims@.take(i as int).push(dims@[i as int]));
            lemma_ph_count_push(dims@.take(i as int), dims@[i as int]);
        }
        if matches!(dims[i], DimSpec::Derive(_)) {
            cnt = cnt + 1;
        }
        i = i + 1;
    }
    proof {
        assert(dims@.take(n as int) =~= dims@);
    }
    if cnt == 0 {
        let mut out: Vec<isize> = Vec::new();
        let mut j: usize = 0;
        while j < n
            invariant
                0 <= j <= n,
                n == dims@.len(),
                out@.len() == j,
                forall|t: int| 0 <= t < j ==> out@[t] == fixed_vals(dims@)[t],
            decreases n - j,
        {
            match dims[j] {
                DimSpec::Fixed(v) => out.push(v),
                DimSpec::Derive(_) => out.push(0),
            }
            j = j + 1;
        }
        proof {
            assert(out@ =~= fixed_vals(dims@));
        }
        return Ok(out);
    }
    if cnt >= 2 {
        return Err(ArrayError::AmbiguousShape);
    }
    // exactly one placeholder: gather the other magnitudes
    let mut mags: Vec<usize> = Vec::new();
    let mut j: usize = 0;
    proof {
        assert(dims@.take(0) =~= Seq::<DimSpec>::empty());
        assert(mags@ =~= fixed_mags(dims@.take(0)));
    }
    while j < n
        invariant
            0 <= j <= n,
            n == dims@.len(),
            mags@ == fixed_mags(dims@.take(j as int)),
        decreases n - j,
    {
        proof {
            assert(dims@.take(j + 1) =~= dims@.take(j as int).push(dims@[j as int]));
            lemma_fixed_mags_push(dims@.take(j as int), dims@[j as int]);
        }
        match dims[j] {
            DimSpec::Fixed(v) => {
                let m: usize = if v >= 0 {
                    v as usize
                } else {
                    (-(v as i128)) as usize
                };
                mags.push(m);
                proof {
                    assert(mags@ =~= fixed_mags(dims@.take(j as int)) + seq![
                        nat_abs(dims@[j as int]->Fixed_0 as int) as usize,
                    ]);
                }
            },
            DimSpec::Derive(_) => {
                proof {
                    assert(mags@ =~= fixed_mags(dims@.take(j as int))
                        + Seq::<usize>::empty());
                }
            },
        }
        j = j + 1;
    }
    proof {
        assert(dims@.take(n as int) =~= dims@);
    }
    let op: usize = match checked_prod(mags.as_slice()) {
        Some(p) => p,
        None => {
            return Err(ArrayError::SizeOverflow);
        },
    };
    if op == 0 {
        return Err(ArrayError::ZeroOrNegativeDimension);
    }
    let total: usize = prod_all(shape);
    let q: usize = if has_fill {
        div_ceil_exec(total, op)
    } else {
        total / op
    };
    if q > (isize::MAX as usize) {
        return Err(ArrayError::SizeOverflow);
    }
    let mut out: Vec<isize> = Vec::new();
    let mut t: usize = 0;
    while t < n
        invariant
            0 <= t <= n,
            n == dims@.len(),
            q <= isize::MAX,
            out@.len() == t,
            forall|u: int| 0 <= u < t ==> out@[u] == derived_axes(dims@, q as nat)[u],
        decreases n - t,
    {
        match dims[t] {
            DimSpec::Fixed(v) => out.push(v),
            DimSpec::Derive(rev) => {
                if rev {
                    out.push(-(q as isize));
                } else {
                    out.push(q as isize);
                }
            },
        }
        t = t + 1;
    }
    proof {
        assert(out@ =~= derived_axes(dims@, q as nat));
    }
    Ok(out)
}

impl Array {
    /// Reverses the buffer along the axis `axis`; `inner` is the
    /// number of elements under one step of that axis and must divide
    /// the buffer into whole blocks.
    fn reverse_axis_buf(src: &[i64], axis: usize, inner: usize) -> (r: Vec<i64>)
        requires
            axis > 0,
            inner > 0,
            axis * inner <= usize::MAX,
            src@.len() % ((axis * inner) as nat) == 0,
        ensures
            r@ == axis_reversed(src@, axis as nat, inner as nat),
    {
        let len: usize = src.len();
        let block: usize = axis * inner;
        let mut out: Vec<i64> = Vec::new();
        let mut k: usize = 0;
        proof {
            assert(block > 0) by (nonlinear_arith)
                requires
                    block == axis * inner,
                    axis > 0,
                    inner > 0,
            ;
            vstd::arithmetic::div_mod::lemma_fundamental_div_mod(len as int, block as int);
        }
        let ghost outer: int = len as int / block as int;
        while k < len
            invariant
                0 <= k <= len,
                len == src@.len(),
                block == axis * inner,
                axis > 0,
                inner > 0,
                block > 0,
                len as int == outer * block,
                0 <= outer,
                out@.len() == k,
                forall|i: int|
                    0 <= i < k ==> out@[i] == axis_reversed(src@, axis as nat, inner as nat)[i],
            decreases len - k,
        {
            proof {
                lemma_div_block_bound(k as int, outer, block as int);
                lemma_div_block_bound(k as int % block as int, axis as int, inner as int);
                vstd::arithmetic::div_mod::lemma_mod_bound(k as int, inner as int);
            }
            let o: usize = k / block;
            let a: usize = (k % block) / inner;
            let rr: usize = k % inner;
            let base: usize = k - k % block;
            proof {
                vstd::arithmetic::div_mod::lemma_fundamental_div_mod(k as int, block as int);
                assert(base as int == o * block);
                assert((axis - 1 - a) * inner + rr < block) by (nonlinear_arith)
                    requires
                        0 <= a < axis,
                        0 <= rr < inner,
                        block == axis * inner,
                ;
                assert(o * block + block <= outer * block) by (nonlinear_arith)
                    requires
                        o < outer,
                        block > 0,
                ;
            }
            let tmp: usize = (axis - 1 - a) * inner + rr;
            let src_idx: usize = base + tmp;
            proof {
                assert(src_idx as int == rev3(k as int, axis as nat, inner as nat));
            }
            out.push(src[src_idx]);
            k = k + 1;
        }
        proof {
            assert(out@ =~= axis_reversed(src@, axis as nat, inner as nat));
        }
        out
    }

    /// Reverses this array along the given axis; shape and keys stay.
    pub fn reverse_depth(&mut self, axis: usize)
        requires
            old(self).wf(),
            axis < old(self).srank(),
        ensures
            final(self).wf(),
            final(self).shapev() == old(self).shapev(),
            final(self).keysv() == old(self).keysv(),
            final(self).datav() == axis_reversed(
                old(self).datav(),
                old(self).shapev()[axis as int] as nat,
                prod(old(self).shapev().skip(axis as int + 1)),
            ),
    {
        let len: usize = self.element_count();
        if len == 0 {
            proof {
                assert(self.datav() =~= axis_reversed(
                    self.datav(),
                    self.shapev()[axis as int] as nat,
                    prod(self.shapev().skip(axis as int + 1)),
                ));
            }
            return ;
        }
        let ghost sv = self.shapev();
        let ghost ax = axis as int;
        proof {
            lemma_prod_skip_unfold(sv, ax);
            lemma_prod_split(sv, ax);
            lemma_prod_sub_pos(sv, ax);
            lemma_prod_part_le(sv, ax);
            // prod(skip(ax)) == shape[ax] * prod(skip(ax + 1)) <= len
            assert(sv[ax] as nat >= 1 && prod(sv.skip(ax + 1)) >= 1 && prod(sv.skip(ax + 1))
                <= prod(sv.skip(ax))) by (nonlinear_arith)
                requires
                    prod(sv.skip(ax)) >= 1,
                    prod(sv.skip(ax)) == (sv[ax] as nat) * prod(sv.skip(ax + 1)),
            ;
        }
        let rank: usize = self.shape.len();
        let inner: usize = {
            let sl = vstd::slice::slice_subrange(self.shape.as_slice(), axis + 1, rank);
            proof {
                assert(sl@ == sv.skip(ax + 1));
            }
            prod_all(sl)
        };
        let axis_len: usize = self.shape[axis];
        proof {
            assert((axis_len * inner) as nat == prod(sv.skip(ax)));
            vstd::arithmetic::div_mod::lemma_mod_multiples_basic(
                prod(sv.take(ax)) as int,
                prod(sv.skip(ax)) as int,
            );
            assert(len as int % (axis_len * inner) as int == 0);
        }
        let src = buf_slice(&self.data);
        let out = Self::reverse_axis_buf(src, axis_len, inner);
        self.data = buf_from_vec(out);
    }

    /// Replicates the whole array as the rows of a new leading axis of
    /// extent `count` (zero empties it).
    pub fn reshape_scalar_integer(&mut self, count: usize)
        requires
            old(self).wf(),
            (count as nat) * old(self).datav().len() <= usize::MAX,
        ensures
            final(self).wf(),
            final(self).shapev() == seq![count] + old(self).shapev(),
            final(self).datav() == repeat_whole(old(self).datav(), count as nat),
            final(self).keysv() == old(self).keysv(),
    {
        let src = buf_slice(&self.data);
        let len: usize = src.len();
        let mut out: Vec<i64> = Vec::new();
        let mut t: usize = 0;
        proof {
            lemma_repeat_whole_len(src@, count as nat);
        }
        while t < count
            invariant
                0 <= t <= count,
                len == src@.len(),
                (count as nat) * (len as nat) <= usize::MAX,
                out@ == repeat_whole(src@, t as nat),
                out@.len() == (t as nat) * (len as nat),
            decreases count - t,
        {
            out.extend_from_slice(src);
            proof {
                lemma_repeat_whole_len(src@, (t + 1) as nat);
                assert(repeat_whole(src@, (t + 1) as nat) == repeat_whole(src@, t as nat)
                    + src@);
                assert(((t + 1) as nat) * (len as nat) <= (count as nat) * (len as nat))
                    by (nonlinear_arith)
                    requires
                        t + 1 <= count,
                        len >= 0,
                ;
            }
            t = t + 1;
        }
        self.shape.insert(0, count);
        self.data = buf_from_vec(out);
        proof {
            assert(self.shapev() =~= seq![count] + old(self).shapev());
            assert(self.shapev().drop_first() =~= old(self).shapev());
            assert(prod(self.shapev()) == (count as nat) * prod(old(self).shapev()));
        }
    }

    /// The scalar form of reshape: a concrete count replicates the
    /// array that many times as rows (a negative count reverses the
    /// rows first); a bare placeholder only reverses when its flag
    /// asks for it. Any key table is dropped.
    pub fn reshape_scalar(&mut self, count: DimSpec)
        requires
            old(self).wf(),
            count matches DimSpec::Fixed(n) ==> nat_abs(n as int) * old(self).datav().len()
                <= usize::MAX,
        ensures
            final(self).wf(),
            final(self).keysv() is None,
            count matches DimSpec::Fixed(n) ==> final(self).shapev() == seq![
                nat_abs(n as int) as usize,
            ] + old(self).shapev() && final(self).datav() == repeat_whole(
                if n < 0 {
                    rev0(old(self).shapev(), old(self).datav())
                } else {
                    old(self).datav()
                },
                nat_abs(n as int),
            ),
            count matches DimSpec::Derive(rev) ==> final(self).shapev() == old(self).shapev()
                && final(self).datav() == (if rev {
                rev0(old(self).shapev(), old(self).datav())
            } else {
                old(self).datav()
            }),
    {
        self.keys = None;
        match count {
            DimSpec::Fixed(n) => {
                if n < 0 {
                    self.reverse();
                }
                let m: usize = if n >= 0 {
                    n as usize
                } else {
                    (-(n as i128)) as usize
                };
                self.reshape_scalar_integer(m);
            },
            DimSpec::Derive(rev) => {
                if rev {
                    self.reverse();
                }
            },
        }
    }

    /// Puts a remembered shape back on the array. A pure relabeling:
    /// it refuses (leaving the array alone) unless the remembered
    /// shape holds exactly the current element count.
    pub fn undo_reshape(&mut self, orig_shape: &[usize]) -> (r: Result<(), ArrayError>)
        requires
            old(self).wf(),
        ensures
            final(self).wf(),
            final(self).datav() == old(self).datav(),
            final(self).keysv() == old(self).keysv(),
            prod(orig_shape@) == prod(old(self).shapev()) ==> r is Ok && final(self).shapev()
                == orig_shape@,
            prod(orig_shape@) != prod(old(self).shapev()) ==> r == Err::<(), ArrayError>(
                ArrayError::ShapeMismatch,
            ) && final(self).shapev() == old(self).shapev(),
    {
        let ec: usize = self.element_count();
        match checked_prod(orig_shape) {
            Some(t) => {
                if t == ec {
                    self.shape = vstd::slice::slice_to_vec(orig_shape);
                    Ok(())
                } else {
                    Err(ArrayError::ShapeMismatch)
                }
            },
            None => Err(ArrayError::ShapeMismatch),
        }
    }

    /// Reshapes the array to the shape a specifier list names,
    /// deriving at most one placeholder axis, truncating or extending
    /// the buffer to the new element count, and reversing every axis
    /// whose specifier is negative. The key table survives only when
    /// the leading axis keeps its extent.
    pub fn reshape(&mut self, dims: &[DimSpec], fill: Option<i64>) -> (r: Result<
        (),
        ArrayError,
    >)
        requires
            old(self).wf(),
        ensures
            final(self).wf(),
            ({
                let sd = spec_derive(prod(old(self).shapev()), dims@, fill is Some);
                &&& (sd matches Err(e) ==> r == Err::<(), ArrayError>(e) && *final(self)
                    == *old(self))
                &&& (sd matches Ok(axes) ==> {
                    let ns = abs_shape(axes);
                    let target = prod(ns);
                    &&& final(self).keysv() == (if axes.len() > 0 && nat_abs(axes[0] as int)
                        == old(self).srow_count() {
                        old(self).keysv()
                    } else {
                        None::<Seq<i64>>
                    })
                    &&& (target > usize::MAX ==> r == Err::<(), ArrayError>(
                        ArrayError::SizeOverflow,
                    ) && final(self).shapev() == old(self).shapev() && final(self).datav()
                        == old(self).datav())
                    &&& (target <= usize::MAX && old(self).datav().len() == 0 && target > 0
                        && fill is None ==> r == Err::<(), ArrayError>(ArrayError::ShapeMismatch)
                        && final(self).shapev() == old(self).shapev() && final(self).datav()
                        == old(self).datav())
                    &&& (target <= usize::MAX && !(old(self).datav().len() == 0 && target > 0
                        && fill is None) ==> r is Ok && final(self).shapev() == ns
                        && final(self).datav() == rev_axes_from(
                        ns,
                        reshaped_base(old(self).datav(), target, fill),
                        axes,
                        0,
                    ))
                })
            }),
    {
        let ec: usize = self.element_count();
        let axes: Vec<isize> = match derive_shape(
            self.shape.as_slice(),
            dims,
            fill.is_some(),
        ) {
            Ok(v) => v,
            Err(e) => {
                return Err(e);
            },
        };
        // the key table survives only when the leading extent is kept
        let keep_keys: bool = if axes.len() == 0 {
            false
        } else {
            let a0: isize = axes[0];
            let m0: usize = if a0 >= 0 {
                a0 as usize
            } else {
                (-(a0 as i128)) as usize
            };
            m0 == self.row_count()
        };
        if !keep_keys {
            self.keys = None;
        }
        let mut ns: Vec<usize> = Vec::new();
        let mut j: usize = 0;
        while j < axes.len()
            invariant
                0 <= j <= axes@.len(),
                ns@.len() == j,
                forall|t: int| 0 <= t < j ==> ns@[t] == abs_shape(axes@)[t],
            decreases axes@.len() - j,
        {
            let a: isize = axes[j];
            let m: usize = if a >= 0 {
                a as usize
            } else {
                (-(a as i128)) as usize
            };
            ns.push(m);
            j = j + 1;
        }
        proof {
            assert(ns@ =~= abs_shape(axes@));
        }
        let target: usize = match checked_prod(ns.as_slice()) {
            Some(t) => t,
            None => {
                return Err(ArrayError::SizeOverflow);
            },
        };
        let src = buf_slice(&self.data);
        let len: usize = src.len();
        let mut out: Vec<i64>;
        if target <= len {
            out = vstd::slice::slice_to_vec(vstd::slice::slice_subrange(src, 0, target));
        } else {
            match fill {
                Some(f) => {
                    out = vstd::slice::slice_to_vec(src);
                    while out.len() < target
                        invariant
                            len <= out@.len() <= target,
                            out@ =~= src@ + Seq::new(
                                (out@.len() - len) as nat,
                                |i: int| f,
                            ),
                        decreases target - out@.len(),
                    {
                        out.push(f);
                        proof {
                            assert(out@ =~= src@ + Seq::new(
                                (out@.len() - len) as nat,
                                |i: int| f,
                            ));
                        }
                    }
                },
                None => {
                    if len == 0 {
                        return Err(ArrayError::ShapeMismatch);
                    }
                    out = Vec::new();
                    let mut k: usize = 0;
                    while k < target
                        invariant
                            0 <= k <= target,
                            len == src@.len(),
                            len > 0,
                            out@.len() == k,
                            forall|i: int|
                                0 <= i < k ==> out@[i] == src@[i % (len as int)],
                        decreases target - k,
                    {
                        proof {
                            vstd::arithmetic::div_mod::lemma_mod_bound(k as int, len as int);
                        }
                        out.push(src[k % len]);
                        k = k + 1;
                    }
                },
            }
        }
        proof {
            assert(out@ =~= reshaped_base(old(self).datav(), target as nat, fill));
        }
        self.data = buf_from_vec(out);
        self.shape = ns;
        // reverse every axis whose specifier was negative
        let ghost base = self.datav();
        let ghost keys0 = self.keysv();
        let mut ax: usize = 0;
        while ax < axes.len()
            invariant
                0 <= ax <= axes@.len(),
                self.wf(),
                self.shapev() == abs_shape(axes@),
                self.keysv() == keys0,
                axes@.len() == self.shapev().len(),
                rev_axes_from(self.shapev(), self.datav(), axes@, ax as nat) == rev_axes_from(
                    self.shapev(),
                    base,
                    axes@,
                    0,
                ),
            decreases axes@.len() - ax,
        {
            let ghost before = self.datav();
            if axes[ax] < 0 {
                self.reverse_depth(ax);
            }
            proof {
                assert(rev_axes_from(self.shapev(), before, axes@, ax as nat) == rev_axes_from(
                    self.shapev(),
                    self.datav(),
                    axes@,
                    (ax + 1) as nat,
                ));
            }
            ax = ax + 1;
        }
        proof {
            assert(rev_axes_from(self.shapev(), self.datav(), axes@, axes@.len() as nat)
                == self.datav());
        }
        Ok(())
    }

    /// Reverses the rows (the leading axis); a scalar is unchanged.
    pub fn reverse(&mut self)
        requires
            old(self).wf(),
        ensures
            final(self).wf(),
            final(self).shapev() == old(self).shapev(),
            final(self).keysv() == old(self).keysv(),
            final(self).datav() == rev0(old(self).shapev(), old(self).datav()),
    {
        if self.shape.len() > 0 {
            self.reverse_depth(0);
        }
    }
}

/// With no reversed axes, the reversal pass is the identity.
pub proof fn lemma_rev_axes_nonneg(shape: Seq<usize>, data: Seq<i64>, axes: Seq<isize>, j: nat)
    requires
        forall|t: int| 0 <= t < axes.len() ==> #[trigger] axes[t] >= 0,
    ensures
        rev_axes_from(shape, data, axes, j) == data,
    decreases axes.len() - j,
{
    if j < axes.len() {
        lemma_rev_axes_nonneg(shape, data, axes, j + 1);
    }
}

/// Reshape round-trip: a reshape to any non-reversing shape with the
/// same element count leaves the buffer exactly as it was, so undoing
/// it with the remembered shape restores the original array.
pub proof fn lemma_reshape_round_trip(
    shape: Seq<usize>,
    data: Seq<i64>,
    axes: Seq<isize>,
    fill: Option<i64>,
)
    requires
        data.len() == prod(shape),
        prod(abs_shape(axes)) == data.len(),
        forall|t: int| 0 <= t < axes.len() ==> #[trigger] axes[t] >= 0,
    ensures
        rev_axes_from(
            abs_shape(axes),
            reshaped_base(data, prod(abs_shape(axes)), fill),
            axes,
            0,
        ) == data,
        prod(abs_shape(axes)) == prod(shape),
{
    assert(reshaped_base(data, prod(abs_shape(axes)), fill) =~= data);
    lemma_rev_axes_nonneg(abs_shape(axes), data, axes, 0);
}

} // verus!
