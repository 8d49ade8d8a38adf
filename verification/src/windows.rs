//! Sliding windows: every contiguous sub-block of a given per-axis
//! size, walked corner by corner in row-major order.
use vstd::prelude::*;
use crate::ArrayError;
use crate::array::{Array, prod, prod_all, checked_prod, lemma_prod_skip_unfold,
    lemma_prod_split, lemma_prod_sub_pos};
use crate::buffer::buf_slice;

verus! {

/// The corner grid: how many window positions each axis offers.
pub open spec fn corner_dims(hsh: Seq<usize>, wsz: Seq<usize>) -> Seq<usize> {
    Seq::new(hsh.len(), |j: int| (hsh[j] - wsz[j] + 1) as usize)
}

/// The flat source offset of cursor position `q` inside the window
/// whose corner is flat position `p`: on each axis the corner and
/// cursor coordinates add.
pub open spec fn win_src(p: int, q: int, hsh: Seq<usize>, wsz: Seq<usize>) -> int
    decreases hsh.len(),
{
    if hsh.len() == 0 {
        0
    } else {
        let crest = prod(corner_dims(hsh, wsz).drop_first());
        let wrest = prod(wsz.drop_first());
        let hrest = prod(hsh.drop_first());
        (p / (crest as int) + q / (wrest as int)) * (hrest as int) + win_src(
            p % (crest as int),
            q % (wrest as int),
            hsh.drop_first(),
            wsz.drop_first(),
        )
    }
}

/// A product shrinks or holds pointwise.
pub proof fn lemma_prod_pointwise_le(a: Seq<usize>, b: Seq<usize>)
    requires
        a.len() == b.len(),
        forall|j: int| 0 <= j < a.len() ==> a[j] <= b[j],
    ensures
        prod(a) <= prod(b),
    decreases a.len(),
{
    if a.len() > 0 {
        assert forall|j: int| 0 <= j < a.drop_first().len() implies #[trigger] a.drop_first()[j]
            <= b.drop_first()[j] by {
            assert(a.drop_first()[j] == a[j + 1] && b.drop_first()[j] == b[j + 1]);
        }
        lemma_prod_pointwise_le(a.drop_first(), b.drop_first());
        assert((a[0] as nat) * prod(a.drop_first()) <= (b[0] as nat) * prod(b.drop_first()))
            by (nonlinear_arith)
            requires
                a[0] <= b[0],
                prod(a.drop_first()) <= prod(b.drop_first()),
                0 <= a[0],
                0 <= prod(a.drop_first()),
        ;
    }
}

/// The per-axis window extents a size specifier asks for: negative
/// entries count back from the axis extent.
pub open spec fn true_sizes(hsh: Seq<usize>, spec: Seq<isize>) -> Seq<int> {
    Seq::new(
        spec.len(),
        |j: int|
            if spec[j] >= 0 {
                spec[j] as int
            } else {
                hsh[j] + 1 + spec[j]
            },
    )
}

/// Does every requested window fit its axis?
pub open spec fn win_fits(hsh: Seq<usize>, spec: Seq<isize>) -> bool {
    forall|j: int| 0 <= j < spec.len() ==> 1 <= #[trigger] true_sizes(hsh, spec)[j] <= hsh[j]
}

/// The window sizes over the full rank: requested extents first, then
/// the unsized trailing axes whole.
pub open spec fn wsz_full(hsh: Seq<usize>, spec: Seq<isize>) -> Seq<usize> {
    Seq::new(
        hsh.len(),
        |j: int|
            if j < spec.len() {
                true_sizes(hsh, spec)[j] as usize
            } else {
                hsh[j]
            },
    )
}

/// The output shape when every window fits: one corner extent per
/// sized axis, then the window sizes, then the trailing axes.
pub open spec fn windows_shape(hsh: Seq<usize>, spec: Seq<isize>) -> Seq<usize> {
    Seq::new(spec.len(), |j: int| (hsh[j] + 1 - true_sizes(hsh, spec)[j]) as usize) + wsz_full(
        hsh,
        spec,
    )
}

/// The output shape when some window does not fit: the same layout
/// with the failing extents clamped, holding no elements at all.
pub open spec fn windows_empty_shape(hsh: Seq<usize>, spec: Seq<isize>) -> Seq<usize> {
    Seq::new(
        spec.len(),
        |j: int|
            if hsh[j] + 1 - true_sizes(hsh, spec)[j] >= 0 {
                (hsh[j] + 1 - true_sizes(hsh, spec)[j]) as usize
            } else {
                0
            },
    ) + Seq::new(
        hsh.len(),
        |j: int|
            if j < spec.len() {
                if true_sizes(hsh, spec)[j] >= 0 {
                    true_sizes(hsh, spec)[j] as usize
                } else {
                    0
                }
            } else {
                hsh[j]
            },
    )
}

/// The output buffer: window after window in corner order, each
/// walked in row-major cursor order.
pub open spec fn windows_data(hsh: Seq<usize>, spec: Seq<isize>, data: Seq<i64>) -> Seq<i64> {
    let w = wsz_full(hsh, spec);
    Seq::new(
        prod(corner_dims(hsh, w)) * prod(w),
        |i: int| data[win_src(i / (prod(w) as int), i % (prod(w) as int), hsh, w)],
    )
}

pub proof fn lemma_prod_ones(n: nat)
    ensures
        prod(Seq::new(n, |j: int| 1usize)) == 1,
    decreases n,
{
    let s = Seq::new(n, |j: int| 1usize);
    if n > 0 {
        assert(s.drop_first() =~= Seq::new((n - 1) as nat, |j: int| 1usize));
        lemma_prod_ones((n - 1) as nat);
        assert(prod(s) == (s[0] as nat) * prod(s.drop_first()));
        assert(1nat * 1nat == 1nat) by (nonlinear_arith);
    } else {
        assert(s =~= Seq::<usize>::empty());
    }
}


impl Array {
    /// The corner grid as a vector.
    pub(crate) fn corner_dims_exec(hsh: &[usize], wsz: &[usize]) -> (r: Vec<usize>)
        requires
            wsz@.len() == hsh@.len(),
            forall|j: int|
                0 <= j < hsh@.len() ==> #[trigger] wsz@[j] <= hsh@[j] && (wsz@[j] >= 1 || hsh@[j]
                    == wsz@[j]),
        ensures
            r@ == corner_dims(hsh@, wsz@),
    {
        let l: usize = hsh.len();
        let mut out: Vec<usize> = Vec::new();
        let mut j: usize = 0;
        while j < l
            invariant
                0 <= j <= l,
                l == hsh@.len(),
                l == wsz@.len(),
                forall|t: int|
                    0 <= t < l ==> #[trigger] wsz@[t] <= hsh@[t] && (wsz@[t] >= 1 || hsh@[t]
                        == wsz@[t]),
                out@.len() == j,
                forall|t: int| 0 <= t < j ==> out@[t] == corner_dims(hsh@, wsz@)[t],
            decreases l - j,
        {
            out.push(hsh[j] - wsz[j] + 1);
            j = j + 1;
        }
        proof {
            assert(out@ =~= corner_dims(hsh@, wsz@));
        }
        out
    }

    /// Computes `win_src` and keeps it inside the source buffer.
    pub(crate) fn win_src_exec(p: usize, q: usize, hsh: &[usize], wsz: &[usize], cds: &[usize]) -> (r:
        usize)
        requires
            wsz@.len() == hsh@.len(),
            cds@ == corner_dims(hsh@, wsz@),
            forall|j: int| 0 <= j < hsh@.len() ==> 1 <= #[trigger] wsz@[j] && wsz@[j] <= hsh@[j],
            p < prod(corner_dims(hsh@, wsz@)),
            q < prod(wsz@),
            prod(hsh@) <= usize::MAX,
        ensures
            r as int == win_src(p as int, q as int, hsh@, wsz@),
            r < prod(hsh@),
        decreases hsh@.len(),
    {
        let l: usize = hsh.len();
        if l == 0 {
            return 0;
        }
        let hs = vstd::slice::slice_subrange(hsh, 1, l);
        let ws = vstd::slice::slice_subrange(wsz, 1, l);
        let cs = vstd::slice::slice_subrange(cds, 1, l);
        let ghost cd = corner_dims(hsh@, wsz@);
        proof {
            assert(hs@ =~= hsh@.drop_first());
            assert(ws@ =~= wsz@.drop_first());
            assert(cs@ =~= cd.drop_first());
            assert(cd.drop_first() =~= corner_dims(hsh@.drop_first(), wsz@.drop_first()));
            assert forall|j: int| 0 <= j < hs@.len() implies 1 <= #[trigger] ws@[j] && ws@[j]
                <= hs@[j] by {
                assert(ws@[j] == wsz@[j + 1] && hs@[j] == hsh@[j + 1]);
            }
            assert forall|j: int| 0 <= j < cd.len() implies 1 <= #[trigger] cd[j] && cd[j]
                <= hsh@[j] by {
                assert(wsz@[j] >= 1 && wsz@[j] <= hsh@[j]);
            }
            lemma_prod_skip_unfold(hsh@, 0);
            assert(hsh@.skip(0) =~= hsh@);
            assert(hsh@.skip(1) =~= hsh@.drop_first());
            assert(prod(hsh@) == (hsh@[0] as nat) * prod(hsh@.drop_first()));
            assert(prod(hsh@.drop_first()) <= prod(hsh@)) by (nonlinear_arith)
                requires
                    prod(hsh@) == (hsh@[0] as nat) * prod(hsh@.drop_first()),
                    hsh@[0] >= 1,
                    prod(hsh@.drop_first()) >= 0,
            ;
            lemma_prod_pointwise_le(cd.drop_first(), hsh@.drop_first());
            lemma_prod_pointwise_le(ws@, hs@);
            lemma_prod_skip_unfold(cd, 0);
            assert(cd.skip(0) =~= cd);
            assert(cd.skip(1) =~= cd.drop_first());
            lemma_prod_skip_unfold(wsz@, 0);
            assert(wsz@.skip(0) =~= wsz@);
            assert(wsz@.skip(1) =~= wsz@.drop_first());
            crate::array::lemma_prod_all_pos(cd.drop_first());
            crate::array::lemma_prod_all_pos(ws@);
        }
        let crest: usize = prod_all(cs);
        let wrest: usize = prod_all(ws);
        let hrest: usize = prod_all(hs);
        proof {
            assert(p < (crest as int) * (cd[0] as int)) by (nonlinear_arith)
                requires
                    p < prod(cd),
                    prod(cd) == (cd[0] as nat) * prod(cd.drop_first()),
                    crest as nat == prod(cd.drop_first()),
            ;
            assert(q < (wrest as int) * (wsz@[0] as int)) by (nonlinear_arith)
                requires
                    q < prod(wsz@),
                    prod(wsz@) == (wsz@[0] as nat) * prod(wsz@.drop_first()),
                    wrest as nat == prod(wsz@.drop_first()),
            ;
            vstd::arithmetic::div_mod::lemma_multiply_divide_lt(p as int, crest as int,
                cd[0] as int);
            vstd::arithmetic::div_mod::lemma_multiply_divide_lt(q as int, wrest as int,
                wsz@[0] as int);
            vstd::arithmetic::div_mod::lemma_div_pos_is_pos(p as int, crest as int);
            vstd::arithmetic::div_mod::lemma_div_pos_is_pos(q as int, wrest as int);
            vstd::arithmetic::div_mod::lemma_mod_bound(p as int, crest as int);
            vstd::arithmetic::div_mod::lemma_mod_bound(q as int, wrest as int);
        }
        let c: usize = p / crest;
        let u: usize = q / wrest;
        let rec: usize = Self::win_src_exec(p % crest, q % wrest, hs, ws, cs);
        proof {
            assert(c + u <= hsh@[0] - 1) by {
                assert(c < cd[0] && u < wsz@[0] && cd[0] == hsh@[0] - wsz@[0] + 1);
            }
            assert((c + u) * hrest + rec < prod(hsh@) && 0 <= (c + u) * hrest)
                by (nonlinear_arith)
                requires
                    c + u <= hsh@[0] - 1,
                    rec < hrest,
                    hrest as nat == prod(hsh@.drop_first()),
                    prod(hsh@) == (hsh@[0] as nat) * prod(hsh@.drop_first()),
                    0 <= c + u,
                    0 <= rec,
            ;
        }
        let r: usize = (c + u) * hrest + rec;
        r
    }
}

impl Array {
    /// Every sliding window of this array: per-axis sizes (negative
    /// meaning "all but that many"), windows walked corner first. A
    /// zero size is refused, as are more sizes than axes; a window
    /// that cannot fit yields a correctly shaped empty result.
    #[verifier::rlimit(100)]
    pub fn windows(&self, size_spec: &[isize]) -> (r: Result<Array, ArrayError>)
        requires
            self.wf(),
        ensures
            (exists|j: int| 0 <= j < size_spec@.len() && size_spec@[j] == 0) ==> r == Err::<
                Array,
                ArrayError,
            >(ArrayError::ZeroWindow),
            (forall|j: int| 0 <= j < size_spec@.len() ==> size_spec@[j] != 0)
                && size_spec@.len() > self.srank() ==> r == Err::<Array, ArrayError>(
                ArrayError::RankMismatch,
            ),
            (forall|j: int| 0 <= j < size_spec@.len() ==> size_spec@[j] != 0)
                && size_spec@.len() <= self.srank() && !win_fits(self.shapev(), size_spec@)
                ==> (r matches Ok(out) && out.wf() && out.shapev() =~= windows_empty_shape(
                self.shapev(),
                size_spec@,
            ) && out.datav() =~= Seq::<i64>::empty() && out.keysv() is None),
            (forall|j: int| 0 <= j < size_spec@.len() ==> size_spec@[j] != 0)
                && size_spec@.len() <= self.srank() && win_fits(self.shapev(), size_spec@)
                ==> ({
                &&& (prod(windows_shape(self.shapev(), size_spec@)) > usize::MAX ==> r
                    == Err::<Array, ArrayError>(ArrayError::SizeOverflow))
                &&& (prod(windows_shape(self.shapev(), size_spec@)) <= usize::MAX ==> (r
                    matches Ok(out) && out.wf() && out.shapev() =~= windows_shape(
                    self.shapev(),
                    size_spec@,
                ) && out.datav() == windows_data(self.shapev(), size_spec@, self.datav())
                    && out.keysv() is None))
            }),
    {
        let k: usize = size_spec.len();
        let rank: usize = self.shape.len();
        let mut j: usize = 0;
        while j < k
            invariant
                0 <= j <= k,
                k == size_spec@.len(),
                forall|t: int| 0 <= t < j ==> size_spec@[t] != 0,
            decreases k - j,
        {
            if size_spec[j] == 0 {
                return Err(ArrayError::ZeroWindow);
            }
            j = j + 1;
        }
        if k > rank {
            return Err(ArrayError::RankMismatch);
        }
        let ghost hshg = self.shapev();
        let ghost tsg = true_sizes(hshg, size_spec@);
        // resolve the requested extents and check each fits its axis
        let mut fits: bool = true;
        let mut ts: Vec<usize> = Vec::new();
        let mut j2: usize = 0;
        while j2 < k
            invariant
                0 <= j2 <= k,
                k == size_spec@.len(),
                k <= hshg.len(),
                hshg == self.shapev(),
                tsg == true_sizes(hshg, size_spec@),
                ts@.len() == j2,
                fits <==> (forall|t: int| 0 <= t < j2 ==> 1 <= #[trigger] tsg[t] <= hshg[t]),
                forall|t: int|
                    0 <= t < j2 ==> (1 <= tsg[t] <= hshg[t] ==> ts@[t] as int == tsg[t]),
            decreases k - j2,
        {
            let sj: isize = size_spec[j2];
            let hj: usize = self.shape[j2];
            let tt: i128 = if sj >= 0 {
                sj as i128
            } else {
                hj as i128 + 1 + sj as i128
            };
            proof {
                assert(tt as int == tsg[j2 as int]);
            }
            if tt < 1 || tt > hj as i128 {
                fits = false;
                ts.push(0);
            } else {
                ts.push(tt as usize);
                if fits {
                    proof {
                        assert(forall|t: int| 0 <= t < j2 + 1 ==> 1 <= #[trigger] tsg[t]
                            <= hshg[t]);
                    }
                }
            }
            j2 = j2 + 1;
        }
        if !fits {
            // a window that cannot fit: a correctly shaped empty result
            let ghost failing = choose|t: int| 0 <= t < k && !(1 <= #[trigger] tsg[t] <= hshg[t]);
            let mut shape: Vec<usize> = Vec::new();
            let mut j3: usize = 0;
            while j3 < k
                invariant
                    0 <= j3 <= k,
                    k == size_spec@.len(),
                    k <= hshg.len(),
                    hshg == self.shapev(),
                    tsg == true_sizes(hshg, size_spec@),
                    forall|t: int| 0 <= t < k ==> size_spec@[t] != 0,
                    shape@.len() == j3,
                    forall|t: int|
                        0 <= t < j3 ==> shape@[t] as int == (if hshg[t] + 1 - tsg[t] >= 0 {
                            hshg[t] + 1 - tsg[t]
                        } else {
                            0int
                        }),
                decreases k - j3,
            {
                let sj: isize = size_spec[j3];
                let hj: usize = self.shape[j3];
                let tt: i128 = if sj >= 0 {
                    sj as i128
                } else {
                    hj as i128 + 1 + sj as i128
                };
                let corner: i128 = hj as i128 + 1 - tt;
                proof {
                    assert(tt as int == tsg[j3 as int]);
                    if sj >= 0 {
                        assert(sj >= 1);
                        assert(corner <= hj as int);
                    } else {
                        assert(corner == -(sj as int));
                        assert(-(sj as int) <= usize::MAX);
                    }
                }
                if corner >= 0 {
                    shape.push(corner as usize);
                } else {
                    shape.push(0);
                }
                j3 = j3 + 1;
            }
            let mut j4: usize = 0;
            let ghost mid0 = shape@;
            while j4 < k
                invariant
                    0 <= j4 <= k,
                    k == size_spec@.len(),
                    k <= hshg.len(),
                    hshg == self.shapev(),
                    tsg == true_sizes(hshg, size_spec@),
                    forall|t: int| 0 <= t < k ==> size_spec@[t] != 0,
                    ts@.len() == k,
                    forall|t: int|
                        0 <= t < k ==> (1 <= tsg[t] <= hshg[t] ==> ts@[t] as int == tsg[t]),
                    shape@.len() == k + j4,
                    shape@.take(k as int) == mid0,
                    mid0.len() == k,
                    forall|t: int|
                        0 <= t < j4 ==> shape@[k + t] as int == (if tsg[t] >= 0 && tsg[t]
                            <= hshg[t] {
                            tsg[t]
                        } else if tsg[t] > hshg[t] {
                            tsg[t]
                        } else {
                            0int
                        }),
                decreases k - j4,
            {
                let sj: isize = size_spec[j4];
                let hj: usize = self.shape[j4];
                let tt: i128 = if sj >= 0 {
                    sj as i128
                } else {
                    hj as i128 + 1 + sj as i128
                };
                proof {
                    assert(tt as int == tsg[j4 as int]);
                    if sj >= 0 {
                        assert(tt <= isize::MAX as i128);
                    } else {
                        assert(tt <= hj as i128);
                    }
                }
                if tt >= 0 {
                    shape.push(tt as usize);
                } else {
                    shape.push(0);
                }
                proof {
                    assert(shape@.take(k as int) =~= mid0);
                }
                j4 = j4 + 1;
            }
            let mut j5: usize = k;
            let ghost mid1 = shape@;
            while j5 < rank
                invariant
                    k <= j5 <= rank,
                    rank == hshg.len(),
                    hshg == self.shapev(),
                    shape@.len() == k + j5,
                    shape@.take((k + k) as int) == mid1,
                    mid1.len() == k + k,
                    forall|t: int| k <= t < j5 ==> shape@[k + t] == hshg[t],
                decreases rank - j5,
            {
                shape.push(self.shape[j5]);
                proof {
                    assert(shape@.take((k + k) as int) =~= mid1);
                }
                j5 = j5 + 1;
            }
            proof {
                assert forall|t: int| 0 <= t < k implies (hshg[t] + 1 - tsg[t] >= 0
                    ==> hshg[t] + 1 - tsg[t] <= usize::MAX) && (tsg[t] >= 0 ==> tsg[t]
                    <= usize::MAX) by {
                    if size_spec@[t] >= 0 {
                        assert(size_spec@[t] >= 1);
                        assert(tsg[t] == size_spec@[t]);
                    } else {
                        assert(tsg[t] == hshg[t] + 1 + size_spec@[t]);
                        assert(hshg[t] + 1 - tsg[t] == -(size_spec@[t] as int));
                    }
                }
                let wes = windows_empty_shape(hshg, size_spec@);
                assert(shape@.len() == wes.len());
                assert forall|t: int| 0 <= t < shape@.len() implies shape@[t] == wes[t] by {
                    if t < k {
                        assert(shape@[t] == mid1[t] && mid1[t] == mid0[t]) by {
                            assert(shape@.take((k + k) as int)[t] == shape@[t]);
                            assert(mid1.take(k as int)[t] == mid1[t]);
                        }
                    } else if t < k + k {
                        assert(shape@[t] == mid1[t]) by {
                            assert(shape@.take((k + k) as int)[t] == shape@[t]);
                        }
                    } else {
                        assert(shape@[t] == hshg[t - k]);
                    }
                }
                assert(shape@ =~= windows_empty_shape(hshg, size_spec@));
                // the failing axis pins a zero extent somewhere
                if tsg[failing] > hshg[failing] {
                    assert(shape@[failing] == 0);
                    crate::array::lemma_prod_has_zero(shape@, failing);
                } else {
                    assert(tsg[failing] < 1);
                    assert(shape@[k + failing] == 0) by {
                        if tsg[failing] == 0 {
                        }
                    }
                    crate::array::lemma_prod_has_zero(shape@, k + failing);
                }
            }
            let data: Vec<i64> = Vec::new();
            return Ok(Array::make(shape, data));
        }
        // every window fits: build the output corner by corner
        let ec: usize = self.element_count();
        let mut wszf: Vec<usize> = ts;
        let tail = vstd::slice::slice_subrange(self.shape.as_slice(), k, rank);
        wszf.extend_from_slice(tail);
        proof {
            assert(wszf@ =~= wsz_full(hshg, size_spec@));
            assert forall|t: int| 0 <= t < hshg.len() implies #[trigger] wszf@[t] <= hshg[t] && (
            wszf@[t] >= 1 || hshg[t] == wszf@[t]) by {
                if t < k {
                } else {
                    assert(wszf@[t] == hshg[t]);
                }
            }
            lemma_prod_pointwise_le(wszf@, hshg);
        }
        let cds = Self::corner_dims_exec(self.shape.as_slice(), wszf.as_slice());
        let ghost cd = corner_dims(hshg, wszf@);
        let mut osh: Vec<usize> = vstd::slice::slice_to_vec(
            vstd::slice::slice_subrange(cds.as_slice(), 0, k),
        );
        osh.extend_from_slice(wszf.as_slice());
        proof {
            assert(osh@ =~= windows_shape(hshg, size_spec@));
        }
        let total: usize = match checked_prod(osh.as_slice()) {
            Some(v) => v,
            None => {
                return Err(ArrayError::SizeOverflow);
            },
        };
        let wprod: usize = prod_all(wszf.as_slice());
        proof {
            // the full corner grid is the corner section padded by ones
            assert(cd =~= osh@.take(k as int) + Seq::new((rank - k) as nat, |j: int| 1usize))
                by {
                assert forall|t: int| 0 <= t < rank implies cd[t] == (osh@.take(k as int)
                    + Seq::new((rank - k) as nat, |j: int| 1usize))[t] by {
                    if t < k {
                    } else {
                        assert(wszf@[t] == hshg[t]);
                        assert(cd[t] == (hshg[t] - wszf@[t] + 1) as usize);
                    }
                }
            }
            crate::align::lemma_prod_concat(
                osh@.take(k as int),
                Seq::new((rank - k) as nat, |j: int| 1usize),
            );
            lemma_prod_ones((rank - k) as nat);
            assert(prod(cd) == prod(osh@.take(k as int)) * 1nat) by (nonlinear_arith)
                requires
                    prod(cd) == prod(osh@.take(k as int)) * prod(
                        Seq::new((rank - k) as nat, |j: int| 1usize),
                    ),
                    prod(Seq::new((rank - k) as nat, |j: int| 1usize)) == 1,
            ;
            crate::align::lemma_prod_concat(osh@.take(k as int), wszf@);
            assert(osh@.take(k as int) + wszf@ =~= osh@);
            assert(prod(osh@) == prod(cd) * prod(wszf@));
        }
        let mut out: Vec<i64> = Vec::new();
        let src = buf_slice(&self.data);
        let mut i: usize = 0;
        while i < total
            invariant
                0 <= i <= total,
                total as nat == prod(osh@),
                osh@ == windows_shape(hshg, size_spec@),
                hshg == self.shapev(),
                src@ == self.datav(),
                ec == self.datav().len(),
                self.datav().len() == prod(hshg),
                cd == corner_dims(hshg, wszf@),
                cds@ == cd,
                wszf@ == wsz_full(hshg, size_spec@),
                wszf@.len() == hshg.len(),
                wprod as nat == prod(wszf@),
                prod(osh@) == prod(cd) * prod(wszf@),
                win_fits(hshg, size_spec@),
                size_spec@.len() <= hshg.len(),
                forall|t: int| 0 <= t < hshg.len() ==> #[trigger] wszf@[t] <= hshg[t],
                out@.len() == i,
                forall|t: int|
                    0 <= t < i ==> out@[t] == self.datav()[win_src(
                        t / (prod(wszf@) as int),
                        t % (prod(wszf@) as int),
                        hshg,
                        wszf@,
                    )],
            decreases total - i,
        {
            proof {
                // a nonempty output means every extent is positive
                crate::array::lemma_prod_sub_pos(osh@, k as int);
                assert(prod(osh@.skip(k as int)) == prod(wszf@)) by {
                    assert(osh@.skip(k as int) =~= wszf@);
                }
                assert(prod(cd) >= 1) by (nonlinear_arith)
                    requires
                        prod(cd) * prod(wszf@) >= 1,
                ;
                assert forall|t: int| 0 <= t < hshg.len() implies 1 <= #[trigger] wszf@[t] by {
                    if wszf@[t] == 0 {
                        crate::array::lemma_prod_has_zero(wszf@, t);
                    }
                }
                vstd::arithmetic::div_mod::lemma_mod_bound(i as int, wprod as int);
                vstd::arithmetic::div_mod::lemma_div_pos_is_pos(i as int, wprod as int);
                assert(i < (wprod as int) * (prod(cd) as int)) by (nonlinear_arith)
                    requires
                        i < prod(osh@),
                        prod(osh@) == prod(cd) * prod(wszf@),
                        wprod as nat == prod(wszf@),
                ;
                vstd::arithmetic::div_mod::lemma_multiply_divide_lt(
                    i as int,
                    wprod as int,
                    prod(cd) as int,
                );
            }
            let pq: usize = i / wprod;
            let qq: usize = i % wprod;
            let sidx: usize = Self::win_src_exec(
                pq,
                qq,
                self.shape.as_slice(),
                wszf.as_slice(),
                cds.as_slice(),
            );
            out.push(src[sidx]);
            i = i + 1;
        }
        proof {
            assert(out@ =~= windows_data(hshg, size_spec@, self.datav()));
        }
        Ok(Array::make(osh, out))
    }
}

/// Window count over one axis: a length-`n` list with window size `w`
/// yields exactly `n - w + 1` windows of length `w`, the window at
/// corner `j` being the contiguous slice starting at `j`.
pub proof fn lemma_windows_count_1d(n: usize, w: usize, data: Seq<i64>)
    requires
        1 <= w <= n,
        w <= isize::MAX,
        data.len() == n,
    ensures
        windows_data(seq![n], seq![w as isize], data).len() == (n - w + 1) * (w as nat),
        forall|j: int, t: int|
            0 <= j < n - w + 1 && 0 <= t < w ==> #[trigger] windows_data(
                seq![n],
                seq![w as isize],
                data,
            )[j * w + t] == data[j + t],
{
    let hsh = seq![n];
    let spec = seq![w as isize];
    let wf = wsz_full(hsh, spec);
    assert(prod(Seq::<usize>::empty()) == 1);
    assert(wf =~= seq![w]);
    assert(wf.drop_first() =~= Seq::<usize>::empty());
    assert(prod(wf) == (w as nat) * prod(wf.drop_first()));
    assert((w as nat) * 1nat == w as nat) by (nonlinear_arith);
    let cd = corner_dims(hsh, wf);
    assert(cd =~= seq![(n - w + 1) as usize]);
    assert(cd.drop_first() =~= Seq::<usize>::empty());
    assert(prod(cd) == ((n - w + 1) as nat) * prod(cd.drop_first()));
    assert(((n - w + 1) as nat) * 1nat == (n - w + 1) as nat) by (nonlinear_arith);
    assert(prod(cd) * prod(wf) == ((n - w + 1) as nat) * (w as nat)) by (nonlinear_arith)
        requires
            prod(cd) == (n - w + 1) as nat,
            prod(wf) == w as nat,
    ;
    assert forall|j: int, t: int| 0 <= j < n - w + 1 && 0 <= t < w implies #[trigger] windows_data(
        hsh,
        spec,
        data,
    )[j * w + t] == data[j + t] by {
        let i = j * w + t;
        assert(0 <= i < (n - w + 1) * (w as nat)) by (nonlinear_arith)
            requires
                0 <= j < n - w + 1,
                0 <= t < w,
                i == j * w + t,
        ;
        vstd::arithmetic::div_mod::lemma_fundamental_div_mod_converse(
            i,
            w as int,
            j,
            t,
        );
        assert(i / (w as int) == j && i % (w as int) == t);
        assert(win_src(j, t, hsh, wf) == (j / (prod(cd.drop_first()) as int) + t / (prod(
            wf.drop_first(),
        ) as int)) * (prod(hsh.drop_first()) as int) + win_src(
            j % (prod(cd.drop_first()) as int),
            t % (prod(wf.drop_first()) as int),
            hsh.drop_first(),
            wf.drop_first(),
        ));
        assert(hsh.drop_first() =~= Seq::<usize>::empty());
        assert(prod(hsh.drop_first()) == 1);
        assert(win_src(
            j % (prod(cd.drop_first()) as int),
            t % (prod(wf.drop_first()) as int),
            hsh.drop_first(),
            wf.drop_first(),
        ) == 0);
        assert(j / 1int == j && t / 1int == t) by {
            vstd::arithmetic::div_mod::lemma_fundamental_div_mod_converse(j, 1, j, 0);
            vstd::arithmetic::div_mod::lemma_fundamental_div_mod_converse(t, 1, t, 0);
        }
        assert(prod(cd.drop_first()) == 1 && prod(wf.drop_first()) == 1 && prod(
            hsh.drop_first(),
        ) == 1);
        assert(j / (prod(cd.drop_first()) as int) == j);
        assert(t / (prod(wf.drop_first()) as int) == t);
        assert((j + t) * (prod(hsh.drop_first()) as int) == j + t) by (nonlinear_arith)
            requires
                prod(hsh.drop_first()) == 1,
        ;
        assert(win_src(j, t, hsh, wf) == j + t);
    }
}

/// The extents a fill-windows specifier asks for, resolved against
/// the axes (negative counts back from the extent); meaningful when
/// each is at least one.
pub open spec fn fw_sizes(hsh: Seq<usize>, spec: Seq<isize>) -> Seq<usize> {
    Seq::new(spec.len(), |j: int| true_sizes(hsh, spec)[j] as usize)
}

/// One window position per source cell, plus one more on axes with an
/// even window size (keeping the centring well defined).
pub open spec fn fw_pos(hsh: Seq<usize>, tsz: Seq<usize>) -> Seq<usize> {
    Seq::new(
        tsz.len(),
        |j: int|
            if tsz[j] % 2 == 0 {
                (hsh[j] + 1) as usize
            } else {
                hsh[j]
            },
    )
}

/// The filled-windows output shape: positions, then window sizes, then
/// the untouched trailing axes.
pub open spec fn fw_shape(hsh: Seq<usize>, spec: Seq<isize>) -> Seq<usize> {
    fw_pos(hsh, fw_sizes(hsh, spec)) + fw_sizes(hsh, spec) + hsh.skip(spec.len() as int)
}

/// Is the centred source cell in bounds on every sized axis? Position
/// `p` and cursor `u` walk the first `k` axes; on each the source
/// coordinate is the position plus the cursor minus half the window.
pub open spec fn fw_ok(p: int, u: int, hshk: Seq<usize>, tsz: Seq<usize>, pds: Seq<usize>)
    -> bool
    decreases hshk.len(),
{
    if hshk.len() == 0 {
        true
    } else {
        let prest = prod(pds.drop_first());
        let trest = prod(tsz.drop_first());
        let o = p / (prest as int) + u / (trest as int) - (tsz[0] / 2) as int;
        &&& 0 <= o < hshk[0]
        &&& fw_ok(
            p % (prest as int),
            u % (trest as int),
            hshk.drop_first(),
            tsz.drop_first(),
            pds.drop_first(),
        )
    }
}

/// The in-bounds source block index the centred cell reads.
pub open spec fn fw_idx(p: int, u: int, hshk: Seq<usize>, tsz: Seq<usize>, pds: Seq<usize>)
    -> int
    decreases hshk.len(),
{
    if hshk.len() == 0 {
        0
    } else {
        let prest = prod(pds.drop_first());
        let trest = prod(tsz.drop_first());
        let o = p / (prest as int) + u / (trest as int) - (tsz[0] / 2) as int;
        o * (prod(hshk.drop_first()) as int) + fw_idx(
            p % (prest as int),
            u % (trest as int),
            hshk.drop_first(),
            tsz.drop_first(),
            pds.drop_first(),
        )
    }
}

/// The filled-windows buffer: every window position in row-major
/// order, every cursor inside it, trailing items whole; out-of-bounds
/// source cells read the fill value.
pub open spec fn fw_data(hsh: Seq<usize>, spec: Seq<isize>, data: Seq<i64>, fill: i64)
    -> Seq<i64> {
    let k = spec.len() as int;
    let tsz = fw_sizes(hsh, spec);
    let pds = fw_pos(hsh, tsz);
    let item = prod(hsh.skip(k));
    let total = prod(fw_shape(hsh, spec));
    Seq::new(
        total,
        |i: int|
            {
                let r = i % (item as int);
                let u = (i / (item as int)) % (prod(tsz) as int);
                let p = i / ((item * prod(tsz)) as int);
                if fw_ok(p, u, hsh.take(k), tsz, pds) {
                    data[fw_idx(p, u, hsh.take(k), tsz, pds) * (item as int) + r]
                } else {
                    fill
                }
            },
    )
}

impl Array {
    /// Locates the centred source block for one position/cursor pair.
    fn fw_src_exec(p: usize, u: usize, hshk: &[usize], tsz: &[usize], pds: &[usize]) -> (r: (
        bool,
        usize,
    ))
        requires
            tsz@.len() == hshk@.len(),
            pds@.len() == hshk@.len(),
            forall|j: int| 0 <= j < hshk@.len() ==> #[trigger] hshk@[j] <= pds@[j],
            p < prod(pds@),
            u < prod(tsz@),
            prod(pds@) <= usize::MAX,
            prod(tsz@) <= usize::MAX,
        ensures
            r.0 == fw_ok(p as int, u as int, hshk@, tsz@, pds@),
            r.0 ==> r.1 as int == fw_idx(p as int, u as int, hshk@, tsz@, pds@) && r.1 < prod(
                hshk@,
            ),
        decreases hshk@.len(),
    {
        let l: usize = hshk.len();
        if l == 0 {
            proof {
                assert(prod(hshk@) == 1);
            }
            return (true, 0);
        }
        let hs = vstd::slice::slice_subrange(hshk, 1, l);
        let ts = vstd::slice::slice_subrange(tsz, 1, l);
        let ps = vstd::slice::slice_subrange(pds, 1, l);
        proof {
            assert(hs@ =~= hshk@.drop_first());
            assert(ts@ =~= tsz@.drop_first());
            assert(ps@ =~= pds@.drop_first());
            assert forall|j: int| 0 <= j < hs@.len() implies #[trigger] hs@[j] <= ps@[j] by {
                assert(hs@[j] == hshk@[j + 1] && ps@[j] == pds@[j + 1]);
            }
            lemma_prod_skip_unfold(pds@, 0);
            assert(pds@.skip(0) =~= pds@);
            assert(pds@.skip(1) =~= pds@.drop_first());
            lemma_prod_skip_unfold(tsz@, 0);
            assert(tsz@.skip(0) =~= tsz@);
            assert(tsz@.skip(1) =~= tsz@.drop_first());
            lemma_prod_skip_unfold(hshk@, 0);
            assert(hshk@.skip(0) =~= hshk@);
            assert(hshk@.skip(1) =~= hshk@.drop_first());
            assert(prod(pds@.drop_first()) >= 1 && pds@[0] >= 1) by (nonlinear_arith)
                requires
                    prod(pds@) == (pds@[0] as nat) * prod(pds@.drop_first()),
                    prod(pds@) > p,
                    p >= 0,
            ;
            assert(prod(tsz@.drop_first()) >= 1 && tsz@[0] >= 1) by (nonlinear_arith)
                requires
                    prod(tsz@) == (tsz@[0] as nat) * prod(tsz@.drop_first()),
                    prod(tsz@) > u,
                    u >= 0,
            ;
            assert(prod(pds@.drop_first()) <= prod(pds@) && prod(tsz@.drop_first()) <= prod(
                tsz@,
            )) by (nonlinear_arith)
                requires
                    prod(pds@) == (pds@[0] as nat) * prod(pds@.drop_first()),
                    prod(tsz@) == (tsz@[0] as nat) * prod(tsz@.drop_first()),
                    pds@[0] >= 1,
                    tsz@[0] >= 1,
                    prod(pds@.drop_first()) >= 0,
                    prod(tsz@.drop_first()) >= 0,
            ;
            assert(p < (prod(pds@.drop_first()) as int) * (pds@[0] as int)) by (nonlinear_arith)
                requires
                    p < prod(pds@),
                    prod(pds@) == (pds@[0] as nat) * prod(pds@.drop_first()),
            ;
            assert(u < (prod(tsz@.drop_first()) as int) * (tsz@[0] as int)) by (nonlinear_arith)
                requires
                    u < prod(tsz@),
                    prod(tsz@) == (tsz@[0] as nat) * prod(tsz@.drop_first()),
            ;
        }
        let prest: usize = prod_all(ps);
        let trest: usize = prod_all(ts);
        proof {
            vstd::arithmetic::div_mod::lemma_multiply_divide_lt(p as int, prest as int,
                pds@[0] as int);
            vstd::arithmetic::div_mod::lemma_multiply_divide_lt(u as int, trest as int,
                tsz@[0] as int);
            vstd::arithmetic::div_mod::lemma_div_pos_is_pos(p as int, prest as int);
            vstd::arithmetic::div_mod::lemma_div_pos_is_pos(u as int, trest as int);
            vstd::arithmetic::div_mod::lemma_mod_bound(p as int, prest as int);
            vstd::arithmetic::div_mod::lemma_mod_bound(u as int, trest as int);
        }
        let pj: usize = p / prest;
        let uj: usize = u / trest;
        let half: usize = tsz[0] / 2;
        // the centred source coordinate, kept wide enough not to wrap
        let sum: u128 = pj as u128 + uj as u128;
        if sum < half as u128 {
            return (false, 0);
        }
        let owide: u128 = sum - half as u128;
        if owide >= hshk[0] as u128 {
            return (false, 0);
        }
        let o: usize = owide as usize;
        let (ok, sub): (bool, usize) = Self::fw_src_exec(p % prest, u % trest, hs, ts, ps);
        if !ok {
            return (false, 0);
        }
        proof {
            assert(o as int == p as int / (prest as int) + u as int / (trest as int) - (
            tsz@[0] / 2) as int);
            lemma_prod_pointwise_le(hshk@, pds@);
            assert(o * prod(hshk@.drop_first()) + sub < prod(hshk@) && 0 <= o * prod(
                hshk@.drop_first(),
            )) by (nonlinear_arith)
                requires
                    o < hshk@[0],
                    sub < prod(hshk@.drop_first()),
                    prod(hshk@) == (hshk@[0] as nat) * prod(hshk@.drop_first()),
                    o >= 0,
                    sub >= 0,
            ;
        }
        let hrest: usize = {
            proof {
                lemma_prod_pointwise_le(hs@, ps@);
            }
            prod_all(hs)
        };
        (true, o * hrest + sub)
    }
}


impl Array {
    /// Every centred window of this array: one window per position on
    /// each sized axis (even sizes get one extra position), cells that
    /// would fall outside the array reading the fill value, unsized
    /// trailing axes copied whole. A resolved size below one is
    /// refused, as are more sizes than axes.
    #[verifier::rlimit(100)]
    pub fn filled_windows(&self, size_spec: &[isize], fill: i64) -> (r: Result<
        Array,
        ArrayError,
    >)
        requires
            self.wf(),
        ensures
            size_spec@.len() > self.srank() ==> r == Err::<Array, ArrayError>(
                ArrayError::RankMismatch,
            ),
            size_spec@.len() <= self.srank() && (exists|j: int|
                0 <= j < size_spec@.len() && #[trigger] true_sizes(self.shapev(), size_spec@)[j]
                    < 1) ==> r == Err::<Array, ArrayError>(ArrayError::ZeroWindow),
            size_spec@.len() <= self.srank() && (forall|j: int|
                0 <= j < size_spec@.len() ==> #[trigger] true_sizes(self.shapev(), size_spec@)[j]
                    >= 1) ==> ({
                &&& ((exists|j: int|
                    0 <= j < size_spec@.len() && #[trigger] true_sizes(
                        self.shapev(),
                        size_spec@,
                    )[j] % 2 == 0 && self.shapev()[j] == usize::MAX) ==> r == Err::<
                    Array,
                    ArrayError,
                >(ArrayError::SizeOverflow))
                &&& ((forall|j: int|
                    0 <= j < size_spec@.len() ==> !(#[trigger] true_sizes(
                        self.shapev(),
                        size_spec@,
                    )[j] % 2 == 0 && self.shapev()[j] == usize::MAX)) ==> ({
                    &&& (prod(fw_shape(self.shapev(), size_spec@)) > usize::MAX ==> r
                        == Err::<Array, ArrayError>(ArrayError::SizeOverflow))
                    &&& (prod(fw_shape(self.shapev(), size_spec@)) <= usize::MAX ==> (r
                        matches Ok(out) && out.wf() && out.shapev() =~= fw_shape(
                        self.shapev(),
                        size_spec@,
                    ) && out.datav() == fw_data(self.shapev(), size_spec@, self.datav(), fill)
                        && out.keysv() is None))
                }))
            }),
    {
        let k: usize = size_spec.len();
        let rank: usize = self.shape.len();
        let ghost hshg = self.shapev();
        let ghost tsg = true_sizes(hshg, size_spec@);
        if k > rank {
            return Err(ArrayError::RankMismatch);
        }
        // resolve the requested extents; each must be at least one
        let mut ts: Vec<usize> = Vec::new();
        let mut j: usize = 0;
        while j < k
            invariant
                0 <= j <= k,
                k == size_spec@.len(),
                k <= hshg.len(),
                hshg == self.shapev(),
                tsg == true_sizes(hshg, size_spec@),
                ts@.len() == j,
                forall|t: int| 0 <= t < j ==> #[trigger] tsg[t] >= 1,
                forall|t: int| 0 <= t < j ==> #[trigger] ts@[t] as int == tsg[t],
            decreases k - j,
        {
            let sj: isize = size_spec[j];
            let hj: usize = self.shape[j];
            let tt: i128 = if sj >= 0 {
                sj as i128
            } else {
                hj as i128 + 1 + sj as i128
            };
            proof {
                assert(tt as int == tsg[j as int]);
            }
            if tt < 1 {
                return Err(ArrayError::ZeroWindow);
            }
            ts.push(tt as usize);
            j = j + 1;
        }
        proof {
            assert(ts@ =~= fw_sizes(hshg, size_spec@));
        }
        // one position per cell, one more on axes with an even size
        let mut pds: Vec<usize> = Vec::new();
        let mut j2: usize = 0;
        while j2 < k
            invariant
                0 <= j2 <= k,
                k == size_spec@.len(),
                k <= hshg.len(),
                hshg == self.shapev(),
                tsg == true_sizes(hshg, size_spec@),
                ts@ == fw_sizes(hshg, size_spec@),
                ts@.len() == k,
                pds@.len() == j2,
                forall|t: int| 0 <= t < k ==> #[trigger] tsg[t] >= 1,
                forall|t: int|
                    0 <= t < j2 ==> #[trigger] pds@[t] == fw_pos(hshg, ts@)[t],
                forall|t: int|
                    0 <= t < j2 ==> !(#[trigger] tsg[t] % 2 == 0 && hshg[t] == usize::MAX),
            decreases k - j2,
        {
            let tj: usize = ts[j2];
            let hj: usize = self.shape[j2];
            if tj % 2 == 0 {
                if hj == usize::MAX {
                    proof {
                        assert(tsg[j2 as int] % 2 == 0 && hshg[j2 as int] == usize::MAX);
                    }
                    return Err(ArrayError::SizeOverflow);
                }
                pds.push(hj + 1);
            } else {
                pds.push(hj);
            }
            proof {
                assert(pds@[j2 as int] == fw_pos(hshg, ts@)[j2 as int]);
            }
            j2 = j2 + 1;
        }
        proof {
            assert(pds@ =~= fw_pos(hshg, ts@));
        }
        // the output shape and its size guard
        let mut oshape: Vec<usize> = Vec::new();
        oshape.extend_from_slice(pds.as_slice());
        oshape.extend_from_slice(ts.as_slice());
        let trail = vstd::slice::slice_subrange(self.shape.as_slice(), k, rank);
        oshape.extend_from_slice(trail);
        proof {
            assert(oshape@ =~= fw_shape(hshg, size_spec@));
        }
        let total: usize = match checked_prod(oshape.as_slice()) {
            Some(v) => v,
            None => {
                return Err(ArrayError::SizeOverflow);
            },
        };
        proof {
            assert(pds@ + ts@ + trail@ =~= oshape@);
            crate::align::lemma_prod_concat(pds@ + ts@, trail@);
            crate::align::lemma_prod_concat(pds@, ts@);
            assert((pds@ + ts@ + trail@).take((k + k) as int) =~= pds@ + ts@);
            assert(prod(oshape@) == prod(pds@) * prod(ts@) * prod(trail@)) by (nonlinear_arith)
                requires
                    prod(oshape@) == prod(pds@ + ts@) * prod(trail@),
                    prod(pds@ + ts@) == prod(pds@) * prod(ts@),
            ;
        }
        let item: usize;
        let tprod: usize;
        let pprod: usize;
        match (
            checked_prod(trail),
            checked_prod(ts.as_slice()),
            checked_prod(pds.as_slice()),
        ) {
            (Some(a), Some(b), Some(c)) => {
                item = a;
                tprod = b;
                pprod = c;
            },
            _ => {
                // one factor is unaddressable, so another must be zero
                // and the output holds nothing
                proof {
                    assert(prod(oshape@) == 0) by (nonlinear_arith)
                        requires
                            prod(oshape@) == prod(pds@) * prod(ts@) * prod(trail@),
                            prod(oshape@) <= usize::MAX,
                            prod(pds@) > usize::MAX || prod(ts@) > usize::MAX || prod(trail@)
                                > usize::MAX,
                    ;
                }
                let out: Vec<i64> = Vec::new();
                proof {
                    assert(out@ =~= fw_data(hshg, size_spec@, self.datav(), fill));
                }
                return Ok(Array::make(oshape, out));
            },
        }
        if total == 0 {
            let out: Vec<i64> = Vec::new();
            proof {
                assert(out@ =~= fw_data(hshg, size_spec@, self.datav(), fill));
            }
            return Ok(Array::make(oshape, out));
        }
        proof {
            assert(item >= 1 && tprod >= 1 && pprod >= 1) by (nonlinear_arith)
                requires
                    total as nat == (pprod as nat) * (tprod as nat) * (item as nat),
                    total >= 1,
                    item >= 0,
                    tprod >= 0,
                    pprod >= 0,
            ;
            assert((item as nat) * (tprod as nat) <= total) by (nonlinear_arith)
                requires
                    total as nat == (pprod as nat) * (tprod as nat) * (item as nat),
                    pprod >= 1,
                    item >= 0,
                    tprod >= 0,
            ;
        }
        let block: usize = item * tprod;
        let hshk = vstd::slice::slice_subrange(self.shape.as_slice(), 0, k);
        let hdata = buf_slice(&self.data);
        let hlen: usize = hdata.len();
        proof {
            assert(hshk@ =~= hshg.take(k as int));
            assert(trail@ =~= hshg.skip(k as int));
            lemma_prod_split(hshg, k as int);
            assert forall|t: int| 0 <= t < k implies #[trigger] hshk@[t] <= pds@[t] by {}
        }
        let mut out: Vec<i64> = Vec::new();
        let mut i: usize = 0;
        while i < total
            invariant
                0 <= i <= total,
                total as nat == prod(oshape@),
                oshape@ == fw_shape(hshg, size_spec@),
                hshg == self.shapev(),
                hdata@ == self.datav(),
                hlen == hdata@.len(),
                hdata@.len() == prod(hshg),
                k == size_spec@.len(),
                k <= hshg.len(),
                ts@ == fw_sizes(hshg, size_spec@),
                pds@ == fw_pos(hshg, ts@),
                hshk@ == hshg.take(k as int),
                item as nat == prod(hshg.skip(k as int)),
                item as nat == prod(trail@),
                tprod as nat == prod(ts@),
                pprod as nat == prod(pds@),
                item >= 1,
                tprod >= 1,
                pprod >= 1,
                block == item * tprod,
                block as nat == (item as nat) * (tprod as nat),
                total as nat == (pprod as nat) * (tprod as nat) * (item as nat),
                prod(hshg) == prod(hshg.take(k as int)) * prod(hshg.skip(k as int)),
                forall|t: int| 0 <= t < k ==> #[trigger] hshk@[t] <= pds@[t],
                out@.len() == i,
                forall|t: int|
                    0 <= t < i ==> out@[t] == fw_data(hshg, size_spec@, self.datav(), fill)[t],
            decreases total - i,
        {
            proof {
                assert(i < (block as int) * (pprod as int)) by (nonlinear_arith)
                    requires
                        i < total,
                        total as nat == (pprod as nat) * (tprod as nat) * (item as nat),
                        block as nat == (item as nat) * (tprod as nat),
                ;
                vstd::arithmetic::div_mod::lemma_multiply_divide_lt(
                    i as int,
                    block as int,
                    pprod as int,
                );
                vstd::arithmetic::div_mod::lemma_div_pos_is_pos(i as int, block as int);
                vstd::arithmetic::div_mod::lemma_mod_bound(i as int, block as int);
                vstd::arithmetic::div_mod::lemma_mod_bound(i as int, item as int);
                vstd::arithmetic::div_mod::lemma_div_pos_is_pos(i as int, item as int);
                vstd::arithmetic::div_mod::lemma_mod_bound(
                    i as int / item as int,
                    tprod as int,
                );
            }
            let rr: usize = i % item;
            let uq: usize = (i / item) % tprod;
            let pq: usize = i / block;
            let (ok, blk): (bool, usize) = Self::fw_src_exec(pq, uq, hshk, ts.as_slice(),
                pds.as_slice());
            proof {
                // the spec decomposes the flat index the same way
                assert((i as int / (item as int)) % (tprod as int) == uq as int && i as int / (
                block as int) == pq as int && i as int % (item as int) == rr as int);
                assert(block as int == ((item as nat) * prod(ts@)) as int);
            }
            let v: i64;
            if ok {
                proof {
                    assert(blk * item + rr < prod(hshg) && 0 <= blk * item)
                        by (nonlinear_arith)
                        requires
                            blk < prod(hshg.take(k as int)),
                            rr < item,
                            item as nat == prod(hshg.skip(k as int)),
                            prod(hshg) == prod(hshg.take(k as int)) * prod(
                                hshg.skip(k as int),
                            ),
                            blk >= 0,
                            rr >= 0,
                    ;
                }
                v = hdata[blk * item + rr];
            } else {
                v = fill;
            }
            out.push(v);
            proof {
                assert(out@[i as int] == fw_data(hshg, size_spec@, self.datav(), fill)[i as int]);
            }
            i = i + 1;
        }
        proof {
            assert(out@ =~= fw_data(hshg, size_spec@, self.datav(), fill));
        }
        Ok(Array::make(oshape, out))
    }
}


impl Array {
    /// The fill-context face of windows: with a fill value the
    /// centred filled variant runs, without one the plain sliding
    /// windows, matching how the surrounding runtime picks between
    /// the two.
    pub fn windows_with(&self, size_spec: &[isize], fill: Option<i64>) -> (r: Result<
        Array,
        ArrayError,
    >)
        requires
            self.wf(),
        ensures
            fill is None ==> ({
                &&& ((exists|j: int| 0 <= j < size_spec@.len() && size_spec@[j] == 0) ==> r
                    == Err::<Array, ArrayError>(ArrayError::ZeroWindow))
                &&& ((forall|j: int| 0 <= j < size_spec@.len() ==> size_spec@[j] != 0)
                    && size_spec@.len() > self.srank() ==> r == Err::<Array, ArrayError>(
                    ArrayError::RankMismatch,
                ))
                &&& ((forall|j: int| 0 <= j < size_spec@.len() ==> size_spec@[j] != 0)
                    && size_spec@.len() <= self.srank() && !win_fits(self.shapev(), size_spec@)
                    ==> (r matches Ok(out) && out.wf() && out.shapev() =~= windows_empty_shape(
                    self.shapev(),
                    size_spec@,
                ) && out.datav() =~= Seq::<i64>::empty() && out.keysv() is None))
                &&& ((forall|j: int| 0 <= j < size_spec@.len() ==> size_spec@[j] != 0)
                    && size_spec@.len() <= self.srank() && win_fits(self.shapev(), size_spec@)
                    && prod(windows_shape(self.shapev(), size_spec@)) > usize::MAX ==> r
                    == Err::<Array, ArrayError>(ArrayError::SizeOverflow))
                &&& ((forall|j: int| 0 <= j < size_spec@.len() ==> size_spec@[j] != 0)
                    && size_spec@.len() <= self.srank() && win_fits(self.shapev(), size_spec@)
                    && prod(windows_shape(self.shapev(), size_spec@)) <= usize::MAX ==> (r
                    matches Ok(out) && out.wf() && out.shapev() =~= windows_shape(
                    self.shapev(),
                    size_spec@,
                ) && out.datav() == windows_data(self.shapev(), size_spec@, self.datav())
                    && out.keysv() is None))
            }),
            fill matches Some(f) ==> ({
                &&& (size_spec@.len() > self.srank() ==> r == Err::<Array, ArrayError>(
                    ArrayError::RankMismatch,
                ))
                &&& (size_spec@.len() <= self.srank() && (exists|j: int|
                    0 <= j < size_spec@.len() && #[trigger] true_sizes(
                        self.shapev(),
                        size_spec@,
                    )[j] < 1) ==> r == Err::<Array, ArrayError>(ArrayError::ZeroWindow))
                &&& (size_spec@.len() <= self.srank() && (forall|j: int|
                    0 <= j < size_spec@.len() ==> #[trigger] true_sizes(
                        self.shapev(),
                        size_spec@,
                    )[j] >= 1) ==> ({
                    &&& ((exists|j: int|
                        0 <= j < size_spec@.len() && #[trigger] true_sizes(
                            self.shapev(),
                            size_spec@,
                        )[j] % 2 == 0 && self.shapev()[j] == usize::MAX) ==> r == Err::<
                        Array,
                        ArrayError,
                    >(ArrayError::SizeOverflow))
                    &&& ((forall|j: int|
                        0 <= j < size_spec@.len() ==> !(#[trigger] true_sizes(
                            self.shapev(),
                            size_spec@,
                        )[j] % 2 == 0 && self.shapev()[j] == usize::MAX)) ==> ({
                        &&& (prod(fw_shape(self.shapev(), size_spec@)) > usize::MAX ==> r
                            == Err::<Array, ArrayError>(ArrayError::SizeOverflow))
                        &&& (prod(fw_shape(self.shapev(), size_spec@)) <= usize::MAX ==> (r
                            matches Ok(out) && out.wf() && out.shapev() =~= fw_shape(
                            self.shapev(),
                            size_spec@,
                        ) && out.datav() == fw_data(self.shapev(), size_spec@, self.datav(), f)
                            && out.keysv() is None))
                    }))
                }))
            }),
    {
        match fill {
            None => self.windows(size_spec),
            Some(f) => self.filled_windows(size_spec, f),
        }
    }
}


} // verus!
