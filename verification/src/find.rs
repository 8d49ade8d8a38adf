//! Find: a boolean mask of every position where one array occurs as a
//! contiguous sub-block of another.
use vstd::prelude::*;
use crate::ArrayError;
use crate::array::{Array, prod, prod_all, checked_prod, lemma_prod_skip_unfold,
    lemma_prod_sub_pos, lemma_prod_part_le};
use crate::buffer::buf_slice;
use crate::windows::{corner_dims, win_src, lemma_prod_pointwise_le};

verus! {

/// Whether a flat position of the outer grid lies inside the inner
/// grid aligned at the origin, and where; axis by axis, the outer
/// coordinate must stay below the inner extent.
pub open spec fn embed_ok(i: int, outer: Seq<usize>, inner: Seq<usize>) -> bool
    decreases outer.len(),
{
    if outer.len() == 0 {
        true
    } else {
        let orest = prod(outer.drop_first());
        i / (orest as int) < inner[0] && embed_ok(
            i % (orest as int),
            outer.drop_first(),
            inner.drop_first(),
        )
    }
}

/// The matching flat position of the inner grid.
pub open spec fn embed_idx(i: int, outer: Seq<usize>, inner: Seq<usize>) -> int
    decreases outer.len(),
{
    if outer.len() == 0 {
        0
    } else {
        let orest = prod(outer.drop_first());
        let irest = prod(inner.drop_first());
        (i / (orest as int)) * (irest as int) + embed_idx(
            i % (orest as int),
            outer.drop_first(),
            inner.drop_first(),
        )
    }
}

/// Does the needle match the haystack block at corner position `p`?
/// An empty needle matches nowhere.
pub open spec fn find_match_at(
    p: int,
    hsh: Seq<usize>,
    ndsh: Seq<usize>,
    hdata: Seq<i64>,
    nddata: Seq<i64>,
) -> bool {
    prod(ndsh) > 0 && (forall|q: int|
        0 <= q < prod(ndsh) ==> hdata[win_src(p, q, hsh, ndsh)] == #[trigger] nddata[q])
}

/// The find mask over the whole haystack shape: one where a window
/// matches, zero elsewhere (and everywhere beyond the corner grid).
pub open spec fn find_data(
    hsh: Seq<usize>,
    ndsh: Seq<usize>,
    hdata: Seq<i64>,
    nddata: Seq<i64>,
) -> Seq<i64> {
    Seq::new(
        prod(hsh),
        |i: int|
            if embed_ok(i, hsh, corner_dims(hsh, ndsh)) && find_match_at(
                embed_idx(i, hsh, corner_dims(hsh, ndsh)),
                hsh,
                ndsh,
                hdata,
                nddata,
            ) {
                1i64
            } else {
                0i64
            },
    )
}

impl Array {
    /// Locates a flat outer position inside the aligned inner grid.
    pub(crate) fn embed_exec(i: usize, outer: &[usize], inner: &[usize]) -> (r: (bool, usize))
        requires
            inner@.len() == outer@.len(),
            forall|j: int| 0 <= j < outer@.len() ==> #[trigger] inner@[j] <= outer@[j],
            0 <= i < prod(outer@),
            prod(outer@) <= usize::MAX,
        ensures
            r.0 == embed_ok(i as int, outer@, inner@),
            r.0 ==> r.1 as int == embed_idx(i as int, outer@, inner@) && r.1 < prod(inner@),
        decreases outer@.len(),
    {
        let l: usize = outer.len();
        if l == 0 {
            proof {
                assert(prod(inner@) == 1);
            }
            return (true, 0);
        }
        let os = vstd::slice::slice_subrange(outer, 1, l);
        let is_ = vstd::slice::slice_subrange(inner, 1, l);
        proof {
            assert(os@ =~= outer@.drop_first());
            assert(is_@ =~= inner@.drop_first());
            assert forall|j: int| 0 <= j < os@.len() implies #[trigger] is_@[j] <= os@[j] by {
                assert(is_@[j] == inner@[j + 1] && os@[j] == outer@[j + 1]);
            }
            lemma_prod_skip_unfold(outer@, 0);
            assert(outer@.skip(0) =~= outer@);
            assert(outer@.skip(1) =~= outer@.drop_first());
            assert(prod(outer@) == (outer@[0] as nat) * prod(outer@.drop_first()));
            // a nonempty outer grid has positive extents on every axis
            crate::array::lemma_prod_sub_pos(outer@, 1);
            assert(outer@.take(1) =~= seq![outer@[0]]);
            assert(seq![outer@[0]].drop_first() =~= Seq::<usize>::empty());
            assert(prod(seq![outer@[0]]) == (outer@[0] as nat) * prod(
                seq![outer@[0]].drop_first(),
            ));
            lemma_prod_part_le(outer@, 1);
            assert(i < (prod(outer@.drop_first()) as int) * (outer@[0] as int))
                by (nonlinear_arith)
                requires
                    i < prod(outer@),
                    prod(outer@) == (outer@[0] as nat) * prod(outer@.drop_first()),
            ;
            assert(prod(outer@.drop_first()) >= 1) by (nonlinear_arith)
                requires
                    prod(outer@) >= 1,
                    prod(outer@) == (outer@[0] as nat) * prod(outer@.drop_first()),
                    outer@[0] >= 0,
                    prod(outer@.drop_first()) >= 0,
            ;
            vstd::arithmetic::div_mod::lemma_mod_bound(
                i as int,
                prod(outer@.drop_first()) as int,
            );
            vstd::arithmetic::div_mod::lemma_div_pos_is_pos(
                i as int,
                prod(outer@.drop_first()) as int,
            );
            vstd::arithmetic::div_mod::lemma_multiply_divide_lt(
                i as int,
                prod(outer@.drop_first()) as int,
                outer@[0] as int,
            );
        }
        let orest: usize = prod_all(os);
        let c: usize = i / orest;
        let rem: usize = i % orest;
        if c >= inner[0] {
            return (false, 0);
        }
        let (ok, sub): (bool, usize) = Self::embed_exec(rem, os, is_);
        if !ok {
            return (false, 0);
        }
        proof {
            lemma_prod_skip_unfold(inner@, 0);
            assert(inner@.skip(0) =~= inner@);
            assert(inner@.skip(1) =~= inner@.drop_first());
            lemma_prod_pointwise_le(inner@, outer@);
            assert(c * prod(inner@.drop_first()) + sub < prod(inner@) && 0 <= c * prod(
                inner@.drop_first(),
            )) by (nonlinear_arith)
                requires
                    c < inner@[0],
                    sub < prod(inner@.drop_first()),
                    prod(inner@) == (inner@[0] as nat) * prod(inner@.drop_first()),
                    c >= 0,
                    sub >= 0,
            ;
        }
        proof {
            lemma_prod_pointwise_le(is_@, os@);
        }
        let irest: usize = prod_all(is_);
        (true, c * irest + sub)
    }
}

/// A shape padded with leading unit axes up to rank `r`.
pub open spec fn padded_to(sh: Seq<usize>, r: nat) -> Seq<usize> {
    Seq::new((r - sh.len()) as nat, |j: int| 1usize) + sh
}

/// Does the needle poke out of the haystack along some trailing-
/// aligned axis, or outrank it?
pub open spec fn needs_fit(ndsh: Seq<usize>, hsh: Seq<usize>) -> bool {
    ||| ndsh.len() > hsh.len()
    ||| exists|j: int|
        0 <= j < ndsh.len() && j < hsh.len() && #[trigger] ndsh[ndsh.len() - 1 - j] > hsh[hsh.len()
            - 1 - j]
}

/// The haystack grown to a target shape, the original block at the
/// origin and the fill value beyond it.
pub open spec fn grown_data(
    tsh: Seq<usize>,
    hsh: Seq<usize>,
    hdata: Seq<i64>,
    fill: i64,
) -> Seq<i64> {
    Seq::new(
        prod(tsh),
        |i: int|
            if embed_ok(i, tsh, hsh) {
                hdata[embed_idx(i, tsh, hsh)]
            } else {
                fill
            },
    )
}

impl Array {
    /// The match mask of a full-rank needle over a haystack it fits.
    fn find_mask(hsh: &[usize], hdata: &[i64], ndsh: &[usize], nddata: &[i64]) -> (out: Vec<
        i64,
    >)
        requires
            ndsh@.len() == hsh@.len(),
            forall|j: int| 0 <= j < hsh@.len() ==> #[trigger] ndsh@[j] <= hsh@[j],
            hdata@.len() == prod(hsh@),
            nddata@.len() == prod(ndsh@),
            prod(hsh@) <= usize::MAX,
        ensures
            out@ == find_data(hsh@, ndsh@, hdata@, nddata@),
    {
        let hlen: usize = hdata.len();
        let nlen: usize = nddata.len();
        proof {
            lemma_prod_pointwise_le(ndsh@, hsh@);
        }
        let mut out: Vec<i64> = Vec::new();
        if nlen == 0 {
            let mut i: usize = 0;
            while i < hlen
                invariant
                    0 <= i <= hlen,
                    nddata@.len() == 0,
                    prod(ndsh@) == 0,
                    hlen as nat == prod(hsh@),
                    out@.len() == i,
                    forall|t: int| 0 <= t < i ==> out@[t] == 0i64,
                decreases hlen - i,
            {
                out.push(0);
                i = i + 1;
            }
            proof {
                assert(out@ =~= find_data(hsh@, ndsh@, hdata@, nddata@));
            }
            return out;
        }
        proof {
            assert forall|j: int| 0 <= j < ndsh@.len() implies 1 <= #[trigger] ndsh@[j] by {
                if ndsh@[j] == 0 {
                    crate::array::lemma_prod_has_zero(ndsh@, j);
                }
            }
        }
        let cds = Self::corner_dims_exec(hsh, ndsh);
        let ghost cd = corner_dims(hsh@, ndsh@);
        proof {
            assert forall|j: int| 0 <= j < hsh@.len() implies #[trigger] cd[j] <= hsh@[j] by {
                assert(ndsh@[j] >= 1);
            }
            lemma_prod_pointwise_le(cd, hsh@);
        }
        let mut i: usize = 0;
        while i < hlen
            invariant
                0 <= i <= hlen,
                hlen as nat == prod(hsh@),
                nlen as nat == prod(ndsh@),
                nlen >= 1,
                hlen == hdata@.len(),
                nlen == nddata@.len(),
                ndsh@.len() == hsh@.len(),
                cds@ == cd,
                cd == corner_dims(hsh@, ndsh@),
                prod(hsh@) <= usize::MAX,
                prod(cd) <= prod(hsh@),
                forall|j: int| 0 <= j < hsh@.len() ==> #[trigger] ndsh@[j] <= hsh@[j],
                forall|j: int| 0 <= j < ndsh@.len() ==> 1 <= #[trigger] ndsh@[j],
                forall|j: int| 0 <= j < hsh@.len() ==> #[trigger] cd[j] <= hsh@[j],
                out@.len() == i,
                forall|t: int| 0 <= t < i ==> out@[t] == find_data(hsh@, ndsh@, hdata@, nddata@)[t],
            decreases hlen - i,
        {
            let (ok, p): (bool, usize) = Self::embed_exec(i, hsh, cds.as_slice());
            let mut v: i64 = 0;
            if ok {
                let mut matches: bool = true;
                let mut q: usize = 0;
                while q < nlen
                    invariant
                        0 <= q <= nlen,
                        hlen as nat == prod(hsh@),
                        nlen as nat == prod(ndsh@),
                        hlen == hdata@.len(),
                        nlen == nddata@.len(),
                        ndsh@.len() == hsh@.len(),
                        cds@ == cd,
                        cd == corner_dims(hsh@, ndsh@),
                        prod(hsh@) <= usize::MAX,
                        p < prod(cd),
                        forall|j: int| 0 <= j < hsh@.len() ==> 1 <= #[trigger] ndsh@[j]
                            && ndsh@[j] <= hsh@[j],
                        matches <==> (forall|u: int|
                            0 <= u < q ==> hdata@[win_src(p as int, u, hsh@, ndsh@)]
                                == #[trigger] nddata@[u]),
                    decreases nlen - q,
                {
                    let sidx: usize = Self::win_src_exec(p, q, hsh, ndsh, cds.as_slice());
                    if hdata[sidx] != nddata[q] {
                        matches = false;
                    } else {
                        if matches {
                            proof {
                                assert(forall|u: int|
                                    0 <= u < q + 1 ==> hdata@[win_src(p as int, u, hsh@, ndsh@)]
                                        == #[trigger] nddata@[u]);
                            }
                        }
                    }
                    q = q + 1;
                }
                if matches {
                    v = 1;
                }
                proof {
                    assert(v == 1i64 <==> find_match_at(p as int, hsh@, ndsh@, hdata@, nddata@));
                }
            }
            out.push(v);
            proof {
                assert(out@[i as int] == find_data(hsh@, ndsh@, hdata@, nddata@)[i as int]);
            }
            i = i + 1;
        }
        proof {
            assert(out@ =~= find_data(hsh@, ndsh@, hdata@, nddata@));
        }
        out
    }
}


impl Array {
    /// Marks every position of `searched` where this array occurs as
    /// a contiguous sub-block, over the searched array's full shape.
    /// A needle that pokes out of the haystack matches nowhere unless
    /// a fill value lets the haystack grow to fit it first.
    #[verifier::rlimit(100)]
    pub fn find(&self, searched: &Array, fill: Option<i64>) -> (r: Result<Array, ArrayError>)
        requires
            self.wf(),
            searched.wf(),
        ensures
            !needs_fit(self.shapev(), searched.shapev()) ==> (r matches Ok(out) && out.wf()
                && out.shapev() == searched.shapev() && out.datav() == find_data(
                searched.shapev(),
                padded_to(self.shapev(), searched.srank()),
                searched.datav(),
                self.datav(),
            ) && out.keysv() is None),
            needs_fit(self.shapev(), searched.shapev()) && fill is None ==> (r matches Ok(out)
                && out.wf() && out.shapev() == searched.shapev() && out.datav() =~= Seq::new(
                prod(searched.shapev()),
                |i: int| 0i64,
            ) && out.keysv() is None),
            needs_fit(self.shapev(), searched.shapev()) ==> (fill matches Some(f) ==> ({
                let r2 = if self.srank() >= searched.srank() {
                    self.srank()
                } else {
                    searched.srank()
                };
                let hp = padded_to(searched.shapev(), r2);
                let np = padded_to(self.shapev(), r2);
                let tsh = Seq::new(
                    r2,
                    |j: int|
                        if hp[j] >= np[j] {
                            hp[j]
                        } else {
                            np[j]
                        },
                );
                &&& (prod(tsh) > usize::MAX ==> r == Err::<Array, ArrayError>(
                    ArrayError::SizeOverflow,
                ))
                &&& (prod(tsh) <= usize::MAX ==> (r matches Ok(out) && out.wf() && out.shapev()
                    =~= tsh && out.datav() == find_data(
                    tsh,
                    np,
                    grown_data(tsh, hp, searched.datav(), f),
                    self.datav(),
                ) && out.keysv() is None))
            })),
    {
        let ndrank: usize = self.shape.len();
        let hrank: usize = searched.shape.len();
        let ghost ndsh = self.shapev();
        let ghost hsh = searched.shapev();
        let mut needs: bool = ndrank > hrank;
        if !needs {
            let mut j: usize = 0;
            while j < ndrank
                invariant
                    0 <= j <= ndrank,
                    ndrank <= hrank,
                    ndrank == ndsh.len(),
                    hrank == hsh.len(),
                    ndsh == self.shapev(),
                    hsh == searched.shapev(),
                    needs <==> (exists|t: int|
                        0 <= t < j && #[trigger] ndsh[ndsh.len() - 1 - t] > hsh[hsh.len() - 1
                            - t]),
                decreases ndrank - j,
            {
                if self.shape[ndrank - 1 - j] > searched.shape[hrank - 1 - j] {
                    proof {
                        assert(ndsh[ndsh.len() - 1 - j] > hsh[hsh.len() - 1 - j]);
                    }
                    needs = true;
                }
                j = j + 1;
            }
        }
        proof {
            assert(needs <==> needs_fit(ndsh, hsh));
        }
        let hdata = buf_slice(&searched.data);
        let nddata = buf_slice(&self.data);
        let hlen: usize = hdata.len();
        if !needs {
            // the needle fits: pad it with leading unit axes and match
            let mut ndpad: Vec<usize> = Vec::new();
            let mut t: usize = 0;
            while t < hrank - ndrank
                invariant
                    0 <= t <= hrank - ndrank,
                    ndrank <= hrank,
                    ndpad@.len() == t,
                    forall|u: int| 0 <= u < t ==> ndpad@[u] == 1usize,
                decreases hrank - ndrank - t,
            {
                ndpad.push(1);
                t = t + 1;
            }
            ndpad.extend_from_slice(self.shape.as_slice());
            proof {
                assert(ndpad@ =~= padded_to(ndsh, hsh.len() as nat));
            }
            if hlen == 0 {
                let out: Vec<i64> = Vec::new();
                proof {
                    assert(out@ =~= find_data(hsh, padded_to(ndsh, hsh.len() as nat), hdata@,
                        nddata@));
                }
                return Ok(Array::make(searched.shape_vec(), out));
            }
            proof {
                assert forall|u: int| 0 <= u < hsh.len() implies #[trigger] ndpad@[u]
                    <= hsh[u] by {
                    if u < hsh.len() - ndsh.len() {
                        assert(ndpad@[u] == 1);
                        if hsh[u] == 0 {
                            crate::array::lemma_prod_has_zero(hsh, u);
                        }
                    } else {
                        let t = hsh.len() - 1 - u;
                        assert(ndpad@[u] == ndsh[ndsh.len() - 1 - t]);
                        assert(!(ndsh[ndsh.len() - 1 - t] > hsh[hsh.len() - 1 - t]));
                    }
                }
                assert(prod(ndpad@) == prod(ndsh)) by {
                    crate::align::lemma_prod_concat(
                        Seq::new((hsh.len() - ndsh.len()) as nat, |j: int| 1usize),
                        ndsh,
                    );
                    crate::windows::lemma_prod_ones((hsh.len() - ndsh.len()) as nat);
                    assert(ndpad@ =~= Seq::new((hsh.len() - ndsh.len()) as nat, |j: int| 1usize)
                        + ndsh);
                    assert(1nat * prod(ndsh) == prod(ndsh)) by (nonlinear_arith);
                }
            }
            let mask = Self::find_mask(
                searched.shape.as_slice(),
                hdata,
                ndpad.as_slice(),
                nddata,
            );
            return Ok(Array::make(searched.shape_vec(), mask));
        }
        match fill {
            None => {
                // no way to grow the haystack: nothing matches
                let mut out: Vec<i64> = Vec::new();
                let mut i: usize = 0;
                while i < hlen
                    invariant
                        0 <= i <= hlen,
                        out@.len() == i,
                        forall|t: int| 0 <= t < i ==> out@[t] == 0i64,
                    decreases hlen - i,
                {
                    out.push(0);
                    i = i + 1;
                }
                proof {
                    assert(out@ =~= Seq::new(prod(hsh), |i: int| 0i64));
                }
                Ok(Array::make(searched.shape_vec(), out))
            },
            Some(f) => {
                // grow the haystack to hold the needle, then match
                let r2: usize = if ndrank >= hrank {
                    ndrank
                } else {
                    hrank
                };
                let mut hp: Vec<usize> = Vec::new();
                let mut np: Vec<usize> = Vec::new();
                let mut t: usize = 0;
                while t < r2 - hrank
                    invariant
                        0 <= t <= r2 - hrank,
                        hrank <= r2,
                        hp@.len() == t,
                        forall|u: int| 0 <= u < t ==> hp@[u] == 1usize,
                    decreases r2 - hrank - t,
                {
                    hp.push(1);
                    t = t + 1;
                }
                hp.extend_from_slice(searched.shape.as_slice());
                let mut t2: usize = 0;
                while t2 < r2 - ndrank
                    invariant
                        0 <= t2 <= r2 - ndrank,
                        ndrank <= r2,
                        np@.len() == t2,
                        forall|u: int| 0 <= u < t2 ==> np@[u] == 1usize,
                    decreases r2 - ndrank - t2,
                {
                    np.push(1);
                    t2 = t2 + 1;
                }
                np.extend_from_slice(self.shape.as_slice());
                let ghost hpg = padded_to(hsh, r2 as nat);
                let ghost npg = padded_to(ndsh, r2 as nat);
                proof {
                    assert(hp@ =~= hpg);
                    assert(np@ =~= npg);
                }
                let mut tsh: Vec<usize> = Vec::new();
                let mut t3: usize = 0;
                while t3 < r2
                    invariant
                        0 <= t3 <= r2,
                        hp@.len() == r2,
                        np@.len() == r2,
                        hp@ == hpg,
                        np@ == npg,
                        tsh@.len() == t3,
                        forall|u: int|
                            0 <= u < t3 ==> tsh@[u] == (if hpg[u] >= npg[u] {
                                hpg[u]
                            } else {
                                npg[u]
                            }),
                    decreases r2 - t3,
                {
                    let hv: usize = hp[t3];
                    let nv: usize = np[t3];
                    tsh.push(if hv >= nv {
                        hv
                    } else {
                        nv
                    });
                    t3 = t3 + 1;
                }
                let ghost tshg = Seq::new(
                    r2 as nat,
                    |j: int|
                        if hpg[j] >= npg[j] {
                            hpg[j]
                        } else {
                            npg[j]
                        },
                );
                proof {
                    assert(tsh@ =~= tshg);
                }
                let total: usize = match checked_prod(tsh.as_slice()) {
                    Some(v) => v,
                    None => {
                        return Err(ArrayError::SizeOverflow);
                    },
                };
                // lay the haystack at the origin of the grown block
                let mut grown: Vec<i64> = Vec::new();
                let mut i: usize = 0;
                proof {
                    assert(prod(hpg) == prod(hsh)) by {
                        crate::align::lemma_prod_concat(
                            Seq::new((r2 - hsh.len()) as nat, |j: int| 1usize),
                            hsh,
                        );
                        crate::windows::lemma_prod_ones((r2 - hsh.len()) as nat);
                        assert(1nat * prod(hsh) == prod(hsh)) by (nonlinear_arith);
                    }
                }
                while i < total
                    invariant
                        0 <= i <= total,
                        total as nat == prod(tshg),
                        tsh@ == tshg,
                        hp@ == hpg,
                        hpg.len() == tshg.len(),
                        forall|u: int| 0 <= u < tshg.len() ==> #[trigger] hpg[u] <= tshg[u],
                        prod(hpg) == prod(hsh),
                        hlen == hdata@.len(),
                        hdata@.len() == prod(hsh),
                        grown@.len() == i,
                        forall|t: int|
                            0 <= t < i ==> grown@[t] == grown_data(tshg, hpg, hdata@, f)[t],
                    decreases total - i,
                {
                    let (ok, src): (bool, usize) = Self::embed_exec(
                        i,
                        tsh.as_slice(),
                        hp.as_slice(),
                    );
                    if ok {
                        grown.push(hdata[src]);
                    } else {
                        grown.push(f);
                    }
                    i = i + 1;
                }
                proof {
                    assert(grown@ =~= grown_data(tshg, hpg, hdata@, f));
                    assert forall|u: int| 0 <= u < tshg.len() implies #[trigger] np@[u]
                        <= tshg[u] by {}
                    assert(prod(npg) == prod(ndsh)) by {
                        crate::align::lemma_prod_concat(
                            Seq::new((r2 - ndsh.len()) as nat, |j: int| 1usize),
                            ndsh,
                        );
                        crate::windows::lemma_prod_ones((r2 - ndsh.len()) as nat);
                        assert(1nat * prod(ndsh) == prod(ndsh)) by (nonlinear_arith);
                    }
                }
                let mask = Self::find_mask(
                    tsh.as_slice(),
                    grown.as_slice(),
                    np.as_slice(),
                    nddata,
                );
                Ok(Array::make(tsh, mask))
            },
        }
    }
}


} // verus!
