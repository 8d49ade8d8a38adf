//! Mask: labels every match of one array inside another 1..N in
//! row-major discovery order, never reusing a cell an earlier match
//! already covers.
use vstd::prelude::*;
use crate::ArrayError;
use crate::array::{Array, prod};
use crate::buffer::buf_slice;
use crate::windows::{corner_dims, win_src};
use crate::find::{embed_ok, embed_idx, padded_to, needs_fit, find_data, find_match_at};

verus! {

/// Does the needle match at corner position `c` of the scan, on cells
/// that no earlier match has labeled? An empty needle matches nowhere.
pub open spec fn mask_matches(
    res: Seq<i64>,
    c: int,
    hsh: Seq<usize>,
    ndsh: Seq<usize>,
    hd: Seq<i64>,
    ndd: Seq<i64>,
) -> bool {
    &&& embed_ok(c, hsh, corner_dims(hsh, ndsh))
    &&& prod(ndsh) > 0
    &&& forall|q: int|
        0 <= q < prod(ndsh) ==> res[#[trigger] win_src(
            embed_idx(c, hsh, corner_dims(hsh, ndsh)),
            q,
            hsh,
            ndsh,
        )] == 0
    &&& forall|q: int|
        0 <= q < prod(ndsh) ==> hd[win_src(embed_idx(c, hsh, corner_dims(hsh, ndsh)), q, hsh, ndsh)]
            == #[trigger] ndd[q]
}

/// The label table with one window's cells painted.
pub open spec fn mask_paint(
    res: Seq<i64>,
    p: int,
    hsh: Seq<usize>,
    ndsh: Seq<usize>,
    label: i64,
) -> Seq<i64> {
    Seq::new(
        res.len(),
        |k: int|
            if exists|q: int| 0 <= q < prod(ndsh) && k == #[trigger] win_src(p, q, hsh, ndsh) {
                label
            } else {
                res[k]
            },
    )
}

/// The greedy scan after its first `i` positions: the labels so far
/// and how many matches have been found.
pub open spec fn mask_fold(
    hsh: Seq<usize>,
    ndsh: Seq<usize>,
    hd: Seq<i64>,
    ndd: Seq<i64>,
    i: nat,
) -> (Seq<i64>, nat)
    decreases i,
{
    if i == 0 {
        (Seq::new(prod(hsh), |k: int| 0i64), 0)
    } else {
        let prev = mask_fold(hsh, ndsh, hd, ndd, (i - 1) as nat);
        if mask_matches(prev.0, i - 1, hsh, ndsh, hd, ndd) {
            (
                mask_paint(
                    prev.0,
                    embed_idx(i - 1, hsh, corner_dims(hsh, ndsh)),
                    hsh,
                    ndsh,
                    (prev.1 + 1) as i64,
                ),
                prev.1 + 1,
            )
        } else {
            prev
        }
    }
}

/// The finished mask over the whole haystack shape.
pub open spec fn mask_data(hsh: Seq<usize>, ndsh: Seq<usize>, hd: Seq<i64>, ndd: Seq<i64>)
    -> Seq<i64> {
    mask_fold(hsh, ndsh, hd, ndd, prod(hsh)).0
}

pub proof fn lemma_mask_fold_len(
    hsh: Seq<usize>,
    ndsh: Seq<usize>,
    hd: Seq<i64>,
    ndd: Seq<i64>,
    i: nat,
)
    ensures
        mask_fold(hsh, ndsh, hd, ndd, i).0.len() == prod(hsh),
        mask_fold(hsh, ndsh, hd, ndd, i).1 <= i,
    decreases i,
{
    if i > 0 {
        lemma_mask_fold_len(hsh, ndsh, hd, ndd, (i - 1) as nat);
    }
}

/// A corner the greedy scan accepts is a corner find marks: the mask's
/// match condition contains find's cell-for-cell equality.
pub proof fn lemma_mask_match_is_find(
    hsh: Seq<usize>,
    ndsh: Seq<usize>,
    hd: Seq<i64>,
    ndd: Seq<i64>,
    c: int,
)
    requires
        0 <= c < prod(hsh),
        mask_matches(mask_fold(hsh, ndsh, hd, ndd, c as nat).0, c, hsh, ndsh, hd, ndd),
    ensures
        find_data(hsh, ndsh, hd, ndd)[c] == 1,
{
    let p = embed_idx(c, hsh, corner_dims(hsh, ndsh));
    assert(find_match_at(p, hsh, ndsh, hd, ndd));
}

/// Find/Mask agreement: every cell the finished mask labels non-zero
/// lies inside a window whose corner find marks with one. The mask is
/// a refinement of find: it keeps only non-overlapping matches, and
/// each of them is a find match.
pub proof fn lemma_mask_refines_find(
    hsh: Seq<usize>,
    ndsh: Seq<usize>,
    hd: Seq<i64>,
    ndd: Seq<i64>,
    k: int,
)
    requires
        0 <= k < prod(hsh),
        mask_data(hsh, ndsh, hd, ndd)[k] != 0,
    ensures
        exists|c: int|
            0 <= c < prod(hsh) && #[trigger] find_data(hsh, ndsh, hd, ndd)[c] == 1 && (exists|
                q: int,
            |
                0 <= q < prod(ndsh) && k == #[trigger] win_src(
                    embed_idx(c, hsh, corner_dims(hsh, ndsh)),
                    q,
                    hsh,
                    ndsh,
                )),
{
    lemma_mask_cell_from_match(hsh, ndsh, hd, ndd, prod(hsh), k);
    let c = choose|c: int|
        0 <= c < prod(hsh) && #[trigger] mask_matches(
            mask_fold(hsh, ndsh, hd, ndd, c as nat).0,
            c,
            hsh,
            ndsh,
            hd,
            ndd,
        ) && (exists|q: int|
            0 <= q < prod(ndsh) && k == #[trigger] win_src(
                embed_idx(c, hsh, corner_dims(hsh, ndsh)),
                q,
                hsh,
                ndsh,
            ));
    lemma_mask_match_is_find(hsh, ndsh, hd, ndd, c);
}

/// Non-zero labels only ever come from an accepted corner's window.
pub proof fn lemma_mask_cell_from_match(
    hsh: Seq<usize>,
    ndsh: Seq<usize>,
    hd: Seq<i64>,
    ndd: Seq<i64>,
    i: nat,
    k: int,
)
    requires
        i <= prod(hsh),
        0 <= k < prod(hsh),
        mask_fold(hsh, ndsh, hd, ndd, i).0[k] != 0,
    ensures
        exists|c: int|
            0 <= c < i && #[trigger] mask_matches(
                mask_fold(hsh, ndsh, hd, ndd, c as nat).0,
                c,
                hsh,
                ndsh,
                hd,
                ndd,
            ) && (exists|q: int|
                0 <= q < prod(ndsh) && k == #[trigger] win_src(
                    embed_idx(c, hsh, corner_dims(hsh, ndsh)),
                    q,
                    hsh,
                    ndsh,
                )),
    decreases i,
{
    if i == 0 {
    } else {
        let prev = mask_fold(hsh, ndsh, hd, ndd, (i - 1) as nat);
        if mask_matches(prev.0, i - 1, hsh, ndsh, hd, ndd) {
            let p = embed_idx(i - 1, hsh, corner_dims(hsh, ndsh));
            let painted = mask_paint(prev.0, p, hsh, ndsh, (prev.1 + 1) as i64);
            lemma_mask_fold_len(hsh, ndsh, hd, ndd, (i - 1) as nat);
            if exists|q: int| 0 <= q < prod(ndsh) && k == #[trigger] win_src(p, q, hsh, ndsh) {
                assert(0 <= i - 1 < i && mask_matches(
                    mask_fold(hsh, ndsh, hd, ndd, (i - 1) as nat).0,
                    i - 1,
                    hsh,
                    ndsh,
                    hd,
                    ndd,
                ));
            } else {
                assert(painted[k] == prev.0[k]);
                lemma_mask_cell_from_match(hsh, ndsh, hd, ndd, (i - 1) as nat, k);
            }
        } else {
            lemma_mask_cell_from_match(hsh, ndsh, hd, ndd, (i - 1) as nat, k);
        }
    }
}

/// An empty needle never matches, so the scan never paints.
pub proof fn lemma_mask_fold_empty_needle(
    hsh: Seq<usize>,
    ndsh: Seq<usize>,
    hd: Seq<i64>,
    ndd: Seq<i64>,
    i: nat,
)
    requires
        prod(ndsh) == 0,
    ensures
        mask_fold(hsh, ndsh, hd, ndd, i) == (Seq::new(prod(hsh), |k: int| 0i64), 0nat),
    decreases i,
{
    if i > 0 {
        lemma_mask_fold_empty_needle(hsh, ndsh, hd, ndd, (i - 1) as nat);
    }
}

impl Array {
    /// Does the needle match at corner `p` on still-unlabeled cells?
    fn mask_try(
        res: &Vec<i64>,
        hdata: &[i64],
        nddata: &[i64],
        p: usize,
        hsh: &[usize],
        ndp: &[usize],
        cds: &[usize],
    ) -> (m: bool)
        requires
            ndp@.len() == hsh@.len(),
            cds@ == corner_dims(hsh@, ndp@),
            forall|j: int| 0 <= j < hsh@.len() ==> 1 <= #[trigger] ndp@[j] && ndp@[j] <= hsh@[j],
            p < prod(corner_dims(hsh@, ndp@)),
            prod(hsh@) <= usize::MAX,
            res@.len() == prod(hsh@),
            hdata@.len() == prod(hsh@),
            nddata@.len() == prod(ndp@),
        ensures
            m <==> ((forall|q: int|
                0 <= q < prod(ndp@) ==> res@[#[trigger] win_src(p as int, q, hsh@, ndp@)] == 0)
                && (forall|q: int|
                0 <= q < prod(ndp@) ==> hdata@[win_src(p as int, q, hsh@, ndp@)]
                    == #[trigger] nddata@[q])),
    {
        let nlen: usize = nddata.len();
        let mut q: usize = 0;
        while q < nlen
            invariant
                0 <= q <= nlen,
                ndp@.len() == hsh@.len(),
                cds@ == corner_dims(hsh@, ndp@),
                forall|j: int| 0 <= j < hsh@.len() ==> 1 <= #[trigger] ndp@[j] && ndp@[j]
                    <= hsh@[j],
                p < prod(corner_dims(hsh@, ndp@)),
                prod(hsh@) <= usize::MAX,
                res@.len() == prod(hsh@),
                hdata@.len() == prod(hsh@),
                nlen == nddata@.len(),
                nlen as nat == prod(ndp@),
                forall|u: int|
                    0 <= u < q ==> res@[#[trigger] win_src(p as int, u, hsh@, ndp@)] == 0,
                forall|u: int|
                    0 <= u < q ==> hdata@[win_src(p as int, u, hsh@, ndp@)]
                        == #[trigger] nddata@[u],
            decreases nlen - q,
        {
            let sidx: usize = Self::win_src_exec(p, q, hsh, ndp, cds);
            proof {
                assert(sidx as int == win_src(p as int, q as int, hsh@, ndp@));
            }
            if res[sidx] != 0 || hdata[sidx] != nddata[q] {
                proof {
                    assert(res@[win_src(p as int, q as int, hsh@, ndp@)] != 0 || hdata@[win_src(
                        p as int,
                        q as int,
                        hsh@,
                        ndp@,
                    )] != nddata@[q as int]);
                }
                return false;
            }
            proof {
                assert(res@[win_src(p as int, q as int, hsh@, ndp@)] == 0);
                assert(hdata@[win_src(p as int, q as int, hsh@, ndp@)] == nddata@[q as int]);
            }
            q = q + 1;
        }
        true
    }

    /// Paints the window at corner `p` with one label.
    fn mask_paint_exec(
        res: &mut Vec<i64>,
        p: usize,
        hsh: &[usize],
        ndp: &[usize],
        cds: &[usize],
        label: i64,
    )
        requires
            ndp@.len() == hsh@.len(),
            cds@ == corner_dims(hsh@, ndp@),
            forall|j: int| 0 <= j < hsh@.len() ==> 1 <= #[trigger] ndp@[j] && ndp@[j] <= hsh@[j],
            p < prod(corner_dims(hsh@, ndp@)),
            prod(hsh@) <= usize::MAX,
            prod(ndp@) <= usize::MAX,
            old(res)@.len() == prod(hsh@),
        ensures
            final(res)@ == mask_paint(old(res)@, p as int, hsh@, ndp@, label),
    {
        let ghost res0 = res@;
        let mut q: usize = 0;
        let nlen: usize = {
            proof {
                crate::windows::lemma_prod_pointwise_le(ndp@, hsh@);
            }
            crate::array::prod_all(ndp)
        };
        while q < nlen
            invariant
                0 <= q <= nlen,
                ndp@.len() == hsh@.len(),
                cds@ == corner_dims(hsh@, ndp@),
                forall|j: int| 0 <= j < hsh@.len() ==> 1 <= #[trigger] ndp@[j] && ndp@[j]
                    <= hsh@[j],
                p < prod(corner_dims(hsh@, ndp@)),
                prod(hsh@) <= usize::MAX,
                nlen as nat == prod(ndp@),
                res0.len() == prod(hsh@),
                res@.len() == prod(hsh@),
                forall|k: int|
                    0 <= k < res@.len() ==> res@[k] == (if exists|u: int|
                        0 <= u < q && k == #[trigger] win_src(p as int, u, hsh@, ndp@) {
                        label
                    } else {
                        res0[k]
                    }),
            decreases nlen - q,
        {
            let sidx: usize = Self::win_src_exec(p, q, hsh, ndp, cds);
            let ghost before = res@;
            res.set(sidx, label);
            proof {
                assert(sidx as int == win_src(p as int, q as int, hsh@, ndp@));
                assert forall|k: int| 0 <= k < res@.len() implies res@[k] == (if exists|u: int|
                    0 <= u < q + 1 && k == #[trigger] win_src(p as int, u, hsh@, ndp@) {
                    label
                } else {
                    res0[k]
                }) by {
                    if k == sidx {
                        assert(k == win_src(p as int, q as int, hsh@, ndp@));
                    } else {
                        assert(res@[k] == before[k]);
                    }
                }
            }
            q = q + 1;
        }
        proof {
            assert(res@ =~= mask_paint(res0, p as int, hsh@, ndp@, label));
        }
    }

    /// Labels every occurrence of this array inside `haystack` with
    /// 1..N in row-major discovery order; cells an earlier (lower
    /// numbered) match covers are never reused by a later one. The
    /// result has the haystack's exact shape; a needle that outranks
    /// the haystack is refused, one that pokes out of it labels
    /// nothing.
    #[verifier::rlimit(100)]
    pub fn mask(&self, haystack: &Array) -> (r: Result<Array, ArrayError>)
        requires
            self.wf(),
            haystack.wf(),
            haystack.datav().len() <= i64::MAX,
        ensures
            self.srank() > haystack.srank() ==> r == Err::<Array, ArrayError>(
                ArrayError::RankMismatch,
            ),
            self.srank() <= haystack.srank() && needs_fit(self.shapev(), haystack.shapev())
                ==> (r matches Ok(out) && out.wf() && out.shapev() == haystack.shapev()
                && out.datav() =~= Seq::new(prod(haystack.shapev()), |i: int| 0i64)
                && out.keysv() is None),
            self.srank() <= haystack.srank() && !needs_fit(self.shapev(), haystack.shapev())
                ==> (r matches Ok(out) && out.wf() && out.shapev() == haystack.shapev()
                && out.datav() == mask_data(
                haystack.shapev(),
                padded_to(self.shapev(), haystack.srank()),
                haystack.datav(),
                self.datav(),
            ) && out.keysv() is None),
    {
        let ndrank: usize = self.shape.len();
        let hrank: usize = haystack.shape.len();
        let ghost ndsh = self.shapev();
        let ghost hsh = haystack.shapev();
        if ndrank > hrank {
            return Err(ArrayError::RankMismatch);
        }
        let mut needs: bool = false;
        let mut j: usize = 0;
        while j < ndrank
            invariant
                0 <= j <= ndrank,
                ndrank <= hrank,
                ndrank == ndsh.len(),
                hrank == hsh.len(),
                ndsh == self.shapev(),
                hsh == haystack.shapev(),
                needs <==> (exists|t: int|
                    0 <= t < j && #[trigger] ndsh[ndsh.len() - 1 - t] > hsh[hsh.len() - 1 - t]),
            decreases ndrank - j,
        {
            if self.shape[ndrank - 1 - j] > haystack.shape[hrank - 1 - j] {
                proof {
                    assert(ndsh[ndsh.len() - 1 - j] > hsh[hsh.len() - 1 - j]);
                }
                needs = true;
            }
            j = j + 1;
        }
        proof {
            assert(needs <==> needs_fit(ndsh, hsh));
        }
        let hdata = buf_slice(&haystack.data);
        let nddata = buf_slice(&self.data);
        let hlen: usize = hdata.len();
        let nlen: usize = nddata.len();
        if needs {
            // the needle pokes out: nothing can match
            let mut out: Vec<i64> = Vec::new();
            let mut i: usize = 0;
            while i < hlen
                invariant
                    0 <= i <= hlen,
                    out@.len() == i,
                    forall|t: int| 0 <= t < i ==> out@[t] == 0i64,
                decreases hlen - i,
            {
                out.push(0);
                i = i + 1;
            }
            proof {
                assert(out@ =~= Seq::new(prod(hsh), |i: int| 0i64));
            }
            return Ok(Array::make(haystack.shape_vec(), out));
        }
        // pad the needle with leading unit axes to the haystack's rank
        let mut ndpad: Vec<usize> = Vec::new();
        let mut t: usize = 0;
        while t < hrank - ndrank
            invariant
                0 <= t <= hrank - ndrank,
                ndrank <= hrank,
                ndpad@.len() == t,
                forall|u: int| 0 <= u < t ==> ndpad@[u] == 1usize,
            decreases hrank - ndrank - t,
        {
            ndpad.push(1);
            t = t + 1;
        }
        ndpad.extend_from_slice(self.shape.as_slice());
        let ghost ndp = padded_to(ndsh, hsh.len() as nat);
        proof {
            assert(ndpad@ =~= ndp);
            assert(prod(ndp) == prod(ndsh)) by {
                crate::align::lemma_prod_concat(
                    Seq::new((hsh.len() - ndsh.len()) as nat, |j: int| 1usize),
                    ndsh,
                );
                crate::windows::lemma_prod_ones((hsh.len() - ndsh.len()) as nat);
                assert(ndp =~= Seq::new((hsh.len() - ndsh.len()) as nat, |j: int| 1usize)
                    + ndsh);
                assert(1nat * prod(ndsh) == prod(ndsh)) by (nonlinear_arith);
            }
        }
        if hlen == 0 {
            let out: Vec<i64> = Vec::new();
            proof {
                lemma_mask_fold_len(hsh, ndp, hdata@, nddata@, prod(hsh));
                assert(out@ =~= mask_data(hsh, ndp, hdata@, nddata@));
            }
            return Ok(Array::make(haystack.shape_vec(), out));
        }
        if nlen == 0 {
            // an empty needle matches nowhere
            let mut out: Vec<i64> = Vec::new();
            let mut i: usize = 0;
            while i < hlen
                invariant
                    0 <= i <= hlen,
                    out@.len() == i,
                    forall|t: int| 0 <= t < i ==> out@[t] == 0i64,
                decreases hlen - i,
            {
                out.push(0);
                i = i + 1;
            }
            proof {
                lemma_mask_fold_empty_needle(hsh, ndp, hdata@, nddata@, prod(hsh));
                assert(out@ =~= mask_data(hsh, ndp, hdata@, nddata@));
            }
            return Ok(Array::make(haystack.shape_vec(), out));
        }
        proof {
            assert forall|u: int| 0 <= u < hsh.len() implies 1 <= #[trigger] ndpad@[u]
                && ndpad@[u] <= hsh[u] by {
                if ndpad@[u] == 0 {
                    crate::array::lemma_prod_has_zero(ndp, u);
                }
                if u < hsh.len() - ndsh.len() {
                    assert(ndpad@[u] == 1);
                    if hsh[u] == 0 {
                        crate::array::lemma_prod_has_zero(hsh, u);
                    }
                } else {
                    let t = hsh.len() - 1 - u;
                    assert(ndpad@[u] == ndsh[ndsh.len() - 1 - t]);
                    assert(!(ndsh[ndsh.len() - 1 - t] > hsh[hsh.len() - 1 - t]));
                }
            }
        }
        let cds = Self::corner_dims_exec(haystack.shape.as_slice(), ndpad.as_slice());
        let ghost cd = corner_dims(hsh, ndp);
        proof {
            assert forall|u: int| 0 <= u < hsh.len() implies #[trigger] cd[u] <= hsh[u] by {
                assert(ndpad@[u] >= 1);
            }
        }
        let mut res: Vec<i64> = Vec::new();
        let mut z: usize = 0;
        while z < hlen
            invariant
                0 <= z <= hlen,
                res@.len() == z,
                forall|t: int| 0 <= t < z ==> res@[t] == 0i64,
            decreases hlen - z,
        {
            res.push(0);
            z = z + 1;
        }
        proof {
            assert(res@ =~= Seq::new(prod(hsh), |k: int| 0i64));
        }
        let mut n: usize = 0;
        let mut i: usize = 0;
        while i < hlen
            invariant
                0 <= i <= hlen,
                n <= i,
                hlen as nat == prod(hsh),
                nlen as nat == prod(ndp),
                nlen >= 1,
                hlen <= i64::MAX,
                hlen == hdata@.len(),
                nlen == nddata@.len(),
                ndpad@ == ndp,
                ndp.len() == hsh.len(),
                cds@ == cd,
                cd == corner_dims(hsh, ndp),
                hsh == haystack.shapev(),
                hdata@ == haystack.datav(),
                nddata@ == self.datav(),
                prod(hsh) <= usize::MAX,
                forall|u: int| 0 <= u < hsh.len() ==> 1 <= #[trigger] ndpad@[u] && ndpad@[u]
                    <= hsh[u],
                forall|u: int| 0 <= u < hsh.len() ==> #[trigger] cd[u] <= hsh[u],
                res@.len() == prod(hsh),
                (res@, n as nat) == mask_fold(hsh, ndp, hdata@, nddata@, i as nat),
            decreases hlen - i,
        {
            let ghost prev = res@;
            let (ok, p): (bool, usize) = Self::embed_exec(
                i,
                haystack.shape.as_slice(),
                cds.as_slice(),
            );
            let mut matched: bool = false;
            if ok {
                matched = Self::mask_try(
                    &res,
                    hdata,
                    nddata,
                    p,
                    haystack.shape.as_slice(),
                    ndpad.as_slice(),
                    cds.as_slice(),
                );
            }
            proof {
                assert(matched <==> mask_matches(prev, i as int, hsh, ndp, hdata@, nddata@));
            }
            if matched {
                n = n + 1;
                Self::mask_paint_exec(
                    &mut res,
                    p,
                    haystack.shape.as_slice(),
                    ndpad.as_slice(),
                    cds.as_slice(),
                    n as i64,
                );
                proof {
                    assert((res@, n as nat) == mask_fold(hsh, ndp, hdata@, nddata@, (i
                        + 1) as nat));
                }
            } else {
                proof {
                    assert((res@, n as nat) == mask_fold(hsh, ndp, hdata@, nddata@, (i
                        + 1) as nat));
                }
            }
            i = i + 1;
        }
        proof {
            assert(res@ == mask_data(hsh, ndp, hdata@, nddata@));
        }
        Ok(Array::make(haystack.shape_vec(), res))
    }
}

} // verus!
