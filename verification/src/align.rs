//! The shape and broadcast aligner: makes two arrays agree on a
//! leading "depth" prefix by stripping unit axes and tiling the
//! shallower operand, the one place broadcasting lives.
use vstd::prelude::*;
use crate::ArrayError;
use crate::array::{Array, prod};
use crate::buffer::buf_dup;
use crate::reshape::{repeat_whole, lemma_repeat_whole_len};

verus! {

/// Do the leading `ad` dimensions of one shape agree with the leading
/// `bd` of the other, as far as both go?
pub open spec fn prefixes_match(a: Seq<usize>, ad: int, b: Seq<usize>, bd: int) -> bool {
    forall|j: int| 0 <= j < ad && j < bd ==> a[j] == b[j]
}

/// How many leading unit axes may be stripped, limited by the depth.
pub open spec fn lead_ones(s: Seq<usize>, d: int) -> int
    decreases s.len(),
{
    if d <= 0 || s.len() == 0 || s[0] != 1 {
        0
    } else {
        1 + lead_ones(s.drop_first(), d - 1)
    }
}

pub proof fn lemma_lead_ones_bound(s: Seq<usize>, d: int)
    ensures
        0 <= lead_ones(s, d) <= s.len(),
        d >= 0 ==> lead_ones(s, d) <= d,
    decreases s.len(),
{
    if !(d <= 0 || s.len() == 0 || s[0] != 1) {
        lemma_lead_ones_bound(s.drop_first(), d - 1);
    }
}

/// Stripping leading unit axes keeps the element count.
pub proof fn lemma_prod_strip_ones(s: Seq<usize>, k: int)
    requires
        0 <= k <= s.len(),
        forall|j: int| 0 <= j < k ==> s[j] == 1,
    ensures
        prod(s.skip(k)) == prod(s),
    decreases k,
{
    if k > 0 {
        assert(prod(s) == (s[0] as nat) * prod(s.drop_first()));
        assert(1nat * prod(s.drop_first()) == prod(s.drop_first())) by (nonlinear_arith);
        assert(s.skip(k) =~= s.drop_first().skip(k - 1));
        lemma_prod_strip_ones(s.drop_first(), k - 1);
    } else {
        assert(s.skip(0) =~= s);
    }
}

/// The data of an array tiled under new leading axes, innermost tile
/// first: `dims` lists the new leading dimensions outermost first.
pub open spec fn tiled_data(data: Seq<i64>, dims: Seq<usize>) -> Seq<i64>
    decreases dims.len(),
{
    if dims.len() == 0 {
        data
    } else {
        repeat_whole(tiled_data(data, dims.drop_first()), dims[0] as nat)
    }
}

pub proof fn lemma_tiled_data_len(data: Seq<i64>, dims: Seq<usize>)
    ensures
        tiled_data(data, dims).len() == prod(dims) * data.len(),
    decreases dims.len(),
{
    if dims.len() == 0 {
        assert(1nat * data.len() == data.len()) by (nonlinear_arith);
    } else {
        lemma_tiled_data_len(data, dims.drop_first());
        lemma_repeat_whole_len(tiled_data(data, dims.drop_first()), dims[0] as nat);
        assert((dims[0] as nat) * (prod(dims.drop_first()) * data.len()) == ((dims[0] as nat)
            * prod(dims.drop_first())) * data.len()) by (nonlinear_arith);
    }
}

/// Does tiling an array of `len` elements under the given new leading
/// dimensions stay addressable at every step (dimensions are applied
/// innermost first)?
pub open spec fn tile_fits(dims: Seq<usize>, len: nat) -> bool {
    forall|j: int| 0 <= j <= dims.len() ==> prod(#[trigger] dims.skip(j)) * len <= usize::MAX
}

impl Array {
    /// Tiles this array under the new leading axes `dims` (outermost
    /// first): the whole buffer is repeated for each new dimension and
    /// the dimension is pushed onto the front of the shape.
    fn tile_under(&mut self, dims: &[usize]) -> (r: Result<(), ArrayError>)
        requires
            old(self).wf(),
        ensures
            final(self).wf(),
            final(self).keysv() == old(self).keysv(),
            tile_fits(dims@, old(self).datav().len()) ==> r is Ok && final(self).shapev() == dims@
                + old(self).shapev() && final(self).datav() == tiled_data(
                old(self).datav(),
                dims@,
            ),
            !tile_fits(dims@, old(self).datav().len()) ==> r == Err::<(), ArrayError>(
                ArrayError::SizeOverflow,
            ) && final(self).shapev() == old(self).shapev() && final(self).datav() == old(
                self,
            ).datav(),
    {
        // check every intermediate size before touching the buffer
        let base: usize = self.element_count();
        let mut acc: usize = base;
        let mut j: usize = dims.len();
        proof {
            assert(dims@.skip(dims@.len() as int) =~= Seq::<usize>::empty());
            assert(prod(dims@.skip(dims@.len() as int)) * base == base) by (nonlinear_arith)
                requires
                    prod(Seq::<usize>::empty()) == 1,
            ;
        }
        while j > 0
            invariant
                0 <= j <= dims@.len(),
                acc as nat == prod(dims@.skip(j as int)) * (base as nat),
                base == old(self).datav().len(),
                forall|t: int| j <= t <= dims@.len() ==> prod(#[trigger] dims@.skip(t)) * (
                base as nat) <= usize::MAX,
            decreases j,
        {
            proof {
                assert(dims@.skip(j - 1).drop_first() =~= dims@.skip(j as int));
                assert(prod(dims@.skip(j - 1)) == (dims@[j - 1] as nat) * prod(
                    dims@.skip(j as int),
                ));
                assert((dims@[j - 1] as nat) * (prod(dims@.skip(j as int)) * (base as nat)) == ((
                dims@[j - 1] as nat) * prod(dims@.skip(j as int))) * (base as nat))
                    by (nonlinear_arith);
            }
            match dims[j - 1].checked_mul(acc) {
                Some(v) => {
                    acc = v;
                },
                None => {
                    proof {
                        assert(!tile_fits(dims@, old(self).datav().len()));
                    }
                    return Err(ArrayError::SizeOverflow);
                },
            }
            j = j - 1;
        }
        proof {
            assert forall|t: int| 0 <= t <= dims@.len() implies prod(#[trigger] dims@.skip(t)) * (
            base as nat) <= usize::MAX by {
            }
            assert(tile_fits(dims@, old(self).datav().len()));
        }
        // tile, innermost new axis first
        let mut k: usize = dims.len();
        while k > 0
            invariant
                0 <= k <= dims@.len(),
                self.wf(),
                self.keysv() == old(self).keysv(),
                base == old(self).datav().len(),
                tile_fits(dims@, base as nat),
                self.shapev() == dims@.skip(k as int) + old(self).shapev(),
                self.datav() == tiled_data(old(self).datav(), dims@.skip(k as int)),
            decreases k,
        {
            let d: usize = dims[k - 1];
            proof {
                assert(dims@.skip(k - 1).drop_first() =~= dims@.skip(k as int));
                assert(prod(dims@.skip(k - 1)) == (dims@[k - 1] as nat) * prod(
                    dims@.skip(k as int),
                ));
                lemma_tiled_data_len(old(self).datav(), dims@.skip(k as int));
                assert((d as nat) * (prod(dims@.skip(k as int)) * (base as nat)) == prod(
                    dims@.skip(k - 1),
                ) * (base as nat)) by (nonlinear_arith)
                    requires
                        prod(dims@.skip(k - 1)) == (d as nat) * prod(dims@.skip(k as int)),
                ;
            }
            self.reshape_scalar_integer(d);
            proof {
                assert(self.shapev() =~= dims@.skip(k - 1) + old(self).shapev());
                assert(self.datav() == tiled_data(old(self).datav(), dims@.skip(k - 1)));
            }
            k = k - 1;
        }
        proof {
            assert(dims@.skip(0) =~= dims@);
        }
        Ok(())
    }

    /// Strips up to `d` leading unit axes off the shape.
    fn strip_lead_ones(&mut self, d: usize) -> (stripped: usize)
        requires
            old(self).wf(),
        ensures
            final(self).wf(),
            final(self).keysv() == old(self).keysv(),
            final(self).datav() == old(self).datav(),
            stripped as int == lead_ones(old(self).shapev(), d as int),
            final(self).shapev() == old(self).shapev().skip(stripped as int),
    {
        let mut s: usize = 0;
        let ghost sv0 = self.shapev();
        proof {
            assert(sv0.skip(0) =~= sv0);
        }
        loop
            invariant
                0 <= s <= d,
                s <= sv0.len(),
                self.wf(),
                self.keysv() == old(self).keysv(),
                self.datav() == old(self).datav(),
                self.shapev() == sv0.skip(s as int),
                lead_ones(sv0, d as int) == s + lead_ones(self.shapev(), d - s),
            decreases d - s,
        {
            if s >= d || self.shape.len() == 0 {
                proof {
                    assert(lead_ones(self.shapev(), d - s) == 0);
                }
                return s;
            }
            let first: usize = self.shape[0];
            if first != 1 {
                proof {
                    assert(lead_ones(self.shapev(), d - s) == 0);
                }
                return s;
            }
            proof {
                assert(self.shapev().len() > 0);
                assert(s < sv0.len());
                assert(self.shapev()[0] == 1);
                assert(lead_ones(self.shapev(), d - s) == 1 + lead_ones(
                    self.shapev().drop_first(),
                    d - s - 1,
                ));
                assert(self.shapev().drop_first() =~= sv0.skip(s + 1));
                assert(prod(self.shapev()) == (self.shapev()[0] as nat) * prod(
                    self.shapev().drop_first(),
                ));
                assert(1nat * prod(self.shapev().drop_first()) == prod(
                    self.shapev().drop_first(),
                )) by (nonlinear_arith);
            }
            let _ = self.shape.remove(0);
            proof {
                assert(self.shapev() =~= sv0.skip(s + 1));
            }
            s = s + 1;
        }
    }
}

/// Everything the aligner yields on success: the two adjusted shapes
/// and buffers and the common depth.
pub open spec fn broadcast_step(
    ash: Seq<usize>,
    adata: Seq<i64>,
    bsh: Seq<usize>,
    bdata: Seq<i64>,
    ad: nat,
    bd: nat,
) -> Result<(Seq<usize>, Seq<i64>, Seq<usize>, Seq<i64>, nat), ArrayError> {
    if ad == bd {
        Result::Ok((ash, adata, bsh, bdata, ad))
    } else if ad < bd {
        let dims = bsh.take((bd - ad) as int);
        if tile_fits(dims, adata.len()) {
            Result::Ok((dims + ash, tiled_data(adata, dims), bsh, bdata, bd))
        } else {
            Result::Err(ArrayError::SizeOverflow)
        }
    } else {
        let dims = ash.take((ad - bd) as int);
        if tile_fits(dims, bdata.len()) {
            Result::Ok((ash, adata, dims + bsh, tiled_data(bdata, dims), ad))
        } else {
            Result::Err(ArrayError::SizeOverflow)
        }
    }
}

/// What aligning two arrays to their requested depths yields: depths
/// are clamped to the ranks; mismatching prefixes first shed leading
/// unit axes on both sides; a still-mismatching prefix is an error;
/// finally the shallower side is tiled under the deeper side's extra
/// leading dimensions.
pub open spec fn align_result(
    ash: Seq<usize>,
    adata: Seq<i64>,
    bsh: Seq<usize>,
    bdata: Seq<i64>,
    ad0: nat,
    bd0: nat,
) -> Result<(Seq<usize>, Seq<i64>, Seq<usize>, Seq<i64>, nat), ArrayError> {
    let ad = if ad0 <= ash.len() {
        ad0
    } else {
        ash.len()
    };
    let bd = if bd0 <= bsh.len() {
        bd0
    } else {
        bsh.len()
    };
    if prefixes_match(ash, ad as int, bsh, bd as int) {
        broadcast_step(ash, adata, bsh, bdata, ad, bd)
    } else {
        let sa = lead_ones(ash, ad as int);
        let sb = lead_ones(bsh, bd as int);
        let ash2 = ash.skip(sa);
        let bsh2 = bsh.skip(sb);
        if prefixes_match(ash2, ad - sa, bsh2, bd - sb) {
            broadcast_step(ash2, adata, bsh2, bdata, (ad - sa) as nat, (bd - sb) as nat)
        } else {
            Result::Err(ArrayError::ShapeMismatch)
        }
    }
}

/// Concatenation multiplies element counts.
pub proof fn lemma_prod_concat(x: Seq<usize>, y: Seq<usize>)
    ensures
        prod(x + y) == prod(x) * prod(y),
{
    crate::array::lemma_prod_split(x + y, x.len() as int);
    assert((x + y).take(x.len() as int) =~= x);
    assert((x + y).skip(x.len() as int) =~= y);
}

impl Array {
    /// Aligns this array with `b` to the requested depths: clamps the
    /// depths, strips leading unit axes when the prefixes disagree,
    /// fails when they still disagree, and tiles the shallower operand
    /// under the deeper one's extra leading dimensions. Returns the
    /// adjusted copy of `b` and the common depth; this array is
    /// adjusted in place (its key table is kept).
    #[verifier::rlimit(100)]
    #[verifier::spinoff_prover]
    pub fn align_depths(&mut self, b: &Array, ad0: usize, bd0: usize) -> (r: Result<
        (Array, usize),
        ArrayError,
    >)
        requires
            old(self).wf(),
            b.wf(),
        ensures
            final(self).wf(),
            final(self).keysv() == old(self).keysv(),
            ({
                let ar = align_result(
                    old(self).shapev(),
                    old(self).datav(),
                    b.shapev(),
                    b.datav(),
                    ad0 as nat,
                    bd0 as nat,
                );
                &&& (ar matches Ok(t) ==> (r matches Ok(p) && final(self).shapev() == t.0
                    && final(self).datav() == t.1 && p.0.wf() && p.0.shapev() == t.2
                    && p.0.datav() == t.3 && p.1 as nat == t.4 && t.4 <= t.0.len() && t.4
                    <= t.2.len()))
                &&& (ar matches Err(e) ==> (r matches Err(e2) && e2 == e && final(self).datav()
                    == old(self).datav()))
            }),
    {
        let arank: usize = self.shape.len();
        let brank: usize = b.shape.len();
        let ad: usize = if ad0 <= arank {
            ad0
        } else {
            arank
        };
        let bd: usize = if bd0 <= brank {
            bd0
        } else {
            brank
        };
        let mut b2 = Array { shape: b.shape_vec(), data: buf_dup(&b.data), keys: None };
        let mut ad2: usize = ad;
        let mut bd2: usize = bd;
        if !Self::prefixes_match_slices(self.shape.as_slice(), ad, b2.shape.as_slice(), bd) {
            let sa: usize = self.strip_lead_ones(ad);
            let sb: usize = b2.strip_lead_ones(bd);
            proof {
                crate::align::lemma_lead_ones_bound(old(self).shapev(), ad as int);
                crate::align::lemma_lead_ones_bound(b.shapev(), bd as int);
                assert forall|j: int| 0 <= j < sa implies old(self).shapev()[j] == 1 by {
                    lemma_lead_ones_prefix(old(self).shapev(), ad as int, j);
                }
                assert forall|j: int| 0 <= j < sb implies b.shapev()[j] == 1 by {
                    lemma_lead_ones_prefix(b.shapev(), bd as int, j);
                }
                lemma_prod_strip_ones(old(self).shapev(), sa as int);
                lemma_prod_strip_ones(b.shapev(), sb as int);
            }
            ad2 = ad - sa;
            bd2 = bd - sb;
            if !Self::prefixes_match_slices(self.shape.as_slice(), ad2, b2.shape.as_slice(),
                bd2) {
                return Err(ArrayError::ShapeMismatch);
            }
        }
        // broadcast: tile the shallower side under the deeper prefix
        if ad2 == bd2 {
            Ok((b2, ad2))
        } else if ad2 < bd2 {
            let dims = vstd::slice::slice_to_vec(
                vstd::slice::slice_subrange(b2.shape.as_slice(), 0, bd2 - ad2),
            );
            proof {
                assert(dims@ == b2.shapev().take((bd2 - ad2) as int));
            }
            match self.tile_under(dims.as_slice()) {
                Ok(_) => Ok((b2, bd2)),
                Err(e) => Err(e),
            }
        } else {
            let dims = vstd::slice::slice_to_vec(
                vstd::slice::slice_subrange(self.shape.as_slice(), 0, ad2 - bd2),
            );
            proof {
                assert(dims@ == self.shapev().take((ad2 - bd2) as int));
            }
            match b2.tile_under(dims.as_slice()) {
                Ok(_) => Ok((b2, ad2)),
                Err(e) => Err(e),
            }
        }
    }

    /// Compares the clamped leading prefixes of two shapes.
    fn prefixes_match_slices(a: &[usize], ad: usize, b: &[usize], bd: usize) -> (r: bool)
        requires
            ad <= a@.len(),
            bd <= b@.len(),
        ensures
            r <==> prefixes_match(a@, ad as int, b@, bd as int),
    {
        let m: usize = if ad <= bd {
            ad
        } else {
            bd
        };
        let mut j: usize = 0;
        while j < m
            invariant
                0 <= j <= m,
                m == (if ad <= bd {
                    ad
                } else {
                    bd
                }),
                ad <= a@.len(),
                bd <= b@.len(),
                forall|t: int| 0 <= t < j ==> a@[t] == b@[t],
            decreases m - j,
        {
            if a[j] != b[j] {
                proof {
                    assert(!prefixes_match(a@, ad as int, b@, bd as int));
                }
                return false;
            }
            j = j + 1;
        }
        true
    }
}

/// Every axis inside the strippable run is a unit axis.
pub proof fn lemma_lead_ones_prefix(s: Seq<usize>, d: int, j: int)
    requires
        0 <= j < lead_ones(s, d),
    ensures
        s[j] == 1,
    decreases j,
{
    lemma_lead_ones_bound(s, d);
    if j > 0 {
        lemma_lead_ones_prefix(s.drop_first(), d - 1, j - 1);
    }
}


} // verus!
