//! Rerank: fold leading dimensions together or insert unit ones so
//! that the rows of the array get a requested rank, with the
//! deliberately permissive inverse that relabels only when the element
//! counts agree.
use vstd::prelude::*;
use crate::ArrayError;
use crate::array::{Array, prod, checked_prod, lemma_prod_split};

verus! {

pub open spec fn ones(n: nat) -> Seq<usize> {
    Seq::new(n, |i: int| 1usize)
}

/// The shape after a rerank by `r`: non-negative `r` makes the rows
/// rank `r` (folding the leading dimensions into one, or inserting
/// leading ones); negative `r` folds the leading `|r|` dimensions
/// into one.
pub open spec fn rerank_shape(s: Seq<usize>, r: int) -> Seq<usize> {
    if r >= 0 {
        if r >= s.len() {
            ones((r - s.len() + 1) as nat) + s
        } else {
            seq![prod(s.take(s.len() - r)) as usize] + s.skip(s.len() - r)
        }
    } else {
        seq![prod(s.take(-r)) as usize] + s.skip(-r)
    }
}

/// The shape that undoing a rerank by `r` rebuilds from the remembered
/// shape `orig` and the transformed shape `cur`.
pub open spec fn undo_rerank_shape(orig: Seq<usize>, cur: Seq<usize>, r: int) -> Seq<usize> {
    if r >= 0 {
        let keep = if orig.len() >= r {
            orig.len() - r
        } else {
            0
        };
        let skip = if (r + 1 - orig.len()) >= 1 {
            r + 1 - orig.len()
        } else {
            1
        };
        orig.take(keep) + cur.skip(if skip <= cur.len() {
            skip
        } else {
            cur.len() as int
        })
    } else {
        orig.take(if -r <= orig.len() {
            -r
        } else {
            orig.len() as int
        }) + cur.skip(if cur.len() >= 1 {
            1
        } else {
            0
        })
    }
}

impl Array {
    /// Gives the rows of this array rank `|r|` as the forward rerank
    /// defines it; any key table is dropped. Fails when a negative
    /// rank's magnitude exceeds the array's rank, or when a folded
    /// leading dimension cannot be addressed.
    pub fn rerank(&mut self, r: isize) -> (res: Result<(), ArrayError>)
        requires
            old(self).wf(),
        ensures
            final(self).wf(),
            final(self).keysv() is None,
            final(self).datav() == old(self).datav(),
            r < 0 && -r > old(self).srank() ==> res == Err::<(), ArrayError>(
                ArrayError::RankMismatch,
            ) && final(self).shapev() == old(self).shapev(),
            !(r < 0 && -r > old(self).srank()) ==> ({
                let mid = if r >= 0 {
                    old(self).srank() as int - r
                } else {
                    0 - r
                };
                &&& (res is Ok <==> ((r >= 0 && r >= old(self).srank()) || prod(
                    old(self).shapev().take(mid),
                ) <= usize::MAX))
                &&& (res is Ok ==> final(self).shapev() == rerank_shape(
                    old(self).shapev(),
                    r as int,
                ))
                &&& (res is Err ==> res == Err::<(), ArrayError>(ArrayError::SizeOverflow)
                    && final(self).shapev() == old(self).shapev())
            }),
    {
        self.keys = None;
        let rank: usize = self.shape.len();
        let ghost sv = self.shapev();
        if r >= 0 {
            let k: usize = r as usize;
            if k >= rank {
                let mut add: usize = k - rank + 1;
                proof {
                    assert(ones(0) + sv =~= sv);
                }
                while add > 0
                    invariant
                        self.wf(),
                        self.keysv() is None,
                        self.datav() == old(self).datav(),
                        add <= k - sv.len() + 1,
                        self.shapev() =~= ones((k - sv.len() + 1 - add) as nat) + sv,
                        prod(self.shapev()) == prod(sv),
                    decreases add,
                {
                    let ghost before = self.shapev();
                    self.shape.insert(0, 1);
                    proof {
                        assert(self.shapev() =~= seq![1usize] + before);
                        assert(self.shapev().drop_first() =~= before);
                        assert(prod(self.shapev()) == 1nat * prod(before));
                        assert(self.shapev() =~= ones((k - sv.len() + 1 - (add - 1)) as nat) + sv);
                    }
                    add = add - 1;
                }
                proof {
                    assert(self.shapev() =~= rerank_shape(sv, r as int));
                }
                Ok(())
            } else {
                let mid: usize = rank - k;
                self.fold_leading(mid)
            }
        } else {
            let m: usize = (-(r as i128)) as usize;
            if m > rank {
                return Err(ArrayError::RankMismatch);
            }
            self.fold_leading(m)
        }
    }

    /// Folds the leading `mid` dimensions into a single one.
    fn fold_leading(&mut self, mid: usize) -> (res: Result<(), ArrayError>)
        requires
            old(self).wf(),
            0 < mid <= old(self).srank(),
            old(self).keysv() is None,
        ensures
            final(self).wf(),
            final(self).keysv() is None,
            final(self).datav() == old(self).datav(),
            res is Ok ==> final(self).shapev() == seq![
                prod(old(self).shapev().take(mid as int)) as usize,
            ] + old(self).shapev().skip(mid as int) && prod(old(self).shapev().take(mid as int))
                <= usize::MAX,
            res is Err ==> res == Err::<(), ArrayError>(ArrayError::SizeOverflow)
                && final(self).shapev() == old(self).shapev()
                && prod(old(self).shapev().take(mid as int)) > usize::MAX,
    {
        let ghost sv = self.shapev();
        let rank: usize = self.shape.len();
        let head: usize = {
            let sl = vstd::slice::slice_subrange(self.shape.as_slice(), 0, mid);
            proof {
                assert(sl@ == sv.take(mid as int));
            }
            match checked_prod(sl) {
                Some(p) => p,
                None => {
                    return Err(ArrayError::SizeOverflow);
                },
            }
        };
        let tail = vstd::slice::slice_to_vec(
            vstd::slice::slice_subrange(self.shape.as_slice(), mid, rank),
        );
        let mut ns: Vec<usize> = Vec::new();
        ns.push(head);
        let mut i: usize = 0;
        while i < tail.len()
            invariant
                0 <= i <= tail@.len(),
                tail@ == sv.skip(mid as int),
                ns@.len() == i + 1,
                ns@[0] == head,
                forall|j: int| 1 <= j < ns@.len() ==> ns@[j] == tail@[j - 1],
            decreases tail@.len() - i,
        {
            ns.push(tail[i]);
            i = i + 1;
        }
        proof {
            assert(ns@ =~= seq![prod(sv.take(mid as int)) as usize] + sv.skip(mid as int));
            assert(ns@.drop_first() =~= sv.skip(mid as int));
            lemma_prod_split(sv, mid as int);
            assert(prod(ns@) == prod(sv.take(mid as int)) * prod(sv.skip(mid as int)));
        }
        self.shape = ns;
        Ok(())
    }

    /// Undoes a rerank by `r` given the remembered original shape.
    /// When the rebuilt shape does not hold the current element count
    /// this is deliberately a silent no-op, not an error; only an
    /// unaddressable rebuilt shape fails.
    pub fn undo_rerank(&mut self, r: isize, orig_shape: &[usize]) -> (res: Result<
        (),
        ArrayError,
    >)
        requires
            old(self).wf(),
        ensures
            final(self).wf(),
            final(self).keysv() == old(self).keysv(),
            final(self).datav() == old(self).datav(),
            ({
                let ns = undo_rerank_shape(orig_shape@, old(self).shapev(), r as int);
                &&& (old(self).srank() == 0 ==> res is Ok && final(self).shapev()
                    == old(self).shapev())
                &&& (old(self).srank() > 0 && prod(ns) > usize::MAX ==> res == Err::<
                    (),
                    ArrayError,
                >(ArrayError::SizeOverflow) && final(self).shapev() == old(self).shapev())
                &&& (old(self).srank() > 0 && prod(ns) <= usize::MAX
                    && prod(ns) != old(self).datav().len() ==> res is Ok
                    && final(self).shapev() == old(self).shapev())
                &&& (old(self).srank() > 0 && prod(ns) <= usize::MAX
                    && prod(ns) == old(self).datav().len() ==> res is Ok
                    && final(self).shapev() == ns)
            }),
    {
        let rank: usize = self.shape.len();
        if rank == 0 {
            return Ok(());
        }
        let ghost cv = self.shapev();
        let olen: usize = orig_shape.len();
        let mut ns: Vec<usize>;
        if r >= 0 {
            let k: usize = r as usize;
            let keep: usize = if olen >= k {
                olen - k
            } else {
                0
            };
            let skip: usize = if k + 1 >= olen && (k + 1) - olen >= 1 {
                k + 1 - olen
            } else {
                1
            };
            let skip_c: usize = if skip <= rank {
                skip
            } else {
                rank
            };
            ns = vstd::slice::slice_to_vec(vstd::slice::slice_subrange(orig_shape, 0, keep));
            let mut i: usize = skip_c;
            while i < rank
                invariant
                    skip_c <= i <= rank,
                    rank == cv.len(),
                    ns@ =~= orig_shape@.take(keep as int) + cv.subrange(skip_c as int, i as int),
                decreases rank - i,
            {
                let d: usize = self.shape[i];
                ns.push(d);
                i = i + 1;
            }
            proof {
                assert(cv.subrange(skip_c as int, rank as int) =~= cv.skip(skip_c as int));
                assert(ns@ =~= undo_rerank_shape(orig_shape@, cv, r as int));
            }
        } else {
            let m: usize = (-(r as i128)) as usize;
            let take_c: usize = if m <= olen {
                m
            } else {
                olen
            };
            ns = vstd::slice::slice_to_vec(vstd::slice::slice_subrange(orig_shape, 0, take_c));
            let mut i: usize = 1;
            while i < rank
                invariant
                    1 <= i <= rank,
                    rank == cv.len(),
                    ns@ =~= orig_shape@.take(take_c as int) + cv.subrange(1, i as int),
                decreases rank - i,
            {
                let d: usize = self.shape[i];
                ns.push(d);
                i = i + 1;
            }
            proof {
                assert(cv.subrange(1, rank as int) =~= cv.skip(1));
                assert(ns@ =~= undo_rerank_shape(orig_shape@, cv, r as int));
            }
        }
        let total: usize = match checked_prod(ns.as_slice()) {
            Some(t) => t,
            None => {
                return Err(ArrayError::SizeOverflow);
            },
        };
        if total != self.element_count() {
            return Ok(());
        }
        self.shape = ns;
        Ok(())
    }
}

/// Rerank round-trip: undoing a rerank by `r` with the original shape
/// remembered rebuilds exactly that shape (the element counts always
/// match, since a rerank never touches the buffer).
pub proof fn lemma_rerank_round_trip(s: Seq<usize>, r: int)
    requires
        r >= 0 || -r <= s.len(),
    ensures
        undo_rerank_shape(s, rerank_shape(s, r), r) == s,
{
    if r >= 0 {
        if r >= s.len() {
            let cur = ones((r - s.len() + 1) as nat) + s;
            assert(cur.skip(r + 1 - s.len()) =~= s);
            assert(s.take(0) =~= Seq::<usize>::empty());
            assert(undo_rerank_shape(s, cur, r) =~= s);
        } else {
            let cur = seq![prod(s.take(s.len() - r)) as usize] + s.skip(s.len() - r);
            assert(cur.skip(1) =~= s.skip(s.len() - r));
            assert(undo_rerank_shape(s, cur, r) =~= s.take(s.len() - r) + s.skip(s.len() - r));
            assert(s.take(s.len() - r) + s.skip(s.len() - r) =~= s);
        }
    } else {
        let cur = seq![prod(s.take(-r)) as usize] + s.skip(-r);
        assert(cur.skip(1) =~= s.skip(-r));
        assert(undo_rerank_shape(s, cur, r) =~= s.take(-r) + s.skip(-r));
        assert(s.take(-r) + s.skip(-r) =~= s);
    }
}

} // verus!
