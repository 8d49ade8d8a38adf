//! Keep: replicate or filter rows by per-row counts, its run-length
//! inverse (unkeep), and the inverse of a boolean keep (undo_keep).
use vstd::prelude::*;
use crate::ArrayError;
use crate::array::{Array, prod, checked_prod, lemma_prod_sub_pos, lemma_prod_skip_unfold};
use crate::buffer::{buf_from_vec, buf_slice};
use crate::reshape::repeat_whole;

verus! {

/// One row of a flat buffer whose rows are `rl` elements wide.
pub open spec fn row_at(data: Seq<i64>, rl: nat, i: int) -> Seq<i64> {
    data.subrange(i * rl, (i + 1) * rl)
}

/// Each row repeated its count's worth of times, in row order; a
/// count list shorter than the row count drops the tail rows.
pub open spec fn keep_rows(counts: Seq<int>, data: Seq<i64>, rl: nat) -> Seq<i64>
    decreases counts.len(),
{
    if counts.len() == 0 {
        Seq::empty()
    } else {
        let c = if counts[0] >= 0 {
            counts[0] as nat
        } else {
            0nat
        };
        repeat_whole(data.take(rl as int), c) + keep_rows(
            counts.drop_first(),
            data.skip(rl as int),
            rl,
        )
    }
}

/// Sum of a count list (negatives as zero).
pub open spec fn counts_sum(counts: Seq<int>) -> nat
    decreases counts.len(),
{
    if counts.len() == 0 {
        0
    } else {
        (if counts[0] >= 0 {
            counts[0] as nat
        } else {
            0nat
        }) + counts_sum(counts.drop_first())
    }
}

pub proof fn lemma_keep_rows_len(counts: Seq<int>, data: Seq<i64>, rl: nat)
    requires
        data.len() >= counts.len() * rl,
    ensures
        keep_rows(counts, data, rl).len() == counts_sum(counts) * rl,
    decreases counts.len(),
{
    if counts.len() == 0 {
        assert(0nat * rl == 0) by (nonlinear_arith);
    } else {
        let c = if counts[0] >= 0 {
            counts[0] as nat
        } else {
            0nat
        };
        assert(data.len() >= rl && data.len() - rl >= (counts.len() - 1) * rl)
            by (nonlinear_arith)
            requires
                data.len() >= counts.len() * rl,
                counts.len() >= 1,
                rl >= 0,
        ;
        crate::reshape::lemma_repeat_whole_len(data.take(rl as int), c);
        lemma_keep_rows_len(counts.drop_first(), data.skip(rl as int), rl);
        assert(c * rl + counts_sum(counts.drop_first()) * rl == counts_sum(counts) * rl)
            by (nonlinear_arith)
            requires
                counts_sum(counts) == c + counts_sum(counts.drop_first()),
        ;
    }
}

/// The padded count list: exactly one count per row, extended by the
/// count fill (a scalar repeated, or a one-dimensional list cycled) or
/// by cycling the given counts themselves, and truncated when too
/// long.
pub open spec fn padded_counts(counts: Seq<i64>, len: nat, fill: Option<(Seq<usize>, Seq<i64>)>)
    -> Seq<i64> {
    if counts.len() >= len {
        counts.take(len as int)
    } else {
        match fill {
            Option::Some((fshape, fdata)) => {
                if fshape.len() == 0 {
                    counts + Seq::new((len - counts.len()) as nat, |i: int| fdata[0])
                } else if fdata.len() == 0 {
                    counts
                } else {
                    counts + Seq::new(
                        (len - counts.len()) as nat,
                        |i: int| fdata[i % (fdata.len() as int)],
                    )
                }
            },
            Option::None => counts + Seq::new(
                (len - counts.len()) as nat,
                |i: int| counts[i % (counts.len() as int)],
            ),
        }
    }
}

/// A count list as mathematical integers.
pub open spec fn ints(s: Seq<i64>) -> Seq<int> {
    Seq::new(s.len(), |i: int| s[i] as int)
}

pub open spec fn fill_view(fill: Option<&Array>) -> Option<(Seq<usize>, Seq<i64>)> {
    match fill {
        Option::Some(f) => Option::Some((f.shapev(), f.datav())),
        Option::None => Option::None,
    }
}

/// What padding a count list yields, failures included: a count fill
/// with a negative entry or with rank above one is refused, and an
/// empty count list cannot be stretched without a fill.
#[verifier::opaque]
pub open spec fn pad_result(counts: Seq<i64>, len: nat, fill: Option<(Seq<usize>, Seq<i64>)>)
    -> Result<Seq<i64>, ArrayError> {
    if counts.len() >= len {
        Result::Ok(counts.take(len as int))
    } else {
        match fill {
            Option::Some((fshape, fdata)) => {
                if exists|i: int| 0 <= i < fdata.len() && fdata[i] < 0 {
                    Result::Err(ArrayError::InvalidKeep)
                } else if fshape.len() >= 2 {
                    Result::Err(ArrayError::RankMismatch)
                } else {
                    Result::Ok(padded_counts(counts, len, fill))
                }
            },
            Option::None => {
                if counts.len() == 0 {
                    Result::Err(ArrayError::LengthMismatch)
                } else {
                    Result::Ok(padded_counts(counts, len, fill))
                }
            },
        }
    }
}

/// Appending one more row's worth of kept output.
pub proof fn lemma_keep_rows_take_push(counts: Seq<int>, data: Seq<i64>, rl: nat, i: int)
    requires
        0 <= i < counts.len(),
        data.len() >= (i + 1) * rl,
    ensures
        keep_rows(counts.take(i + 1), data, rl) == keep_rows(counts.take(i), data, rl)
            + repeat_whole(
            data.subrange(i * rl, i * rl + rl),
            (if counts[i] >= 0 {
                counts[i] as nat
            } else {
                0nat
            }),
        ),
    decreases i,
{
    assert(0 <= i * rl && i * rl + rl <= data.len()) by (nonlinear_arith)
        requires
            data.len() >= (i + 1) * rl,
            0 <= i,
            rl >= 0,
    ;
    if i == 0 {
        assert(i * rl == 0 && i * rl + rl == rl) by (nonlinear_arith)
            requires
                i == 0,
        ;
        assert(counts.take(0) =~= Seq::<int>::empty());
        assert(keep_rows(counts.take(0), data, rl) == Seq::<i64>::empty());
        assert(keep_rows(counts.take(1).drop_first(), data.skip(rl as int), rl)
            == Seq::<i64>::empty());
        assert(counts.take(1).drop_first() =~= Seq::<int>::empty());
        assert(data.take(rl as int) =~= data.subrange(0, rl as int));
        assert(keep_rows(counts.take(1), data, rl) == repeat_whole(
            data.take(rl as int),
            (if counts.take(1)[0] >= 0 {
                counts.take(1)[0] as nat
            } else {
                0nat
            }),
        ) + keep_rows(counts.take(1).drop_first(), data.skip(rl as int), rl));
        assert(keep_rows(counts.take(1), data, rl) =~= Seq::<i64>::empty() + repeat_whole(
            data.subrange(0, rl as int),
            (if counts[0] >= 0 {
                counts[0] as nat
            } else {
                0nat
            }),
        ));
    } else {
        assert(data.skip(rl as int).len() >= i * rl) by (nonlinear_arith)
            requires
                data.len() >= (i + 1) * rl,
                i >= 1,
                rl >= 0,
        ;
        lemma_keep_rows_take_push(counts.drop_first(), data.skip(rl as int), rl, i - 1);
        assert(counts.take(i + 1).drop_first() =~= counts.drop_first().take(i));
        assert(counts.take(i).drop_first() =~= counts.drop_first().take(i - 1));
        assert((i - 1) * rl + rl == i * rl && 0 <= (i - 1) * rl) by (nonlinear_arith)
            requires
                i >= 1,
                rl >= 0,
        ;
        assert(data.skip(rl as int).subrange((i - 1) * rl, (i - 1) * rl + rl) =~= data.subrange(
            i * rl,
            i * rl + rl,
        ));
        assert(counts.drop_first()[i - 1] == counts[i]);
        assert(counts.take(i + 1)[0] == counts[0]);
        assert(counts.take(i)[0] == counts[0]);
        assert(keep_rows(counts.take(i + 1), data, rl) == repeat_whole(
            data.take(rl as int),
            (if counts[0] >= 0 {
                counts[0] as nat
            } else {
                0nat
            }),
        ) + keep_rows(counts.drop_first().take(i), data.skip(rl as int), rl));
        assert(keep_rows(counts.take(i), data, rl) == repeat_whole(
            data.take(rl as int),
            (if counts[0] >= 0 {
                counts[0] as nat
            } else {
                0nat
            }),
        ) + keep_rows(counts.drop_first().take(i - 1), data.skip(rl as int), rl));
        assert(keep_rows(counts.take(i + 1), data, rl) =~= keep_rows(counts.take(i), data, rl)
            + repeat_whole(
            data.subrange(i * rl, i * rl + rl),
            (if counts[i] >= 0 {
                counts[i] as nat
            } else {
                0nat
            }),
        ));
    }
}

/// Keep with a count of one for every row is the identity.
pub proof fn lemma_keep_all_ones(data: Seq<i64>, rl: nat, n: nat)
    requires
        data.len() == n * rl,
    ensures
        keep_rows(Seq::new(n, |i: int| 1int), data, rl) == data,
    decreases n,
{
    let counts = Seq::new(n, |i: int| 1int);
    if n == 0 {
        assert(data.len() == 0) by (nonlinear_arith)
            requires
                data.len() == n * rl,
                n == 0,
        ;
        assert(keep_rows(counts, data, rl) =~= data);
    } else {
        assert(data.len() >= rl && data.skip(rl as int).len() == (n - 1) * rl)
            by (nonlinear_arith)
            requires
                data.len() == n * rl,
                n >= 1,
        ;
        lemma_keep_all_ones(data.skip(rl as int), rl, (n - 1) as nat);
        assert(counts.drop_first() =~= Seq::new((n - 1) as nat, |i: int| 1int));
        assert(keep_rows(counts, data, rl) == repeat_whole(data.take(rl as int), 1)
            + keep_rows(counts.drop_first(), data.skip(rl as int), rl));
        assert(repeat_whole(data.take(rl as int), 1) == repeat_whole(data.take(rl as int), 0)
            + data.take(rl as int));
        assert(repeat_whole(data.take(rl as int), 0) == Seq::<i64>::empty());
        assert(Seq::<i64>::empty() + data.take(rl as int) =~= data.take(rl as int));
        assert(keep_rows(counts, data, rl) =~= data.take(rl as int) + data.skip(rl as int));
        assert(data.take(rl as int) + data.skip(rl as int) =~= data);
    }
}

pub proof fn lemma_counts_sum_take_push(s: Seq<int>, i: int)
    requires
        0 <= i < s.len(),
    ensures
        counts_sum(s.take(i + 1)) == counts_sum(s.take(i)) + (if s[i] >= 0 {
            s[i] as nat
        } else {
            0nat
        }),
    decreases i,
{
    if i == 0 {
        assert(s.take(0) =~= Seq::<int>::empty());
        assert(s.take(1).drop_first() =~= Seq::<int>::empty());
        assert(counts_sum(s.take(1)) == (if s.take(1)[0] >= 0 {
            s.take(1)[0] as nat
        } else {
            0nat
        }) + counts_sum(s.take(1).drop_first()));
    } else {
        lemma_counts_sum_take_push(s.drop_first(), i - 1);
        assert(s.take(i + 1).drop_first() =~= s.drop_first().take(i));
        assert(s.take(i).drop_first() =~= s.drop_first().take(i - 1));
        assert(s.drop_first()[i - 1] == s[i]);
        assert(counts_sum(s.take(i + 1)) == (if s[0] >= 0 {
            s[0] as nat
        } else {
            0nat
        }) + counts_sum(s.take(i + 1).drop_first()));
        assert(counts_sum(s.take(i)) == (if s[0] >= 0 {
            s[0] as nat
        } else {
            0nat
        }) + counts_sum(s.take(i).drop_first()));
    }
}

pub proof fn lemma_counts_sum_prefix_le(s: Seq<int>, i: int)
    requires
        0 <= i <= s.len(),
    ensures
        counts_sum(s.take(i)) <= counts_sum(s),
    decreases s.len() - i,
{
    if i == s.len() {
        assert(s.take(i) =~= s);
    } else {
        lemma_counts_sum_take_push(s, i);
        lemma_counts_sum_prefix_le(s, i + 1);
    }
}

/// Stretches or trims a count list so that one count stands for each
/// of `len` rows: a shorter list is extended from the count fill (a
/// scalar repeated, or a one-dimensional list cycled) or, without one,
/// by cycling the given counts; a longer list is trimmed.
pub fn pad_keep_counts(counts: &[i64], len: usize, fill: Option<&Array>) -> (r: Result<
    Vec<i64>,
    ArrayError,
>)
    requires
        forall|i: int| 0 <= i < counts@.len() ==> counts@[i] >= 0,
        fill matches Some(f) ==> f.wf(),
    ensures
        r matches Ok(p) ==> pad_result(counts@, len as nat, fill_view(fill)) == Result::<
            Seq<i64>,
            ArrayError,
        >::Ok(p@) && (forall|i: int| 0 <= i < p@.len() ==> p@[i] >= 0) && p@.len() <= len,
        r matches Err(e) ==> pad_result(counts@, len as nat, fill_view(fill)) == Result::<
            Seq<i64>,
            ArrayError,
        >::Err(e),
{
    proof {
        reveal(pad_result);
    }
    let cl: usize = counts.len();
    if cl >= len {
        let out = vstd::slice::slice_to_vec(vstd::slice::slice_subrange(counts, 0, len));
        return Ok(out);
    }
    match fill {
        Some(f) => {
            let fdata = buf_slice(&f.data);
            let flen: usize = fdata.len();
            let mut i: usize = 0;
            while i < flen
                invariant
                    0 <= i <= flen,
                    flen == fdata@.len(),
                    forall|j: int| 0 <= j < i ==> fdata@[j] >= 0,
                decreases flen - i,
            {
                if fdata[i] < 0 {
                    return Err(ArrayError::InvalidKeep);
                }
                i = i + 1;
            }
            let frank: usize = f.shape.len();
            if frank >= 2 {
                return Err(ArrayError::RankMismatch);
            }
            let mut out = vstd::slice::slice_to_vec(counts);
            if frank == 0 {
                let c: i64 = fdata[0];
                while out.len() < len
                    invariant
                        cl <= out@.len() <= len,
                        out@ =~= counts@ + Seq::new((out@.len() - cl) as nat, |j: int| c),
                        c == fdata@[0],
                        c >= 0,
                        forall|j: int| 0 <= j < out@.len() ==> out@[j] >= 0,
                    decreases len - out@.len(),
                {
                    out.push(c);
                    proof {
                        assert(out@ =~= counts@ + Seq::new((out@.len() - cl) as nat, |j: int| c));
                    }
                }
                return Ok(out);
            }
            if flen == 0 {
                return Ok(out);
            }
            while out.len() < len
                invariant
                    cl <= out@.len() <= len,
                    flen == fdata@.len(),
                    flen > 0,
                    forall|j: int| 0 <= j < fdata@.len() ==> fdata@[j] >= 0,
                    out@ =~= counts@ + Seq::new(
                        (out@.len() - cl) as nat,
                        |j: int| fdata@[j % (flen as int)],
                    ),
                    forall|j: int| 0 <= j < out@.len() ==> out@[j] >= 0,
                decreases len - out@.len(),
            {
                let pos: usize = (out.len() - cl) % flen;
                proof {
                    vstd::arithmetic::div_mod::lemma_mod_bound(
                        (out@.len() - cl) as int,
                        flen as int,
                    );
                }
                let c: i64 = fdata[pos];
                out.push(c);
                proof {
                    assert(out@ =~= counts@ + Seq::new(
                        (out@.len() - cl) as nat,
                        |j: int| fdata@[j % (flen as int)],
                    ));
                }
            }
            Ok(out)
        },
        None => {
            if cl == 0 {
                return Err(ArrayError::LengthMismatch);
            }
            let mut out = vstd::slice::slice_to_vec(counts);
            while out.len() < len
                invariant
                    cl <= out@.len() <= len,
                    cl == counts@.len(),
                    cl > 0,
                    forall|j: int| 0 <= j < counts@.len() ==> counts@[j] >= 0,
                    out@ =~= counts@ + Seq::new(
                        (out@.len() - cl) as nat,
                        |j: int| counts@[j % (cl as int)],
                    ),
                    forall|j: int| 0 <= j < out@.len() ==> out@[j] >= 0,
                decreases len - out@.len(),
            {
                let pos: usize = (out.len() - cl) % cl;
                proof {
                    vstd::arithmetic::div_mod::lemma_mod_bound((out@.len() - cl) as int, cl as int);
                }
                let c: i64 = counts[pos];
                out.push(c);
                proof {
                    assert(out@ =~= counts@ + Seq::new(
                        (out@.len() - cl) as nat,
                        |j: int| counts@[j % (cl as int)],
                    ));
                }
            }
            Ok(out)
        },
    }
}

impl Array {
    /// Keeps this array's rows by per-row counts: counts of zero and
    /// one filter rows, larger counts repeat them in place; a scalar
    /// array is replicated by its single count. Counts must be
    /// natural numbers; a short count list is padded (and a long one
    /// trimmed) by `pad_keep_counts`. Any key table is dropped.
    pub fn keep_list(self, counts: &[i64], fill_counts: Option<&Array>) -> (r: Result<
        Array,
        ArrayError,
    >)
        requires
            self.wf(),
            fill_counts matches Some(f) ==> f.wf(),
        ensures
            (exists|i: int| 0 <= i < counts@.len() && counts@[i] < 0) ==> r == Err::<
                Array,
                ArrayError,
            >(ArrayError::InvalidKeep),
            (forall|i: int| 0 <= i < counts@.len() ==> counts@[i] >= 0) ==> ({
                let pr = pad_result(counts@, self.srow_count(), fill_view(fill_counts));
                &&& (pr matches Err(e) ==> r == Err::<Array, ArrayError>(e))
                &&& (pr matches Ok(pc) ==> {
                    if self.srank() == 0 {
                        &&& (pc.len() != 1 ==> r == Err::<Array, ArrayError>(
                            ArrayError::RankMismatch,
                        ))
                        &&& (pc.len() == 1 ==> (r matches Ok(out) && out.wf() && out.shapev()
                            =~= seq![pc[0] as usize] && out.datav() == repeat_whole(
                            self.datav(),
                            pc[0] as nat,
                        ) && out.keysv() is None))
                    } else {
                        let total = counts_sum(ints(pc));
                        let rl = self.srow_len();
                        &&& (total > usize::MAX || total * rl > usize::MAX ==> r == Err::<
                            Array,
                            ArrayError,
                        >(ArrayError::SizeOverflow))
                        &&& (total <= usize::MAX && total * rl <= usize::MAX ==> (r matches Ok(
                            out,
                        ) && out.wf() && out.shapev() =~= seq![total as usize]
                            + self.shapev().drop_first() && out.datav() == keep_rows(
                            ints(pc),
                            self.datav(),
                            rl,
                        ) && out.keysv() is None))
                    }
                })
            }),
    {
        let n: usize = counts.len();
        let mut i: usize = 0;
        while i < n
            invariant
                0 <= i <= n,
                n == counts@.len(),
                forall|j: int| 0 <= j < i ==> counts@[j] >= 0,
            decreases n - i,
        {
            if counts[i] < 0 {
                return Err(ArrayError::InvalidKeep);
            }
            i = i + 1;
        }
        let rc: usize = self.row_count();
        let padded: Vec<i64> = match pad_keep_counts(counts, rc, fill_counts) {
            Ok(p) => p,
            Err(e) => {
                return Err(e);
            },
        };
        let ghost pc = padded@;
        let src = buf_slice(&self.data);
        let len: usize = src.len();
        if self.shape.len() == 0 {
            if padded.len() != 1 {
                return Err(ArrayError::RankMismatch);
            }
            let c64: i64 = padded[0];
            let mut out: Vec<i64> = Vec::new();
            let mut t: u64 = 0;
            let cu: u64 = c64 as u64;
            while t < cu
                invariant
                    0 <= t <= cu,
                    cu == c64 as u64,
                    c64 >= 0,
                    len == src@.len(),
                    out@ == repeat_whole(src@, t as nat),
                decreases cu - t,
            {
                out.extend_from_slice(src);
                proof {
                    assert(repeat_whole(src@, (t + 1) as nat) == repeat_whole(src@, t as nat)
                        + src@);
                }
                t = t + 1;
            }
            let mut shape: Vec<usize> = Vec::new();
            proof {
                crate::reshape::lemma_repeat_whole_len(src@, c64 as nat);
                assert((c64 as nat) * 1 == c64 as nat) by (nonlinear_arith);
            }
            let cl: usize = out.len();
            shape.push(cl);
            proof {
                assert(shape@ =~= seq![cl]);
                assert(shape@.drop_first() =~= Seq::<usize>::empty());
                assert(prod(shape@) == (cl as nat) * prod(shape@.drop_first()));
                assert(seq![cl] =~= seq![pc[0] as usize]);
            }
            return Ok(Array::make(shape, out));
        }
        // one count per row: sum the counts under the machine limit
        let pn: usize = padded.len();
        let mut sum: usize = 0;
        let mut i2: usize = 0;
        proof {
            assert(ints(pc).take(0) =~= Seq::<int>::empty());
        }
        while i2 < pn
            invariant
                0 <= i2 <= pn,
                pn == pc.len(),
                forall|j: int| 0 <= j < pc.len() ==> pc[j] >= 0,
                sum as nat == counts_sum(ints(pc).take(i2 as int)),
            decreases pn - i2,
        {
            proof {
                lemma_counts_sum_take_push(ints(pc), i2 as int);
            }
            let c64: i64 = padded[i2];
            let cu: u64 = c64 as u64;
            if cu > (usize::MAX as u64) {
                proof {
                    lemma_counts_sum_prefix_le(ints(pc), i2 + 1);
                }
                return Err(ArrayError::SizeOverflow);
            }
            match sum.checked_add(cu as usize) {
                Some(v) => {
                    sum = v;
                },
                None => {
                    proof {
                        lemma_counts_sum_prefix_le(ints(pc), i2 + 1);
                    }
                    return Err(ArrayError::SizeOverflow);
                },
            }
            i2 = i2 + 1;
        }
        proof {
            assert(ints(pc).take(pn as int) =~= ints(pc));
        }
        let ghost rlg = self.srow_len();
        let ghost sv = self.shapev();
        proof {
            assert(sv.drop_first() =~= sv.skip(1));
            lemma_prod_skip_unfold(sv, 0);
            assert(sv.skip(0) =~= sv);
        }
        if sum == 0 {
            proof {
                assert(pc.len() * rlg <= (rc as nat) * rlg) by (nonlinear_arith)
                    requires
                        pc.len() <= rc as nat,
                        rlg >= 0,
                ;
                lemma_keep_rows_len(ints(pc), self.datav(), rlg);
                assert(0nat * rlg == 0) by (nonlinear_arith);
                assert(keep_rows(ints(pc), self.datav(), rlg) =~= Seq::<i64>::empty());
            }
            let mut shape: Vec<usize> = Vec::new();
            shape.push(0);
            let tail = vstd::slice::slice_subrange(self.shape.as_slice(), 1, self.shape.len());
            shape.extend_from_slice(tail);
            let out: Vec<i64> = Vec::new();
            proof {
                assert(shape@ =~= seq![0usize] + sv.drop_first());
                assert(shape@.drop_first() =~= sv.drop_first());
                assert(prod(shape@) == 0nat * prod(sv.drop_first()));
                assert(prod(shape@) == 0) by (nonlinear_arith)
                    requires
                        prod(shape@) == 0nat * prod(sv.drop_first()),
                ;
                assert(seq![0usize] + sv.drop_first() =~= seq![(0nat) as usize]
                    + sv.drop_first());
            }
            return Ok(Array::make(shape, out));
        }
        let rl: usize = {
            let tail = vstd::slice::slice_subrange(self.shape.as_slice(), 1, self.shape.len());
            proof {
                assert(tail@ == sv.drop_first());
                if prod(sv.drop_first()) > usize::MAX {
                    assert((sum as nat) * rlg >= 1nat * rlg) by (nonlinear_arith)
                        requires
                            sum >= 1,
                            rlg >= 0,
                    ;
                }
            }
            match checked_prod(tail) {
                Some(p) => p,
                None => {
                    return Err(ArrayError::SizeOverflow);
                },
            }
        };
        let total: usize = match sum.checked_mul(rl) {
            Some(t) => t,
            None => {
                return Err(ArrayError::SizeOverflow);
            },
        };
        // build the kept buffer row by row
        let mut out: Vec<i64> = Vec::new();
        let mut i3: usize = 0;
        proof {
            assert(ints(pc).take(0) =~= Seq::<int>::empty());
            assert(keep_rows(ints(pc).take(0), self.datav(), rlg) == Seq::<i64>::empty());
            assert((rc as nat) * rlg == len) by {
                assert(prod(sv) == (sv[0] as nat) * prod(sv.skip(1)));
            }
        }
        while i3 < pn
            invariant
                0 <= i3 <= pn,
                pn == pc.len(),
                pc.len() <= rc as nat,
                forall|j: int| 0 <= j < pc.len() ==> pc[j] >= 0,
                len == src@.len(),
                src@ == self.datav(),
                (rc as nat) * rlg == len,
                rl as nat == rlg,
                sum as nat == counts_sum(ints(pc)),
                out@ == keep_rows(ints(pc).take(i3 as int), self.datav(), rlg),
            decreases pn - i3,
        {
            proof {
                assert((i3 + 1) * rlg <= pc.len() * rlg && pc.len() * rlg <= (rc as nat) * rlg)
                    by (nonlinear_arith)
                    requires
                        i3 + 1 <= pc.len(),
                        pc.len() <= rc as nat,
                        rlg >= 0,
                ;
                assert(i3 * rl + rl == (i3 + 1) * rl && 0 <= i3 * rl) by (nonlinear_arith)
                    requires
                        i3 >= 0,
                        rl >= 0,
                ;
            }
            let row = vstd::slice::slice_subrange(src, i3 * rl, i3 * rl + rl);
            let c64: i64 = padded[i3];
            proof {
                lemma_counts_sum_take_push(ints(pc), i3 as int);
                lemma_counts_sum_prefix_le(ints(pc), i3 + 1);
            }
            let mut t: u64 = 0;
            let cu: u64 = c64 as u64;
            while t < cu
                invariant
                    0 <= t <= cu,
                    cu == c64 as u64,
                    c64 >= 0,
                    row@ == self.datav().subrange(i3 * rlg, i3 * rlg + rlg),
                    out@ == keep_rows(ints(pc).take(i3 as int), self.datav(), rlg)
                        + repeat_whole(row@, t as nat),
                decreases cu - t,
            {
                out.extend_from_slice(row);
                proof {
                    assert(repeat_whole(row@, (t + 1) as nat) == repeat_whole(row@, t as nat)
                        + row@);
                    assert(out@ =~= keep_rows(ints(pc).take(i3 as int), self.datav(), rlg)
                        + repeat_whole(row@, (t + 1) as nat));
                }
                t = t + 1;
            }
            proof {
                lemma_keep_rows_take_push(ints(pc), self.datav(), rlg, i3 as int);
                assert(ints(pc)[i3 as int] == pc[i3 as int] as int);
                assert(out@ == keep_rows(ints(pc).take(i3 + 1), self.datav(), rlg));
            }
            i3 = i3 + 1;
        }
        let mut shape: Vec<usize> = Vec::new();
        shape.push(sum);
        let tail = vstd::slice::slice_subrange(self.shape.as_slice(), 1, self.shape.len());
        shape.extend_from_slice(tail);
        proof {
            assert(ints(pc).take(pn as int) =~= ints(pc));
            assert(pc.len() * rlg <= (rc as nat) * rlg) by (nonlinear_arith)
                requires
                    pc.len() <= rc as nat,
                    rlg >= 0,
            ;
            lemma_keep_rows_len(ints(pc), self.datav(), rlg);
            assert(shape@ =~= seq![sum] + sv.drop_first());
            assert(shape@.drop_first() =~= sv.drop_first());
            assert(prod(shape@) == (sum as nat) * prod(sv.drop_first()));
        }
        Ok(Array::make(shape, out))
    }

    /// Keeps this array with one scalar count: the whole array is
    /// replicated that many times row by row (a scalar grows a new
    /// axis); zero keeps nothing.
    pub fn keep_scalar_integer(self, count: usize) -> (r: Result<Array, ArrayError>)
        requires
            self.wf(),
        ensures
            (count as nat) * self.datav().len() > usize::MAX ==> r == Err::<Array, ArrayError>(
                ArrayError::SizeOverflow,
            ),
            (count as nat) * self.datav().len() <= usize::MAX ==> ({
                if self.srank() == 0 {
                    (r matches Ok(out) && out.wf() && out.shapev() =~= seq![count]
                        && out.datav() == repeat_whole(self.datav(), count as nat)
                        && out.keysv() == self.keysv())
                } else {
                    let s0 = (self.shapev()[0] as nat) * count;
                    &&& (s0 > usize::MAX ==> r == Err::<Array, ArrayError>(
                        ArrayError::SizeOverflow,
                    ))
                    &&& (s0 <= usize::MAX ==> (r matches Ok(out) && out.wf() && out.shapev()
                        =~= seq![s0 as usize] + self.shapev().drop_first() && out.datav()
                        == keep_rows(
                        Seq::new(self.srow_count(), |j: int| count as int),
                        self.datav(),
                        self.srow_len(),
                    ) && out.keysv() == self.keysv()))
                }
            }),
    {
        let src = buf_slice(&self.data);
        let len: usize = src.len();
        if count.checked_mul(len).is_none() {
            return Err(ArrayError::SizeOverflow);
        }
        if self.shape.len() == 0 {
            let mut out: Vec<i64> = Vec::new();
            let mut t: usize = 0;
            proof {
                crate::reshape::lemma_repeat_whole_len(src@, count as nat);
            }
            while t < count
                invariant
                    0 <= t <= count,
                    len == src@.len(),
                    (count as nat) * (len as nat) <= usize::MAX,
                    out@ == repeat_whole(src@, t as nat),
                    out@.len() == (t as nat) * (len as nat),
                decreases count - t,
            {
                out.extend_from_slice(src);
                proof {
                    assert(repeat_whole(src@, (t + 1) as nat) == repeat_whole(src@, t as nat)
                        + src@);
                    crate::reshape::lemma_repeat_whole_len(src@, (t + 1) as nat);
                    assert(((t + 1) as nat) * (len as nat) <= (count as nat) * (len as nat))
                        by (nonlinear_arith)
                        requires
                            t + 1 <= count,
                            len >= 0,
                    ;
                }
                t = t + 1;
            }
            let mut shape: Vec<usize> = Vec::new();
            let cl: usize = out.len();
            shape.push(cl);
            proof {
                assert(shape@ =~= seq![cl]);
                assert(shape@.drop_first() =~= Seq::<usize>::empty());
                assert(prod(shape@) == (cl as nat) * prod(shape@.drop_first()));
                assert((count as nat) * (len as nat) == count as nat) by (nonlinear_arith)
                    requires
                        len == 1,
                ;
                assert(len == 1);
                assert(shape@ =~= seq![count]);
            }
            return Ok(Array { shape, data: buf_from_vec(out), keys: self.keys });
        }
        let ghost sv = self.shapev();
        let rc: usize = self.row_count();
        let counts_vec_len: usize = rc;
        let ghost cseq = Seq::new(self.srow_count(), |j: int| count as int);
        let s0: usize = match self.shape[0].checked_mul(count) {
            Some(v) => v,
            None => {
                return Err(ArrayError::SizeOverflow);
            },
        };
        let ghost rlg = self.srow_len();
        proof {
            assert(sv.drop_first() =~= sv.skip(1));
            lemma_prod_skip_unfold(sv, 0);
            assert(sv.skip(0) =~= sv);
            assert((rc as nat) * rlg == len) by {
                assert(prod(sv) == (sv[0] as nat) * prod(sv.skip(1)));
            }
        }
        let rl: usize = {
            if len == 0 {
                // nothing to copy; the row length only scales zero rows
                0
            } else {
                proof {
                    lemma_prod_sub_pos(sv, 1);
                    crate::array::lemma_prod_part_le(sv, 1);
                }
                crate::array::prod_all(
                    vstd::slice::slice_subrange(self.shape.as_slice(), 1, self.shape.len()),
                )
            }
        };
        let mut out: Vec<i64> = Vec::new();
        let mut i3: usize = 0;
        proof {
            assert(cseq.take(0) =~= Seq::<int>::empty());
            assert(keep_rows(cseq.take(0), self.datav(), rlg) == Seq::<i64>::empty());
        }
        while i3 < counts_vec_len
            invariant
                0 <= i3 <= counts_vec_len,
                counts_vec_len == rc,
                cseq == Seq::new(self.srow_count(), |j: int| count as int),
                rc as nat == self.srow_count(),
                len == src@.len(),
                src@ == self.datav(),
                (rc as nat) * rlg == len,
                len > 0 ==> rl as nat == rlg,
                len == 0 ==> rl == 0,
                out@ == keep_rows(cseq.take(i3 as int), self.datav(), rlg),
            decreases counts_vec_len - i3,
        {
            if len == 0 {
                proof {
                    assert((i3 + 1) * rlg <= (rc as nat) * rlg) by (nonlinear_arith)
                        requires
                            i3 + 1 <= rc as nat,
                            rlg >= 0,
                    ;
                    assert(i3 * rlg + rlg == (i3 + 1) * rlg && 0 <= i3 * rlg)
                        by (nonlinear_arith);
                    assert(self.datav().subrange(i3 as int * rlg, i3 as int * rlg + rlg)
                        =~= Seq::<i64>::empty());
                    lemma_keep_rows_take_push(cseq, self.datav(), rlg, i3 as int);
                    crate::reshape::lemma_repeat_whole_len(Seq::<i64>::empty(), count as nat);
                    assert((count as nat) * 0 == 0) by (nonlinear_arith);
                    assert(repeat_whole(Seq::<i64>::empty(), count as nat)
                        =~= Seq::<i64>::empty());
                    assert(out@ =~= keep_rows(cseq.take(i3 + 1), self.datav(), rlg));
                }
                i3 = i3 + 1;
                continue ;
            }
            proof {
                assert((i3 + 1) * rlg <= (rc as nat) * rlg) by (nonlinear_arith)
                    requires
                        i3 + 1 <= rc as nat,
                        rlg >= 0,
                ;
                assert(i3 * rl + rl == (i3 + 1) * rl && 0 <= i3 * rl) by (nonlinear_arith)
                    requires
                        i3 >= 0,
                        rl >= 0,
                ;
            }
            let row = vstd::slice::slice_subrange(src, i3 * rl, i3 * rl + rl);
            let mut t: usize = 0;
            while t < count
                invariant
                    0 <= t <= count,
                    row@ == self.datav().subrange(i3 * rlg, i3 * rlg + rlg),
                    out@ == keep_rows(cseq.take(i3 as int), self.datav(), rlg) + repeat_whole(
                        row@,
                        t as nat,
                    ),
                decreases count - t,
            {
                out.extend_from_slice(row);
                proof {
                    assert(repeat_whole(row@, (t + 1) as nat) == repeat_whole(row@, t as nat)
                        + row@);
                    assert(out@ =~= keep_rows(cseq.take(i3 as int), self.datav(), rlg)
                        + repeat_whole(row@, (t + 1) as nat));
                }
                t = t + 1;
            }
            proof {
                lemma_keep_rows_take_push(cseq, self.datav(), rlg, i3 as int);
                assert(out@ == keep_rows(cseq.take(i3 + 1), self.datav(), rlg));
            }
            i3 = i3 + 1;
        }
        let mut shape: Vec<usize> = Vec::new();
        shape.push(s0);
        let tail = vstd::slice::slice_subrange(self.shape.as_slice(), 1, self.shape.len());
        shape.extend_from_slice(tail);
        proof {
            assert(cseq.take(counts_vec_len as int) =~= cseq);
            assert((rc as nat) * rlg <= (rc as nat) * rlg) by (nonlinear_arith);
            lemma_keep_rows_len(cseq, self.datav(), rlg);
            assert(counts_sum(cseq) == (rc as nat) * (count as nat)) by {
                lemma_counts_sum_const(self.srow_count(), count as int);
            }
            assert(shape@ =~= seq![s0] + sv.drop_first());
            assert(shape@.drop_first() =~= sv.drop_first());
            assert(prod(shape@) == (s0 as nat) * prod(sv.drop_first()));
            assert(out@.len() == prod(shape@)) by (nonlinear_arith)
                requires
                    out@.len() == counts_sum(cseq) * rlg,
                    counts_sum(cseq) == (rc as nat) * (count as nat),
                    prod(shape@) == (s0 as nat) * rlg,
                    s0 as nat == (rc as nat) * (count as nat),
                    rlg == prod(sv.drop_first()),
            ;
        }
        Ok(Array { shape, data: buf_from_vec(out), keys: self.keys })
    }
}

/// The sum of a constant count list.
pub proof fn lemma_counts_sum_const(n: nat, c: int)
    requires
        c >= 0,
    ensures
        counts_sum(Seq::new(n, |j: int| c)) == n * (c as nat),
    decreases n,
{
    let s = Seq::new(n, |j: int| c);
    if n == 0 {
        assert(0nat * (c as nat) == 0) by (nonlinear_arith);
    } else {
        lemma_counts_sum_const((n - 1) as nat, c);
        assert(s.drop_first() =~= Seq::new((n - 1) as nat, |j: int| c));
        assert(counts_sum(s) == (c as nat) + counts_sum(s.drop_first()));
        assert((c as nat) + ((n - 1) as nat) * (c as nat) == n * (c as nat))
            by (nonlinear_arith)
            requires
                n >= 1,
                c >= 0,
        ;
    }
}


/// Length of the leading run: how many leading rows equal the first.
pub open spec fn first_run(data: Seq<i64>, rl: nat, n: nat) -> nat
    decreases n,
{
    if n == 0 {
        0
    } else if n == 1 {
        1
    } else if row_at(data, rl, 1) == row_at(data, rl, 0) {
        1 + first_run(data.skip(rl as int), rl, (n - 1) as nat)
    } else {
        1
    }
}

pub proof fn lemma_first_run_bound(data: Seq<i64>, rl: nat, n: nat)
    ensures
        n >= 1 ==> 1 <= first_run(data, rl, n) <= n,
    decreases n,
{
    if n > 1 {
        lemma_first_run_bound(data.skip(rl as int), rl, (n - 1) as nat);
    }
}

/// The run lengths of the run-length compression, leading run first.
pub open spec fn rle_counts(data: Seq<i64>, rl: nat, n: nat) -> Seq<int>
    decreases n,
{
    if n == 0 {
        Seq::empty()
    } else {
        let k0 = first_run(data, rl, n);
        let k = if k0 < 1 {
            1nat
        } else if k0 > n {
            n
        } else {
            k0
        };
        seq![k as int] + rle_counts(data.skip((k * rl) as int), rl, (n - k) as nat)
    }
}

/// One representative row per run, in order, as one flat buffer.
pub open spec fn rle_rows(data: Seq<i64>, rl: nat, n: nat) -> Seq<i64>
    decreases n,
{
    if n == 0 {
        Seq::empty()
    } else {
        let k0 = first_run(data, rl, n);
        let k = if k0 < 1 {
            1nat
        } else if k0 > n {
            n
        } else {
            k0
        };
        data.take(rl as int) + rle_rows(data.skip((k * rl) as int), rl, (n - k) as nat)
    }
}

/// Row indexing commutes with dropping whole leading rows.
pub proof fn lemma_row_at_skip(data: Seq<i64>, rl: nat, d: nat, j: int)
    requires
        0 <= j,
        d * rl + (j + 1) * rl <= data.len(),
    ensures
        row_at(data.skip((d * rl) as int), rl, j) == row_at(data, rl, d + j),
{
    assert((d + j) * rl == d * rl + j * rl && (d + j + 1) * rl == d * rl + (j + 1) * rl && 0 <= j
        * rl && j * rl + rl == (j + 1) * rl) by (nonlinear_arith)
        requires
            0 <= j,
            rl >= 0,
            d >= 0,
    ;
    assert(data.skip((d * rl) as int).len() == data.len() - d * rl);
    assert(data.skip((d * rl) as int).subrange(j * rl, (j + 1) * rl) =~= data.subrange(
        (d + j) * rl,
        (d + j + 1) * rl,
    ));
}

/// Where the leading run ends: `k` rows equal to the first, and
/// either the array ends there or the next row differs.
pub proof fn lemma_first_run_is(data: Seq<i64>, rl: nat, n: nat, k: nat)
    requires
        1 <= k <= n,
        data.len() >= n * rl,
        forall|j: int| 1 <= j < k ==> #[trigger] row_at(data, rl, j) == row_at(data, rl, 0),
        k < n ==> row_at(data, rl, k as int) != row_at(data, rl, 0),
    ensures
        first_run(data, rl, n) == k,
    decreases k,
{
    assert((n - 1) * rl + rl == n * rl) by (nonlinear_arith);
    if k == 1 {
        if n > 1 {
            assert(row_at(data, rl, 1) != row_at(data, rl, 0));
        }
    } else {
        // k >= 2, so n >= 2 and row 1 equals row 0
        assert(row_at(data, rl, 1) == row_at(data, rl, 0));
        assert(first_run(data, rl, n) == 1 + first_run(data.skip(rl as int), rl, (n - 1) as nat));
        assert(data.skip(rl as int).len() >= (n - 1) * rl) by (nonlinear_arith)
            requires
                data.len() >= n * rl,
                n >= 1,
                rl >= 0,
        ;
        assert forall|j: int| 1 <= j < k - 1 implies #[trigger] row_at(
            data.skip((1 * rl) as int),
            rl,
            j,
        ) == row_at(data.skip((1 * rl) as int), rl, 0) by {
            assert((j + 2) * rl <= n * rl && 1 * rl + (j + 1) * rl <= data.len() && 1 * rl + (0
                + 1) * rl <= data.len()) by (nonlinear_arith)
                requires
                    data.len() >= n * rl,
                    j + 2 <= n,
                    rl >= 0,
                    n >= 2,
            ;
            lemma_row_at_skip(data, rl, 1, j);
            lemma_row_at_skip(data, rl, 1, 0);
            assert(row_at(data, rl, 1 + j) == row_at(data, rl, 0));
        }
        if k < n {
            assert(1 * rl + (k - 1 + 1) * rl <= data.len() && 1 * rl + (0 + 1) * rl
                <= data.len()) by (nonlinear_arith)
                requires
                    data.len() >= n * rl,
                    k + 1 <= n + 1,
                    k < n,
                    rl >= 0,
                    n >= 2,
            ;
            lemma_row_at_skip(data, rl, 1, k - 1);
            lemma_row_at_skip(data, rl, 1, 0);
        } else {
            assert(1 * rl + (0 + 1) * rl <= data.len()) by (nonlinear_arith)
                requires
                    data.len() >= n * rl,
                    n >= 2,
                    rl >= 0,
            ;
            lemma_row_at_skip(data, rl, 1, 0);
        }
        assert(1 * rl == rl) by (nonlinear_arith);
        lemma_first_run_is(data.skip(rl as int), rl, (n - 1) as nat, (k - 1) as nat);
    }
}

/// With no two adjacent rows equal, run-length compression is the
/// identity: every count is one and the rows stay as they are.
pub proof fn lemma_rle_distinct(data: Seq<i64>, rl: nat, n: nat)
    requires
        data.len() == n * rl,
        forall|j: int| 1 <= j < n ==> #[trigger] row_at(data, rl, j) != row_at(data, rl, j - 1),
    ensures
        rle_counts(data, rl, n) == Seq::new(n, |j: int| 1int),
        rle_rows(data, rl, n) == data,
    decreases n,
{
    if n == 0 {
        assert(rle_counts(data, rl, n) =~= Seq::new(n, |j: int| 1int));
        assert(data.len() == 0) by (nonlinear_arith)
            requires
                data.len() == n * rl,
                n == 0,
        ;
        assert(rle_rows(data, rl, n) =~= data);
    } else {
        lemma_first_run_is(data, rl, n, 1);
        assert(first_run(data, rl, n) == 1);
        assert(data.skip((1 * rl) as int).len() == (n - 1) * rl && 1 * rl == rl) by (nonlinear_arith)
            requires
                data.len() == n * rl,
                n >= 1,
                rl >= 0,
        ;
        assert forall|j: int| 1 <= j < n - 1 implies #[trigger] row_at(data.skip(rl as int), rl, j)
            != row_at(data.skip(rl as int), rl, j - 1) by {
            assert(1 * rl + (j + 1) * rl <= data.len() && 1 * rl + (j - 1 + 1) * rl
                <= data.len()) by (nonlinear_arith)
                requires
                    data.len() == n * rl,
                    j + 2 <= n + 1,
                    j < n - 1,
                    rl >= 0,
                    n >= 1,
            ;
            lemma_row_at_skip(data, rl, 1, j);
            lemma_row_at_skip(data, rl, 1, j - 1);
            assert(row_at(data, rl, 1 + j) != row_at(data, rl, 1 + j - 1));
        }
        lemma_rle_distinct(data.skip(rl as int), rl, (n - 1) as nat);
        assert(rle_counts(data, rl, n) == seq![1int] + rle_counts(
            data.skip((1 * rl) as int),
            rl,
            (n - 1) as nat,
        ));
        assert(rle_rows(data, rl, n) == data.take(rl as int) + rle_rows(
            data.skip((1 * rl) as int),
            rl,
            (n - 1) as nat,
        ));
        assert(rle_counts(data, rl, n) =~= Seq::new(n, |j: int| 1int));
        assert(rle_rows(data, rl, n) =~= data.take(rl as int) + data.skip(rl as int));
        assert(data.len() >= rl) by (nonlinear_arith)
            requires
                data.len() == n * rl,
                n >= 1,
                rl >= 0,
        ;
        assert(data.take(rl as int) + data.skip(rl as int) =~= data);
    }
}

/// Unkeep then keep is the identity on arrays with no two adjacent
/// equal rows: compressing such an array yields all-one counts and
/// the array itself, and keeping by those counts rebuilds it exactly.
pub proof fn lemma_unkeep_keep_inverse(data: Seq<i64>, rl: nat, n: nat)
    requires
        data.len() == n * rl,
        forall|j: int| 1 <= j < n ==> #[trigger] row_at(data, rl, j) != row_at(data, rl, j - 1),
    ensures
        keep_rows(rle_counts(data, rl, n), rle_rows(data, rl, n), rl) == data,
{
    lemma_rle_distinct(data, rl, n);
    lemma_keep_all_ones(data, rl, n);
}


/// Element-for-element equality of two rows.
pub(crate) fn rows_eq(a: &[i64], b: &[i64]) -> (r: bool)
    ensures
        r <==> a@ == b@,
{
    if a.len() != b.len() {
        proof {
            assert(a@.len() != b@.len());
        }
        return false;
    }
    let n: usize = a.len();
    let mut i: usize = 0;
    while i < n
        invariant
            0 <= i <= n,
            n == a@.len(),
            n == b@.len(),
            forall|j: int| 0 <= j < i ==> a@[j] == b@[j],
        decreases n - i,
    {
        if a[i] != b[i] {
            return false;
        }
        i = i + 1;
    }
    proof {
        assert(a@ =~= b@);
    }
    true
}

/// What the inverse of a boolean keep rebuilds: rows of the original
/// where the count is zero, rows of the transformed array (consumed in
/// order) where it is one.
pub open spec fn undo_keep_data(counts: Seq<int>, tdata: Seq<i64>, idata: Seq<i64>, rl: nat)
    -> Seq<i64>
    decreases counts.len(),
{
    if counts.len() == 0 {
        Seq::empty()
    } else if counts[0] >= 1 {
        tdata.take(rl as int) + undo_keep_data(
            counts.drop_first(),
            tdata.skip(rl as int),
            idata.skip(rl as int),
            rl,
        )
    } else {
        idata.take(rl as int) + undo_keep_data(
            counts.drop_first(),
            tdata,
            idata.skip(rl as int),
            rl,
        )
    }
}

impl Array {
    /// Run-length compresses the rows: returns the run lengths (a
    /// one-dimensional count array) and one representative row per
    /// run. A scalar cannot be unkept. Any key table is dropped.
    #[verifier::rlimit(60)]
    pub fn unkeep(self) -> (r: Result<(Array, Array), ArrayError>)
        requires
            self.wf(),
            self.srow_count() <= i64::MAX,
        ensures
            self.srank() == 0 ==> r == Err::<(Array, Array), ArrayError>(ArrayError::RankMismatch),
            self.srank() > 0 ==> (r matches Ok(p) && {
                let n = self.srow_count();
                let rl = self.srow_len();
                let cs = rle_counts(self.datav(), rl, n);
                &&& p.0.wf() && p.0.shapev() =~= seq![cs.len() as usize] && ints(p.0.datav())
                    == cs && p.0.keysv() is None
                &&& p.1.wf() && p.1.shapev() =~= seq![cs.len() as usize]
                    + self.shapev().drop_first() && p.1.datav() == rle_rows(
                    self.datav(),
                    rl,
                    n,
                ) && p.1.keysv() is None
            }),
    {
        if self.shape.len() == 0 {
            return Err(ArrayError::RankMismatch);
        }
        let ghost dv = self.datav();
        let ghost sv = self.shapev();
        let ghost rlg = self.srow_len();
        let rc: usize = self.row_count();
        let src = buf_slice(&self.data);
        let len: usize = src.len();
        proof {
            assert(sv.drop_first() =~= sv.skip(1));
            lemma_prod_skip_unfold(sv, 0);
            assert(sv.skip(0) =~= sv);
            assert((rc as nat) * rlg == len) by {
                assert(prod(sv) == (sv[0] as nat) * prod(sv.skip(1)));
            }
        }
        let mut counts: Vec<i64> = Vec::new();
        let mut out: Vec<i64> = Vec::new();
        let mut shape0: Vec<usize> = Vec::new();
        let mut shape1: Vec<usize> = Vec::new();
        if rc == 0 {
            proof {
                assert(rle_counts(dv, rlg, 0) == Seq::<int>::empty());
                assert(rle_rows(dv, rlg, 0) == Seq::<i64>::empty());
                assert(ints(counts@) =~= Seq::<int>::empty());
            }
            shape0.push(0);
            shape1.push(0);
            let tail = vstd::slice::slice_subrange(self.shape.as_slice(), 1, self.shape.len());
            shape1.extend_from_slice(tail);
            proof {
                assert(shape0@ =~= seq![0usize]);
                assert(shape0@.drop_first() =~= Seq::<usize>::empty());
                assert(prod(shape0@) == 0nat * prod(shape0@.drop_first()));
                assert(prod(shape0@) == 0) by (nonlinear_arith)
                    requires
                        prod(shape0@) == 0nat * prod(shape0@.drop_first()),
                ;
                assert(shape1@ =~= seq![0usize] + sv.drop_first());
                assert(shape1@.drop_first() =~= sv.drop_first());
                assert(prod(shape1@) == 0nat * prod(sv.drop_first()));
                assert(prod(shape1@) == 0) by (nonlinear_arith)
                    requires
                        prod(shape1@) == 0nat * prod(sv.drop_first()),
                ;
            }
            return Ok((Array::make(shape0, counts), Array::make(shape1, out)));
        }
        let rl: usize = if len == 0 {
            proof {
                assert(rlg == 0) by (nonlinear_arith)
                    requires
                        (rc as nat) * rlg == 0,
                        rc >= 1,
                ;
            }
            0
        } else {
            proof {
                lemma_prod_sub_pos(sv, 1);
                crate::array::lemma_prod_part_le(sv, 1);
            }
            crate::array::prod_all(
                vstd::slice::slice_subrange(self.shape.as_slice(), 1, self.shape.len()),
            )
        };
        proof {
            assert((0 + 1) * rlg <= (rc as nat) * rlg) by (nonlinear_arith)
            requires
                rc >= 1,
                rlg >= 0,
            ;
            assert(0 * rlg == 0 && 0 * rlg + rlg == rlg && (0 + 1) * rlg == rlg)
                by (nonlinear_arith);
        }
        let first = vstd::slice::slice_subrange(src, 0, rl);
        out.extend_from_slice(first);
        let ghost mut closed: Seq<i64> = Seq::empty();
        proof {
            assert(dv.skip((0 * rlg) as int) =~= dv);
            assert(out@ =~= closed + row_at(dv, rlg, 0)) by {
                assert(row_at(dv, rlg, 0) =~= dv.subrange(0, rlg as int));
                assert(Seq::<i64>::empty() + dv.subrange(0, rlg as int) =~= dv.subrange(
                    0,
                    rlg as int,
                ));
            }
            assert(ints(counts@) =~= Seq::<int>::empty());
            assert(Seq::<int>::empty() + rle_counts(dv, rlg, rc as nat) =~= rle_counts(
                dv,
                rlg,
                rc as nat,
            ));
            assert(Seq::<i64>::empty() + rle_rows(dv, rlg, rc as nat) =~= rle_rows(
                dv,
                rlg,
                rc as nat,
            ));
        }
        let mut rep: usize = 0;
        let mut r: usize = 1;
        while r < rc
            invariant
                0 <= rep < r <= rc,
                rc >= 1,
                rc as nat <= i64::MAX,
                len == src@.len(),
                src@ == dv,
                (rc as nat) * rlg == len,
                rl as nat == rlg,
                forall|j: int| rep < j < r ==> #[trigger] row_at(dv, rlg, j) == row_at(
                    dv,
                    rlg,
                    rep as int,
                ),
                rle_counts(dv, rlg, rc as nat) == ints(counts@) + rle_counts(
                    dv.skip((rep as nat * rlg) as int),
                    rlg,
                    (rc - rep) as nat,
                ),
                rle_rows(dv, rlg, rc as nat) == closed + rle_rows(
                    dv.skip((rep as nat * rlg) as int),
                    rlg,
                    (rc - rep) as nat,
                ),
                out@ == closed + row_at(dv, rlg, rep as int),
                closed.len() == counts@.len() * rlg,
                forall|j: int| 0 <= j < counts@.len() ==> counts@[j] >= 0,
            decreases rc - r,
        {
            proof {
                assert((r + 1) * rlg <= (rc as nat) * rlg && (rep + 1) * rlg <= (rc as nat)
                    * rlg) by (nonlinear_arith)
                    requires
                        r + 1 <= rc as nat,
                        rep + 1 <= rc as nat,
                        rlg >= 0,
                ;
                assert(r * rl + rl == (r + 1) * rl && 0 <= r * rl && rep * rl + rl == (rep + 1)
                    * rl && 0 <= rep * rl) by (nonlinear_arith);
            }
            let row_r = vstd::slice::slice_subrange(src, r * rl, r * rl + rl);
            let row_rep = vstd::slice::slice_subrange(src, rep * rl, rep * rl + rl);
            if rows_eq(row_r, row_rep) {
                proof {
                    assert(row_at(dv, rlg, r as int) == row_at(dv, rlg, rep as int));
                }
                r = r + 1;
            } else {
                proof {
                    let nrem = (rc - rep) as nat;
                    let k = (r - rep) as nat;
                    let dsk = dv.skip((rep as nat * rlg) as int);
                    assert(rep as nat * rlg <= (rc as nat) * rlg && (rc as nat) * rlg - rep
                        as nat * rlg == (rc - rep) * rlg) by (nonlinear_arith)
                        requires
                            0 <= rep <= rc,
                            rlg >= 0,
                    ;
                    assert(dsk.len() == (rc - rep) * rlg);
                    assert(nrem * rlg == (rc - rep) * rlg);
                    assert forall|j: int| 1 <= j < k implies #[trigger] row_at(dsk, rlg, j)
                        == row_at(dsk, rlg, 0) by {
                        assert(rep as nat * rlg + (j + 1) * rlg <= dv.len() && rep as nat * rlg
                            + (0 + 1) * rlg <= dv.len()) by (nonlinear_arith)
                            requires
                                dv.len() == (rc as nat) * rlg,
                                rep + j + 1 <= rc,
                                rep + 1 <= rc,
                                0 <= j,
                                rlg >= 0,
                        ;
                        lemma_row_at_skip(dv, rlg, rep as nat, j);
                        lemma_row_at_skip(dv, rlg, rep as nat, 0);
                        assert(row_at(dv, rlg, rep + j) == row_at(dv, rlg, rep as int));
                    }
                    assert(rep as nat * rlg + (k + 1) * rlg <= dv.len() && rep as nat * rlg + (0
                        + 1) * rlg <= dv.len()) by (nonlinear_arith)
                        requires
                            dv.len() == (rc as nat) * rlg,
                            rep + k + 1 <= rc,
                            rep + 1 <= rc,
                            rlg >= 0,
                            k >= 0,
                    ;
                    lemma_row_at_skip(dv, rlg, rep as nat, k as int);
                    lemma_row_at_skip(dv, rlg, rep as nat, 0);
                    lemma_first_run_is(dsk, rlg, nrem, k);
                    // unfold one run of the compression
                    assert(rle_counts(dsk, rlg, nrem) == seq![k as int] + rle_counts(
                        dsk.skip((k * rlg) as int),
                        rlg,
                        (nrem - k) as nat,
                    ));
                    assert(rle_rows(dsk, rlg, nrem) == dsk.take(rlg as int) + rle_rows(
                        dsk.skip((k * rlg) as int),
                        rlg,
                        (nrem - k) as nat,
                    ));
                    assert(dsk.skip((k * rlg) as int) =~= dv.skip((r as nat * rlg) as int)) by {
                        assert(rep * rlg + k * rlg == r * rlg) by (nonlinear_arith)
                            requires
                                k == r - rep,
                        ;
                    }
                    assert(dsk.take(rlg as int) =~= row_at(dv, rlg, rep as int)) by {
                        assert(rep * rlg + rlg == (rep + 1) * rlg) by (nonlinear_arith);
                    }
                }
                counts.push((r - rep) as i64);
                proof {
                    assert(ints(counts@) =~= ints(counts@.take(counts@.len() - 1)) + seq![
                        (r - rep) as int,
                    ]);
                    assert(ints(counts@.take(counts@.len() - 1)) =~= ints(
                        counts@,
                    ).take(counts@.len() - 1));
                }
                let ghost oldout = out@;
                out.extend_from_slice(row_r);
                proof {
                    closed = oldout;
                    assert(out@ =~= closed + row_at(dv, rlg, r as int));
                    assert((counts@.len() - 1) * rlg + rlg == counts@.len() * rlg)
                        by (nonlinear_arith);
                    assert(rle_counts(dv, rlg, rc as nat) =~= ints(counts@) + rle_counts(
                        dv.skip((r as nat * rlg) as int),
                        rlg,
                        (rc - r) as nat,
                    ));
                    assert(rle_rows(dv, rlg, rc as nat) =~= closed + rle_rows(
                        dv.skip((r as nat * rlg) as int),
                        rlg,
                        (rc - r) as nat,
                    ));
                }
                rep = r;
                r = r + 1;
            }
        }
        // close the final run
        proof {
            let nrem = (rc - rep) as nat;
            let k = (rc - rep) as nat;
            let dsk = dv.skip((rep as nat * rlg) as int);
            assert(rep as nat * rlg <= (rc as nat) * rlg && (rc as nat) * rlg - rep as nat * rlg
                == (rc - rep) * rlg) by (nonlinear_arith)
                requires
                    0 <= rep <= rc,
                    rlg >= 0,
            ;
            assert(dsk.len() == (rc - rep) * rlg);
            assert forall|j: int| 1 <= j < k implies #[trigger] row_at(dsk, rlg, j) == row_at(
                dsk,
                rlg,
                0,
            ) by {
                assert(rep as nat * rlg + (j + 1) * rlg <= dv.len() && rep as nat * rlg + (0 + 1)
                    * rlg <= dv.len()) by (nonlinear_arith)
                    requires
                        dv.len() == (rc as nat) * rlg,
                        rep + j + 1 <= rc,
                        rep + 1 <= rc,
                        0 <= j,
                        rlg >= 0,
                ;
                lemma_row_at_skip(dv, rlg, rep as nat, j);
                lemma_row_at_skip(dv, rlg, rep as nat, 0);
                assert(row_at(dv, rlg, rep + j) == row_at(dv, rlg, rep as int));
            }
            lemma_first_run_is(dsk, rlg, nrem, k);
            assert(rle_counts(dsk, rlg, nrem) == seq![k as int] + rle_counts(
                dsk.skip((k * rlg) as int),
                rlg,
                (nrem - k) as nat,
            ));
            assert(rle_rows(dsk, rlg, nrem) == dsk.take(rlg as int) + rle_rows(
                dsk.skip((k * rlg) as int),
                rlg,
                (nrem - k) as nat,
            ));
            assert(rle_counts(dsk.skip((k * rlg) as int), rlg, 0) == Seq::<int>::empty());
            assert(rle_rows(dsk.skip((k * rlg) as int), rlg, 0) == Seq::<i64>::empty());
            assert(dsk.take(rlg as int) =~= row_at(dv, rlg, rep as int)) by {
                assert(rep * rlg + rlg == (rep + 1) * rlg && (rep + 1) * rlg <= (rc as nat) * rlg)
                    by (nonlinear_arith)
                    requires
                        rep + 1 <= rc as nat,
                        rlg >= 0,
                ;
            }
        }
        counts.push((rc - rep) as i64);
        proof {
            assert((rep + 1) * rlg <= (rc as nat) * rlg && 0 <= rep * rlg && rep * rlg + rlg
                == (rep + 1) * rlg) by (nonlinear_arith)
                requires
                    rep + 1 <= rc as nat,
                    rlg >= 0,
            ;
            assert(row_at(dv, rlg, rep as int).len() == rlg);
            assert(ints(counts@) =~= ints(counts@.take(counts@.len() - 1)) + seq![
                (rc - rep) as int,
            ]);
            assert(ints(counts@.take(counts@.len() - 1)) =~= ints(counts@).take(counts@.len()
                - 1));
            assert(rle_counts(dv, rlg, rc as nat) =~= ints(counts@) + Seq::<int>::empty());
            assert(rle_counts(dv, rlg, rc as nat) =~= ints(counts@));
            assert(rle_rows(dv, rlg, rc as nat) =~= closed + row_at(dv, rlg, rep as int)
                + Seq::<i64>::empty());
            assert(rle_rows(dv, rlg, rc as nat) =~= out@);
            assert((counts@.len() - 1) * rlg + rlg == counts@.len() * rlg) by (nonlinear_arith);
        }
        let runs: usize = counts.len();
        shape0.push(runs);
        shape1.push(runs);
        let tail = vstd::slice::slice_subrange(self.shape.as_slice(), 1, self.shape.len());
        shape1.extend_from_slice(tail);
        proof {
            assert(shape0@ =~= seq![runs]);
            assert(shape0@.drop_first() =~= Seq::<usize>::empty());
            assert(prod(shape0@) == (runs as nat) * prod(shape0@.drop_first()));
            assert((runs as nat) * 1 == runs as nat) by (nonlinear_arith);
            assert(shape1@ =~= seq![runs] + sv.drop_first());
            assert(shape1@.drop_first() =~= sv.drop_first());
            assert(prod(shape1@) == (runs as nat) * prod(sv.drop_first()));
            assert(rle_counts(dv, rlg, rc as nat).len() == runs) by {
                assert(ints(counts@).len() == counts@.len());
            }
            assert(counts@.len() == prod(shape0@));
            assert(out@.len() == counts@.len() * rlg);
            assert(out@.len() == prod(shape1@)) by (nonlinear_arith)
                requires
                    out@.len() == counts@.len() * rlg,
                    prod(shape1@) == (runs as nat) * prod(sv.drop_first()),
                    runs == counts@.len(),
                    rlg == prod(sv.drop_first()),
            ;
        }
        Ok((Array::make(shape0, counts), Array::make(shape1, out)))
    }

    /// Undoes a boolean keep: walks the counts, taking the matching
    /// row of the kept array where the count is one and the remembered
    /// original's row where it is zero. Counts above one are not
    /// invertible; running out of kept rows is a length error. The
    /// kept array's row shape is validated only where a row is
    /// actually pulled: with every count zero the remembered rows come
    /// back whatever shape the kept side has.
    #[verifier::rlimit(100)]
    #[verifier::spinoff_prover]
    pub fn undo_keep(self, counts: &[i64], into: &Array, fill_counts: Option<&Array>) -> (r:
        Result<Array, ArrayError>)
        requires
            self.wf(),
            into.wf(),
            fill_counts matches Some(f) ==> f.wf(),
        ensures
            (exists|i: int| 0 <= i < counts@.len() && counts@[i] < 0) ==> r == Err::<
                Array,
                ArrayError,
            >(ArrayError::InvalidKeep),
            (forall|i: int| 0 <= i < counts@.len() ==> counts@[i] >= 0) ==> (pad_result(
                counts@,
                into.srow_count(),
                fill_view(fill_counts),
            ) matches Err(e) ==> r == Err::<Array, ArrayError>(e)),
            (forall|i: int| 0 <= i < counts@.len() ==> counts@[i] >= 0) ==> (pad_result(
                counts@,
                into.srow_count(),
                fill_view(fill_counts),
            ) matches Ok(pc) ==> ((exists|i: int| 0 <= i < pc.len() && pc[i] > 1) ==> r == Err::<
                Array,
                ArrayError,
            >(ArrayError::NotInvertible))),
            (forall|i: int| 0 <= i < counts@.len() ==> counts@[i] >= 0) ==> (pad_result(
                counts@,
                into.srow_count(),
                fill_view(fill_counts),
            ) matches Ok(pc) ==> ((forall|i: int| 0 <= i < pc.len() ==> pc[i] <= 1)
                && counts_sum(ints(pc)) == 0 ==> (r matches Ok(out) && out.wf() && out.shapev()
                =~= seq![pc.len() as usize] + into.srow_shape() && out.datav()
                == undo_keep_data(
                ints(pc),
                self.datav(),
                into.datav(),
                into.srow_len(),
            ) && out.keysv() is None))),
            (forall|i: int| 0 <= i < counts@.len() ==> counts@[i] >= 0) ==> (pad_result(
                counts@,
                into.srow_count(),
                fill_view(fill_counts),
            ) matches Ok(pc) ==> ((forall|i: int| 0 <= i < pc.len() ==> pc[i] <= 1)
                && counts_sum(ints(pc)) > 0 && self.srow_count() == 0 ==> r == Err::<
                Array,
                ArrayError,
            >(ArrayError::LengthMismatch))),
            (forall|i: int| 0 <= i < counts@.len() ==> counts@[i] >= 0) ==> (pad_result(
                counts@,
                into.srow_count(),
                fill_view(fill_counts),
            ) matches Ok(pc) ==> ((forall|i: int| 0 <= i < pc.len() ==> pc[i] <= 1)
                && counts_sum(ints(pc)) > 0 && self.srow_count() > 0 && self.srow_shape()
                != into.srow_shape() ==> r == Err::<Array, ArrayError>(
                ArrayError::ShapeMismatch,
            ))),
            (forall|i: int| 0 <= i < counts@.len() ==> counts@[i] >= 0) ==> (pad_result(
                counts@,
                into.srow_count(),
                fill_view(fill_counts),
            ) matches Ok(pc) ==> ((forall|i: int| 0 <= i < pc.len() ==> pc[i] <= 1)
                && counts_sum(ints(pc)) > 0 && self.srow_count() > 0 && self.srow_shape()
                == into.srow_shape() && counts_sum(ints(pc)) > self.srow_count() ==> r
                == Err::<Array, ArrayError>(ArrayError::LengthMismatch))),
            (forall|i: int| 0 <= i < counts@.len() ==> counts@[i] >= 0) ==> (pad_result(
                counts@,
                into.srow_count(),
                fill_view(fill_counts),
            ) matches Ok(pc) ==> ((forall|i: int| 0 <= i < pc.len() ==> pc[i] <= 1)
                && counts_sum(ints(pc)) > 0 && self.srow_count() > 0 && self.srow_shape()
                == into.srow_shape() && counts_sum(ints(pc)) <= self.srow_count() ==> (r
                matches Ok(out) && out.wf() && out.shapev() =~= seq![pc.len() as usize]
                + into.srow_shape() && out.datav() == undo_keep_data(
                ints(pc),
                self.datav(),
                into.datav(),
                into.srow_len(),
            ) && out.keysv() is None))),
    {
        let n: usize = counts.len();
        let mut i: usize = 0;
        while i < n
            invariant
                0 <= i <= n,
                n == counts@.len(),
                forall|j: int| 0 <= j < i ==> counts@[j] >= 0,
            decreases n - i,
        {
            if counts[i] < 0 {
                return Err(ArrayError::InvalidKeep);
            }
            i = i + 1;
        }
        let irc: usize = into.row_count();
        let padded: Vec<i64> = match pad_keep_counts(counts, irc, fill_counts) {
            Ok(p) => p,
            Err(e) => {
                return Err(e);
            },
        };
        let ghost pc = padded@;
        let pn: usize = padded.len();
        let mut i2: usize = 0;
        while i2 < pn
            invariant
                0 <= i2 <= pn,
                pn == pc.len(),
                forall|j: int| 0 <= j < i2 ==> pc[j] <= 1,
            decreases pn - i2,
        {
            if padded[i2] > 1 {
                proof {
                    let prr = pad_result(counts@, into.srow_count(), fill_view(fill_counts));
                    assert(prr is Ok && prr->Ok_0 == pc);
                    assert(0 <= i2 < prr->Ok_0.len() && prr->Ok_0[i2 as int] > 1);
                    assert(exists|j: int| 0 <= j < prr->Ok_0.len() && prr->Ok_0[j] > 1);
                }
                return Err(ArrayError::NotInvertible);
            }
            i2 = i2 + 1;
        }
        // count the kept rows needed
        let mut need: usize = 0;
        let mut i3: usize = 0;
        proof {
            assert(ints(pc).take(0) =~= Seq::<int>::empty());
        }
        while i3 < pn
            invariant
                0 <= i3 <= pn,
                pn == pc.len(),
                forall|j: int| 0 <= j < pc.len() ==> 0 <= #[trigger] pc[j] <= 1,
                need as nat == counts_sum(ints(pc).take(i3 as int)),
                need <= i3,
            decreases pn - i3,
        {
            proof {
                lemma_counts_sum_take_push(ints(pc), i3 as int);
            }
            if padded[i3] == 1 {
                need = need + 1;
            }
            i3 = i3 + 1;
        }
        proof {
            assert(ints(pc).take(pn as int) =~= ints(pc));
        }
        let irank: usize = into.shape.len();
        let itail = vstd::slice::slice_subrange(
            into.shape.as_slice(),
            if irank == 0 {
                0
            } else {
                1
            },
            irank,
        );
        let ghost itv = into.shapev();
        let ghost rlg = into.srow_len();
        let idata = buf_slice(&into.data);
        let ilen: usize = idata.len();
        proof {
            assert(into.srow_shape() =~= itail@);
            if irank == 0 {
                assert(into.srow_shape() =~= itv);
                assert(1nat * rlg == rlg) by (nonlinear_arith);
            } else {
                assert(into.srow_shape() =~= itv.skip(1));
                lemma_prod_skip_unfold(itv, 0);
                assert(itv.skip(0) =~= itv);
                assert(prod(itv) == (itv[0] as nat) * prod(itv.skip(1)));
            }
            assert((irc as nat) * rlg == idata@.len());
            assert(prod(itail@) == rlg);
        }
        if need == 0 {
            // nothing is pulled from the kept array: the rebuild reads
            // only the remembered rows, whatever the kept side's shape
            proof {
                assert forall|j: int| 0 <= j < pc.len() implies #[trigger] ints(pc)[j] == 0 by {
                    if pc[j] >= 1 {
                        lemma_counts_sum_take_push(ints(pc), j);
                        lemma_counts_sum_prefix_le(ints(pc), j + 1);
                        assert(counts_sum(ints(pc)) >= 1);
                    }
                }
            }
            let rl0: usize = if ilen == 0 && irc == 0 {
                0
            } else {
                proof {
                    if ilen > 0 {
                        if irank > 0 {
                            lemma_prod_sub_pos(itv, 1);
                            crate::array::lemma_prod_part_le(itv, 1);
                            assert(itail@ == itv.skip(1));
                        } else {
                            assert(itail@ =~= Seq::<usize>::empty());
                        }
                    } else {
                        assert(rlg == 0) by (nonlinear_arith)
                            requires
                                (irc as nat) * rlg == 0,
                                irc >= 1,
                        ;
                    }
                }
                crate::array::prod_all(itail)
            };
            proof {
                assert(rl0 as nat == rlg || (irc == 0 && pn == 0));
                assert((pn as nat) * rlg <= (irc as nat) * rlg) by (nonlinear_arith)
                    requires
                        pn <= irc,
                        rlg >= 0,
                ;
                if irc == 0 && pn == 0 {
                    assert((pn as nat) * (rl0 as nat) == 0) by (nonlinear_arith)
                        requires
                            pn == 0,
                    ;
                }
            }
            let out = vstd::slice::slice_to_vec(
                vstd::slice::slice_subrange(idata, 0, pn * rl0),
            );
            proof {
                lemma_undo_keep_all_zero(ints(pc), self.datav(), idata@, rlg);
                if irc == 0 && pn == 0 {
                    assert(ints(pc) =~= Seq::<int>::empty());
                    assert((pn as nat) * rlg == 0) by (nonlinear_arith)
                        requires
                            pn == 0,
                    ;
                }
                assert(out@ =~= undo_keep_data(ints(pc), self.datav(), into.datav(), rlg));
            }
            let mut shape: Vec<usize> = Vec::new();
            shape.push(pn);
            shape.extend_from_slice(itail);
            proof {
                assert(shape@ =~= seq![pn] + itail@);
                assert(shape@.drop_first() =~= itail@);
                assert(prod(shape@) == (pn as nat) * prod(itail@));
                assert(out@.len() == (pn as nat) * rlg) by {
                    if !(rl0 as nat == rlg) {
                        assert((pn as nat) * rlg == 0) by (nonlinear_arith)
                            requires
                                pn == 0,
                        ;
                    }
                }
                assert(out@.len() == prod(shape@));
            }
            return Ok(Array::make(shape, out));
        }
        let src_rc: usize = self.row_count();
        if src_rc == 0 {
            // a row must be pulled, but the kept array has none
            return Err(ArrayError::LengthMismatch);
        }
        // row shapes must agree between the kept array and the original
        let srank: usize = self.shape.len();
        let irank: usize = into.shape.len();
        let stail = vstd::slice::slice_subrange(
            self.shape.as_slice(),
            if srank == 0 {
                0
            } else {
                1
            },
            srank,
        );
        let itail = vstd::slice::slice_subrange(
            into.shape.as_slice(),
            if irank == 0 {
                0
            } else {
                1
            },
            irank,
        );
        let mut same: bool = stail.len() == itail.len();
        if same {
            let mut t: usize = 0;
            while t < stail.len()
                invariant
                    0 <= t <= stail@.len(),
                    stail@.len() == itail@.len(),
                    same <==> forall|j: int| 0 <= j < t ==> stail@[j] == itail@[j],
                decreases stail@.len() - t,
            {
                if stail[t] != itail[t] {
                    same = false;
                } else {
                    if same {
                        proof {
                            assert(forall|j: int| 0 <= j < t + 1 ==> stail@[j] == itail@[j]);
                        }
                    }
                }
                t = t + 1;
            }
            proof {
                if same {
                    assert(stail@ =~= itail@);
                }
            }
        }
        proof {
            assert(self.srow_shape() =~= stail@);
            assert(into.srow_shape() =~= itail@);
            if !same {
                assert(stail@ != itail@);
            }
        }
        if !same {
            return Err(ArrayError::ShapeMismatch);
        }
        if need > src_rc {
            return Err(ArrayError::LengthMismatch);
        }
        // row length shared by both arrays (their row shapes agree)
        let ghost stv = self.shapev();
        let tdata = buf_slice(&self.data);
        let tlen: usize = tdata.len();
        proof {
            assert(stail@ == itail@);
            if irank == 0 {
                assert(into.srow_shape() =~= itv);
                assert(1nat * rlg == rlg) by (nonlinear_arith);
            } else {
                assert(into.srow_shape() =~= itv.skip(1));
                lemma_prod_skip_unfold(itv, 0);
                assert(itv.skip(0) =~= itv);
                assert(prod(itv) == (itv[0] as nat) * prod(itv.skip(1)));
            }
            assert((irc as nat) * rlg == idata@.len());
            assert(self.srow_len() == rlg) by {
                assert(self.srow_shape() == into.srow_shape());
            }
            if srank == 0 {
                assert(self.srow_shape() =~= stv);
                assert(1nat * rlg == rlg) by (nonlinear_arith);
            } else {
                assert(self.srow_shape() =~= stv.skip(1));
                lemma_prod_skip_unfold(stv, 0);
                assert(stv.skip(0) =~= stv);
                assert(prod(stv) == (stv[0] as nat) * prod(stv.skip(1)));
            }
            assert((src_rc as nat) * rlg == tdata@.len());
        }
        proof {
            // the shared row length is addressable: it divides whichever
            // buffer is nonempty, and is one when both arrays are scalars
            assert(itail@ =~= into.srow_shape());
            assert(stail@ =~= self.srow_shape());
            assert(prod(itail@) == rlg);
            if idata@.len() > 0 {
                if irank > 0 {
                    lemma_prod_sub_pos(itv, 1);
                    crate::array::lemma_prod_part_le(itv, 1);
                    assert(itail@ == itv.skip(1));
                } else {
                    assert(itail@ =~= Seq::<usize>::empty());
                }
            } else if tdata@.len() > 0 {
                if srank > 0 {
                    lemma_prod_sub_pos(stv, 1);
                    crate::array::lemma_prod_part_le(stv, 1);
                    assert(stail@ == stv.skip(1));
                } else {
                    assert(stail@ =~= Seq::<usize>::empty());
                }
            } else {
                if irc >= 1 {
                    assert(rlg == 0) by (nonlinear_arith)
                        requires
                            (irc as nat) * rlg == 0,
                            irc >= 1,
                    ;
                } else if src_rc >= 1 {
                    assert(rlg == 0) by (nonlinear_arith)
                        requires
                            (src_rc as nat) * rlg == 0,
                            src_rc >= 1,
                    ;
                }
            }
            assert(prod(itail@) <= usize::MAX || (irc == 0 && src_rc == 0));
        }
        let rl: usize = if idata.len() == 0 && tdata.len() == 0 && irc == 0 && src_rc == 0 {
            // no rows anywhere: the row length never scales anything
            0
        } else {
            crate::array::prod_all(itail)
        };
        proof {
            assert(rl as nat == rlg || (irc == 0 && src_rc == 0));
        }
        let out: Vec<i64> = undo_rows(padded.as_slice(), tdata, idata, rl, Ghost(src_rc as nat), Ghost(irc as nat));
        proof {
            if !(rl as nat == rlg) {
                assert(irc == 0 && src_rc == 0);
                assert(pn == 0);
                assert(ints(pc) =~= Seq::<int>::empty());
                assert(undo_keep_data(ints(pc), tdata@, idata@, rlg) == Seq::<i64>::empty());
                assert(undo_keep_data(ints(pc), tdata@, idata@, rl as nat)
                    == Seq::<i64>::empty());
            }
        }
        let mut shape: Vec<usize> = Vec::new();
        shape.push(pn);
        shape.extend_from_slice(itail);
        proof {
            assert(shape@ =~= seq![pn] + itail@);
            assert(shape@.drop_first() =~= itail@);
            assert(prod(shape@) == (pn as nat) * prod(itail@));
            assert(prod(itail@) == rlg);
            assert(counts_sum(ints(pc)) * rlg <= (src_rc as nat) * rlg && (pn as nat) * rlg
                <= (irc as nat) * rlg) by (nonlinear_arith)
                requires
                    counts_sum(ints(pc)) <= src_rc as nat,
                    pn <= irc,
                    rlg >= 0,
            ;
            lemma_undo_keep_len(ints(pc), tdata@, idata@, rlg);
            assert(out@.len() == prod(shape@)) by (nonlinear_arith)
                requires
                    out@.len() == ints(pc).len() * rlg,
                    prod(shape@) == (pn as nat) * rlg,
                    pn == ints(pc).len(),
            ;
        }
        Ok(Array::make(shape, out))
    }
}

/// A zero-one count list's sum never exceeds its length.
pub proof fn lemma_counts_sum_ones_le(s: Seq<int>, i: int)
    requires
        0 <= i <= s.len(),
        forall|j: int| 0 <= j < s.len() ==> s[j] <= 1,
    ensures
        counts_sum(s.take(i)) <= i,
    decreases i,
{
    if i > 0 {
        lemma_counts_sum_ones_le(s, i - 1);
        lemma_counts_sum_take_push(s, i - 1);
    }
}

/// With no row pulled, the rebuild is exactly the remembered rows.
pub proof fn lemma_undo_keep_all_zero(
    counts: Seq<int>,
    tdata: Seq<i64>,
    idata: Seq<i64>,
    rl: nat,
)
    requires
        forall|j: int| 0 <= j < counts.len() ==> #[trigger] counts[j] == 0,
        idata.len() >= counts.len() * rl,
    ensures
        undo_keep_data(counts, tdata, idata, rl) == idata.take((counts.len() * rl) as int),
    decreases counts.len(),
{
    if counts.len() == 0 {
        assert(0nat * rl == 0) by (nonlinear_arith);
        assert(undo_keep_data(counts, tdata, idata, rl) =~= idata.take(0));
    } else {
        assert(idata.len() >= rl && idata.skip(rl as int).len() >= (counts.len() - 1) * rl)
            by (nonlinear_arith)
            requires
                idata.len() >= counts.len() * rl,
                counts.len() >= 1,
                rl >= 0,
        ;
        assert forall|j: int| 0 <= j < counts.drop_first().len()
            implies #[trigger] counts.drop_first()[j] == 0 by {
            assert(counts.drop_first()[j] == counts[j + 1]);
        }
        lemma_undo_keep_all_zero(counts.drop_first(), tdata, idata.skip(rl as int), rl);
        assert(counts[0] == 0);
        assert(undo_keep_data(counts, tdata, idata, rl) == idata.take(rl as int)
            + undo_keep_data(counts.drop_first(), tdata, idata.skip(rl as int), rl));
        assert((counts.len() - 1) * rl + rl == counts.len() * rl && rl <= counts.len() * rl)
            by (nonlinear_arith)
            requires
                counts.len() >= 1,
                rl >= 0,
        ;
        assert(idata.take(rl as int) + idata.skip(rl as int).take(
            ((counts.len() - 1) * rl) as int,
        ) =~= idata.take((counts.len() * rl) as int));
    }
}

/// Undoing a keep yields one row per count.
pub proof fn lemma_undo_keep_len(counts: Seq<int>, tdata: Seq<i64>, idata: Seq<i64>, rl: nat)
    requires
        forall|j: int| 0 <= j < counts.len() ==> 0 <= #[trigger] counts[j] <= 1,
        tdata.len() >= counts_sum(counts) * rl,
        idata.len() >= counts.len() * rl,
    ensures
        undo_keep_data(counts, tdata, idata, rl).len() == counts.len() * rl,
    decreases counts.len(),
{
    if counts.len() == 0 {
        assert(0nat * rl == 0) by (nonlinear_arith);
    } else {
        assert(counts.drop_first() =~= counts.skip(1));
        assert(counts_sum(counts) == (if counts[0] >= 0 {
            counts[0] as nat
        } else {
            0nat
        }) + counts_sum(counts.drop_first()));
        assert(idata.len() >= rl && idata.skip(rl as int).len() >= (counts.len() - 1) * rl)
            by (nonlinear_arith)
            requires
                idata.len() >= counts.len() * rl,
                counts.len() >= 1,
                rl >= 0,
        ;
        if counts[0] >= 1 {
            assert(tdata.len() >= rl && tdata.skip(rl as int).len() >= counts_sum(
                counts.drop_first(),
            ) * rl) by (nonlinear_arith)
                requires
                    tdata.len() >= counts_sum(counts) * rl,
                    counts_sum(counts) == 1 + counts_sum(counts.drop_first()),
                    rl >= 0,
            ;
            lemma_undo_keep_len(counts.drop_first(), tdata.skip(rl as int), idata.skip(rl as int),
                rl);
        } else {
            lemma_undo_keep_len(counts.drop_first(), tdata, idata.skip(rl as int), rl);
        }
        assert(rl + (counts.len() - 1) * rl == counts.len() * rl) by (nonlinear_arith);
    }
}


/// The row-merging walk of the keep inverse, over already validated
/// counts.
fn undo_rows(
    padded: &[i64],
    tdata: &[i64],
    idata: &[i64],
    rl: usize,
    src_rc: Ghost<nat>,
    irc: Ghost<nat>,
) -> (out: Vec<i64>)
    requires
        forall|j: int| 0 <= j < padded@.len() ==> 0 <= #[trigger] padded@[j] <= 1,
        padded@.len() <= irc@,
        counts_sum(ints(padded@)) <= src_rc@,
        tdata@.len() == src_rc@ * (rl as nat),
        idata@.len() == irc@ * (rl as nat),
    ensures
        out@ == undo_keep_data(ints(padded@), tdata@, idata@, rl as nat),
{
    let ghost pc = padded@;
    let ghost rlg = rl as nat;
    let pn: usize = padded.len();
    let tlen: usize = tdata.len();
    let ilen: usize = idata.len();
    let mut out: Vec<i64> = Vec::new();
    let mut i4: usize = 0;
    let mut tpos: usize = 0;
    proof {
        assert(ints(pc).skip(0) =~= ints(pc));
        assert(tdata@.skip(0) =~= tdata@);
        assert(idata@.skip(0) =~= idata@);
        assert(ints(pc).take(0) =~= Seq::<int>::empty());
        assert(Seq::<i64>::empty() + undo_keep_data(ints(pc), tdata@, idata@, rlg)
            =~= undo_keep_data(ints(pc), tdata@, idata@, rlg));
        assert(0 * rlg == 0) by (nonlinear_arith);
    }
    while i4 < pn
        invariant
            0 <= i4 <= pn,
            0 <= tpos,
            pn == pc.len(),
            pn <= irc@,
            rlg == rl as nat,
            forall|j: int| 0 <= j < pc.len() ==> 0 <= #[trigger] pc[j] <= 1,
            tpos as nat == counts_sum(ints(pc).take(i4 as int)),
            counts_sum(ints(pc)) <= src_rc@,
            tdata@.len() == src_rc@ * rlg,
            idata@.len() == irc@ * rlg,
            tlen == tdata@.len(),
            ilen == idata@.len(),
            undo_keep_data(ints(pc), tdata@, idata@, rlg) == out@ + undo_keep_data(
                ints(pc).skip(i4 as int),
                tdata@.skip((tpos as nat * rlg) as int),
                idata@.skip((i4 as nat * rlg) as int),
                rlg,
            ),
        decreases pn - i4,
    {
        proof {
            lemma_counts_sum_take_push(ints(pc), i4 as int);
            lemma_counts_sum_prefix_le(ints(pc), i4 + 1);
            assert(tpos <= i4) by {
                lemma_counts_sum_ones_le(ints(pc), i4 as int);
            }
            assert((i4 + 1) * rlg <= irc@ * rlg) by (nonlinear_arith)
                requires
                    i4 + 1 <= irc@,
                    rlg >= 0,
            ;
            assert(i4 * rl + rl == (i4 + 1) * rl && 0 <= i4 * rl) by (nonlinear_arith)
                requires
                    i4 >= 0,
                    rl >= 0,
            ;
            let csk = ints(pc).skip(i4 as int);
            assert(csk[0] == pc[i4 as int]);
            assert(csk.drop_first() =~= ints(pc).skip(i4 + 1));
        }
        let ghost csk = ints(pc).skip(i4 as int);
        let ghost tsk = tdata@.skip((tpos as nat * rlg) as int);
        let ghost isk = idata@.skip((i4 as nat * rlg) as int);
        let ghost out0 = out@;
        let c: i64 = padded[i4];
        if c == 1 {
            proof {
                assert(tpos as nat + 1 == counts_sum(ints(pc).take(i4 + 1)));
                assert((tpos + 1) * rlg <= src_rc@ * rlg) by (nonlinear_arith)
                    requires
                        tpos + 1 <= src_rc@,
                        rlg >= 0,
                ;
                assert(tpos * rl + rl == (tpos + 1) * rl && 0 <= tpos * rl)
                    by (nonlinear_arith)
                    requires
                        tpos >= 0,
                        rl >= 0,
                ;
            }
            let row = vstd::slice::slice_subrange(tdata, tpos * rl, tpos * rl + rl);
            out.extend_from_slice(row);
            proof {
                assert(undo_keep_data(csk, tsk, isk, rlg) == tsk.take(rlg as int)
                    + undo_keep_data(csk.drop_first(), tsk.skip(rlg as int), isk.skip(rlg as int),
                    rlg));
                assert(tsk.take(rlg as int) =~= tdata@.subrange(tpos * rlg, tpos * rlg + rlg));
                assert(row@ == tsk.take(rlg as int));
                assert(tsk.skip(rlg as int) =~= tdata@.skip(((tpos + 1) as nat * rlg) as int)) by {
                    assert(tpos * rlg + rlg == (tpos + 1) * rlg) by (nonlinear_arith);
                }
                assert(isk.skip(rlg as int) =~= idata@.skip(((i4 + 1) as nat * rlg) as int)) by {
                    assert(i4 * rlg + rlg == (i4 + 1) * rlg) by (nonlinear_arith);
                }
                assert(out@ + undo_keep_data(
                    ints(pc).skip(i4 + 1),
                    tdata@.skip(((tpos + 1) as nat * rlg) as int),
                    idata@.skip(((i4 + 1) as nat * rlg) as int),
                    rlg,
                ) =~= out0 + undo_keep_data(csk, tsk, isk, rlg));
            }
            tpos = tpos + 1;
        } else {
            let row = vstd::slice::slice_subrange(idata, i4 * rl, i4 * rl + rl);
            out.extend_from_slice(row);
            proof {
                assert(undo_keep_data(csk, tsk, isk, rlg) == isk.take(rlg as int)
                    + undo_keep_data(csk.drop_first(), tsk, isk.skip(rlg as int), rlg));
                assert(isk.take(rlg as int) =~= idata@.subrange(i4 * rlg, i4 * rlg + rlg));
                assert(row@ == isk.take(rlg as int));
                assert(isk.skip(rlg as int) =~= idata@.skip(((i4 + 1) as nat * rlg) as int)) by {
                    assert(i4 * rlg + rlg == (i4 + 1) * rlg) by (nonlinear_arith);
                }
                assert(out@ + undo_keep_data(
                    ints(pc).skip(i4 + 1),
                    tdata@.skip((tpos as nat * rlg) as int),
                    idata@.skip(((i4 + 1) as nat * rlg) as int),
                    rlg,
                ) =~= out0 + undo_keep_data(csk, tsk, isk, rlg));
            }
        }
        i4 = i4 + 1;
    }
    proof {
        assert(ints(pc).skip(pn as int) =~= Seq::<int>::empty());
        assert(undo_keep_data(
            Seq::<int>::empty(),
            tdata@.skip((tpos as nat * rlg) as int),
            idata@.skip((pn as nat * rlg) as int),
            rlg,
        ) == Seq::<i64>::empty());
        assert(out@ + Seq::<i64>::empty() =~= out@);
    }
    out
}


} // verus!
