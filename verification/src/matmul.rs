//! Batched matrix multiplication: every row of one array against
//! every row of the other, an elementwise broadcast product summed
//! along the contracted axis, with a parallel path above a row-count
//! threshold.
use vstd::prelude::*;
use crate::ArrayError;
use crate::array::{Array, prod, prod_all, checked_prod, lemma_prod_skip_unfold,
    lemma_prod_split};
use crate::buffer::buf_slice;
use crate::search::{rcount, rlen};
use crate::keep::row_at;
use rayon::iter::{IntoParallelIterator, ParallelIterator};

verus! {

/// How many rows either operand may have before the work fans out to
/// a worker pool.
pub const PAR_THRESHOLD: usize = 100;

/// Wrapping product and sum on the element type.
pub open spec fn wmul(a: i64, b: i64) -> i64 {
    vstd::wrapping::i64_specs::wrapping_mul(a, b)
}

pub open spec fn wadd(a: i64, b: i64) -> i64 {
    vstd::wrapping::i64_specs::wrapping_add(a, b)
}

/// The elementwise broadcast product of two row buffers whose shapes
/// share a prefix: the shorter row is spread over the longer one's
/// trailing block.
pub open spec fn pervade_mul(a: Seq<i64>, b: Seq<i64>) -> Seq<i64> {
    if a.len() <= b.len() {
        Seq::new(
            b.len(),
            |i: int|
                wmul(
                    if a.len() == 0 {
                        0i64
                    } else {
                        a[i / ((b.len() / a.len()) as int)]
                    },
                    b[i],
                ),
        )
    } else {
        Seq::new(
            a.len(),
            |i: int| wmul(a[i], b[i / ((a.len() / b.len()) as int)]),
        )
    }
}

/// The contraction: a product row folded down its leading axis by
/// wrapping addition, chunk after chunk.
pub open spec fn fold_chunks(data: Seq<i64>, width: nat, k: nat) -> Seq<i64>
    decreases k,
{
    if k == 0 {
        Seq::new(width, |i: int| 0i64)
    } else {
        let prev = fold_chunks(data, width, (k - 1) as nat);
        Seq::new(
            width,
            |i: int| wadd(prev[i], data[(k - 1) * width + i]),
        )
    }
}

/// One output cell block: row `i` of `a` against row `j` of `b`.
pub open spec fn mm_cell(
    arow: Seq<i64>,
    brow: Seq<i64>,
    width: nat,
    chunks: nat,
) -> Seq<i64> {
    fold_chunks(pervade_mul(arow, brow), width, chunks)
}

/// Do two row shapes share a prefix (one is a leading slice of the
/// other)?
pub open spec fn shape_prefixes_match(a: Seq<usize>, b: Seq<usize>) -> bool {
    forall|j: int| 0 <= j < a.len() && j < b.len() ==> a[j] == b[j]
}

/// The longer of the two row shapes: the product's shape.
pub open spec fn mm_prod_shape(arsh: Seq<usize>, brsh: Seq<usize>) -> Seq<usize> {
    if arsh.len() >= brsh.len() {
        arsh
    } else {
        brsh
    }
}

pub open spec fn mm_width(arsh: Seq<usize>, brsh: Seq<usize>) -> nat {
    crate::search::rlen(mm_prod_shape(arsh, brsh))
}

pub open spec fn mm_chunks(arsh: Seq<usize>, brsh: Seq<usize>) -> nat {
    crate::search::rcount(mm_prod_shape(arsh, brsh))
}

/// One output row: row `i` of `a` against every row of `b`, in order.
pub open spec fn mm_row(
    arow: Seq<i64>,
    bdata: Seq<i64>,
    brl: nat,
    bn: nat,
    width: nat,
    chunks: nat,
) -> Seq<i64>
    decreases bn,
{
    if bn == 0 {
        Seq::empty()
    } else {
        mm_row(arow, bdata, brl, (bn - 1) as nat, width, chunks) + mm_cell(
            arow,
            bdata.subrange(((bn - 1) * brl) as int, (bn * brl) as int),
            width,
            chunks,
        )
    }
}

/// The whole output buffer: every row of `a` against every row of
/// `b`.
pub open spec fn mm_data(
    adata: Seq<i64>,
    arl: nat,
    an: nat,
    bdata: Seq<i64>,
    brl: nat,
    bn: nat,
    width: nat,
    chunks: nat,
) -> Seq<i64>
    decreases an,
{
    if an == 0 {
        Seq::empty()
    } else {
        mm_data(adata, arl, (an - 1) as nat, bdata, brl, bn, width, chunks) + mm_row(
            adata.subrange(((an - 1) * arl) as int, (an * arl) as int),
            bdata,
            brl,
            bn,
            width,
            chunks,
        )
    }
}

pub proof fn lemma_fold_chunks_len(data: Seq<i64>, width: nat, k: nat)
    ensures
        fold_chunks(data, width, k).len() == width,
    decreases k,
{
    if k > 0 {
        lemma_fold_chunks_len(data, width, (k - 1) as nat);
    }
}

pub proof fn lemma_mm_row_len(
    arow: Seq<i64>,
    bdata: Seq<i64>,
    brl: nat,
    bn: nat,
    width: nat,
    chunks: nat,
)
    ensures
        mm_row(arow, bdata, brl, bn, width, chunks).len() == bn * width,
    decreases bn,
{
    if bn == 0 {
        assert(0nat * width == 0) by (nonlinear_arith);
    } else {
        lemma_mm_row_len(arow, bdata, brl, (bn - 1) as nat, width, chunks);
        lemma_fold_chunks_len(
            pervade_mul(arow, bdata.subrange(((bn - 1) * brl) as int, (bn * brl) as int)),
            width,
            chunks,
        );
        assert((bn - 1) * width + width == bn * width) by (nonlinear_arith);
    }
}

pub proof fn lemma_mm_data_len(
    adata: Seq<i64>,
    arl: nat,
    an: nat,
    bdata: Seq<i64>,
    brl: nat,
    bn: nat,
    width: nat,
    chunks: nat,
)
    ensures
        mm_data(adata, arl, an, bdata, brl, bn, width, chunks).len() == an * (bn * width),
    decreases an,
{
    if an == 0 {
        assert(0nat * (bn * width) == 0) by (nonlinear_arith);
    } else {
        lemma_mm_data_len(adata, arl, (an - 1) as nat, bdata, brl, bn, width, chunks);
        lemma_mm_row_len(
            adata.subrange(((an - 1) * arl) as int, (an * arl) as int),
            bdata,
            brl,
            bn,
            width,
            chunks,
        );
        assert((an - 1) * (bn * width) + bn * width == an * (bn * width)) by (nonlinear_arith);
    }
}

/// The elementwise broadcast product of two rows; the shorter row
/// must divide the longer one into whole blocks (its shape is a
/// prefix of the other's).
fn pervade_mul_exec(arow: &[i64], brow: &[i64]) -> (out: Vec<i64>)
    requires
        arow@.len() <= brow@.len() && arow@.len() > 0 ==> brow@.len() as int % (
        arow@.len() as int) == 0,
        arow@.len() > brow@.len() ==> brow@.len() > 0 && arow@.len() as int % (
        brow@.len() as int) == 0,
    ensures
        out@ == pervade_mul(arow@, brow@),
{
    let al: usize = arow.len();
    let bl: usize = brow.len();
    let mut out: Vec<i64> = Vec::new();
    if al <= bl {
        let block: usize = if al == 0 {
            1
        } else {
            bl / al
        };
        proof {
            if al > 0 {
                vstd::arithmetic::div_mod::lemma_fundamental_div_mod(bl as int, al as int);
                assert(bl as int == al * block) by (nonlinear_arith)
                    requires
                        bl as int == (al as int) * (bl as int / al as int) + bl as int % (
                        al as int),
                        bl as int % (al as int) == 0,
                        block == bl as int / al as int,
                ;
            }
        }
        let mut i: usize = 0;
        while i < bl
            invariant
                0 <= i <= bl,
                al == arow@.len(),
                bl == brow@.len(),
                al <= bl,
                al > 0 ==> block == bl as int / al as int && bl as int == al * block,
                al == 0 ==> block == 1,
                out@.len() == i,
                forall|t: int| 0 <= t < i ==> out@[t] == pervade_mul(arow@, brow@)[t],
            decreases bl - i,
        {
            let src: usize = if al == 0 {
                0
            } else {
                proof {
                    assert(block > 0) by (nonlinear_arith)
                        requires
                            bl as int == al * block,
                            bl >= al,
                            al >= 1,
                            bl > 0,
                            block >= 0,
                    ;
                    assert((block as int) * (al as int) == bl) by (nonlinear_arith)
                        requires
                            bl as int == al * block,
                    ;
                    vstd::arithmetic::div_mod::lemma_multiply_divide_lt(
                        i as int,
                        block as int,
                        al as int,
                    );
                    vstd::arithmetic::div_mod::lemma_div_pos_is_pos(i as int, block as int);
                }
                i / block
            };
            let av: i64 = if al == 0 {
                0
            } else {
                arow[src]
            };
            out.push(av.wrapping_mul(brow[i]));
            proof {
                assert(out@[i as int] == pervade_mul(arow@, brow@)[i as int]);
            }
            i = i + 1;
        }
        proof {
            assert(out@ =~= pervade_mul(arow@, brow@));
        }
        out
    } else {
        let block: usize = al / bl;
        proof {
            vstd::arithmetic::div_mod::lemma_fundamental_div_mod(al as int, bl as int);
            assert(al as int == bl * block) by (nonlinear_arith)
                requires
                    al as int == (bl as int) * (al as int / bl as int) + al as int % (
                    bl as int),
                    al as int % (bl as int) == 0,
                    block == al as int / bl as int,
            ;
        }
        let mut i: usize = 0;
        while i < al
            invariant
                0 <= i <= al,
                al == arow@.len(),
                bl == brow@.len(),
                al > bl,
                bl > 0,
                block == al as int / bl as int,
                al as int == bl * block,
                out@.len() == i,
                forall|t: int| 0 <= t < i ==> out@[t] == pervade_mul(arow@, brow@)[t],
            decreases al - i,
        {
            proof {
                assert(block > 0) by (nonlinear_arith)
                    requires
                        al as int == bl * block,
                        al > bl,
                        bl >= 1,
                        block >= 0,
                ;
                assert((block as int) * (bl as int) == al) by (nonlinear_arith)
                    requires
                        al as int == bl * block,
                ;
                vstd::arithmetic::div_mod::lemma_multiply_divide_lt(
                    i as int,
                    block as int,
                    bl as int,
                );
                vstd::arithmetic::div_mod::lemma_div_pos_is_pos(i as int, block as int);
            }
            let src: usize = i / block;
            out.push(arow[i].wrapping_mul(brow[src]));
            proof {
                assert(out@[i as int] == pervade_mul(arow@, brow@)[i as int]);
            }
            i = i + 1;
        }
        proof {
            assert(out@ =~= pervade_mul(arow@, brow@));
        }
        out
    }
}

/// Folds a product row down its leading axis by wrapping addition.
fn fold_chunks_exec(data: &[i64], width: usize, chunks: usize) -> (out: Vec<i64>)
    requires
        chunks * width <= data@.len(),
    ensures
        out@ == fold_chunks(data@, width as nat, chunks as nat),
{
    let dl: usize = data.len();
    let mut out: Vec<i64> = Vec::new();
    let mut t: usize = 0;
    while t < width
        invariant
            0 <= t <= width,
            out@.len() == t,
            forall|u: int| 0 <= u < t ==> out@[u] == 0i64,
        decreases width - t,
    {
        out.push(0);
        t = t + 1;
    }
    proof {
        assert(out@ =~= fold_chunks(data@, width as nat, 0));
    }
    let mut k: usize = 0;
    while k < chunks
        invariant
            0 <= k <= chunks,
            chunks * width <= data@.len(),
            dl == data@.len(),
            out@.len() == width,
            out@ == fold_chunks(data@, width as nat, k as nat),
        decreases chunks - k,
    {
        proof {
            assert((k + 1) * width <= chunks * width && k * width + width == (k + 1) * width
                && 0 <= k * width) by (nonlinear_arith)
                requires
                    k + 1 <= chunks,
                    width >= 0,
            ;
        }
        let ghost prev = out@;
        let mut u: usize = 0;
        while u < width
            invariant
                0 <= u <= width,
                chunks * width <= data@.len(),
                dl == data@.len(),
                k < chunks,
                k * width + width <= data@.len(),
                0 <= k * width,
                out@.len() == width,
                prev.len() == width,
                forall|v: int|
                    0 <= v < u ==> out@[v] == wadd(prev[v], data@[k * width + v]),
                forall|v: int| u <= v < width ==> out@[v] == prev[v],
            decreases width - u,
        {
            let cur: i64 = out[u];
            let add: i64 = data[k * width + u];
            out.set(u, cur.wrapping_add(add));
            u = u + 1;
        }
        proof {
            assert(out@ =~= Seq::new(
                width as nat,
                |v: int| wadd(
                    fold_chunks(data@, width as nat, k as nat)[v],
                    data@[k * width + v],
                ),
            ));
            assert(out@ =~= fold_chunks(data@, width as nat, (k + 1) as nat));
        }
        k = k + 1;
    }
    out
}


/// Splitting a product over a shape prefix.
pub proof fn lemma_prefix_divides(arsh: Seq<usize>, brsh: Seq<usize>)
    requires
        shape_prefixes_match(arsh, brsh),
        arsh.len() <= brsh.len(),
    ensures
        prod(brsh) == prod(arsh) * prod(brsh.skip(arsh.len() as int)),
{
    lemma_prod_split(brsh, arsh.len() as int);
    assert(brsh.take(arsh.len() as int) =~= arsh);
}

/// Everything the multiply kernel needs of its two operands: both
/// well-formed, row shapes sharing a prefix, and every working size
/// addressable.
pub open spec fn mm_ready(a: Array, b: Array) -> bool {
    &&& a.wf()
    &&& b.wf()
    &&& shape_prefixes_match(a.srow_shape(), b.srow_shape())
    &&& a.srow_len() <= usize::MAX
    &&& b.srow_len() <= usize::MAX
    &&& b.srow_count() * mm_width(a.srow_shape(), b.srow_shape()) <= usize::MAX
    &&& mm_width(a.srow_shape(), b.srow_shape()) <= usize::MAX
}

impl Array {
    /// One output row of the multiplication: row `i` of `a` against
    /// every row of `b`.
    pub fn mat_mul_row(a: &Array, b: &Array, i: usize) -> (out: Vec<i64>)
        requires
            mm_ready(*a, *b),
            i < a.srow_count(),
        ensures
            out@ == mm_row(
                row_at(a.datav(), a.srow_len(), i as int),
                b.datav(),
                b.srow_len(),
                b.srow_count(),
                mm_width(a.srow_shape(), b.srow_shape()),
                mm_chunks(a.srow_shape(), b.srow_shape()),
            ),
    {
        let ghost arshg = a.srow_shape();
        let ghost brshg = b.srow_shape();
        let ghost widthg = mm_width(arshg, brshg);
        let ghost chunksg = mm_chunks(arshg, brshg);
        let arl: usize = match a.try_row_len() {
            Some(v) => v,
            None => {
                proof {
                    assert(false);
                }
                0
            },
        };
        let brl: usize = match b.try_row_len() {
            Some(v) => v,
            None => {
                proof {
                    assert(false);
                }
                0
            },
        };
        let an: usize = a.row_count();
        let bn: usize = b.row_count();
        let adata = buf_slice(&a.data);
        let bdata = buf_slice(&b.data);
        let adl: usize = adata.len();
        let bdl: usize = bdata.len();
        proof {
            assert((an as nat) * (arl as nat) == adl) by {
                if a.shapev().len() == 0 {
                    assert(a.srow_shape() =~= a.shapev());
                    assert(1nat * (arl as nat) == arl as nat) by (nonlinear_arith);
                } else {
                    lemma_prod_skip_unfold(a.shapev(), 0);
                    assert(a.shapev().skip(0) =~= a.shapev());
                    assert(a.srow_shape() =~= a.shapev().skip(1));
                }
            }
            assert((bn as nat) * (brl as nat) == bdl) by {
                if b.shapev().len() == 0 {
                    assert(b.srow_shape() =~= b.shapev());
                    assert(1nat * (brl as nat) == brl as nat) by (nonlinear_arith);
                } else {
                    lemma_prod_skip_unfold(b.shapev(), 0);
                    assert(b.shapev().skip(0) =~= b.shapev());
                    assert(b.srow_shape() =~= b.shapev().skip(1));
                }
            }
            assert((i + 1) * arl <= (an as nat) * arl && i * arl + arl == (i + 1) * arl && 0 <= i
                * arl) by (nonlinear_arith)
                requires
                    i + 1 <= an,
                    arl >= 0,
            ;
            // the shorter row divides the longer, and the product row
            // splits into chunks of the output width
            if arshg.len() <= brshg.len() {
                lemma_prefix_divides(arshg, brshg);
                if arl > 0 {
                    vstd::arithmetic::div_mod::lemma_mod_multiples_basic(
                        prod(brshg.skip(arshg.len() as int)) as int,
                        arl as int,
                    );
                    assert((brl as int) == (prod(brshg.skip(arshg.len() as int)) as int) * (
                    arl as int)) by (nonlinear_arith)
                        requires
                            brl as nat == prod(arshg) * prod(brshg.skip(arshg.len() as int)),
                            arl as nat == prod(arshg),
                    ;
                }
            } else {
                lemma_prefix_divides(brshg, arshg);
                if brl > 0 {
                    vstd::arithmetic::div_mod::lemma_mod_multiples_basic(
                        prod(arshg.skip(brshg.len() as int)) as int,
                        brl as int,
                    );
                    assert((arl as int) == (prod(arshg.skip(brshg.len() as int)) as int) * (
                    brl as int)) by (nonlinear_arith)
                        requires
                            arl as nat == prod(brshg) * prod(arshg.skip(brshg.len() as int)),
                            brl as nat == prod(brshg),
                    ;
                }
                if brl == 0 {
                    // a zero dimension in the shared prefix empties both rows
                    assert(arl == 0) by (nonlinear_arith)
                        requires
                            arl as nat == prod(brshg) * prod(arshg.skip(brshg.len() as int)),
                            prod(brshg) == 0,
                    ;
                }
            }
            // chunks * width is the longer row's length
            assert(chunksg * widthg == (if arl >= brl || arshg.len() >= brshg.len() {
                0nat + chunksg * widthg
            } else {
                chunksg * widthg
            }));
            if mm_prod_shape(arshg, brshg).len() == 0 {
                assert(chunksg == 1 && widthg == 1);
                assert(prod(mm_prod_shape(arshg, brshg)) == 1);
                assert(chunksg * widthg == 1) by (nonlinear_arith)
                    requires
                        chunksg == 1,
                        widthg == 1,
                ;
            } else {
                lemma_prod_skip_unfold(mm_prod_shape(arshg, brshg), 0);
                assert(mm_prod_shape(arshg, brshg).skip(0) =~= mm_prod_shape(arshg, brshg));
                assert(mm_prod_shape(arshg, brshg).drop_first() =~= mm_prod_shape(
                    arshg,
                    brshg,
                ).skip(1));
            }
            assert(chunksg * widthg == prod(mm_prod_shape(arshg, brshg)));
        }
        let arow = vstd::slice::slice_subrange(adata, i * arl, i * arl + arl);
        proof {
            assert(arow@ =~= row_at(a.datav(), a.srow_len(), i as int));
        }
        let width: usize = {
            let lsh = if a.shape.len() >= b.shape.len() {
                &a.shape
            } else {
                &b.shape
            };
            let ll: usize = lsh.len();
            if ll <= 1 {
                proof {
                    if mm_prod_shape(arshg, brshg).len() == 0 {
                    } else {
                        assert(mm_prod_shape(arshg, brshg).drop_first()
                            =~= Seq::<usize>::empty());
                    }
                }
                1
            } else {
                let sl = vstd::slice::slice_subrange(lsh.as_slice(), 2, ll);
                proof {
                    assert(sl@ =~= mm_prod_shape(arshg, brshg).drop_first());
                    assert(rlen(mm_prod_shape(arshg, brshg)) == prod(sl@));
                }
                prod_all(sl)
            }
        };
        let a_row_rank: usize = if a.shape.len() == 0 {
            0
        } else {
            a.shape.len() - 1
        };
        let b_row_rank: usize = if b.shape.len() == 0 {
            0
        } else {
            b.shape.len() - 1
        };
        let a_longer: bool = a_row_rank >= b_row_rank;
        proof {
            if a.shapev().len() == 0 {
                assert(a.srow_shape() =~= a.shapev());
            }
            if b.shapev().len() == 0 {
                assert(b.srow_shape() =~= b.shapev());
            }
        }
        let mut out: Vec<i64> = Vec::new();
        let mut j: usize = 0;
        proof {
            assert(out@ =~= mm_row(arow@, bdata@, brl as nat, 0, widthg, chunksg));
        }
        while j < bn
            invariant
                0 <= j <= bn,
                (bn as nat) * (brl as nat) == bdata@.len(),
                bdl == bdata@.len(),
                width as nat == widthg,
                arow@ == row_at(a.datav(), a.srow_len(), i as int),
                arow@.len() == arl,
                arl as nat == a.srow_len(),
                brl as nat == b.srow_len(),
                arshg == a.srow_shape(),
                brshg == b.srow_shape(),
                arshg.len() <= brshg.len() ==> brl as nat == (arl as nat) * prod(
                    brshg.skip(arshg.len() as int),
                ),
                arshg.len() > brshg.len() ==> arl as nat == (brl as nat) * prod(
                    arshg.skip(brshg.len() as int),
                ),
                chunksg * widthg == prod(mm_prod_shape(arshg, brshg)),
                prod(mm_prod_shape(arshg, brshg)) == (if arshg.len() >= brshg.len() {
                    arl as nat
                } else {
                    brl as nat
                }),
                chunksg * widthg <= usize::MAX,
                a_longer <==> arshg.len() >= brshg.len(),
                out@ == mm_row(arow@, bdata@, brl as nat, j as nat, widthg, chunksg),
            decreases bn - j,
        {
            proof {
                assert((j + 1) * brl <= (bn as nat) * brl && j * brl + brl == (j + 1) * brl
                    && 0 <= j * brl) by (nonlinear_arith)
                    requires
                        j + 1 <= bn,
                        brl >= 0,
                ;
            }
            let brow = vstd::slice::slice_subrange(bdata, j * brl, j * brl + brl);
            let mut cell: Vec<i64>;
            let longer_len: usize = if a_longer {
                arl
            } else {
                brl
            };
            proof {
                if width > 0 && longer_len == 0 {
                    assert(chunksg == 0) by (nonlinear_arith)
                        requires
                            chunksg * widthg == 0,
                            widthg >= 1,
                    ;
                }
                if width > 0 && longer_len > 0 {
                    assert(chunksg > 0) by (nonlinear_arith)
                        requires
                            chunksg * widthg == longer_len as nat,
                            longer_len >= 1,
                    ;
                }
            }
            if width == 0 || longer_len == 0 {
                let empty: [i64; 0] = [];
                proof {
                    if width == 0 {
                        lemma_fold_chunks_len(
                            pervade_mul(arow@, brow@),
                            widthg,
                            chunksg,
                        );
                        lemma_fold_chunks_len(empty@, widthg, 0);
                        assert(fold_chunks(empty@, widthg, 0) =~= fold_chunks(
                            pervade_mul(arow@, brow@),
                            widthg,
                            chunksg,
                        ));
                    } else {
                        assert(chunksg == 0) by (nonlinear_arith)
                            requires
                                chunksg * widthg == 0,
                                widthg >= 1,
                        ;
                        assert(fold_chunks(empty@, widthg, 0) =~= fold_chunks(
                            pervade_mul(arow@, brow@),
                            widthg,
                            chunksg,
                        ));
                    }
                }
                cell = fold_chunks_exec(empty.as_slice(), width, 0);
            } else {
                proof {
                    // both row lengths are positive and the shorter
                    // divides the longer
                    assert(chunksg * widthg >= 1) by (nonlinear_arith)
                        requires
                            chunksg >= 1,
                            widthg >= 1,
                    ;
                    if arshg.len() <= brshg.len() {
                        assert(brl >= 1);
                        assert(arl >= 1 && prod(brshg.skip(arshg.len() as int)) >= 1)
                            by (nonlinear_arith)
                            requires
                                brl as nat == (arl as nat) * prod(
                                    brshg.skip(arshg.len() as int),
                                ),
                                brl >= 1,
                        ;
                        assert(arl <= brl) by (nonlinear_arith)
                            requires
                                brl as nat == (arl as nat) * prod(
                                    brshg.skip(arshg.len() as int),
                                ),
                                prod(brshg.skip(arshg.len() as int)) >= 1,
                                arl >= 0,
                        ;
                        vstd::arithmetic::div_mod::lemma_mod_multiples_basic(
                            prod(brshg.skip(arshg.len() as int)) as int,
                            arl as int,
                        );
                        assert((brl as int) == (prod(brshg.skip(arshg.len() as int)) as int) * (
                        arl as int)) by (nonlinear_arith)
                            requires
                                brl as nat == (arl as nat) * prod(
                                    brshg.skip(arshg.len() as int),
                                ),
                        ;
                    } else {
                        assert(arl >= 1);
                        assert(brl >= 1 && prod(arshg.skip(brshg.len() as int)) >= 1)
                            by (nonlinear_arith)
                            requires
                                arl as nat == (brl as nat) * prod(
                                    arshg.skip(brshg.len() as int),
                                ),
                                arl >= 1,
                        ;
                        assert(brl <= arl) by (nonlinear_arith)
                            requires
                                arl as nat == (brl as nat) * prod(
                                    arshg.skip(brshg.len() as int),
                                ),
                                prod(arshg.skip(brshg.len() as int)) >= 1,
                                brl >= 0,
                        ;
                        vstd::arithmetic::div_mod::lemma_mod_multiples_basic(
                            prod(arshg.skip(brshg.len() as int)) as int,
                            brl as int,
                        );
                        assert((arl as int) == (prod(arshg.skip(brshg.len() as int)) as int) * (
                        brl as int)) by (nonlinear_arith)
                            requires
                                arl as nat == (brl as nat) * prod(
                                    arshg.skip(brshg.len() as int),
                                ),
                        ;
                    }
                }
                let pr = pervade_mul_exec(arow, brow);
                let chunks: usize = {
                    proof {
                        assert(pr@.len() == prod(mm_prod_shape(arshg, brshg)));
                        vstd::arithmetic::div_mod::lemma_fundamental_div_mod_converse(
                            (chunksg * widthg) as int,
                            widthg as int,
                            chunksg as int,
                            0,
                        );
                    }
                    pr.len() / width
                };
                proof {
                    assert(chunks as nat == chunksg);
                    assert((chunks as nat) * (width as nat) <= pr@.len()) by (nonlinear_arith)
                        requires
                            chunks as nat == chunksg,
                            width as nat == widthg,
                            chunksg * widthg == pr@.len(),
                    ;
                }
                cell = fold_chunks_exec(pr.as_slice(), width, chunks);
            }
            proof {
                assert(cell@ == mm_cell(
                    arow@,
                    bdata@.subrange((j * brl) as int, ((j + 1) * brl) as int),
                    widthg,
                    chunksg,
                ));
            }
            out.append(&mut { cell });
            proof {
                assert(mm_row(arow@, bdata@, brl as nat, (j + 1) as nat, widthg, chunksg)
                    == mm_row(arow@, bdata@, brl as nat, j as nat, widthg, chunksg) + mm_cell(
                    arow@,
                    bdata@.subrange((j * brl) as int, ((j + 1) * brl) as int),
                    widthg,
                    chunksg,
                ));
            }
            j = j + 1;
        }
        out
    }
}


impl Array {
    /// Relies on rayon's `into_par_iter().map(..).collect::<Vec<_>>()`
    /// over an index range: it yields exactly one entry per index, in
    /// index order, each the result of the mapped call. The closure
    /// only calls the verified `mat_mul_row`.
    #[verifier::external_body]
    fn par_rows(a: &Array, b: &Array, n: usize) -> (r: Vec<Vec<i64>>)
        requires
            mm_ready(*a, *b),
            n as nat == a.srow_count(),
        ensures
            r@.len() == n,
            forall|i: int|
                0 <= i < n ==> #[trigger] r@[i]@ == mm_row(
                    row_at(a.datav(), a.srow_len(), i),
                    b.datav(),
                    b.srow_len(),
                    b.srow_count(),
                    mm_width(a.srow_shape(), b.srow_shape()),
                    mm_chunks(a.srow_shape(), b.srow_shape()),
                ),
    {
        (0..n).into_par_iter().map(|i| Self::mat_mul_row(a, b, i)).collect()
    }

    /// Multiplies two arrays as batches of rows: every row of this
    /// array against every row of `other`, each pair giving the
    /// elementwise broadcast product summed along its leading axis.
    /// Above the row-count threshold the rows are computed by a worker
    /// pool; the output is identical either way.
    #[verifier::rlimit(100)]
    pub fn matrix_mul(&self, other: &Array) -> (r: Result<Array, ArrayError>)
        requires
            self.wf(),
            other.wf(),
        ensures
            !shape_prefixes_match(self.srow_shape(), other.srow_shape()) ==> r == Err::<
                Array,
                ArrayError,
            >(ArrayError::ShapePrefixMismatch),
            shape_prefixes_match(self.srow_shape(), other.srow_shape()) ==> ({
                let width = mm_width(self.srow_shape(), other.srow_shape());
                let chunks = mm_chunks(self.srow_shape(), other.srow_shape());
                let an = self.srow_count();
                let bn = other.srow_count();
                &&& (r matches Ok(out) ==> out.wf() && out.shapev() =~= seq![
                    an as usize,
                    bn as usize,
                ] + (if self.srow_shape().len() >= other.srow_shape().len() {
                    crate::array::Array::row_shape_of(self.srow_shape())
                } else {
                    crate::array::Array::row_shape_of(other.srow_shape())
                }) && out.datav() == mm_data(
                    self.datav(),
                    self.srow_len(),
                    an,
                    other.datav(),
                    other.srow_len(),
                    bn,
                    width,
                    chunks,
                ) && out.keysv() is None)
                &&& (r matches Err(e) ==> e == ArrayError::SizeOverflow)
                &&& (r is Ok <==> prod(
                    seq![an as usize, bn as usize] + (if self.srow_shape().len()
                        >= other.srow_shape().len() {
                        crate::array::Array::row_shape_of(self.srow_shape())
                    } else {
                        crate::array::Array::row_shape_of(other.srow_shape())
                    }),
                ) <= usize::MAX)
            }),
    {
        let ghost arshg = self.srow_shape();
        let ghost brshg = other.srow_shape();
        // the row shapes must share a prefix
        let a_row_rank: usize = if self.shape.len() == 0 {
            0
        } else {
            self.shape.len() - 1
        };
        let b_row_rank: usize = if other.shape.len() == 0 {
            0
        } else {
            other.shape.len() - 1
        };
        proof {
            if self.shapev().len() == 0 {
                assert(self.srow_shape() =~= self.shapev());
            }
            if other.shapev().len() == 0 {
                assert(other.srow_shape() =~= other.shapev());
            }
        }
        let m: usize = if a_row_rank <= b_row_rank {
            a_row_rank
        } else {
            b_row_rank
        };
        let mut t: usize = 0;
        let mut same: bool = true;
        while t < m
            invariant
                0 <= t <= m,
                m <= arshg.len(),
                m <= brshg.len(),
                m == (if arshg.len() <= brshg.len() {
                    arshg.len() as int
                } else {
                    brshg.len() as int
                }),
                arshg == self.srow_shape(),
                brshg == other.srow_shape(),
                self.shapev().len() >= 1 ==> arshg == self.shapev().drop_first(),
                other.shapev().len() >= 1 ==> brshg == other.shapev().drop_first(),
                same <==> (forall|u: int| 0 <= u < t ==> arshg[u] == brshg[u]),
            decreases m - t,
        {
            let av: usize = self.shape[t + 1];
            let bv: usize = other.shape[t + 1];
            proof {
                assert(arshg[t as int] == av);
                assert(brshg[t as int] == bv);
            }
            if av != bv {
                same = false;
            } else {
                if same {
                    proof {
                        assert(forall|u: int| 0 <= u < t + 1 ==> arshg[u] == brshg[u]);
                    }
                }
            }
            t = t + 1;
        }
        if !same {
            proof {
                let w = choose|u: int| 0 <= u < m && arshg[u] != brshg[u];
                assert(!shape_prefixes_match(arshg, brshg));
            }
            return Err(ArrayError::ShapePrefixMismatch);
        }
        proof {
            assert(shape_prefixes_match(arshg, brshg));
        }
        let an: usize = self.row_count();
        let bn: usize = other.row_count();
        // the output shape and its size guard
        let mut shape: Vec<usize> = Vec::new();
        shape.push(an);
        shape.push(bn);
        let lsh = if a_row_rank >= b_row_rank {
            &self.shape
        } else {
            &other.shape
        };
        let ll: usize = lsh.len();
        if ll > 2 {
            let tailsl = vstd::slice::slice_subrange(lsh.as_slice(), 2, ll);
            shape.extend_from_slice(tailsl);
        }
        proof {
            assert(shape@ =~= seq![an, bn] + (if arshg.len() >= brshg.len() {
                crate::array::Array::row_shape_of(arshg)
            } else {
                crate::array::Array::row_shape_of(brshg)
            }));
        }
        let total: usize = match checked_prod(shape.as_slice()) {
            Some(v) => v,
            None => {
                return Err(ArrayError::SizeOverflow);
            },
        };
        let arl_opt = self.try_row_len();
        let brl_opt = other.try_row_len();
        let ghost width = mm_width(arshg, brshg);
        let ghost chunks = mm_chunks(arshg, brshg);
        proof {
            // the output shape's product is rows times rows times width
            assert(prod(shape@) == (an as nat) * ((bn as nat) * width)) by {
                lemma_prod_skip_unfold(shape@, 0);
                lemma_prod_skip_unfold(shape@, 1);
                assert(shape@.skip(0) =~= shape@);
                assert(shape@.skip(2) =~= (if arshg.len() >= brshg.len() {
                    crate::array::Array::row_shape_of(arshg)
                } else {
                    crate::array::Array::row_shape_of(brshg)
                }));
                assert(width == prod(shape@.skip(2))) by {
                    let psh = mm_prod_shape(arshg, brshg);
                    if psh.len() == 0 {
                        assert(crate::array::Array::row_shape_of(psh) =~= psh);
                    } else {
                        assert(crate::array::Array::row_shape_of(psh) =~= psh.drop_first());
                    }
                }
            }
        }
        match (arl_opt, brl_opt) {
            (Some(arl), Some(brl)) => {
                let mut out: Vec<i64> = Vec::new();
                proof {
                    assert(out@ =~= mm_data(
                        self.datav(),
                        arl as nat,
                        0,
                        other.datav(),
                        brl as nat,
                        bn as nat,
                        width,
                        chunks,
                    ));
                }
                if an > 0 && bn > 0 {
                    proof {
                        assert((bn as nat) * width <= total && width <= total)
                            by (nonlinear_arith)
                            requires
                                (an as nat) * ((bn as nat) * width) == total,
                                an >= 1,
                                bn >= 1,
                        ;
                        assert(mm_ready(*self, *other));
                    }
                    if an > PAR_THRESHOLD || bn > PAR_THRESHOLD {
                        let rows = Self::par_rows(self, other, an);
                        let mut i: usize = 0;
                        while i < an
                            invariant
                                0 <= i <= an,
                                rows@.len() == an,
                                an as nat == self.srow_count(),
                                bn as nat == other.srow_count(),
                                arl as nat == self.srow_len(),
                                brl as nat == other.srow_len(),
                                width == mm_width(self.srow_shape(), other.srow_shape()),
                                chunks == mm_chunks(self.srow_shape(), other.srow_shape()),
                                forall|u: int|
                                    0 <= u < an ==> #[trigger] rows@[u]@ == mm_row(
                                        row_at(self.datav(), self.srow_len(), u),
                                        other.datav(),
                                        other.srow_len(),
                                        other.srow_count(),
                                        mm_width(self.srow_shape(), other.srow_shape()),
                                        mm_chunks(self.srow_shape(), other.srow_shape()),
                                    ),
                                out@ == mm_data(
                                    self.datav(),
                                    arl as nat,
                                    i as nat,
                                    other.datav(),
                                    brl as nat,
                                    bn as nat,
                                    width,
                                    chunks,
                                ),
                            decreases an - i,
                        {
                            let row = &rows[i];
                            let mut copy: Vec<i64> = Vec::new();
                            copy.extend_from_slice(row.as_slice());
                            out.append(&mut { copy });
                            proof {
                                assert(mm_data(
                                    self.datav(),
                                    arl as nat,
                                    (i + 1) as nat,
                                    other.datav(),
                                    brl as nat,
                                    bn as nat,
                                    width,
                                    chunks,
                                ) == mm_data(
                                    self.datav(),
                                    arl as nat,
                                    i as nat,
                                    other.datav(),
                                    brl as nat,
                                    bn as nat,
                                    width,
                                    chunks,
                                ) + mm_row(
                                    row_at(self.datav(), arl as nat, i as int),
                                    other.datav(),
                                    brl as nat,
                                    bn as nat,
                                    width,
                                    chunks,
                                ));
                            }
                            i = i + 1;
                        }
                    } else {
                        let mut i: usize = 0;
                        while i < an
                            invariant
                                0 <= i <= an,
                                mm_ready(*self, *other),
                                an as nat == self.srow_count(),
                                bn as nat == other.srow_count(),
                                arl as nat == self.srow_len(),
                                brl as nat == other.srow_len(),
                                width == mm_width(self.srow_shape(), other.srow_shape()),
                                chunks == mm_chunks(self.srow_shape(), other.srow_shape()),
                                out@ == mm_data(
                                    self.datav(),
                                    arl as nat,
                                    i as nat,
                                    other.datav(),
                                    brl as nat,
                                    bn as nat,
                                    width,
                                    chunks,
                                ),
                            decreases an - i,
                        {
                            let row = Self::mat_mul_row(self, other, i);
                            out.append(&mut { row });
                            proof {
                                assert(mm_data(
                                    self.datav(),
                                    arl as nat,
                                    (i + 1) as nat,
                                    other.datav(),
                                    brl as nat,
                                    bn as nat,
                                    width,
                                    chunks,
                                ) == mm_data(
                                    self.datav(),
                                    arl as nat,
                                    i as nat,
                                    other.datav(),
                                    brl as nat,
                                    bn as nat,
                                    width,
                                    chunks,
                                ) + mm_row(
                                    row_at(self.datav(), arl as nat, i as int),
                                    other.datav(),
                                    brl as nat,
                                    bn as nat,
                                    width,
                                    chunks,
                                ));
                            }
                            i = i + 1;
                        }
                    }
                }
                proof {
                    if an == 0 || bn == 0 {
                        lemma_mm_data_len(
                            self.datav(),
                            arl as nat,
                            an as nat,
                            other.datav(),
                            brl as nat,
                            bn as nat,
                            width,
                            chunks,
                        );
                        assert(an as nat * ((bn as nat) * width) == 0) by (nonlinear_arith)
                            requires
                                an == 0 || bn == 0,
                        ;
                        assert(out@ =~= mm_data(
                            self.datav(),
                            arl as nat,
                            an as nat,
                            other.datav(),
                            brl as nat,
                            bn as nat,
                            width,
                            chunks,
                        ));
                    }
                    lemma_mm_data_len(
                        self.datav(),
                        arl as nat,
                        an as nat,
                        other.datav(),
                        brl as nat,
                        bn as nat,
                        width,
                        chunks,
                    );
                }
                Ok(Array::make(shape, out))
            },
            _ => {
                // a row too wide to address forces a rowless operand
                let out: Vec<i64> = Vec::new();
                proof {
                    if arl_opt is None {
                        assert(self.srow_count() == 0);
                        assert(mm_data(
                            self.datav(),
                            self.srow_len(),
                            0,
                            other.datav(),
                            other.srow_len(),
                            bn as nat,
                            width,
                            chunks,
                        ) =~= Seq::<i64>::empty());
                        assert(prod(shape@) == 0) by (nonlinear_arith)
                            requires
                                prod(shape@) == (an as nat) * ((bn as nat) * width),
                                an == 0,
                        ;
                    } else {
                        assert(other.srow_count() == 0);
                        lemma_mm_data_len(
                            self.datav(),
                            self.srow_len(),
                            an as nat,
                            other.datav(),
                            other.srow_len(),
                            0,
                            width,
                            chunks,
                        );
                        assert(an as nat * (0nat * width) == 0) by (nonlinear_arith);
                        assert(mm_data(
                            self.datav(),
                            self.srow_len(),
                            an as nat,
                            other.datav(),
                            other.srow_len(),
                            0,
                            width,
                            chunks,
                        ) =~= Seq::<i64>::empty());
                        assert(prod(shape@) == 0) by (nonlinear_arith)
                            requires
                                prod(shape@) == (an as nat) * ((bn as nat) * width),
                                bn == 0,
                        ;
                    }
                }
                Ok(Array::make(shape, out))
            },
        }
    }
}

/// The parallel path cannot differ from the sequential one: two row
/// tables that each match the multiplication row for row are the same
/// table.
pub proof fn lemma_parallel_agrees_with_sequential(
    r1: Seq<Seq<i64>>,
    r2: Seq<Seq<i64>>,
    adata: Seq<i64>,
    arl: nat,
    an: nat,
    bdata: Seq<i64>,
    brl: nat,
    bn: nat,
    width: nat,
    chunks: nat,
)
    requires
        r1.len() == an,
        r2.len() == an,
        forall|i: int|
            0 <= i < an ==> #[trigger] r1[i] == mm_row(
                row_at(adata, arl, i),
                bdata,
                brl,
                bn,
                width,
                chunks,
            ),
        forall|i: int|
            0 <= i < an ==> #[trigger] r2[i] == mm_row(
                row_at(adata, arl, i),
                bdata,
                brl,
                bn,
                width,
                chunks,
            ),
    ensures
        r1 == r2,
{
    assert(r1 =~= r2);
}


} // verus!
