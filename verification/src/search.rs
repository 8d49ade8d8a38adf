//! Row search: membership, first-index lookup and progressive
//! (consume-once) lookup of one array's rows among another's.
use vstd::prelude::*;
use crate::ArrayError;
use crate::array::{Array, prod, prod_all, checked_prod, lemma_prod_skip_unfold,
    lemma_prod_split, lemma_prod_part_le2_export};
use crate::buffer::buf_slice;
use crate::keep::{row_at, rows_eq, lemma_row_at_skip};

verus! {

/// Rows of the leading axis: one for a scalar.
pub open spec fn rcount(sh: Seq<usize>) -> nat {
    if sh.len() == 0 {
        1
    } else {
        sh[0] as nat
    }
}

/// Elements in one row of that axis.
pub open spec fn rlen(sh: Seq<usize>) -> nat {
    if sh.len() == 0 {
        1
    } else {
        prod(sh.drop_first())
    }
}

pub open spec fn b2i(b: bool) -> i64 {
    if b {
        1
    } else {
        0
    }
}

/// Does some row of the buffer equal the given row?
pub open spec fn row_in(od: Seq<i64>, rl: nat, hn: nat, row: Seq<i64>) -> bool {
    exists|j: int| 0 <= j < hn && row_at(od, rl, j) == row
}

/// The first row index holding the given row, or the row count when
/// it is absent (the valid "not found" sentinel).
pub open spec fn index_of_row(od: Seq<i64>, rl: nat, hn: nat, row: Seq<i64>) -> nat
    decreases hn,
{
    if hn == 0 {
        0
    } else if row_at(od, rl, 0) == row {
        0
    } else {
        1 + index_of_row(od.skip(rl as int), rl, (hn - 1) as nat, row)
    }
}

/// Does one shape end with the other?
pub open spec fn ends_with(osh: Seq<usize>, esh: Seq<usize>) -> bool {
    esh.len() <= osh.len() && osh.skip(osh.len() - esh.len()) == esh
}

/// The output shape shared by the row-search operators, by rank
/// relation: at equal rank one answer per row; a deeper needle maps
/// over its rows; a shallower needle requires a matching shape suffix
/// and maps over the haystack's rows down to a scalar answer.
pub open spec fn search_shape(esh: Seq<usize>, osh: Seq<usize>) -> Result<Seq<usize>, ArrayError>
    decreases esh.len() + osh.len(),
{
    if esh.len() == osh.len() {
        Result::Ok(esh.take(if esh.len() == 0 {
            0
        } else {
            1
        }))
    } else if esh.len() > osh.len() {
        match search_shape(esh.drop_first(), osh) {
            Result::Ok(s) => Result::Ok(seq![esh[0]] + s),
            Result::Err(e) => Result::Err(e),
        }
    } else {
        if !ends_with(osh, esh) {
            Result::Err(ArrayError::ShapeMismatch)
        } else if osh.len() - esh.len() == 1 {
            Result::Ok(Seq::empty())
        } else {
            match search_shape(esh, osh.drop_first()) {
                Result::Ok(s) => Result::Ok(seq![osh[0]] + s),
                Result::Err(e) => Result::Err(e),
            }
        }
    }
}

/// The membership mask under `search_shape`: ones where a needle row
/// occurs among the haystack rows.
pub open spec fn member_data(esh: Seq<usize>, ed: Seq<i64>, osh: Seq<usize>, od: Seq<i64>)
    -> Seq<i64>
    decreases esh.len() + osh.len(), rcount(esh) + rcount(osh) + 1,
{
    if esh.len() == osh.len() {
        Seq::new(rcount(esh), |i: int| b2i(row_in(od, rlen(osh), rcount(osh), row_at(ed, rlen(esh), i))))
    } else if esh.len() > osh.len() {
        member_rows(esh, ed, osh, od, rcount(esh))
    } else {
        if osh.len() - esh.len() == 1 {
            seq![b2i(row_in(od, rlen(osh), rcount(osh), ed))]
        } else {
            member_hay_rows(esh, ed, osh, od, rcount(osh))
        }
    }
}

pub open spec fn member_rows(esh: Seq<usize>, ed: Seq<i64>, osh: Seq<usize>, od: Seq<i64>, k: nat)
    -> Seq<i64>
    decreases esh.len() + osh.len(), k,
{
    if k == 0 || esh.len() == 0 {
        Seq::empty()
    } else {
        member_rows(esh, ed, osh, od, (k - 1) as nat) + member_data(
            esh.drop_first(),
            ed.subrange(((k - 1) * rlen(esh)) as int, (k * rlen(esh)) as int),
            osh,
            od,
        )
    }
}

pub open spec fn member_hay_rows(
    esh: Seq<usize>,
    ed: Seq<i64>,
    osh: Seq<usize>,
    od: Seq<i64>,
    k: nat,
) -> Seq<i64>
    decreases esh.len() + osh.len(), k,
{
    if k == 0 || osh.len() == 0 {
        Seq::empty()
    } else {
        member_hay_rows(esh, ed, osh, od, (k - 1) as nat) + member_data(
            esh,
            ed,
            osh.drop_first(),
            od.subrange(((k - 1) * rlen(osh)) as int, (k * rlen(osh)) as int),
        )
    }
}

/// Scanning forward pins the first-index spec.
pub proof fn lemma_index_of_row_is(od: Seq<i64>, rl: nat, hn: nat, row: Seq<i64>, j: nat)
    requires
        j <= hn,
        od.len() >= hn * rl,
        forall|t: int| 0 <= t < j ==> #[trigger] row_at(od, rl, t) != row,
        j < hn ==> row_at(od, rl, j as int) == row,
    ensures
        index_of_row(od, rl, hn, row) == if j < hn {
            j
        } else {
            hn
        },
    decreases j, hn,
{
    if hn == 0 {
    } else if j == 0 {
    } else {
        assert(row_at(od, rl, 0) != row);
        assert(od.skip(rl as int).len() >= (hn - 1) * rl) by (nonlinear_arith)
            requires
                od.len() >= hn * rl,
                hn >= 1,
                rl >= 0,
        ;
        assert forall|t: int| 0 <= t < j - 1 implies #[trigger] row_at(od.skip(rl as int), rl, t)
            != row by {
            assert(1 * rl + (t + 1) * rl <= od.len()) by (nonlinear_arith)
                requires
                    od.len() >= hn * rl,
                    t + 2 <= hn,
                    rl >= 0,
                    0 <= t,
            ;
            assert(1 * rl == rl) by (nonlinear_arith);
            lemma_row_at_skip(od, rl, 1, t);
            assert(row_at(od, rl, 1 + t) != row);
        }
        if j < hn {
            assert(1 * rl + (j - 1 + 1) * rl <= od.len()) by (nonlinear_arith)
                requires
                    od.len() >= hn * rl,
                    j < hn,
                    rl >= 0,
                    j >= 1,
            ;
            assert(1 * rl == rl) by (nonlinear_arith);
            lemma_row_at_skip(od, rl, 1, j - 1);
        }
        lemma_index_of_row_is(od.skip(rl as int), rl, (hn - 1) as nat, row, (j - 1) as nat);
    }
}

/// Membership and first-index lookup agree: a row is a member exactly
/// when its first index lands before the sentinel row count.
pub proof fn lemma_member_index_of_agree(od: Seq<i64>, rl: nat, hn: nat, row: Seq<i64>)
    requires
        od.len() >= hn * rl,
    ensures
        row_in(od, rl, hn, row) <==> index_of_row(od, rl, hn, row) < hn,
    decreases hn,
{
    if hn == 0 {
    } else if row_at(od, rl, 0) == row {
    } else {
        assert(od.skip(rl as int).len() >= (hn - 1) * rl) by (nonlinear_arith)
            requires
                od.len() >= hn * rl,
                hn >= 1,
                rl >= 0,
        ;
        lemma_member_index_of_agree(od.skip(rl as int), rl, (hn - 1) as nat, row);
        assert forall|t: int| 1 <= t < hn implies row_at(od, rl, t) == row_at(
            od.skip(rl as int),
            rl,
            t - 1,
        ) by {
            assert(1 * rl + (t - 1 + 1) * rl <= od.len()) by (nonlinear_arith)
                requires
                    od.len() >= hn * rl,
                    t < hn,
                    rl >= 0,
                    t >= 1,
            ;
            assert(1 * rl == rl) by (nonlinear_arith);
            lemma_row_at_skip(od, rl, 1, t - 1);
        }
        if row_in(od, rl, hn, row) {
            let w = choose|j: int| 0 <= j < hn && row_at(od, rl, j) == row;
            assert(w >= 1);
            assert(row_at(od.skip(rl as int), rl, w - 1) == row);
            assert(row_in(od.skip(rl as int), rl, (hn - 1) as nat, row));
        }
        if row_in(od.skip(rl as int), rl, (hn - 1) as nat, row) {
            let w = choose|j: int|
                0 <= j < hn - 1 && row_at(od.skip(rl as int), rl, j) == row;
            assert(row_at(od, rl, w + 1) == row);
            assert(row_in(od, rl, hn, row));
        }
    }
}

/// The first-index answers under `search_shape`, with the row count
/// as the "not found" sentinel.
pub open spec fn index_of_data(esh: Seq<usize>, ed: Seq<i64>, osh: Seq<usize>, od: Seq<i64>)
    -> Seq<i64>
    decreases esh.len() + osh.len(), rcount(esh) + rcount(osh) + 1,
{
    if esh.len() == osh.len() {
        Seq::new(
            rcount(esh),
            |i: int| index_of_row(od, rlen(osh), rcount(osh), row_at(ed, rlen(esh), i)) as i64,
        )
    } else if esh.len() > osh.len() {
        index_rows(esh, ed, osh, od, rcount(esh))
    } else {
        if osh.len() - esh.len() == 1 {
            seq![index_of_row(od, rlen(osh), rcount(osh), ed) as i64]
        } else {
            index_hay_rows(esh, ed, osh, od, rcount(osh))
        }
    }
}

pub open spec fn index_rows(esh: Seq<usize>, ed: Seq<i64>, osh: Seq<usize>, od: Seq<i64>, k: nat)
    -> Seq<i64>
    decreases esh.len() + osh.len(), k,
{
    if k == 0 || esh.len() == 0 {
        Seq::empty()
    } else {
        index_rows(esh, ed, osh, od, (k - 1) as nat) + index_of_data(
            esh.drop_first(),
            ed.subrange(((k - 1) * rlen(esh)) as int, (k * rlen(esh)) as int),
            osh,
            od,
        )
    }
}

pub open spec fn index_hay_rows(
    esh: Seq<usize>,
    ed: Seq<i64>,
    osh: Seq<usize>,
    od: Seq<i64>,
    k: nat,
) -> Seq<i64>
    decreases esh.len() + osh.len(), k,
{
    if k == 0 || osh.len() == 0 {
        Seq::empty()
    } else {
        index_hay_rows(esh, ed, osh, od, (k - 1) as nat) + index_of_data(
            esh,
            ed,
            osh.drop_first(),
            od.subrange(((k - 1) * rlen(osh)) as int, (k * rlen(osh)) as int),
        )
    }
}

/// The length of every search answer is the product of its shape.
pub proof fn lemma_search_len(esh: Seq<usize>, ed: Seq<i64>, osh: Seq<usize>, od: Seq<i64>)
    requires
        search_shape(esh, osh) is Ok,
    ensures
        member_data(esh, ed, osh, od).len() == prod(search_shape(esh, osh)->Ok_0),
        index_of_data(esh, ed, osh, od).len() == prod(search_shape(esh, osh)->Ok_0),
    decreases esh.len() + osh.len(), rcount(esh) + rcount(osh) + 1,
{
    let s = search_shape(esh, osh)->Ok_0;
    if esh.len() == osh.len() {
        if esh.len() == 0 {
            assert(s =~= Seq::<usize>::empty());
        } else {
            assert(s =~= seq![esh[0]]);
            assert(s.drop_first() =~= Seq::<usize>::empty());
            assert(prod(s) == (esh[0] as nat) * prod(s.drop_first()));
            assert((esh[0] as nat) * 1 == esh[0] as nat) by (nonlinear_arith);
        }
    } else if esh.len() > osh.len() {
        let sub = search_shape(esh.drop_first(), osh)->Ok_0;
        assert(s =~= seq![esh[0]] + sub);
        assert(s.drop_first() =~= sub);
        assert(prod(s) == (esh[0] as nat) * prod(sub));
        lemma_search_rows_len(esh, ed, osh, od, rcount(esh));
    } else {
        if osh.len() - esh.len() == 1 {
            assert(s =~= Seq::<usize>::empty());
        } else {
            let sub = search_shape(esh, osh.drop_first())->Ok_0;
            assert(s =~= seq![osh[0]] + sub);
            assert(s.drop_first() =~= sub);
            assert(prod(s) == (osh[0] as nat) * prod(sub));
            lemma_search_hay_rows_len(esh, ed, osh, od, rcount(osh));
        }
    }
}

pub proof fn lemma_search_rows_len(
    esh: Seq<usize>,
    ed: Seq<i64>,
    osh: Seq<usize>,
    od: Seq<i64>,
    k: nat,
)
    requires
        esh.len() > osh.len(),
        search_shape(esh.drop_first(), osh) is Ok,
    ensures
        member_rows(esh, ed, osh, od, k).len() == k * prod(search_shape(esh.drop_first(), osh)->Ok_0),
        index_rows(esh, ed, osh, od, k).len() == k * prod(search_shape(esh.drop_first(), osh)->Ok_0),
    decreases esh.len() + osh.len(), k,
{
    let p = prod(search_shape(esh.drop_first(), osh)->Ok_0);
    if k == 0 {
        assert(0nat * p == 0) by (nonlinear_arith);
    } else {
        lemma_search_rows_len(esh, ed, osh, od, (k - 1) as nat);
        lemma_search_len(
            esh.drop_first(),
            ed.subrange(((k - 1) * rlen(esh)) as int, (k * rlen(esh)) as int),
            osh,
            od,
        );
        assert((k - 1) * p + p == k * p) by (nonlinear_arith);
    }
}

pub proof fn lemma_search_hay_rows_len(
    esh: Seq<usize>,
    ed: Seq<i64>,
    osh: Seq<usize>,
    od: Seq<i64>,
    k: nat,
)
    requires
        esh.len() < osh.len(),
        osh.len() - esh.len() != 1,
        search_shape(esh, osh.drop_first()) is Ok,
    ensures
        member_hay_rows(esh, ed, osh, od, k).len() == k * prod(
            search_shape(esh, osh.drop_first())->Ok_0,
        ),
        index_hay_rows(esh, ed, osh, od, k).len() == k * prod(
            search_shape(esh, osh.drop_first())->Ok_0,
        ),
    decreases esh.len() + osh.len(), k,
{
    let p = prod(search_shape(esh, osh.drop_first())->Ok_0);
    if k == 0 {
        assert(0nat * p == 0) by (nonlinear_arith);
    } else {
        lemma_search_hay_rows_len(esh, ed, osh, od, (k - 1) as nat);
        lemma_search_len(
            esh,
            ed,
            osh.drop_first(),
            od.subrange(((k - 1) * rlen(osh)) as int, (k * rlen(osh)) as int),
        );
        assert((k - 1) * p + p == k * p) by (nonlinear_arith);
    }
}


impl Array {

/// The search output shape alone, by the rank relation.
fn search_shape_exec(esh: &[usize], osh: &[usize]) -> (r: Result<Vec<usize>, ArrayError>)
    ensures
        r matches Ok(v) ==> search_shape(esh@, osh@) == Result::<Seq<usize>, ArrayError>::Ok(v@),
        r matches Err(e) ==> search_shape(esh@, osh@) == Result::<Seq<usize>, ArrayError>::Err(e),
    decreases esh@.len() + osh@.len(),
{
    let el: usize = esh.len();
    let ol: usize = osh.len();
    if el == ol {
        let mut out: Vec<usize> = Vec::new();
        if el > 0 {
            out.push(esh[0]);
            proof {
                assert(out@ =~= esh@.take(1));
            }
        } else {
            proof {
                assert(out@ =~= esh@.take(0));
            }
        }
        Ok(out)
    } else if el > ol {
        match Self::search_shape_exec(
            vstd::slice::slice_subrange(esh, 1, el),
            osh,
        ) {
            Ok(sub) => {
                let mut out: Vec<usize> = Vec::new();
                out.push(esh[0]);
                out.extend_from_slice(sub.as_slice());
                proof {
                    assert(esh@.drop_first() =~= esh@.skip(1));
                    assert(out@ =~= seq![esh@[0]] + sub@);
                }
                Ok(out)
            },
            Err(e) => {
                proof {
                    assert(esh@.drop_first() =~= esh@.skip(1));
                }
                Err(e)
            },
        }
    } else {
        // needle is shallower: its shape must be a suffix of the other
        let mut matches_suffix: bool = true;
        let mut t: usize = 0;
        while t < el
            invariant
                0 <= t <= el,
                el == esh@.len(),
                ol == osh@.len(),
                el < ol,
                matches_suffix <==> forall|u: int|
                    0 <= u < t ==> osh@[ol - el + u] == esh@[u],
            decreases el - t,
        {
            if osh[ol - el + t] != esh[t] {
                matches_suffix = false;
            } else {
                if matches_suffix {
                    proof {
                        assert(forall|u: int|
                            0 <= u < t + 1 ==> osh@[ol - el + u] == esh@[u]);
                    }
                }
            }
            t = t + 1;
        }
        proof {
            if matches_suffix {
                assert(osh@.skip(ol - el) =~= esh@);
            } else {
                assert(osh@.skip(ol - el).len() == esh@.len());
                let w = choose|u: int| 0 <= u < el && osh@[ol - el + u] != esh@[u];
                assert(osh@.skip(ol - el)[w] != esh@[w]);
                assert(osh@.skip(ol - el) != esh@);
            }
        }
        if !matches_suffix {
            return Err(ArrayError::ShapeMismatch);
        }
        if ol - el == 1 {
            let out: Vec<usize> = Vec::new();
            proof {
                assert(out@ =~= Seq::<usize>::empty());
            }
            Ok(out)
        } else {
            match Self::search_shape_exec(esh, vstd::slice::slice_subrange(osh, 1, ol)) {
                Ok(sub) => {
                    let mut out: Vec<usize> = Vec::new();
                    out.push(osh[0]);
                    out.extend_from_slice(sub.as_slice());
                    proof {
                        assert(osh@.drop_first() =~= osh@.skip(1));
                        assert(out@ =~= seq![osh@[0]] + sub@);
                    }
                    Ok(out)
                },
                Err(e) => {
                    proof {
                        assert(osh@.drop_first() =~= osh@.skip(1));
                    }
                    Err(e)
                },
            }
        }
    }
}

}

/// Membership of each needle row among the haystack rows, flat.
fn member_flat(ed: &[i64], erl: usize, en: usize, od: &[i64], orl: usize, onn: usize) -> (out:
    Vec<i64>)
    requires
        en * erl <= ed@.len(),
        onn * orl <= od@.len(),
    ensures
        out@ == Seq::new(
            en as nat,
            |i: int| b2i(row_in(od@, orl as nat, onn as nat, row_at(ed@, erl as nat, i))),
        ),
{
    let edl: usize = ed.len();
    let odl: usize = od.len();
    let mut out: Vec<i64> = Vec::new();
    let mut i: usize = 0;
    while i < en
        invariant
            0 <= i <= en,
            en * erl <= ed@.len(),
            onn * orl <= od@.len(),
            edl == ed@.len(),
            odl == od@.len(),
            out@.len() == i,
            forall|t: int|
                0 <= t < i ==> out@[t] == b2i(
                    row_in(od@, orl as nat, onn as nat, row_at(ed@, erl as nat, t)),
                ),
        decreases en - i,
    {
        let mut found: bool = false;
        let mut j: usize = 0;
        proof {
            assert((i + 1) * erl <= en * erl && i * erl + erl == (i + 1) * erl && 0 <= i * erl)
                by (nonlinear_arith)
                requires
                    i + 1 <= en,
                    erl >= 0,
            ;
        }
        let erow = vstd::slice::slice_subrange(ed, i * erl, i * erl + erl);
        while j < onn
            invariant
                0 <= j <= onn,
                en * erl <= ed@.len(),
                onn * orl <= od@.len(),
                odl == od@.len(),
                i < en,
                erow@ == row_at(ed@, erl as nat, i as int),
                found <==> exists|u: int|
                    0 <= u < j && row_at(od@, orl as nat, u) == erow@,
            decreases onn - j,
        {
            proof {
                assert((j + 1) * orl <= onn * orl && j * orl + orl == (j + 1) * orl && 0 <= j
                    * orl) by (nonlinear_arith)
                    requires
                        j + 1 <= onn,
                        orl >= 0,
                ;
            }
            let orow = vstd::slice::slice_subrange(od, j * orl, j * orl + orl);
            proof {
                assert(row_at(od@, orl as nat, j as int) == orow@);
            }
            if rows_eq(erow, orow) {
                found = true;
            }
            j = j + 1;
        }
        out.push(if found {
            1
        } else {
            0
        });
        i = i + 1;
    }
    proof {
        assert(out@ =~= Seq::new(
            en as nat,
            |i: int| b2i(row_in(od@, orl as nat, onn as nat, row_at(ed@, erl as nat, i))),
        ));
    }
    out
}

/// First haystack row index for each needle row, or the sentinel.
fn index_flat(ed: &[i64], erl: usize, en: usize, od: &[i64], orl: usize, onn: usize) -> (out:
    Vec<i64>)
    requires
        en * erl <= ed@.len(),
        onn * orl <= od@.len(),
        onn <= i64::MAX,
    ensures
        out@ == Seq::new(
            en as nat,
            |i: int| index_of_row(od@, orl as nat, onn as nat, row_at(ed@, erl as nat, i)) as i64,
        ),
{
    let edl: usize = ed.len();
    let odl: usize = od.len();
    let mut out: Vec<i64> = Vec::new();
    let mut i: usize = 0;
    while i < en
        invariant
            0 <= i <= en,
            en * erl <= ed@.len(),
            onn * orl <= od@.len(),
            edl == ed@.len(),
            odl == od@.len(),
            onn <= i64::MAX,
            out@.len() == i,
            forall|t: int|
                0 <= t < i ==> out@[t] == index_of_row(
                    od@,
                    orl as nat,
                    onn as nat,
                    row_at(ed@, erl as nat, t),
                ) as i64,
        decreases en - i,
    {
        proof {
            assert((i + 1) * erl <= en * erl && i * erl + erl == (i + 1) * erl && 0 <= i * erl)
                by (nonlinear_arith)
                requires
                    i + 1 <= en,
                    erl >= 0,
            ;
        }
        let erow = vstd::slice::slice_subrange(ed, i * erl, i * erl + erl);
        let mut j: usize = 0;
        let mut hit: usize = onn;
        while j < onn
            invariant
                0 <= j <= onn,
                en * erl <= ed@.len(),
                onn * orl <= od@.len(),
                odl == od@.len(),
                i < en,
                hit <= onn,
                erow@ == row_at(ed@, erl as nat, i as int),
                hit == onn ==> forall|u: int|
                    0 <= u < j ==> #[trigger] row_at(od@, orl as nat, u) != erow@,
                hit < onn ==> row_at(od@, orl as nat, hit as int) == erow@ && (forall|u: int|
                    0 <= u < hit ==> #[trigger] row_at(od@, orl as nat, u) != erow@),
            decreases onn - j,
        {
            if hit == onn {
                proof {
                    assert((j + 1) * orl <= onn * orl && j * orl + orl == (j + 1) * orl && 0 <= j
                        * orl) by (nonlinear_arith)
                        requires
                            j + 1 <= onn,
                            orl >= 0,
                    ;
                }
                let orow = vstd::slice::slice_subrange(od, j * orl, j * orl + orl);
                proof {
                    assert(row_at(od@, orl as nat, j as int) == orow@);
                }
                if rows_eq(erow, orow) {
                    hit = j;
                }
            }
            j = j + 1;
        }
        proof {
            if hit == onn {
                lemma_index_of_row_is(od@, orl as nat, onn as nat, erow@, onn as nat);
            } else {
                lemma_index_of_row_is(od@, orl as nat, onn as nat, erow@, hit as nat);
            }
        }
        out.push(hit as i64);
        i = i + 1;
    }
    proof {
        assert(out@ =~= Seq::new(
            en as nat,
            |i: int| index_of_row(od@, orl as nat, onn as nat, row_at(ed@, erl as nat, i)) as i64,
        ));
    }
    out
}


impl Array {
    /// The recursive body of `member` over raw shape and buffer
    /// slices.
    fn member_go(esh: &[usize], ed: &[i64], osh: &[usize], od: &[i64]) -> (r: Result<
        Vec<i64>,
        ArrayError,
    >)
        requires
            ed@.len() == prod(esh@),
            od@.len() == prod(osh@),
        ensures
            r matches Ok(v) ==> search_shape(esh@, osh@) is Ok && v@ == member_data(
                esh@,
                ed@,
                osh@,
                od@,
            ),
            r matches Err(e) ==> search_shape(esh@, osh@) == Result::<Seq<usize>, ArrayError>::Err(
                e,
            ),
        decreases esh@.len() + osh@.len(),
    {
        let el: usize = esh.len();
        let ol: usize = osh.len();
        let edl: usize = ed.len();
        let odl: usize = od.len();
        if el == ol {
            let (en, erl): (usize, usize) = Self::rows_of(esh, Ghost(ed@.len()));
            let (onn, orl): (usize, usize) = Self::rows_of(osh, Ghost(od@.len()));
            let v = member_flat(ed, erl, en, od, orl, onn);
            proof {
                assert(v@ =~= member_data(esh@, ed@, osh@, od@)) by {
                    assert forall|i: int| 0 <= i < en implies v@[i] == member_data(
                        esh@,
                        ed@,
                        osh@,
                        od@,
                    )[i] by {
                        if onn == 0 {
                        }
                    }
                }
            }
            Ok(v)
        } else if el > ol {
            let sub = vstd::slice::slice_subrange(esh, 1, el);
            proof {
                assert(sub@ =~= esh@.drop_first());
            }
            match Self::search_shape_exec(sub, osh) {
                Err(e) => Err(e),
                Ok(_) => {
                    let (en, erl): (usize, usize) = Self::rows_of(esh, Ghost(ed@.len()));
                    let mut out: Vec<i64> = Vec::new();
                    let mut i: usize = 0;
                    proof {
                        assert(out@ =~= member_rows(esh@, ed@, osh@, od@, 0));
                    }
                    while i < en
                        invariant
                            0 <= i <= en,
                            el == esh@.len(),
                            el > osh@.len(),
                            en * erl <= ed@.len(),
                            en as nat == rcount(esh@),
                            en > 0 ==> erl as nat == rlen(esh@),
                            edl == ed@.len(),
                            odl == od@.len(),
                            ed@.len() == prod(esh@),
                            od@.len() == prod(osh@),
                            sub@ == esh@.drop_first(),
                            search_shape(esh@.drop_first(), osh@) is Ok,
                            out@ == member_rows(esh@, ed@, osh@, od@, i as nat),
                        decreases en - i,
                    {
                        proof {
                            assert((i + 1) * erl <= en * erl && i * erl + erl == (i + 1) * erl
                                && 0 <= i * erl) by (nonlinear_arith)
                                requires
                                    i + 1 <= en,
                                    erl >= 0,
                            ;
                        }
                        let erow = vstd::slice::slice_subrange(ed, i * erl, i * erl + erl);
                        proof {
                            assert(erow@ == ed@.subrange(
                                (i * rlen(esh@)) as int,
                                ((i + 1) * rlen(esh@)) as int,
                            ));
                            assert(erow@.len() == prod(esh@.drop_first())) by {
                                assert(rlen(esh@) == prod(esh@.drop_first()));
                            }
                        }
                        match Self::member_go(sub, erow, osh, od) {
                            Ok(v) => {
                                out.append(&mut { v });
                            },
                            Err(e) => {
                                proof {
                                    assert(false);
                                }
                                return Err(e);
                            },
                        }
                        proof {
                            assert(member_rows(esh@, ed@, osh@, od@, (i + 1) as nat)
                                == member_rows(esh@, ed@, osh@, od@, i as nat) + member_data(
                                esh@.drop_first(),
                                ed@.subrange(
                                    (i * rlen(esh@)) as int,
                                    ((i + 1) * rlen(esh@)) as int,
                                ),
                                osh@,
                                od@,
                            ));
                        }
                        i = i + 1;
                    }
                    Ok(out)
                },
            }
        } else {
            match Self::search_shape_exec(esh, osh) {
                Err(e) => {
                    return Err(e);
                },
                Ok(_) => {},
            }
            let (onn, orl): (usize, usize) = Self::rows_of(osh, Ghost(od@.len()));
            if ol - el == 1 {
                let mut found: bool = false;
                let mut j: usize = 0;
                while j < onn
                    invariant
                        0 <= j <= onn,
                        onn * orl <= od@.len(),
                        odl == od@.len(),
                        found <==> exists|u: int|
                            0 <= u < j && row_at(od@, orl as nat, u) == ed@,
                    decreases onn - j,
                {
                    proof {
                        assert((j + 1) * orl <= onn * orl && j * orl + orl == (j + 1) * orl
                            && 0 <= j * orl) by (nonlinear_arith)
                            requires
                                j + 1 <= onn,
                                orl >= 0,
                        ;
                    }
                    let orow = vstd::slice::slice_subrange(od, j * orl, j * orl + orl);
                    proof {
                        assert(row_at(od@, orl as nat, j as int) == orow@);
                    }
                    if rows_eq(ed, orow) {
                        found = true;
                    }
                    j = j + 1;
                }
                let mut out: Vec<i64> = Vec::new();
                out.push(if found {
                    1
                } else {
                    0
                });
                proof {
                    if onn == 0 {
                        assert(!row_in(od@, rlen(osh@), rcount(osh@), ed@));
                    }
                    assert(out@ =~= seq![b2i(row_in(od@, rlen(osh@), rcount(osh@), ed@))]);
                }
                Ok(out)
            } else {
                let subo = vstd::slice::slice_subrange(osh, 1, ol);
                proof {
                    assert(subo@ =~= osh@.drop_first());
                }
                let mut out: Vec<i64> = Vec::new();
                let mut j: usize = 0;
                proof {
                    assert(out@ =~= member_hay_rows(esh@, ed@, osh@, od@, 0));
                }
                while j < onn
                    invariant
                        0 <= j <= onn,
                        ol == osh@.len(),
                        esh@.len() < osh@.len(),
                        osh@.len() - esh@.len() != 1,
                        onn * orl <= od@.len(),
                        onn as nat == rcount(osh@),
                        onn > 0 ==> orl as nat == rlen(osh@),
                        edl == ed@.len(),
                        odl == od@.len(),
                        ed@.len() == prod(esh@),
                        od@.len() == prod(osh@),
                        subo@ == osh@.drop_first(),
                        search_shape(esh@, osh@.drop_first()) is Ok,
                        out@ == member_hay_rows(esh@, ed@, osh@, od@, j as nat),
                    decreases onn - j,
                {
                    proof {
                        assert((j + 1) * orl <= onn * orl && j * orl + orl == (j + 1) * orl
                            && 0 <= j * orl) by (nonlinear_arith)
                            requires
                                j + 1 <= onn,
                                orl >= 0,
                        ;
                    }
                    let orow = vstd::slice::slice_subrange(od, j * orl, j * orl + orl);
                    proof {
                        assert(orow@ == od@.subrange(
                            (j * rlen(osh@)) as int,
                            ((j + 1) * rlen(osh@)) as int,
                        ));
                        assert(orow@.len() == prod(osh@.drop_first())) by {
                            assert(rlen(osh@) == prod(osh@.drop_first()));
                        }
                    }
                    match Self::member_go(esh, ed, subo, orow) {
                        Ok(v) => {
                            out.append(&mut { v });
                        },
                        Err(e) => {
                            proof {
                                assert(false);
                            }
                            return Err(e);
                        },
                    }
                    proof {
                        assert(member_hay_rows(esh@, ed@, osh@, od@, (j + 1) as nat)
                            == member_hay_rows(esh@, ed@, osh@, od@, j as nat) + member_data(
                            esh@,
                            ed@,
                            osh@.drop_first(),
                            od@.subrange(
                                (j * rlen(osh@)) as int,
                                ((j + 1) * rlen(osh@)) as int,
                            ),
                        ));
                    }
                    j = j + 1;
                }
                Ok(out)
            }
        }
    }

    /// Row count and row length of a raw shape whose buffer holds
    /// `total` elements; a row too wide to address forces zero rows
    /// (the returned width is unused then).
    fn rows_of(sh: &[usize], total: Ghost<nat>) -> (r: (usize, usize))
        requires
            total@ == prod(sh@),
            total@ <= usize::MAX,
        ensures
            r.0 as nat == rcount(sh@),
            r.0 > 0 ==> r.1 as nat == rlen(sh@),
            (r.0 as nat) * (r.1 as nat) <= total@,
    {
        let l: usize = sh.len();
        if l == 0 {
            proof {
                assert(1nat * 1nat <= 1nat && prod(Seq::<usize>::empty()) == 1);
            }
            (1, 1)
        } else {
            let n: usize = sh[0];
            proof {
                lemma_prod_skip_unfold(sh@, 0);
                assert(sh@.skip(0) =~= sh@);
                assert(sh@.drop_first() =~= sh@.skip(1));
            }
            match checked_prod(vstd::slice::slice_subrange(sh, 1, l)) {
                Some(rl) => {
                    proof {
                        assert((n as nat) * (rl as nat) == prod(sh@));
                    }
                    (n, rl)
                },
                None => {
                    proof {
                        assert(n == 0) by (nonlinear_arith)
                            requires
                                (n as nat) * rlen(sh@) == total@,
                                rlen(sh@) > usize::MAX,
                                total@ <= usize::MAX,
                        ;
                        assert((0nat) * (0nat) <= total@) by (nonlinear_arith);
                    }
                    (0, 0)
                },
            }
        }
    }

    /// Marks which rows of this array occur among the rows of `of`:
    /// one boolean per row at equal rank, mapped over the deeper
    /// side's rows otherwise; a shallower needle must match a shape
    /// suffix of the haystack.
    pub fn member(&self, of: &Array) -> (r: Result<Array, ArrayError>)
        requires
            self.wf(),
            of.wf(),
        ensures
            r matches Err(e) ==> search_shape(self.shapev(), of.shapev()) == Result::<
                Seq<usize>,
                ArrayError,
            >::Err(e),
            r matches Ok(out) ==> search_shape(self.shapev(), of.shapev()) matches Ok(s)
                && out.wf() && out.shapev() == s && out.datav() == member_data(
                self.shapev(),
                self.datav(),
                of.shapev(),
                of.datav(),
            ) && out.keysv() is None,
    {
        let shape = match Self::search_shape_exec(self.shape.as_slice(), of.shape.as_slice()) {
            Ok(v) => v,
            Err(e) => {
                return Err(e);
            },
        };
        let data = match Self::member_go(
            self.shape.as_slice(),
            buf_slice(&self.data),
            of.shape.as_slice(),
            buf_slice(&of.data),
        ) {
            Ok(v) => v,
            Err(e) => {
                proof {
                    assert(false);
                }
                return Err(e);
            },
        };
        proof {
            lemma_search_len(self.shapev(), self.datav(), of.shapev(), of.datav());
        }
        Ok(Array::make(shape, data))
    }
}


impl Array {
    /// The recursive body of `index_of` over raw slices.
    fn index_go(esh: &[usize], ed: &[i64], osh: &[usize], od: &[i64]) -> (r: Result<
        Vec<i64>,
        ArrayError,
    >)
        requires
            ed@.len() == prod(esh@),
            od@.len() == prod(osh@),
            forall|t: int| 0 <= t < osh@.len() ==> #[trigger] osh@[t] <= i64::MAX,
        ensures
            r matches Ok(v) ==> search_shape(esh@, osh@) is Ok && v@ == index_of_data(
                esh@,
                ed@,
                osh@,
                od@,
            ),
            r matches Err(e) ==> search_shape(esh@, osh@) == Result::<Seq<usize>, ArrayError>::Err(
                e,
            ),
        decreases esh@.len() + osh@.len(),
    {
        let el: usize = esh.len();
        let ol: usize = osh.len();
        let edl: usize = ed.len();
        let odl: usize = od.len();
        if el == ol {
            let (en, erl): (usize, usize) = Self::rows_of(esh, Ghost(ed@.len()));
            let (onn, orl): (usize, usize) = Self::rows_of(osh, Ghost(od@.len()));
            proof {
                if ol == 0 {
                    assert(onn == 1 && 1 <= i64::MAX);
                } else {
                    assert(onn as nat == osh@[0] as nat);
                }
            }
            let v = index_flat(ed, erl, en, od, orl, onn);
            proof {
                assert(v@ =~= index_of_data(esh@, ed@, osh@, od@)) by {
                    assert forall|i: int| 0 <= i < en implies v@[i] == index_of_data(
                        esh@,
                        ed@,
                        osh@,
                        od@,
                    )[i] by {
                        if onn == 0 {
                        }
                    }
                }
            }
            Ok(v)
        } else if el > ol {
            let sub = vstd::slice::slice_subrange(esh, 1, el);
            proof {
                assert(sub@ =~= esh@.drop_first());
            }
            match Self::search_shape_exec(sub, osh) {
                Err(e) => Err(e),
                Ok(_) => {
                    let (en, erl): (usize, usize) = Self::rows_of(esh, Ghost(ed@.len()));
                    let mut out: Vec<i64> = Vec::new();
                    let mut i: usize = 0;
                    proof {
                        assert(out@ =~= index_rows(esh@, ed@, osh@, od@, 0));
                    }
                    while i < en
                        invariant
                            0 <= i <= en,
                            el == esh@.len(),
                            el > osh@.len(),
                            en * erl <= ed@.len(),
                            en as nat == rcount(esh@),
                            en > 0 ==> erl as nat == rlen(esh@),
                            edl == ed@.len(),
                            odl == od@.len(),
                            ed@.len() == prod(esh@),
                            od@.len() == prod(osh@),
                            forall|t: int| 0 <= t < osh@.len() ==> #[trigger] osh@[t]
                                <= i64::MAX,
                            sub@ == esh@.drop_first(),
                            search_shape(esh@.drop_first(), osh@) is Ok,
                            out@ == index_rows(esh@, ed@, osh@, od@, i as nat),
                        decreases en - i,
                    {
                        proof {
                            assert((i + 1) * erl <= en * erl && i * erl + erl == (i + 1) * erl
                                && 0 <= i * erl) by (nonlinear_arith)
                                requires
                                    i + 1 <= en,
                                    erl >= 0,
                            ;
                        }
                        let erow = vstd::slice::slice_subrange(ed, i * erl, i * erl + erl);
                        proof {
                            assert(erow@ == ed@.subrange(
                                (i * rlen(esh@)) as int,
                                ((i + 1) * rlen(esh@)) as int,
                            ));
                            assert(erow@.len() == prod(esh@.drop_first())) by {
                                assert(rlen(esh@) == prod(esh@.drop_first()));
                            }
                        }
                        match Self::index_go(sub, erow, osh, od) {
                            Ok(v) => {
                                out.append(&mut { v });
                            },
                            Err(e) => {
                                proof {
                                    assert(false);
                                }
                                return Err(e);
                            },
                        }
                        proof {
                            assert(index_rows(esh@, ed@, osh@, od@, (i + 1) as nat)
                                == index_rows(esh@, ed@, osh@, od@, i as nat) + index_of_data(
                                esh@.drop_first(),
                                ed@.subrange(
                                    (i * rlen(esh@)) as int,
                                    ((i + 1) * rlen(esh@)) as int,
                                ),
                                osh@,
                                od@,
                            ));
                        }
                        i = i + 1;
                    }
                    Ok(out)
                },
            }
        } else {
            match Self::search_shape_exec(esh, osh) {
                Err(e) => {
                    return Err(e);
                },
                Ok(_) => {},
            }
            let (onn, orl): (usize, usize) = Self::rows_of(osh, Ghost(od@.len()));
            proof {
                if ol == 0 {
                } else {
                    assert(onn as nat == osh@[0] as nat);
                }
            }
            if ol - el == 1 {
                let mut hit: usize = onn;
                let mut j: usize = 0;
                while j < onn
                    invariant
                        0 <= j <= onn,
                        onn * orl <= od@.len(),
                        odl == od@.len(),
                        hit <= onn,
                        hit == onn ==> forall|u: int|
                            0 <= u < j ==> #[trigger] row_at(od@, orl as nat, u) != ed@,
                        hit < onn ==> row_at(od@, orl as nat, hit as int) == ed@ && (forall|
                            u: int,
                        |
                            0 <= u < hit ==> #[trigger] row_at(od@, orl as nat, u) != ed@),
                    decreases onn - j,
                {
                    if hit == onn {
                        proof {
                            assert((j + 1) * orl <= onn * orl && j * orl + orl == (j + 1) * orl
                                && 0 <= j * orl) by (nonlinear_arith)
                                requires
                                    j + 1 <= onn,
                                    orl >= 0,
                            ;
                        }
                        let orow = vstd::slice::slice_subrange(od, j * orl, j * orl + orl);
                        proof {
                            assert(row_at(od@, orl as nat, j as int) == orow@);
                        }
                        if rows_eq(ed, orow) {
                            hit = j;
                        }
                    }
                    j = j + 1;
                }
                proof {
                    if onn == 0 {
                        assert(index_of_row(od@, rlen(osh@), rcount(osh@), ed@) == 0);
                    } else {
                        if hit == onn {
                            lemma_index_of_row_is(od@, orl as nat, onn as nat, ed@, onn as nat);
                        } else {
                            lemma_index_of_row_is(od@, orl as nat, onn as nat, ed@, hit as nat);
                        }
                    }
                }
                let mut out: Vec<i64> = Vec::new();
                out.push(hit as i64);
                proof {
                    assert(out@ =~= seq![index_of_row(od@, rlen(osh@), rcount(osh@), ed@) as i64]);
                }
                Ok(out)
            } else {
                let subo = vstd::slice::slice_subrange(osh, 1, ol);
                proof {
                    assert(subo@ =~= osh@.drop_first());
                }
                let mut out: Vec<i64> = Vec::new();
                let mut j: usize = 0;
                proof {
                    assert(out@ =~= index_hay_rows(esh@, ed@, osh@, od@, 0));
                }
                while j < onn
                    invariant
                        0 <= j <= onn,
                        ol == osh@.len(),
                        esh@.len() < osh@.len(),
                        osh@.len() - esh@.len() != 1,
                        onn * orl <= od@.len(),
                        onn as nat == rcount(osh@),
                        onn > 0 ==> orl as nat == rlen(osh@),
                        edl == ed@.len(),
                        odl == od@.len(),
                        ed@.len() == prod(esh@),
                        od@.len() == prod(osh@),
                        forall|t: int| 0 <= t < osh@.len() ==> #[trigger] osh@[t]
                            <= i64::MAX,
                        subo@ == osh@.drop_first(),
                        search_shape(esh@, osh@.drop_first()) is Ok,
                        out@ == index_hay_rows(esh@, ed@, osh@, od@, j as nat),
                    decreases onn - j,
                {
                    proof {
                        assert((j + 1) * orl <= onn * orl && j * orl + orl == (j + 1) * orl
                            && 0 <= j * orl) by (nonlinear_arith)
                            requires
                                j + 1 <= onn,
                                orl >= 0,
                        ;
                    }
                    let orow = vstd::slice::slice_subrange(od, j * orl, j * orl + orl);
                    proof {
                        assert(orow@ == od@.subrange(
                            (j * rlen(osh@)) as int,
                            ((j + 1) * rlen(osh@)) as int,
                        ));
                        assert(orow@.len() == prod(osh@.drop_first())) by {
                            assert(rlen(osh@) == prod(osh@.drop_first()));
                        }
                        assert forall|t: int| 0 <= t < subo@.len() implies #[trigger] subo@[t]
                            <= i64::MAX by {
                            assert(subo@[t] == osh@[t + 1]);
                        }
                    }
                    match Self::index_go(esh, ed, subo, orow) {
                        Ok(v) => {
                            out.append(&mut { v });
                        },
                        Err(e) => {
                            proof {
                                assert(false);
                            }
                            return Err(e);
                        },
                    }
                    proof {
                        assert(index_hay_rows(esh@, ed@, osh@, od@, (j + 1) as nat)
                            == index_hay_rows(esh@, ed@, osh@, od@, j as nat) + index_of_data(
                            esh@,
                            ed@,
                            osh@.drop_first(),
                            od@.subrange(
                                (j * rlen(osh@)) as int,
                                ((j + 1) * rlen(osh@)) as int,
                            ),
                        ));
                    }
                    j = j + 1;
                }
                Ok(out)
            }
        }
    }

    /// The first haystack row index of each of this array's rows, with
    /// the haystack's row count as the "not found" sentinel; ranks
    /// relate as for `member`.
    pub fn index_of(&self, haystack: &Array) -> (r: Result<Array, ArrayError>)
        requires
            self.wf(),
            haystack.wf(),
            forall|t: int| 0 <= t < haystack.shapev().len() ==> #[trigger] haystack.shapev()[t]
                <= i64::MAX,
        ensures
            r matches Err(e) ==> search_shape(self.shapev(), haystack.shapev()) == Result::<
                Seq<usize>,
                ArrayError,
            >::Err(e),
            r matches Ok(out) ==> search_shape(self.shapev(), haystack.shapev()) matches Ok(s)
                && out.wf() && out.shapev() == s && out.datav() == index_of_data(
                self.shapev(),
                self.datav(),
                haystack.shapev(),
                haystack.datav(),
            ) && out.keysv() is None,
    {
        let shape = match Self::search_shape_exec(
            self.shape.as_slice(),
            haystack.shape.as_slice(),
        ) {
            Ok(v) => v,
            Err(e) => {
                return Err(e);
            },
        };
        let data = match Self::index_go(
            self.shape.as_slice(),
            buf_slice(&self.data),
            haystack.shape.as_slice(),
            buf_slice(&haystack.data),
        ) {
            Ok(v) => v,
            Err(e) => {
                proof {
                    assert(false);
                }
                return Err(e);
            },
        };
        proof {
            lemma_search_len(self.shapev(), self.datav(), haystack.shapev(), haystack.datav());
        }
        Ok(Array::make(shape, data))
    }
}

/// Member and index-of agree row for row: a row is marked a member
/// exactly when its first index lands below the haystack's row count.
pub proof fn lemma_member_matches_index_of(
    esh: Seq<usize>,
    ed: Seq<i64>,
    osh: Seq<usize>,
    od: Seq<i64>,
)
    requires
        esh.len() == osh.len(),
        od.len() == prod(osh),
        rcount(osh) <= i64::MAX,
    ensures
        forall|i: int|
            0 <= i < rcount(esh) ==> (#[trigger] member_data(esh, ed, osh, od)[i] == 1
                <==> index_of_data(esh, ed, osh, od)[i] < rcount(osh)),
{
    assert(od.len() >= rcount(osh) * rlen(osh)) by {
        if osh.len() == 0 {
            assert(rcount(osh) * rlen(osh) == 1) by (nonlinear_arith)
                requires
                    rcount(osh) == 1,
                    rlen(osh) == 1,
            ;
        } else {
            lemma_prod_skip_unfold(osh, 0);
            assert(osh.skip(0) =~= osh);
            assert(osh.drop_first() =~= osh.skip(1));
        }
    }
    assert forall|i: int| 0 <= i < rcount(esh) implies (#[trigger] member_data(
        esh,
        ed,
        osh,
        od,
    )[i] == 1 <==> index_of_data(esh, ed, osh, od)[i] < rcount(osh)) by {
        let row = row_at(ed, rlen(esh), i);
        assert(member_data(esh, ed, osh, od) == Seq::new(
            rcount(esh),
            |t: int| b2i(row_in(od, rlen(osh), rcount(osh), row_at(ed, rlen(esh), t))),
        ));
        assert(index_of_data(esh, ed, osh, od) == Seq::new(
            rcount(esh),
            |t: int| index_of_row(od, rlen(osh), rcount(osh), row_at(ed, rlen(esh), t)) as i64,
        ));
        lemma_member_index_of_agree(od, rlen(osh), rcount(osh), row);
        lemma_index_of_row_le(od, rlen(osh), rcount(osh), row);
    }
}

/// The first-index spec never passes the sentinel.
pub proof fn lemma_index_of_row_le(od: Seq<i64>, rl: nat, hn: nat, row: Seq<i64>)
    ensures
        index_of_row(od, rl, hn, row) <= hn,
    decreases hn,
{
    if hn > 0 && row_at(od, rl, 0) != row {
        lemma_index_of_row_le(od.skip(rl as int), rl, (hn - 1) as nat, row);
    }
}


/// The first still-unconsumed haystack row equal to the given row, or
/// the row count when none remains.
pub open spec fn prog_first(od: Seq<i64>, rl: nat, hn: nat, used: Seq<bool>, row: Seq<i64>)
    -> nat
    decreases hn,
{
    if hn == 0 {
        0
    } else if !used[0] && row_at(od, rl, 0) == row {
        0
    } else {
        1 + prog_first(od.skip(rl as int), rl, (hn - 1) as nat, used.drop_first(), row)
    }
}

/// The progressive answers for a block of needle rows: each row takes
/// the first unconsumed equal haystack row, left to right, and
/// consumes it.
pub open spec fn prog_rows(
    ed: Seq<i64>,
    erl: nat,
    en: nat,
    od: Seq<i64>,
    orl: nat,
    hn: nat,
    used: Seq<bool>,
) -> Seq<i64>
    decreases en,
{
    if en == 0 {
        Seq::empty()
    } else {
        let j = prog_first(od, orl, hn, used, ed.take(erl as int));
        let used2 = if j < hn {
            used.update(j as int, true)
        } else {
            used
        };
        seq![j as i64] + prog_rows(ed.skip(erl as int), erl, (en - 1) as nat, od, orl, hn, used2)
    }
}

/// The progressive search's output shape: as the other row searches,
/// except that a shallower needle needs no matching shape suffix.
pub open spec fn prog_shape(esh: Seq<usize>, osh: Seq<usize>) -> Seq<usize>
    decreases esh.len() + osh.len(),
{
    if esh.len() == osh.len() {
        esh.take(
            if esh.len() == 0 {
                0
            } else {
                1
            },
        )
    } else if esh.len() > osh.len() {
        seq![esh[0]] + prog_shape(esh.drop_first(), osh)
    } else if osh.len() - esh.len() == 1 {
        Seq::empty()
    } else {
        seq![osh[0]] + prog_shape(esh, osh.drop_first())
    }
}

/// The progressive answers under `prog_shape`: fresh consumption per
/// recursive block, exactly one answer per needle row at equal rank.
pub open spec fn prog_data(esh: Seq<usize>, ed: Seq<i64>, osh: Seq<usize>, od: Seq<i64>)
    -> Seq<i64>
    decreases esh.len() + osh.len(), rcount(esh) + rcount(osh) + 1,
{
    if esh.len() == osh.len() {
        prog_rows(
            ed,
            rlen(esh),
            rcount(esh),
            od,
            rlen(osh),
            rcount(osh),
            Seq::new(rcount(osh), |j: int| false),
        )
    } else if esh.len() > osh.len() {
        prog_nd_rows(esh, ed, osh, od, rcount(esh))
    } else {
        if osh.len() - esh.len() == 1 {
            seq![index_of_row(od, rlen(osh), rcount(osh), ed) as i64]
        } else {
            prog_hay_rows(esh, ed, osh, od, rcount(osh))
        }
    }
}

pub open spec fn prog_nd_rows(esh: Seq<usize>, ed: Seq<i64>, osh: Seq<usize>, od: Seq<i64>, k: nat)
    -> Seq<i64>
    decreases esh.len() + osh.len(), k,
{
    if k == 0 || esh.len() == 0 {
        Seq::empty()
    } else {
        prog_nd_rows(esh, ed, osh, od, (k - 1) as nat) + prog_data(
            esh.drop_first(),
            ed.subrange(((k - 1) * rlen(esh)) as int, (k * rlen(esh)) as int),
            osh,
            od,
        )
    }
}

pub open spec fn prog_hay_rows(
    esh: Seq<usize>,
    ed: Seq<i64>,
    osh: Seq<usize>,
    od: Seq<i64>,
    k: nat,
) -> Seq<i64>
    decreases esh.len() + osh.len(), k,
{
    if k == 0 || osh.len() == 0 {
        Seq::empty()
    } else {
        prog_hay_rows(esh, ed, osh, od, (k - 1) as nat) + prog_data(
            esh,
            ed,
            osh.drop_first(),
            od.subrange(((k - 1) * rlen(osh)) as int, (k * rlen(osh)) as int),
        )
    }
}

pub proof fn lemma_prog_rows_len(
    ed: Seq<i64>,
    erl: nat,
    en: nat,
    od: Seq<i64>,
    orl: nat,
    hn: nat,
    used: Seq<bool>,
)
    ensures
        prog_rows(ed, erl, en, od, orl, hn, used).len() == en,
    decreases en,
{
    if en > 0 {
        let j = prog_first(od, orl, hn, used, ed.take(erl as int));
        let used2 = if j < hn {
            used.update(j as int, true)
        } else {
            used
        };
        lemma_prog_rows_len(ed.skip(erl as int), erl, (en - 1) as nat, od, orl, hn, used2);
    }
}

/// The length of every progressive answer is the product of its shape.
pub proof fn lemma_prog_len(esh: Seq<usize>, ed: Seq<i64>, osh: Seq<usize>, od: Seq<i64>)
    ensures
        prog_data(esh, ed, osh, od).len() == prod(prog_shape(esh, osh)),
    decreases esh.len() + osh.len(), rcount(esh) + rcount(osh) + 1,
{
    let s = prog_shape(esh, osh);
    if esh.len() == osh.len() {
        lemma_prog_rows_len(
            ed,
            rlen(esh),
            rcount(esh),
            od,
            rlen(osh),
            rcount(osh),
            Seq::new(rcount(osh), |j: int| false),
        );
        if esh.len() == 0 {
            assert(s =~= Seq::<usize>::empty());
        } else {
            assert(s =~= seq![esh[0]]);
            assert(s.drop_first() =~= Seq::<usize>::empty());
            assert(prod(s) == (esh[0] as nat) * prod(s.drop_first()));
            assert((esh[0] as nat) * 1 == esh[0] as nat) by (nonlinear_arith);
        }
    } else if esh.len() > osh.len() {
        let sub = prog_shape(esh.drop_first(), osh);
        assert(s =~= seq![esh[0]] + sub);
        assert(s.drop_first() =~= sub);
        assert(prod(s) == (esh[0] as nat) * prod(sub));
        lemma_prog_nd_rows_len(esh, ed, osh, od, rcount(esh));
    } else {
        if osh.len() - esh.len() == 1 {
            assert(s =~= Seq::<usize>::empty());
        } else {
            let sub = prog_shape(esh, osh.drop_first());
            assert(s =~= seq![osh[0]] + sub);
            assert(s.drop_first() =~= sub);
            assert(prod(s) == (osh[0] as nat) * prod(sub));
            lemma_prog_hay_rows_len(esh, ed, osh, od, rcount(osh));
        }
    }
}

pub proof fn lemma_prog_nd_rows_len(
    esh: Seq<usize>,
    ed: Seq<i64>,
    osh: Seq<usize>,
    od: Seq<i64>,
    k: nat,
)
    requires
        esh.len() > osh.len(),
    ensures
        prog_nd_rows(esh, ed, osh, od, k).len() == k * prod(prog_shape(esh.drop_first(), osh)),
    decreases esh.len() + osh.len(), k,
{
    let p = prod(prog_shape(esh.drop_first(), osh));
    if k == 0 {
        assert(0nat * p == 0) by (nonlinear_arith);
    } else {
        lemma_prog_nd_rows_len(esh, ed, osh, od, (k - 1) as nat);
        lemma_prog_len(
            esh.drop_first(),
            ed.subrange(((k - 1) * rlen(esh)) as int, (k * rlen(esh)) as int),
            osh,
            od,
        );
        assert((k - 1) * p + p == k * p) by (nonlinear_arith);
    }
}

pub proof fn lemma_prog_hay_rows_len(
    esh: Seq<usize>,
    ed: Seq<i64>,
    osh: Seq<usize>,
    od: Seq<i64>,
    k: nat,
)
    requires
        esh.len() < osh.len(),
        osh.len() - esh.len() != 1,
    ensures
        prog_hay_rows(esh, ed, osh, od, k).len() == k * prod(prog_shape(esh, osh.drop_first())),
    decreases esh.len() + osh.len(), k,
{
    let p = prod(prog_shape(esh, osh.drop_first()));
    if k == 0 {
        assert(0nat * p == 0) by (nonlinear_arith);
    } else {
        lemma_prog_hay_rows_len(esh, ed, osh, od, (k - 1) as nat);
        lemma_prog_len(
            esh,
            ed,
            osh.drop_first(),
            od.subrange(((k - 1) * rlen(osh)) as int, (k * rlen(osh)) as int),
        );
        assert((k - 1) * p + p == k * p) by (nonlinear_arith);
    }
}


/// Scanning forward over unconsumed rows pins the progressive
/// first-index spec.
pub proof fn lemma_prog_first_is(
    od: Seq<i64>,
    rl: nat,
    hn: nat,
    used: Seq<bool>,
    row: Seq<i64>,
    j: nat,
)
    requires
        j <= hn,
        used.len() == hn,
        od.len() >= hn * rl,
        forall|t: int|
            0 <= t < j ==> (used[t] || #[trigger] row_at(od, rl, t) != row),
        j < hn ==> !used[j as int] && row_at(od, rl, j as int) == row,
    ensures
        prog_first(od, rl, hn, used, row) == if j < hn {
            j
        } else {
            hn
        },
    decreases j, hn,
{
    if hn == 0 {
    } else if j == 0 {
    } else {
        assert(used[0] || row_at(od, rl, 0) != row);
        assert(od.skip(rl as int).len() >= (hn - 1) * rl) by (nonlinear_arith)
            requires
                od.len() >= hn * rl,
                hn >= 1,
                rl >= 0,
        ;
        assert forall|t: int| 0 <= t < j - 1 implies (used.drop_first()[t]
            || #[trigger] row_at(od.skip(rl as int), rl, t) != row) by {
            assert(1 * rl + (t + 1) * rl <= od.len()) by (nonlinear_arith)
                requires
                    od.len() >= hn * rl,
                    t + 2 <= hn,
                    rl >= 0,
                    0 <= t,
            ;
            assert(1 * rl == rl) by (nonlinear_arith);
            lemma_row_at_skip(od, rl, 1, t);
            assert(used[t + 1] || row_at(od, rl, 1 + t) != row);
        }
        if j < hn {
            assert(1 * rl + (j - 1 + 1) * rl <= od.len()) by (nonlinear_arith)
                requires
                    od.len() >= hn * rl,
                    j < hn,
                    rl >= 0,
                    j >= 1,
            ;
            assert(1 * rl == rl) by (nonlinear_arith);
            lemma_row_at_skip(od, rl, 1, j - 1);
        }
        lemma_prog_first_is(
            od.skip(rl as int),
            rl,
            (hn - 1) as nat,
            used.drop_first(),
            row,
            (j - 1) as nat,
        );
    }
}

/// The progressive answers for a flat block of rows.
fn prog_flat(ed: &[i64], erl: usize, en: usize, od: &[i64], orl: usize, onn: usize) -> (out:
    Vec<i64>)
    requires
        en * erl <= ed@.len(),
        onn * orl <= od@.len(),
        onn <= i64::MAX,
    ensures
        out@ == prog_rows(
            ed@,
            erl as nat,
            en as nat,
            od@,
            orl as nat,
            onn as nat,
            Seq::new(onn as nat, |j: int| false),
        ),
{
    let edl: usize = ed.len();
    let odl: usize = od.len();
    let mut used: Vec<bool> = Vec::new();
    let mut z: usize = 0;
    while z < onn
        invariant
            0 <= z <= onn,
            used@.len() == z,
            forall|t: int| 0 <= t < z ==> !used@[t],
        decreases onn - z,
    {
        used.push(false);
        z = z + 1;
    }
    proof {
        assert(used@ =~= Seq::new(onn as nat, |j: int| false));
        assert(ed@.skip(0) =~= ed@);
        assert(0 * erl == 0) by (nonlinear_arith);
    }
    let mut out: Vec<i64> = Vec::new();
    let mut i: usize = 0;
    proof {
        assert(Seq::<i64>::empty() + prog_rows(
            ed@,
            erl as nat,
            en as nat,
            od@,
            orl as nat,
            onn as nat,
            used@,
        ) =~= prog_rows(ed@, erl as nat, en as nat, od@, orl as nat, onn as nat, used@));
    }
    while i < en
        invariant
            0 <= i <= en,
            en * erl <= ed@.len(),
            onn * orl <= od@.len(),
            edl == ed@.len(),
            odl == od@.len(),
            onn <= i64::MAX,
            used@.len() == onn,
            out@.len() == i,
            prog_rows(
                ed@,
                erl as nat,
                en as nat,
                od@,
                orl as nat,
                onn as nat,
                Seq::new(onn as nat, |j: int| false),
            ) == out@ + prog_rows(
                ed@.skip((i * erl) as int),
                erl as nat,
                (en - i) as nat,
                od@,
                orl as nat,
                onn as nat,
                used@,
            ),
        decreases en - i,
    {
        proof {
            assert((i + 1) * erl <= en * erl && i * erl + erl == (i + 1) * erl && 0 <= i * erl)
                by (nonlinear_arith)
                requires
                    i + 1 <= en,
                    erl >= 0,
            ;
        }
        let erow = vstd::slice::slice_subrange(ed, i * erl, i * erl + erl);
        proof {
            assert(erow@ =~= ed@.skip((i * erl) as int).take(erl as int));
        }
        let mut hit: usize = onn;
        let mut j: usize = 0;
        while j < onn
            invariant
                0 <= j <= onn,
                onn * orl <= od@.len(),
                odl == od@.len(),
                used@.len() == onn,
                hit <= onn,
                erow@ == ed@.skip((i * erl) as int).take(erl as int),
                hit == onn ==> forall|u: int|
                    0 <= u < j ==> (used@[u] || #[trigger] row_at(od@, orl as nat, u) != erow@),
                hit < onn ==> !used@[hit as int] && row_at(od@, orl as nat, hit as int) == erow@
                    && (forall|u: int|
                    0 <= u < hit ==> (used@[u] || #[trigger] row_at(od@, orl as nat, u)
                        != erow@)),
            decreases onn - j,
        {
            if hit == onn {
                if !used[j] {
                    proof {
                        assert((j + 1) * orl <= onn * orl && j * orl + orl == (j + 1) * orl
                            && 0 <= j * orl) by (nonlinear_arith)
                            requires
                                j + 1 <= onn,
                                orl >= 0,
                        ;
                    }
                    let orow = vstd::slice::slice_subrange(od, j * orl, j * orl + orl);
                    proof {
                        assert(row_at(od@, orl as nat, j as int) == orow@);
                    }
                    if rows_eq(erow, orow) {
                        hit = j;
                    }
                }
            }
            j = j + 1;
        }
        proof {
            if hit == onn {
                lemma_prog_first_is(od@, orl as nat, onn as nat, used@, erow@, onn as nat);
            } else {
                lemma_prog_first_is(od@, orl as nat, onn as nat, used@, erow@, hit as nat);
            }
        }
        let ghost used0 = used@;
        let ghost out0 = out@;
        if hit < onn {
            used.set(hit, true);
        }
        out.push(hit as i64);
        proof {
            // one unfolding of the remaining block
            let rem = ed@.skip((i * erl) as int);
            assert(prog_rows(rem, erl as nat, (en - i) as nat, od@, orl as nat, onn as nat,
                used0) == seq![
                prog_first(od@, orl as nat, onn as nat, used0, rem.take(erl as int)) as i64,
            ] + prog_rows(
                rem.skip(erl as int),
                erl as nat,
                (en - i - 1) as nat,
                od@,
                orl as nat,
                onn as nat,
                (if prog_first(od@, orl as nat, onn as nat, used0, rem.take(erl as int)) < onn {
                    used0.update(
                        prog_first(od@, orl as nat, onn as nat, used0, rem.take(erl as int))
                            as int,
                        true,
                    )
                } else {
                    used0
                }),
            ));
            assert(rem.skip(erl as int) =~= ed@.skip(((i + 1) * erl) as int));
            if hit < onn {
                assert(used@ =~= used0.update(hit as int, true));
            }
            assert(out@ + prog_rows(
                ed@.skip(((i + 1) * erl) as int),
                erl as nat,
                (en - i - 1) as nat,
                od@,
                orl as nat,
                onn as nat,
                used@,
            ) =~= out0 + prog_rows(rem, erl as nat, (en - i) as nat, od@, orl as nat,
                onn as nat, used0));
        }
        i = i + 1;
    }
    proof {
        assert(prog_rows(
            ed@.skip((en * erl) as int),
            erl as nat,
            0,
            od@,
            orl as nat,
            onn as nat,
            used@,
        ) == Seq::<i64>::empty());
        assert(out@ + Seq::<i64>::empty() =~= out@);
    }
    out
}


impl Array {
    /// The progressive output shape alone.
    fn prog_shape_exec(esh: &[usize], osh: &[usize]) -> (r: Vec<usize>)
        ensures
            r@ == prog_shape(esh@, osh@),
        decreases esh@.len() + osh@.len(),
    {
        let el: usize = esh.len();
        let ol: usize = osh.len();
        if el == ol {
            let mut out: Vec<usize> = Vec::new();
            if el > 0 {
                out.push(esh[0]);
                proof {
                    assert(out@ =~= esh@.take(1));
                }
            } else {
                proof {
                    assert(out@ =~= esh@.take(0));
                }
            }
            out
        } else if el > ol {
            let sub = Self::prog_shape_exec(vstd::slice::slice_subrange(esh, 1, el), osh);
            let mut out: Vec<usize> = Vec::new();
            out.push(esh[0]);
            out.extend_from_slice(sub.as_slice());
            proof {
                assert(esh@.subrange(1, el as int) =~= esh@.drop_first());
                assert(out@ =~= seq![esh@[0]] + sub@);
            }
            out
        } else if ol - el == 1 {
            let out: Vec<usize> = Vec::new();
            proof {
                assert(out@ =~= Seq::<usize>::empty());
            }
            out
        } else {
            let sub = Self::prog_shape_exec(esh, vstd::slice::slice_subrange(osh, 1, ol));
            let mut out: Vec<usize> = Vec::new();
            out.push(osh[0]);
            out.extend_from_slice(sub.as_slice());
            proof {
                assert(osh@.subrange(1, ol as int) =~= osh@.drop_first());
                assert(out@ =~= seq![osh@[0]] + sub@);
            }
            out
        }
    }

    /// The recursive body of the progressive search over raw slices.
    fn prog_go(esh: &[usize], ed: &[i64], osh: &[usize], od: &[i64]) -> (v: Vec<i64>)
        requires
            ed@.len() == prod(esh@),
            od@.len() == prod(osh@),
            forall|t: int| 0 <= t < osh@.len() ==> #[trigger] osh@[t] <= i64::MAX,
        ensures
            v@ == prog_data(esh@, ed@, osh@, od@),
        decreases esh@.len() + osh@.len(),
    {
        let el: usize = esh.len();
        let ol: usize = osh.len();
        let edl: usize = ed.len();
        let odl: usize = od.len();
        if el == ol {
            let (en, erl): (usize, usize) = Self::rows_of(esh, Ghost(ed@.len()));
            let (onn, orl): (usize, usize) = Self::rows_of(osh, Ghost(od@.len()));
            proof {
                if ol == 0 {
                    assert(onn == 1 && 1 <= i64::MAX);
                } else {
                    assert(onn as nat == osh@[0] as nat);
                }
            }
            let v = prog_flat(ed, erl, en, od, orl, onn);
            proof {
                assert(v@ =~= prog_data(esh@, ed@, osh@, od@)) by {
                    if en == 0 {
                        lemma_prog_rows_len(
                            ed@,
                            rlen(esh@),
                            rcount(esh@),
                            od@,
                            rlen(osh@),
                            rcount(osh@),
                            Seq::new(rcount(osh@), |j: int| false),
                        );
                    } else {
                        if onn == 0 {
                            lemma_prog_rows_degenerate(
                                ed@,
                                erl as nat,
                                en as nat,
                                od@,
                                orl as nat,
                                rlen(osh@),
                            );
                            assert(Seq::new(rcount(osh@), |j: int| false) =~= Seq::new(
                                0,
                                |j: int| false,
                            ));
                        }
                    }
                }
            }
            v
        } else if el > ol {
            let sub = vstd::slice::slice_subrange(esh, 1, el);
            proof {
                assert(sub@ =~= esh@.drop_first());
            }
            let (en, erl): (usize, usize) = Self::rows_of(esh, Ghost(ed@.len()));
            let mut out: Vec<i64> = Vec::new();
            let mut i: usize = 0;
            proof {
                assert(out@ =~= prog_nd_rows(esh@, ed@, osh@, od@, 0));
            }
            while i < en
                invariant
                    0 <= i <= en,
                    el == esh@.len(),
                    el > osh@.len(),
                    en * erl <= ed@.len(),
                    en as nat == rcount(esh@),
                    en > 0 ==> erl as nat == rlen(esh@),
                    edl == ed@.len(),
                    odl == od@.len(),
                    ed@.len() == prod(esh@),
                    od@.len() == prod(osh@),
                    forall|t: int| 0 <= t < osh@.len() ==> #[trigger] osh@[t] <= i64::MAX,
                    sub@ == esh@.drop_first(),
                    out@ == prog_nd_rows(esh@, ed@, osh@, od@, i as nat),
                decreases en - i,
            {
                proof {
                    assert((i + 1) * erl <= en * erl && i * erl + erl == (i + 1) * erl && 0 <= i
                        * erl) by (nonlinear_arith)
                        requires
                            i + 1 <= en,
                            erl >= 0,
                    ;
                }
                let erow = vstd::slice::slice_subrange(ed, i * erl, i * erl + erl);
                proof {
                    assert(erow@ == ed@.subrange(
                        (i * rlen(esh@)) as int,
                        ((i + 1) * rlen(esh@)) as int,
                    ));
                    assert(erow@.len() == prod(esh@.drop_first())) by {
                        assert(rlen(esh@) == prod(esh@.drop_first()));
                    }
                }
                let rec = Self::prog_go(sub, erow, osh, od);
                out.append(&mut { rec });
                proof {
                    assert(prog_nd_rows(esh@, ed@, osh@, od@, (i + 1) as nat) == prog_nd_rows(
                        esh@,
                        ed@,
                        osh@,
                        od@,
                        i as nat,
                    ) + prog_data(
                        esh@.drop_first(),
                        ed@.subrange((i * rlen(esh@)) as int, ((i + 1) * rlen(esh@)) as int),
                        osh@,
                        od@,
                    ));
                }
                i = i + 1;
            }
            out
        } else if ol - el == 1 {
            let (onn, orl): (usize, usize) = Self::rows_of(osh, Ghost(od@.len()));
            proof {
                assert(onn as nat == osh@[0] as nat);
            }
            let v = index_flat(ed, edl, 1, od, orl, onn);
            proof {
                assert(1 * edl <= ed@.len()) by (nonlinear_arith)
                    requires
                        edl == ed@.len(),
                ;
                assert(ed@.subrange(0, edl as int) =~= ed@);
                assert(row_at(ed@, edl as nat, 0) =~= ed@) by {
                    assert(0int * (edl as nat) == 0 && (0int + 1) * (edl as nat) == edl as nat)
                        by (nonlinear_arith);
                }
                assert(v@ =~= prog_data(esh@, ed@, osh@, od@)) by {
                    if onn == 0 {
                        assert(index_of_row(od@, rlen(osh@), rcount(osh@), ed@) == 0);
                        assert(index_of_row(od@, orl as nat, onn as nat, ed@) == 0);
                    }
                }
            }
            v
        } else {
            let subo = vstd::slice::slice_subrange(osh, 1, ol);
            proof {
                assert(subo@ =~= osh@.drop_first());
            }
            let (onn, orl): (usize, usize) = Self::rows_of(osh, Ghost(od@.len()));
            let mut out: Vec<i64> = Vec::new();
            let mut j: usize = 0;
            proof {
                assert(out@ =~= prog_hay_rows(esh@, ed@, osh@, od@, 0));
            }
            while j < onn
                invariant
                    0 <= j <= onn,
                    ol == osh@.len(),
                    esh@.len() < osh@.len(),
                    osh@.len() - esh@.len() != 1,
                    onn * orl <= od@.len(),
                    onn as nat == rcount(osh@),
                    onn > 0 ==> orl as nat == rlen(osh@),
                    edl == ed@.len(),
                    odl == od@.len(),
                    ed@.len() == prod(esh@),
                    od@.len() == prod(osh@),
                    forall|t: int| 0 <= t < osh@.len() ==> #[trigger] osh@[t] <= i64::MAX,
                    subo@ == osh@.drop_first(),
                    out@ == prog_hay_rows(esh@, ed@, osh@, od@, j as nat),
                decreases onn - j,
            {
                proof {
                    assert((j + 1) * orl <= onn * orl && j * orl + orl == (j + 1) * orl && 0 <= j
                        * orl) by (nonlinear_arith)
                        requires
                            j + 1 <= onn,
                            orl >= 0,
                    ;
                }
                let orow = vstd::slice::slice_subrange(od, j * orl, j * orl + orl);
                proof {
                    assert(orow@ == od@.subrange(
                        (j * rlen(osh@)) as int,
                        ((j + 1) * rlen(osh@)) as int,
                    ));
                    assert(orow@.len() == prod(osh@.drop_first())) by {
                        assert(rlen(osh@) == prod(osh@.drop_first()));
                    }
                    assert forall|t: int| 0 <= t < subo@.len() implies #[trigger] subo@[t]
                        <= i64::MAX by {
                        assert(subo@[t] == osh@[t + 1]);
                    }
                }
                let rec = Self::prog_go(esh, ed, subo, orow);
                out.append(&mut { rec });
                proof {
                    assert(prog_hay_rows(esh@, ed@, osh@, od@, (j + 1) as nat) == prog_hay_rows(
                        esh@,
                        ed@,
                        osh@,
                        od@,
                        j as nat,
                    ) + prog_data(
                        esh@,
                        ed@,
                        osh@.drop_first(),
                        od@.subrange((j * rlen(osh@)) as int, ((j + 1) * rlen(osh@)) as int),
                    ));
                }
                j = j + 1;
            }
            out
        }
    }

    /// For each of this array's rows, the index of the first haystack
    /// row equal to it that no earlier needle row has already taken,
    /// with the haystack's row count as the "not found" sentinel; a
    /// shallower needle looks itself up as one block.
    pub fn progressive_index_of(&self, searched_in: &Array) -> (r: Result<Array, ArrayError>)
        requires
            self.wf(),
            searched_in.wf(),
            forall|t: int|
                0 <= t < searched_in.shapev().len() ==> #[trigger] searched_in.shapev()[t]
                    <= i64::MAX,
        ensures
            r matches Ok(out) && out.wf() && out.shapev() == prog_shape(
                self.shapev(),
                searched_in.shapev(),
            ) && out.datav() == prog_data(
                self.shapev(),
                self.datav(),
                searched_in.shapev(),
                searched_in.datav(),
            ) && out.keysv() is None,
    {
        let shape = Self::prog_shape_exec(self.shape.as_slice(), searched_in.shape.as_slice());
        let data = Self::prog_go(
            self.shape.as_slice(),
            buf_slice(&self.data),
            searched_in.shape.as_slice(),
            buf_slice(&searched_in.data),
        );
        proof {
            lemma_prog_len(
                self.shapev(),
                self.datav(),
                searched_in.shapev(),
                searched_in.datav(),
            );
        }
        Ok(Array::make(shape, data))
    }
}

/// With no haystack rows every lookup returns the zero sentinel,
/// whatever row width the haystack would have had.
pub proof fn lemma_prog_rows_degenerate(
    ed: Seq<i64>,
    erl: nat,
    en: nat,
    od: Seq<i64>,
    orl1: nat,
    orl2: nat,
)
    ensures
        prog_rows(ed, erl, en, od, orl1, 0, Seq::new(0, |j: int| false)) == prog_rows(
            ed,
            erl,
            en,
            od,
            orl2,
            0,
            Seq::new(0, |j: int| false),
        ),
    decreases en,
{
    if en > 0 {
        let used = Seq::new(0, |j: int| false);
        assert(prog_first(od, orl1, 0, used, ed.take(erl as int)) == 0);
        assert(prog_first(od, orl2, 0, used, ed.take(erl as int)) == 0);
        assert(prog_rows(ed, erl, en, od, orl1, 0, used) == seq![0i64] + prog_rows(
            ed.skip(erl as int),
            erl,
            (en - 1) as nat,
            od,
            orl1,
            0,
            used,
        ));
        assert(prog_rows(ed, erl, en, od, orl2, 0, used) == seq![0i64] + prog_rows(
            ed.skip(erl as int),
            erl,
            (en - 1) as nat,
            od,
            orl2,
            0,
            used,
        ));
        lemma_prog_rows_degenerate(ed.skip(erl as int), erl, (en - 1) as nat, od, orl1, orl2);
    }
}

/// The per-axis coordinates of a flat offset, row-major.
pub open spec fn coords_of(i: int, sh: Seq<usize>) -> Seq<i64>
    decreases sh.len(),
{
    if sh.len() == 0 {
        Seq::empty()
    } else {
        seq![(i / (prod(sh.drop_first()) as int)) as i64] + coords_of(
            i % (prod(sh.drop_first()) as int),
            sh.drop_first(),
        )
    }
}

pub proof fn lemma_coords_of_len(i: int, sh: Seq<usize>)
    ensures
        coords_of(i, sh).len() == sh.len(),
    decreases sh.len(),
{
    if sh.len() > 0 {
        lemma_coords_of_len(i % (prod(sh.drop_first()) as int), sh.drop_first());
    }
}

/// Where the coordinate lookup is defined: the block scan of a
/// shallower needle needs rows of a positive size.
pub open spec fn coordinate_defined(esh: Seq<usize>, osh: Seq<usize>) -> bool
    decreases esh.len() + osh.len(),
{
    if esh.len() == osh.len() {
        true
    } else if esh.len() > osh.len() {
        coordinate_defined(esh.drop_first(), osh)
    } else {
        !ends_with(osh, esh) || prod(osh.skip(osh.len() - esh.len())) > 0
    }
}

/// The coordinate output shape: a trailing unit axis on the row
/// indices at equal rank; a shallower needle gets one coordinate per
/// outer axis (a scalar when there is just one).
pub open spec fn coord_shape(esh: Seq<usize>, osh: Seq<usize>) -> Result<Seq<usize>, ArrayError>
    decreases esh.len() + osh.len(),
{
    if esh.len() == osh.len() {
        Result::Ok(
            esh.take(
                if esh.len() == 0 {
                    0
                } else {
                    1
                },
            ) + seq![1usize],
        )
    } else if esh.len() > osh.len() {
        match coord_shape(esh.drop_first(), osh) {
            Result::Ok(s) => Result::Ok(seq![esh[0]] + s),
            Result::Err(e) => Result::Err(e),
        }
    } else {
        if !ends_with(osh, esh) {
            Result::Err(ArrayError::ShapeMismatch)
        } else if osh.len() - esh.len() == 1 {
            Result::Ok(Seq::empty())
        } else {
            Result::Ok(seq![(osh.len() - esh.len()) as usize])
        }
    }
}

/// The coordinate answers under `coord_shape`: first row indices at
/// equal rank; for a shallower needle the per-axis coordinates of its
/// first whole occurrence, or the outer extents as the "not found"
/// sentinel.
pub open spec fn coord_data(esh: Seq<usize>, ed: Seq<i64>, osh: Seq<usize>, od: Seq<i64>)
    -> Seq<i64>
    decreases esh.len() + osh.len(), rcount(esh) + rcount(osh) + 1,
{
    if esh.len() == osh.len() {
        Seq::new(
            rcount(esh),
            |i: int| index_of_row(od, rlen(osh), rcount(osh), row_at(ed, rlen(esh), i)) as i64,
        )
    } else if esh.len() > osh.len() {
        coord_rows(esh, ed, osh, od, rcount(esh))
    } else {
        let m = osh.len() - esh.len();
        let outer = osh.take(m);
        let bl = prod(osh.skip(m));
        let idx = index_of_row(od, bl, prod(outer), ed);
        if idx < prod(outer) {
            coords_of(idx as int, outer)
        } else {
            Seq::new(m as nat, |j: int| osh[j] as i64)
        }
    }
}

pub open spec fn coord_rows(esh: Seq<usize>, ed: Seq<i64>, osh: Seq<usize>, od: Seq<i64>, k: nat)
    -> Seq<i64>
    decreases esh.len() + osh.len(), k,
{
    if k == 0 || esh.len() == 0 {
        Seq::empty()
    } else {
        coord_rows(esh, ed, osh, od, (k - 1) as nat) + coord_data(
            esh.drop_first(),
            ed.subrange(((k - 1) * rlen(esh)) as int, (k * rlen(esh)) as int),
            osh,
            od,
        )
    }
}

/// The length of every coordinate answer is the product of its shape.
pub proof fn lemma_coord_len(esh: Seq<usize>, ed: Seq<i64>, osh: Seq<usize>, od: Seq<i64>)
    requires
        coord_shape(esh, osh) is Ok,
        osh.len() <= usize::MAX,
    ensures
        coord_data(esh, ed, osh, od).len() == prod(coord_shape(esh, osh)->Ok_0),
    decreases esh.len() + osh.len(), rcount(esh) + rcount(osh) + 1,
{
    let s = coord_shape(esh, osh)->Ok_0;
    if esh.len() == osh.len() {
        if esh.len() == 0 {
            assert(s =~= seq![1usize]);
            assert(s.drop_first() =~= Seq::<usize>::empty());
            assert(prod(s) == (1 as nat) * prod(s.drop_first()));
        } else {
            assert(s =~= seq![esh[0], 1usize]);
            assert(s.drop_first() =~= seq![1usize]);
            assert(s.drop_first().drop_first() =~= Seq::<usize>::empty());
            assert(prod(s.drop_first()) == (1 as nat) * prod(s.drop_first().drop_first()));
            assert(prod(s) == (esh[0] as nat) * prod(s.drop_first()));
            assert((esh[0] as nat) * 1 == esh[0] as nat) by (nonlinear_arith);
        }
    } else if esh.len() > osh.len() {
        let sub = coord_shape(esh.drop_first(), osh)->Ok_0;
        assert(s =~= seq![esh[0]] + sub);
        assert(s.drop_first() =~= sub);
        assert(prod(s) == (esh[0] as nat) * prod(sub));
        lemma_coord_rows_len(esh, ed, osh, od, rcount(esh));
    } else {
        let m = osh.len() - esh.len();
        let outer = osh.take(m);
        let bl = prod(osh.skip(m));
        let idx = index_of_row(od, bl, prod(outer), ed);
        if idx < prod(outer) {
            lemma_coords_of_len(idx as int, outer);
        }
        if osh.len() - esh.len() == 1 {
            assert(s =~= Seq::<usize>::empty());
        } else {
            assert(s =~= seq![m as usize]);
            assert(s.drop_first() =~= Seq::<usize>::empty());
            assert(prod(s) == ((m as usize) as nat) * prod(s.drop_first()));
            assert(((m as usize) as nat) * 1 == m) by (nonlinear_arith)
                requires
                    0 <= m <= usize::MAX,
            ;
        }
    }
}

pub proof fn lemma_coord_rows_len(
    esh: Seq<usize>,
    ed: Seq<i64>,
    osh: Seq<usize>,
    od: Seq<i64>,
    k: nat,
)
    requires
        esh.len() > osh.len(),
        coord_shape(esh.drop_first(), osh) is Ok,
        osh.len() <= usize::MAX,
    ensures
        coord_rows(esh, ed, osh, od, k).len() == k * prod(coord_shape(esh.drop_first(), osh)->Ok_0),
    decreases esh.len() + osh.len(), k,
{
    let p = prod(coord_shape(esh.drop_first(), osh)->Ok_0);
    if k == 0 {
        assert(0nat * p == 0) by (nonlinear_arith);
    } else {
        lemma_coord_rows_len(esh, ed, osh, od, (k - 1) as nat);
        lemma_coord_len(
            esh.drop_first(),
            ed.subrange(((k - 1) * rlen(esh)) as int, (k * rlen(esh)) as int),
            osh,
            od,
        );
        assert((k - 1) * p + p == k * p) by (nonlinear_arith);
    }
}


impl Array {
    /// The coordinate output shape alone.
    fn coord_shape_exec(esh: &[usize], osh: &[usize]) -> (r: Result<Vec<usize>, ArrayError>)
        ensures
            r matches Ok(v) ==> coord_shape(esh@, osh@) == Result::<Seq<usize>, ArrayError>::Ok(
                v@,
            ),
            r matches Err(e) ==> coord_shape(esh@, osh@) == Result::<Seq<usize>, ArrayError>::Err(
                e,
            ),
        decreases esh@.len() + osh@.len(),
    {
        let el: usize = esh.len();
        let ol: usize = osh.len();
        if el == ol {
            let mut out: Vec<usize> = Vec::new();
            if el > 0 {
                out.push(esh[0]);
            }
            out.push(1);
            proof {
                if el > 0 {
                    assert(out@ =~= esh@.take(1) + seq![1usize]);
                } else {
                    assert(out@ =~= esh@.take(0) + seq![1usize]);
                }
            }
            Ok(out)
        } else if el > ol {
            match Self::coord_shape_exec(vstd::slice::slice_subrange(esh, 1, el), osh) {
                Ok(sub) => {
                    let mut out: Vec<usize> = Vec::new();
                    out.push(esh[0]);
                    out.extend_from_slice(sub.as_slice());
                    proof {
                        assert(esh@.subrange(1, el as int) =~= esh@.drop_first());
                        assert(out@ =~= seq![esh@[0]] + sub@);
                    }
                    Ok(out)
                },
                Err(e) => {
                    proof {
                        assert(esh@.subrange(1, el as int) =~= esh@.drop_first());
                    }
                    Err(e)
                },
            }
        } else {
            let mut matches_suffix: bool = true;
            let mut t: usize = 0;
            while t < el
                invariant
                    0 <= t <= el,
                    el == esh@.len(),
                    ol == osh@.len(),
                    el < ol,
                    matches_suffix <==> forall|u: int|
                        0 <= u < t ==> osh@[ol - el + u] == esh@[u],
                decreases el - t,
            {
                if osh[ol - el + t] != esh[t] {
                    matches_suffix = false;
                } else {
                    if matches_suffix {
                        proof {
                            assert(forall|u: int|
                                0 <= u < t + 1 ==> osh@[ol - el + u] == esh@[u]);
                        }
                    }
                }
                t = t + 1;
            }
            proof {
                if matches_suffix {
                    assert(osh@.skip(ol - el) =~= esh@);
                } else {
                    assert(osh@.skip(ol - el).len() == esh@.len());
                    let w = choose|u: int| 0 <= u < el && osh@[ol - el + u] != esh@[u];
                    assert(osh@.skip(ol - el)[w] != esh@[w]);
                    assert(osh@.skip(ol - el) != esh@);
                }
            }
            if !matches_suffix {
                return Err(ArrayError::ShapeMismatch);
            }
            let mut out: Vec<usize> = Vec::new();
            if ol - el == 1 {
                proof {
                    assert(out@ =~= Seq::<usize>::empty());
                }
                Ok(out)
            } else {
                out.push(ol - el);
                proof {
                    assert(out@ =~= seq![((ol - el) as int) as usize]);
                }
                Ok(out)
            }
        }
    }

    /// The per-axis coordinates of a flat offset over a shape.
    fn to_coords(i: usize, sh: &[usize]) -> (out: Vec<i64>)
        requires
            i < prod(sh@),
            prod(sh@) <= usize::MAX,
            forall|t: int| 0 <= t < sh@.len() ==> #[trigger] sh@[t] <= i64::MAX,
        ensures
            out@ == coords_of(i as int, sh@),
        decreases sh@.len(),
    {
        let l: usize = sh.len();
        if l == 0 {
            let out: Vec<i64> = Vec::new();
            proof {
                assert(out@ =~= coords_of(i as int, sh@));
            }
            return out;
        }
        let rest = vstd::slice::slice_subrange(sh, 1, l);
        proof {
            assert(rest@ =~= sh@.drop_first());
            lemma_prod_skip_unfold(sh@, 0);
            assert(sh@.skip(0) =~= sh@);
            assert(sh@.skip(1) =~= sh@.drop_first());
            assert(prod(sh@.drop_first()) >= 1 && sh@[0] >= 1) by (nonlinear_arith)
                requires
                    prod(sh@) == (sh@[0] as nat) * prod(sh@.drop_first()),
                    prod(sh@) > i,
                    i >= 0,
            ;
            assert(prod(sh@.drop_first()) <= prod(sh@)) by (nonlinear_arith)
                requires
                    prod(sh@) == (sh@[0] as nat) * prod(sh@.drop_first()),
                    sh@[0] >= 1,
                    prod(sh@.drop_first()) >= 0,
            ;
            assert(i < (prod(sh@.drop_first()) as int) * (sh@[0] as int)) by (nonlinear_arith)
                requires
                    i < prod(sh@),
                    prod(sh@) == (sh@[0] as nat) * prod(sh@.drop_first()),
            ;
            assert forall|t: int| 0 <= t < rest@.len() implies #[trigger] rest@[t]
                <= i64::MAX by {
                assert(rest@[t] == sh@[t + 1]);
            }
        }
        let rprod: usize = prod_all(rest);
        proof {
            vstd::arithmetic::div_mod::lemma_multiply_divide_lt(i as int, rprod as int,
                sh@[0] as int);
            vstd::arithmetic::div_mod::lemma_div_pos_is_pos(i as int, rprod as int);
            vstd::arithmetic::div_mod::lemma_mod_bound(i as int, rprod as int);
        }
        let c: usize = i / rprod;
        let rec = Self::to_coords(i % rprod, rest);
        let mut out: Vec<i64> = Vec::new();
        out.push(c as i64);
        out.extend_from_slice(rec.as_slice());
        proof {
            assert(out@ =~= coords_of(i as int, sh@));
        }
        out
    }

    /// The recursive body of `coordinate` over raw slices.
    fn coord_go(esh: &[usize], ed: &[i64], osh: &[usize], od: &[i64]) -> (r: Result<
        Vec<i64>,
        ArrayError,
    >)
        requires
            ed@.len() == prod(esh@),
            od@.len() == prod(osh@),
            coordinate_defined(esh@, osh@),
            forall|t: int| 0 <= t < osh@.len() ==> #[trigger] osh@[t] <= i64::MAX,
        ensures
            r matches Ok(v) ==> coord_shape(esh@, osh@) is Ok && v@ == coord_data(
                esh@,
                ed@,
                osh@,
                od@,
            ),
            r matches Err(e) ==> coord_shape(esh@, osh@) == Result::<Seq<usize>, ArrayError>::Err(
                e,
            ),
        decreases esh@.len() + osh@.len(),
    {
        let el: usize = esh.len();
        let ol: usize = osh.len();
        let edl: usize = ed.len();
        let odl: usize = od.len();
        if el == ol {
            let (en, erl): (usize, usize) = Self::rows_of(esh, Ghost(ed@.len()));
            let (onn, orl): (usize, usize) = Self::rows_of(osh, Ghost(od@.len()));
            proof {
                if ol == 0 {
                    assert(onn == 1 && 1 <= i64::MAX);
                } else {
                    assert(onn as nat == osh@[0] as nat);
                }
            }
            let v = index_flat(ed, erl, en, od, orl, onn);
            proof {
                assert(v@ =~= coord_data(esh@, ed@, osh@, od@)) by {
                    assert forall|i: int| 0 <= i < en implies v@[i] == coord_data(
                        esh@,
                        ed@,
                        osh@,
                        od@,
                    )[i] by {
                        if onn == 0 {
                        }
                    }
                }
            }
            Ok(v)
        } else if el > ol {
            match Self::coord_shape_exec(vstd::slice::slice_subrange(esh, 1, el), osh) {
                Err(e) => {
                    proof {
                        assert(esh@.subrange(1, el as int) =~= esh@.drop_first());
                    }
                    Err(e)
                },
                Ok(_) => {
                    let sub = vstd::slice::slice_subrange(esh, 1, el);
                    proof {
                        assert(sub@ =~= esh@.drop_first());
                    }
                    let (en, erl): (usize, usize) = Self::rows_of(esh, Ghost(ed@.len()));
                    let mut out: Vec<i64> = Vec::new();
                    let mut i: usize = 0;
                    proof {
                        assert(out@ =~= coord_rows(esh@, ed@, osh@, od@, 0));
                    }
                    while i < en
                        invariant
                            0 <= i <= en,
                            el == esh@.len(),
                            el > osh@.len(),
                            en * erl <= ed@.len(),
                            en as nat == rcount(esh@),
                            en > 0 ==> erl as nat == rlen(esh@),
                            edl == ed@.len(),
                            odl == od@.len(),
                            ed@.len() == prod(esh@),
                            od@.len() == prod(osh@),
                            coordinate_defined(esh@, osh@),
                            forall|t: int| 0 <= t < osh@.len() ==> #[trigger] osh@[t]
                                <= i64::MAX,
                            sub@ == esh@.drop_first(),
                            coord_shape(esh@.drop_first(), osh@) is Ok,
                            out@ == coord_rows(esh@, ed@, osh@, od@, i as nat),
                        decreases en - i,
                    {
                        proof {
                            assert((i + 1) * erl <= en * erl && i * erl + erl == (i + 1) * erl
                                && 0 <= i * erl) by (nonlinear_arith)
                                requires
                                    i + 1 <= en,
                                    erl >= 0,
                            ;
                        }
                        let erow = vstd::slice::slice_subrange(ed, i * erl, i * erl + erl);
                        proof {
                            assert(erow@ == ed@.subrange(
                                (i * rlen(esh@)) as int,
                                ((i + 1) * rlen(esh@)) as int,
                            ));
                            assert(erow@.len() == prod(esh@.drop_first())) by {
                                assert(rlen(esh@) == prod(esh@.drop_first()));
                            }
                        }
                        match Self::coord_go(sub, erow, osh, od) {
                            Ok(v) => {
                                out.append(&mut { v });
                            },
                            Err(e) => {
                                proof {
                                    assert(false);
                                }
                                return Err(e);
                            },
                        }
                        proof {
                            assert(coord_rows(esh@, ed@, osh@, od@, (i + 1) as nat)
                                == coord_rows(esh@, ed@, osh@, od@, i as nat) + coord_data(
                                esh@.drop_first(),
                                ed@.subrange(
                                    (i * rlen(esh@)) as int,
                                    ((i + 1) * rlen(esh@)) as int,
                                ),
                                osh@,
                                od@,
                            ));
                        }
                        i = i + 1;
                    }
                    Ok(out)
                },
            }
        } else {
            match Self::coord_shape_exec(esh, osh) {
                Err(e) => {
                    return Err(e);
                },
                Ok(_) => {},
            }
            let m: usize = ol - el;
            let outer = vstd::slice::slice_subrange(osh, 0, m);
            let inner = vstd::slice::slice_subrange(osh, m, ol);
            proof {
                assert(outer@ =~= osh@.take(m as int));
                assert(inner@ =~= osh@.skip(m as int));
                lemma_prod_split(osh@, m as int);
                assert(prod(osh@.skip(m as int)) >= 1);
                lemma_prod_part_le2_export(osh@, m as int);
            }
            let bl: usize = prod_all(inner);
            let cnt: usize = {
                proof {
                    assert((prod(osh@.take(m as int)) as int) * (bl as int) == od@.len())
                        by (nonlinear_arith)
                        requires
                            od@.len() == prod(osh@),
                            prod(osh@) == prod(osh@.take(m as int)) * prod(osh@.skip(m as int)),
                            bl as nat == prod(osh@.skip(m as int)),
                    ;
                    assert(prod(osh@.take(m as int)) <= od@.len()) by (nonlinear_arith)
                        requires
                            (prod(osh@.take(m as int)) as int) * (bl as int) == od@.len(),
                            bl >= 1,
                            prod(osh@.take(m as int)) >= 0,
                    ;
                }
                prod_all(outer)
            };
            // the first block equal to the needle, scanned in order
            let mut hit: usize = cnt;
            let mut j: usize = 0;
            while j < cnt
                invariant
                    0 <= j <= cnt,
                    (cnt as nat) * (bl as nat) <= od@.len(),
                    odl == od@.len(),
                    hit <= cnt,
                    hit == cnt ==> forall|u: int|
                        0 <= u < j ==> #[trigger] row_at(od@, bl as nat, u) != ed@,
                    hit < cnt ==> row_at(od@, bl as nat, hit as int) == ed@ && (forall|u: int|
                        0 <= u < hit ==> #[trigger] row_at(od@, bl as nat, u) != ed@),
                decreases cnt - j,
            {
                if hit == cnt {
                    proof {
                        assert((j + 1) * bl <= (cnt as nat) * bl && j * bl + bl == (j + 1) * bl
                            && 0 <= j * bl) by (nonlinear_arith)
                            requires
                                j + 1 <= cnt,
                                bl >= 0,
                        ;
                    }
                    let block = vstd::slice::slice_subrange(od, j * bl, j * bl + bl);
                    proof {
                        assert(row_at(od@, bl as nat, j as int) == block@);
                    }
                    if rows_eq(ed, block) {
                        hit = j;
                    }
                }
                j = j + 1;
            }
            proof {
                if hit == cnt {
                    lemma_index_of_row_is(od@, bl as nat, cnt as nat, ed@, cnt as nat);
                } else {
                    lemma_index_of_row_is(od@, bl as nat, cnt as nat, ed@, hit as nat);
                }
            }
            if hit < cnt {
                proof {
                    assert forall|t: int| 0 <= t < outer@.len() implies #[trigger] outer@[t]
                        <= i64::MAX by {
                        assert(outer@[t] == osh@[t]);
                    }
                }
                let v = Self::to_coords(hit, outer);
                proof {
                    assert(v@ =~= coord_data(esh@, ed@, osh@, od@));
                }
                Ok(v)
            } else {
                // not found: the outer extents are the sentinel
                let mut v: Vec<i64> = Vec::new();
                let mut t: usize = 0;
                while t < m
                    invariant
                        0 <= t <= m,
                        m <= osh@.len(),
                        forall|u: int| 0 <= u < osh@.len() ==> #[trigger] osh@[u] <= i64::MAX,
                        v@.len() == t,
                        forall|u: int| 0 <= u < t ==> v@[u] == osh@[u] as i64,
                    decreases m - t,
                {
                    v.push(osh[t] as i64);
                    t = t + 1;
                }
                proof {
                    assert(v@ =~= coord_data(esh@, ed@, osh@, od@));
                }
                Ok(v)
            }
        }
    }

    /// The coordinates of this array's first occurrence inside
    /// `haystack`: first row indices with a trailing unit axis at
    /// equal rank; a shallower needle yields the per-axis coordinates
    /// of its first whole occurrence, with the outer extents as the
    /// "not found" sentinel; a deeper needle maps over its rows.
    pub fn coordinate(&self, haystack: &Array) -> (r: Result<Array, ArrayError>)
        requires
            self.wf(),
            haystack.wf(),
            coordinate_defined(self.shapev(), haystack.shapev()),
            forall|t: int|
                0 <= t < haystack.shapev().len() ==> #[trigger] haystack.shapev()[t]
                    <= i64::MAX,
        ensures
            r matches Err(e) ==> coord_shape(self.shapev(), haystack.shapev()) == Result::<
                Seq<usize>,
                ArrayError,
            >::Err(e),
            r matches Ok(out) ==> coord_shape(self.shapev(), haystack.shapev()) matches Ok(s)
                && out.wf() && out.shapev() == s && out.datav() == coord_data(
                self.shapev(),
                self.datav(),
                haystack.shapev(),
                haystack.datav(),
            ) && out.keysv() is None,
    {
        let shape = match Self::coord_shape_exec(
            self.shape.as_slice(),
            haystack.shape.as_slice(),
        ) {
            Ok(v) => v,
            Err(e) => {
                return Err(e);
            },
        };
        let data = match Self::coord_go(
            self.shape.as_slice(),
            buf_slice(&self.data),
            haystack.shape.as_slice(),
            buf_slice(&haystack.data),
        ) {
            Ok(v) => v,
            Err(e) => {
                proof {
                    assert(false);
                }
                return Err(e);
            },
        };
        let hr: usize = haystack.shape.len();
        proof {
            assert(haystack.shapev().len() == hr);
            lemma_coord_len(self.shapev(), self.datav(), haystack.shapev(), haystack.datav());
        }
        Ok(Array::make(shape, data))
    }
}


} // verus!
