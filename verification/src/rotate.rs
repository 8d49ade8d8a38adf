//! Rotate: cyclic shifts along leading axes, outermost first, with a
//! fill variant that blanks the wrapped-in region.
use vstd::prelude::*;
use crate::ArrayError;
use crate::array::{Array, prod, prod_all, checked_prod, lemma_prod_sub_pos,
    lemma_prod_part_le, lemma_prod_skip_unfold};
use crate::buffer::{buf_view, buf_from_vec, buf_slice};
use crate::align::align_result;

verus! {

/// The split point of a cyclic rotation by `off` over `n` rows: the
/// offset reduced to `[0, n)` the Euclidean way.
pub open spec fn rot_mid(off: i64, n: nat) -> nat {
    if n == 0 {
        0
    } else {
        ((off as int) % (n as int)) as nat
    }
}

/// A buffer rotated by the given offsets, one per leading axis,
/// outermost first: the rows of each axis are cyclically shifted, then
/// every row is rotated by the remaining offsets.
pub open spec fn rotate_spec(by: Seq<i64>, shape: Seq<usize>, data: Seq<i64>) -> Seq<i64>
    decreases shape.len(), 0int, 0nat,
{
    if by.len() == 0 || shape.len() == 0 || shape[0] == 0 {
        data
    } else {
        let n = shape[0] as nat;
        let rl = prod(shape.drop_first());
        let mid = rot_mid(by[0], n);
        let shifted = data.skip((mid * rl) as int) + data.take((mid * rl) as int);
        if by.len() <= 1 || shape.len() <= 1 {
            shifted
        } else {
            rotate_chunks(by.drop_first(), shape.drop_first(), shifted, n)
        }
    }
}

/// The first `k` rows of a buffer, each rotated as a whole sub-array.
pub open spec fn rotate_chunks(by: Seq<i64>, shape: Seq<usize>, data: Seq<i64>, k: nat)
    -> Seq<i64>
    decreases shape.len(), 1int, k,
{
    if k == 0 {
        Seq::empty()
    } else {
        rotate_chunks(by, shape, data, (k - 1) as nat) + rotate_spec(
            by,
            shape,
            data.subrange(((k - 1) * prod(shape)) as int, (k * prod(shape)) as int),
        )
    }
}

/// A buffer after the fill pass of a shift: the `|off|` wrapped-in
/// rows at one end are replaced by the fill value, then the pass
/// recurses into each row with the remaining offsets.
pub open spec fn fill_shift_spec(by: Seq<i64>, shape: Seq<usize>, data: Seq<i64>, fill: i64)
    -> Seq<i64>
    decreases shape.len(), 0int, 0nat,
{
    if by.len() == 0 || shape.len() == 0 || shape[0] == 0 {
        data
    } else {
        let n = shape[0] as nat;
        let rl = prod(shape.drop_first());
        let off = by[0] as int;
        let a = if (if off >= 0 {
            off
        } else {
            -off
        }) * rl > data.len() {
            data.len() as int
        } else {
            (if off >= 0 {
                off
            } else {
                -off
            }) * rl
        };
        let replaced = if off > 0 {
            data.take(data.len() - a) + Seq::new(a as nat, |i: int| fill)
        } else if off < 0 {
            Seq::new(a as nat, |i: int| fill) + data.skip(a)
        } else {
            data
        };
        if by.len() <= 1 || shape.len() <= 1 {
            replaced
        } else {
            fill_shift_chunks(by.drop_first(), shape.drop_first(), replaced, fill, n)
        }
    }
}

pub open spec fn fill_shift_chunks(
    by: Seq<i64>,
    shape: Seq<usize>,
    data: Seq<i64>,
    fill: i64,
    k: nat,
) -> Seq<i64>
    decreases shape.len(), 1int, k,
{
    if k == 0 {
        Seq::empty()
    } else {
        fill_shift_chunks(by, shape, data, fill, (k - 1) as nat) + fill_shift_spec(
            by,
            shape,
            data.subrange(((k - 1) * prod(shape)) as int, (k * prod(shape)) as int),
            fill,
        )
    }
}

pub proof fn lemma_rotate_spec_len(by: Seq<i64>, shape: Seq<usize>, data: Seq<i64>)
    requires
        data.len() == prod(shape),
    ensures
        rotate_spec(by, shape, data).len() == data.len(),
    decreases shape.len(), 0int, 0nat,
{
    if by.len() == 0 || shape.len() == 0 || shape[0] == 0 {
    } else {
        let n = shape[0] as nat;
        let rl = prod(shape.drop_first());
        let mid = rot_mid(by[0], n);
        vstd::arithmetic::div_mod::lemma_mod_bound(by[0] as int, n as int);
        assert(mid * rl <= n * rl) by (nonlinear_arith)
            requires
                mid <= n,
                rl >= 0,
        ;
        assert(prod(shape) == n * rl) by {
            assert(shape.drop_first() =~= shape.skip(1));
            lemma_prod_skip_unfold(shape, 0);
            assert(shape.skip(0) =~= shape);
        }
        let shifted = data.skip((mid * rl) as int) + data.take((mid * rl) as int);
        if by.len() <= 1 || shape.len() <= 1 {
        } else {
            lemma_rotate_chunks_len(by.drop_first(), shape.drop_first(), shifted, n);
            assert(n * prod(shape.drop_first()) == prod(shape));
        }
    }
}

pub proof fn lemma_rotate_chunks_len(by: Seq<i64>, shape: Seq<usize>, data: Seq<i64>, k: nat)
    requires
        data.len() >= k * prod(shape),
    ensures
        rotate_chunks(by, shape, data, k).len() == k * prod(shape),
    decreases shape.len(), 1int, k,
{
    if k == 0 {
        assert(0nat * prod(shape) == 0) by (nonlinear_arith);
    } else {
        assert((k - 1) * prod(shape) >= 0 && (k - 1) * prod(shape) + prod(shape) == k * prod(
            shape,
        )) by (nonlinear_arith)
            requires
                k >= 1,
        ;
        lemma_rotate_chunks_len(by, shape, data, (k - 1) as nat);
        lemma_rotate_spec_len(
            by,
            shape,
            data.subrange(((k - 1) * prod(shape)) as int, (k * prod(shape)) as int),
        );
    }
}

/// Rotating by one offset and then by its negation restores the
/// buffer: the single-offset face of the involution on every axis.
pub proof fn lemma_rotate_involution(k: i64, shape: Seq<usize>, data: Seq<i64>)
    requires
        data.len() == prod(shape),
        -i64::MAX <= k,
    ensures
        rotate_spec(seq![(-k) as i64], shape, rotate_spec(seq![k], shape, data)) == data,
{
    assert(negated(seq![k]) =~= seq![(-k) as i64]);
    lemma_rotate_involution_axes(seq![k], shape, data);
}

/// The two split points of opposite offsets are complementary: they
/// add to the row count, or are both zero.
pub proof fn lemma_mid_complement(k: i64, n: nat)
    requires
        n >= 1,
        -i64::MAX <= k,
    ensures
        rot_mid(k, n) <= n,
        rot_mid((-k) as i64, n) <= n,
        rot_mid(k, n) + rot_mid((-k) as i64, n) == n || rot_mid(k, n) + rot_mid((-k) as i64, n)
            == 0,
{
    vstd::arithmetic::div_mod::lemma_mod_bound(k as int, n as int);
    vstd::arithmetic::div_mod::lemma_mod_bound(-(k as int), n as int);
    vstd::arithmetic::div_mod::lemma_mod_adds(k as int, -(k as int), n as int);
    vstd::arithmetic::div_mod::lemma_small_mod(0, n);
    let sum = (k as int) % (n as int) + (-(k as int)) % (n as int);
    assert(sum == (n as int) * (sum / (n as int)));
    assert(0 <= sum < 2 * n);
    if sum != 0 && sum != n {
        vstd::arithmetic::div_mod::lemma_fundamental_div_mod_converse(sum, n as int, 1, sum - n);
        assert((n as int) * 1 == n as int) by (nonlinear_arith);
        assert(sum % (n as int) == sum - n);
        vstd::arithmetic::div_mod::lemma_mod_multiples_basic(sum / (n as int), n as int);
        assert(sum == (sum / (n as int)) * (n as int)) by (nonlinear_arith)
            requires
                sum == (n as int) * (sum / (n as int)),
        ;
        assert(sum % (n as int) == 0);
        assert(false);
    }
}

/// Cutting a buffer at complementary points and swapping the halves
/// twice restores it.
pub proof fn lemma_shift_inverse(d: Seq<i64>, c1: int, c2: int)
    requires
        0 <= c1 <= d.len(),
        0 <= c2 <= d.len(),
        c1 + c2 == d.len() || (c1 == 0 && c2 == 0),
    ensures
        (d.skip(c1) + d.take(c1)).skip(c2) + (d.skip(c1) + d.take(c1)).take(c2) == d,
{
    let s1 = d.skip(c1) + d.take(c1);
    assert(s1.skip(c2) + s1.take(c2) =~= d);
}

/// One chunk of the chunk-by-chunk rotation is the rotation of that
/// chunk.
pub proof fn lemma_rotate_chunks_extract(
    by: Seq<i64>,
    sh: Seq<usize>,
    x: Seq<i64>,
    k: nat,
    i: int,
)
    requires
        x.len() >= k * prod(sh),
        0 <= i < k,
    ensures
        rotate_chunks(by, sh, x, k).subrange(i * prod(sh), (i + 1) * prod(sh)) == rotate_spec(
            by,
            sh,
            x.subrange(i * prod(sh), (i + 1) * prod(sh)),
        ),
    decreases k,
{
    let p = prod(sh);
    assert((k - 1) * p + p == k * p && 0 <= (k - 1) * p && (i + 1) * p <= k * p && 0 <= i * p)
        by (nonlinear_arith)
        requires
            0 <= i < k,
            p >= 0,
    ;
    lemma_rotate_chunks_len(by, sh, x, (k - 1) as nat);
    let last = x.subrange(((k - 1) * p) as int, (k * p) as int);
    lemma_rotate_spec_len(by, sh, last);
    assert(rotate_chunks(by, sh, x, k) == rotate_chunks(by, sh, x, (k - 1) as nat)
        + rotate_spec(by, sh, last));
    if i == k - 1 {
        assert(last.len() == p);
        assert(rotate_spec(by, sh, last).len() == p);
        assert(i * p == (k - 1) * p && (i + 1) * p == k * p);
        let a = rotate_chunks(by, sh, x, (k - 1) as nat);
        let b = rotate_spec(by, sh, last);
        assert forall|t: int| 0 <= t < p implies (a + b)[i * p + t] == b[t] by {
            assert(i * p + t >= a.len());
            assert((a + b)[i * p + t] == b[i * p + t - a.len()]);
        }
        assert((a + b).subrange(i * p, (i + 1) * p) =~= b);
    } else {
        assert((i + 1) * p <= (k - 1) * p) by (nonlinear_arith)
            requires
                i + 1 <= k - 1,
                p >= 0,
        ;
        lemma_rotate_chunks_extract(by, sh, x, (k - 1) as nat, i);
        let a = rotate_chunks(by, sh, x, (k - 1) as nat);
        let b = rotate_spec(by, sh, last);
        assert(i * p + p == (i + 1) * p && i * p <= (i + 1) * p) by (nonlinear_arith)
            requires
                p >= 0,
                0 <= i,
        ;
        assert(last.len() == p);
        assert(b.len() == p);
        assert forall|t: int| 0 <= t < p implies #[trigger] (a + b)[i * p + t] == a[i * p
            + t] by {
            assert(i * p + t < (k - 1) * p) by (nonlinear_arith)
                requires
                    0 <= t < p,
                    (i + 1) * p <= (k - 1) * p,
                    0 <= i,
            ;
            assert(i * p + t < a.len());
        }
        assert forall|t: int| 0 <= t < p implies #[trigger] (a + b).subrange(
            i * p,
            (i + 1) * p,
        )[t] == a.subrange(i * p, (i + 1) * p)[t] by {
            assert((a + b).subrange(i * p, (i + 1) * p)[t] == (a + b)[i * p + t]);
            assert(a.subrange(i * p, (i + 1) * p)[t] == a[i * p + t]);
        }
        assert((a + b).subrange(i * p, (i + 1) * p) =~= a.subrange(i * p, (i + 1) * p));
    }
}

/// Two buffers that agree chunk for chunk are the same buffer.
pub proof fn lemma_chunks_glue(x: Seq<i64>, y: Seq<i64>, p: nat, n: nat)
    requires
        x.len() == n * p,
        y.len() == n * p,
        forall|i: int|
            0 <= i < n ==> #[trigger] x.subrange(i * p, (i + 1) * p) == y.subrange(
                i * p,
                (i + 1) * p,
            ),
    ensures
        x == y,
{
    assert forall|j: int| 0 <= j < x.len() implies x[j] == y[j] by {
        assert(p > 0) by (nonlinear_arith)
            requires
                x.len() == n * p,
                x.len() > j,
                j >= 0,
                p >= 0,
        ;
        crate::index::lemma_div_block_bound(j, n as int, p as int);
        let i = j / (p as int);
        let r = j % (p as int);
        assert((i + 1) * p <= n * p && i * p + p == (i + 1) * p && 0 <= i * p)
            by (nonlinear_arith)
            requires
                0 <= i < n,
                p >= 1,
        ;
        assert(j == i * p + r) by (nonlinear_arith)
            requires
                j == (j / (p as int)) * (p as int) + j % (p as int),
                i == j / (p as int),
                r == j % (p as int),
        ;
        assert(x.subrange(i * p, (i + 1) * p)[r] == x[j]);
        assert(y.subrange(i * p, (i + 1) * p)[r] == y[j]);
    }
    assert(x =~= y);
}

/// Shifting whole chunks commutes with rotating each chunk.
pub proof fn lemma_shift_chunks_commute(
    by: Seq<i64>,
    sh: Seq<usize>,
    x: Seq<i64>,
    n: nat,
    mid: nat,
)
    requires
        x.len() == n * prod(sh),
        mid <= n,
    ensures
        ({
            let c = (mid * prod(sh)) as int;
            let cx = rotate_chunks(by, sh, x, n);
            cx.skip(c) + cx.take(c) == rotate_chunks(by, sh, x.skip(c) + x.take(c), n)
        }),
{
    let p = prod(sh);
    let c = (mid * p) as int;
    let cx = rotate_chunks(by, sh, x, n);
    let sx = x.skip(c) + x.take(c);
    lemma_rotate_chunks_len(by, sh, x, n);
    assert(c <= n * p) by (nonlinear_arith)
        requires
            mid <= n,
            p >= 0,
            c == mid * p,
    ;
    assert(sx.len() == n * p);
    lemma_rotate_chunks_len(by, sh, sx, n);
    let lhs = cx.skip(c) + cx.take(c);
    let rhs = rotate_chunks(by, sh, sx, n);
    assert forall|i: int| 0 <= i < n implies #[trigger] lhs.subrange(i * p, (i + 1) * p)
        == rhs.subrange(i * p, (i + 1) * p) by {
        assert((i + 1) * p <= n * p && i * p + p == (i + 1) * p && 0 <= i * p)
            by (nonlinear_arith)
            requires
                0 <= i < n,
                p >= 0,
        ;
        // the source chunk the shift moves to position i
        let src = if i < n - mid {
            i + mid
        } else {
            i - (n - mid)
        };
        assert((src + 1) * p <= n * p && src * p + p == (src + 1) * p && 0 <= src * p)
            by (nonlinear_arith)
            requires
                0 <= src < n,
                p >= 0,
        ;
        lemma_rotate_chunks_extract(by, sh, sx, n, i);
        lemma_rotate_chunks_extract(by, sh, x, n, src);
        if i < n - mid {
            assert((i + mid) * p == c + i * p && (i + mid + 1) * p == c + (i + 1) * p && (i + 1)
                * p <= (n - mid) * p && (n - mid) * p == n * p - c) by (nonlinear_arith)
                requires
                    0 <= i < n - mid,
                    mid <= n,
                    p >= 0,
                    c == mid * p,
            ;
            assert(sx.subrange(i * p, (i + 1) * p) =~= x.subrange(src * p, (src + 1) * p));
            assert(lhs.subrange(i * p, (i + 1) * p) =~= cx.subrange(src * p, (src + 1) * p));
        } else {
            assert((i - (n - mid)) * p == i * p - (n * p - c) && (i - (n - mid) + 1) * p == (i
                + 1) * p - (n * p - c) && i * p >= (n - mid) * p && (n - mid) * p == n * p - c)
                by (nonlinear_arith)
                requires
                    n - mid <= i < n,
                    mid <= n,
                    p >= 0,
                    c == mid * p,
            ;
            assert(sx.subrange(i * p, (i + 1) * p) =~= x.subrange(src * p, (src + 1) * p));
            assert(lhs.subrange(i * p, (i + 1) * p) =~= cx.subrange(src * p, (src + 1) * p));
        }
    }
    lemma_chunks_glue(lhs, rhs, p, n);
}

/// The offsets that undo a rotation: each negated.
pub open spec fn negated(by: Seq<i64>) -> Seq<i64> {
    Seq::new(by.len(), |j: int| (-by[j]) as i64)
}

/// Rotate involution on every axis: rotating by any offset list and
/// then by its negation restores the buffer, the shifts cancelling
/// axis by axis.
pub proof fn lemma_rotate_involution_axes(by: Seq<i64>, shape: Seq<usize>, data: Seq<i64>)
    requires
        data.len() == prod(shape),
        forall|j: int| 0 <= j < by.len() ==> -i64::MAX <= #[trigger] by[j],
    ensures
        rotate_spec(negated(by), shape, rotate_spec(by, shape, data)) == data,
    decreases shape.len(),
{
    let nby = negated(by);
    if by.len() == 0 || shape.len() == 0 || shape[0] == 0 {
        assert(rotate_spec(by, shape, data) == data);
        assert(rotate_spec(nby, shape, data) == data);
    } else {
        let n = shape[0] as nat;
        let rl = prod(shape.drop_first());
        assert(prod(shape) == n * rl) by {
            assert(shape.drop_first() =~= shape.skip(1));
            lemma_prod_skip_unfold(shape, 0);
            assert(shape.skip(0) =~= shape);
        }
        let m1 = rot_mid(by[0], n);
        assert(nby[0] == (-by[0]) as i64);
        let m2 = rot_mid(nby[0], n);
        lemma_mid_complement(by[0], n);
        assert(m2 == rot_mid((-by[0]) as i64, n));
        let c1 = (m1 * rl) as int;
        let c2 = (m2 * rl) as int;
        assert(c1 <= n * rl && c2 <= n * rl && c1 + c2 == (m1 + m2) * rl) by (nonlinear_arith)
            requires
                m1 <= n,
                m2 <= n,
                rl >= 0,
                c1 == m1 * rl,
                c2 == m2 * rl,
        ;
        let s1 = data.skip(c1) + data.take(c1);
        if m1 + m2 == n {
            assert(c1 + c2 == data.len()) by (nonlinear_arith)
                requires
                    m1 + m2 == n,
                    c1 + c2 == (m1 + m2) * rl,
                    data.len() == n * rl,
            ;
        } else {
            assert(m1 == 0 && m2 == 0);
            assert(c1 == 0 && c2 == 0) by (nonlinear_arith)
                requires
                    m1 == 0,
                    m2 == 0,
                    c1 == m1 * rl,
                    c2 == m2 * rl,
            ;
        }
        lemma_shift_inverse(data, c1, c2);
        if by.len() <= 1 || shape.len() <= 1 {
            // a single offset or axis: two plain shifts cancel
            assert(rotate_spec(by, shape, data) == s1);
            assert(rotate_spec(nby, shape, s1) == s1.skip(c2) + s1.take(c2));
        } else {
            // the shift commutes past the per-row rotations, the
            // shifts cancel, and the rows cancel one by one
            let byr = by.drop_first();
            let shr = shape.drop_first();
            let r1 = rotate_chunks(byr, shr, s1, n);
            assert(rotate_spec(by, shape, data) == r1);
            lemma_rotate_chunks_len(byr, shr, s1, n);
            assert(rotate_spec(nby, shape, r1) == rotate_chunks(
                nby.drop_first(),
                shr,
                r1.skip(c2) + r1.take(c2),
                n,
            ));
            lemma_shift_chunks_commute(byr, shr, s1, n, m2);
            assert(r1.skip(c2) + r1.take(c2) == rotate_chunks(
                byr,
                shr,
                s1.skip(c2) + s1.take(c2),
                n,
            ));
            assert(s1.skip(c2) + s1.take(c2) == data);
            assert(nby.drop_first() =~= negated(byr));
            let inner = rotate_chunks(byr, shr, data, n);
            lemma_rotate_chunks_len(byr, shr, data, n);
            lemma_rotate_chunks_len(negated(byr), shr, inner, n);
            assert forall|i: int| 0 <= i < n implies #[trigger] rotate_chunks(
                negated(byr),
                shr,
                inner,
                n,
            ).subrange(i * rl, (i + 1) * rl) == data.subrange(i * rl, (i + 1) * rl) by {
                assert((i + 1) * rl <= n * rl && i * rl + rl == (i + 1) * rl && 0 <= i * rl)
                    by (nonlinear_arith)
                    requires
                        0 <= i < n,
                        rl >= 0,
                ;
                lemma_rotate_chunks_extract(negated(byr), shr, inner, n, i);
                lemma_rotate_chunks_extract(byr, shr, data, n, i);
                let chunk = data.subrange(i * rl, (i + 1) * rl);
                assert(chunk.len() == prod(shr));
                assert forall|j: int| 0 <= j < byr.len() implies -i64::MAX
                    <= #[trigger] byr[j] by {
                    assert(byr[j] == by[j + 1]);
                }
                lemma_rotate_involution_axes(byr, shr, chunk);
            }
            lemma_chunks_glue(
                rotate_chunks(negated(byr), shr, inner, n),
                data,
                rl,
                n,
            );
        }
    }
}

impl Array {
    /// Rotates the flat buffer `data` of shape `shape` by the per-axis
    /// offsets `by`, outermost axis first.
    fn rotate_buf(by: &[i64], shape: &[usize], data: &[i64]) -> (r: Vec<i64>)
        requires
            data@.len() == prod(shape@),
        ensures
            r@ == rotate_spec(by@, shape@, data@),
            r@.len() == data@.len(),
        decreases shape@.len(),
    {
        proof {
            lemma_rotate_spec_len(by@, shape@, data@);
        }
        if by.len() == 0 || shape.len() == 0 {
            return vstd::slice::slice_to_vec(data);
        }
        let n: usize = shape[0];
        if n == 0 {
            return vstd::slice::slice_to_vec(data);
        }
        let len: usize = data.len();
        proof {
            assert(shape@.drop_first() =~= shape@.skip(1));
            lemma_prod_skip_unfold(shape@, 0);
            assert(shape@.skip(0) =~= shape@);
            if prod(shape@) >= 1 {
                lemma_prod_sub_pos(shape@, 1);
                lemma_prod_part_le(shape@, 1);
            } else {
                assert(prod(shape@.skip(1)) == 0) by (nonlinear_arith)
                    requires
                        (shape@[0] as nat) * prod(shape@.skip(1)) == 0,
                        shape@[0] >= 1,
                ;
            }
            assert(prod(shape@.skip(1)) <= usize::MAX);
        }
        let rl: usize = {
            let sl = vstd::slice::slice_subrange(shape, 1, shape.len());
            proof {
                assert(sl@ == shape@.skip(1));
            }
            prod_all(sl)
        };
        // the split point: the offset reduced to [0, n)
        let off: i64 = by[0];
        let offa: u64 = if off >= 0 {
            off as u64
        } else {
            (-(off as i128)) as u64
        };
        let rem: u64 = offa % (n as u64);
        let mid: usize = if off >= 0 {
            rem as usize
        } else {
            ((n as u64 - rem) % (n as u64)) as usize
        };
        proof {
            vstd::arithmetic::div_mod::lemma_mod_bound(offa as int, n as int);
            vstd::arithmetic::div_mod::lemma_fundamental_div_mod(offa as int, n as int);
            if off >= 0 {
                assert(mid as int == (off as int) % (n as int));
            } else {
                let q = offa as int / n as int;
                vstd::arithmetic::div_mod::lemma_mod_bound(
                    (n as int - rem) % (n as int),
                    n as int,
                );
                vstd::arithmetic::div_mod::lemma_mod_bound(n as int - rem, n as int);
                if rem == 0 {
                    vstd::arithmetic::div_mod::lemma_small_mod(0, n as nat);
                    assert(n as u64 - rem == n as u64);
                    vstd::arithmetic::div_mod::lemma_mod_self_0(n as int);
                    assert(mid == 0);
                    assert(off as int == (-q) * (n as int) + 0) by (nonlinear_arith)
                        requires
                            offa as int == (n as int) * q + 0,
                            off as int == -(offa as int),
                    ;
                    vstd::arithmetic::div_mod::lemma_fundamental_div_mod_converse_mod(
                        off as int,
                        n as int,
                        -q,
                        0,
                    );
                } else {
                    vstd::arithmetic::div_mod::lemma_small_mod((n - rem) as nat, n as nat);
                    assert(mid == n - rem);
                    assert(off as int == (-q - 1) * (n as int) + (n as int - rem))
                        by (nonlinear_arith)
                        requires
                            offa as int == (n as int) * q + rem,
                            off as int == -(offa as int),
                    ;
                    vstd::arithmetic::div_mod::lemma_fundamental_div_mod_converse_mod(
                        off as int,
                        n as int,
                        -q - 1,
                        n as int - rem,
                    );
                }
            }
            assert(mid as nat == rot_mid(off, n as nat));
            assert(mid <= n);
            assert(mid * rl <= n * rl) by (nonlinear_arith)
                requires
                    mid <= n,
                    rl >= 0,
            ;
        }
        let cut: usize = mid * rl;
        let mut shifted: Vec<i64> = vstd::slice::slice_to_vec(
            vstd::slice::slice_subrange(data, cut, len),
        );
        let head = vstd::slice::slice_subrange(data, 0, cut);
        shifted.extend_from_slice(head);
        proof {
            assert(shifted@ == data@.skip(cut as int) + data@.take(cut as int));
        }
        if by.len() <= 1 || shape.len() <= 1 {
            return shifted;
        }
        let byr = vstd::slice::slice_subrange(by, 1, by.len());
        let shr = vstd::slice::slice_subrange(shape, 1, shape.len());
        let ghost shv = shifted@;
        let mut out: Vec<i64> = Vec::new();
        let mut i: usize = 0;
        proof {
            assert(rotate_chunks(byr@, shr@, shv, 0) == Seq::<i64>::empty());
            assert(out@ =~= rotate_chunks(byr@, shr@, shv, 0));
        }
        while i < n
            invariant
                0 <= i <= n,
                byr@ == by@.drop_first(),
                shr@ == shape@.drop_first(),
                shv == shifted@,
                shifted@.len() == (n as nat) * prod(shr@),
                rl as nat == prod(shr@),
                out@ == rotate_chunks(byr@, shr@, shv, i as nat),
            decreases n - i,
        {
            proof {
                assert((i + 1) * rl <= (n as nat) * rl && i * rl + rl == (i + 1) * rl && 0 <= i
                    * rl) by (nonlinear_arith)
                    requires
                        i + 1 <= n,
                        rl >= 0,
                ;
            }
            let chunk = vstd::slice::slice_subrange(shifted.as_slice(), i * rl, i * rl + rl);
            let rec = Self::rotate_buf(byr, shr, chunk);
            out.append(&mut { rec });
            proof {
                assert(rotate_chunks(byr@, shr@, shv, (i + 1) as nat) == rotate_chunks(
                    byr@,
                    shr@,
                    shv,
                    i as nat,
                ) + rotate_spec(byr@, shr@, shv.subrange((i * prod(shr@)) as int, ((i + 1) * prod(
                    shr@,
                )) as int)));
            }
            i = i + 1;
        }
        proof {
            assert(out@ == rotate_spec(by@, shape@, data@));
        }
        out
    }
}

pub proof fn lemma_fill_shift_spec_len(by: Seq<i64>, shape: Seq<usize>, data: Seq<i64>, fill: i64)
    requires
        data.len() == prod(shape),
    ensures
        fill_shift_spec(by, shape, data, fill).len() == data.len(),
    decreases shape.len(), 0int, 0nat,
{
    if by.len() == 0 || shape.len() == 0 || shape[0] == 0 {
    } else {
        let n = shape[0] as nat;
        let rl = prod(shape.drop_first());
        let off = by[0] as int;
        let a = if (if off >= 0 {
            off
        } else {
            -off
        }) * rl > data.len() {
            data.len() as int
        } else {
            (if off >= 0 {
                off
            } else {
                -off
            }) * rl
        };
        assert(0 <= a) by (nonlinear_arith)
            requires
                a == (if (if off >= 0 {
                    off
                } else {
                    -off
                }) * rl > data.len() {
                    data.len() as int
                } else {
                    (if off >= 0 {
                        off
                    } else {
                        -off
                    }) * rl
                }),
                data.len() >= 0,
                rl >= 0,
        ;
        let replaced = if off > 0 {
            data.take(data.len() - a) + Seq::new(a as nat, |i: int| fill)
        } else if off < 0 {
            Seq::new(a as nat, |i: int| fill) + data.skip(a)
        } else {
            data
        };
        assert(replaced.len() == data.len());
        assert(prod(shape) == n * rl) by {
            assert(shape.drop_first() =~= shape.skip(1));
            lemma_prod_skip_unfold(shape, 0);
            assert(shape.skip(0) =~= shape);
        }
        if by.len() <= 1 || shape.len() <= 1 {
        } else {
            lemma_fill_shift_chunks_len(by.drop_first(), shape.drop_first(), replaced, fill, n);
        }
    }
}

pub proof fn lemma_fill_shift_chunks_len(
    by: Seq<i64>,
    shape: Seq<usize>,
    data: Seq<i64>,
    fill: i64,
    k: nat,
)
    requires
        data.len() >= k * prod(shape),
    ensures
        fill_shift_chunks(by, shape, data, fill, k).len() == k * prod(shape),
    decreases shape.len(), 1int, k,
{
    if k == 0 {
        assert(0nat * prod(shape) == 0) by (nonlinear_arith);
    } else {
        assert((k - 1) * prod(shape) >= 0 && (k - 1) * prod(shape) + prod(shape) == k * prod(
            shape,
        )) by (nonlinear_arith)
            requires
                k >= 1,
        ;
        lemma_fill_shift_chunks_len(by, shape, data, fill, (k - 1) as nat);
        lemma_fill_shift_spec_len(
            by,
            shape,
            data.subrange(((k - 1) * prod(shape)) as int, (k * prod(shape)) as int),
            fill,
        );
    }
}

impl Array {
    /// The fill pass over a rotated buffer: blanks the wrapped-in rows.
    fn fill_shift_buf(by: &[i64], shape: &[usize], data: &[i64], fill: i64) -> (r: Vec<i64>)
        requires
            data@.len() == prod(shape@),
        ensures
            r@ == fill_shift_spec(by@, shape@, data@, fill),
            r@.len() == data@.len(),
        decreases shape@.len(),
    {
        proof {
            lemma_fill_shift_spec_len(by@, shape@, data@, fill);
        }
        if by.len() == 0 || shape.len() == 0 {
            return vstd::slice::slice_to_vec(data);
        }
        let n: usize = shape[0];
        if n == 0 {
            return vstd::slice::slice_to_vec(data);
        }
        let len: usize = data.len();
        proof {
            assert(shape@.drop_first() =~= shape@.skip(1));
            lemma_prod_skip_unfold(shape@, 0);
            assert(shape@.skip(0) =~= shape@);
            if prod(shape@) >= 1 {
                lemma_prod_sub_pos(shape@, 1);
                lemma_prod_part_le(shape@, 1);
            } else {
                assert(prod(shape@.skip(1)) == 0) by (nonlinear_arith)
                    requires
                        (shape@[0] as nat) * prod(shape@.skip(1)) == 0,
                        shape@[0] >= 1,
                ;
            }
            assert(prod(shape@.skip(1)) <= usize::MAX);
        }
        let rl: usize = {
            let sl = vstd::slice::slice_subrange(shape, 1, shape.len());
            proof {
                assert(sl@ == shape@.skip(1));
            }
            prod_all(sl)
        };
        let off: i64 = by[0];
        let offa: u64 = if off >= 0 {
            off as u64
        } else {
            (-(off as i128)) as u64
        };
        proof {
            assert((offa as int) * (rl as int) <= u128::MAX) by (nonlinear_arith)
                requires
                    0 <= offa as int <= u64::MAX,
                    0 <= rl as int <= u64::MAX,
            ;
        }
        let big: u128 = (offa as u128) * (rl as u128);
        let a: usize = if big > (len as u128) {
            len
        } else {
            big as usize
        };
        proof {
            assert(big == (offa as int) * (rl as int)) by (nonlinear_arith)
                requires
                    big == (offa as u128) * (rl as u128),
            ;
        }
        let mut replaced: Vec<i64>;
        if off > 0 {
            replaced = vstd::slice::slice_to_vec(vstd::slice::slice_subrange(data, 0, len - a));
            while replaced.len() < len
                invariant
                    len - a <= replaced@.len() <= len,
                    len == data@.len(),
                    replaced@ =~= data@.take(len - a) + Seq::new(
                        (replaced@.len() - (len - a)) as nat,
                        |i: int| fill,
                    ),
                decreases len - replaced@.len(),
            {
                replaced.push(fill);
                proof {
                    assert(replaced@ =~= data@.take(len - a) + Seq::new(
                        (replaced@.len() - (len - a)) as nat,
                        |i: int| fill,
                    ));
                }
            }
        } else if off < 0 {
            replaced = Vec::new();
            while replaced.len() < a
                invariant
                    0 <= replaced@.len() <= a,
                    a <= len,
                    replaced@ =~= Seq::new(replaced@.len() as nat, |i: int| fill),
                decreases a - replaced@.len(),
            {
                replaced.push(fill);
                proof {
                    assert(replaced@ =~= Seq::new(replaced@.len() as nat, |i: int| fill));
                }
            }
            let tail = vstd::slice::slice_subrange(data, a, len);
            replaced.extend_from_slice(tail);
            proof {
                assert(replaced@ =~= Seq::new(a as nat, |i: int| fill) + data@.skip(a as int));
            }
        } else {
            replaced = vstd::slice::slice_to_vec(data);
        }
        proof {
            assert(replaced@.len() == len);
        }
        if by.len() <= 1 || shape.len() <= 1 {
            return replaced;
        }
        let byr = vstd::slice::slice_subrange(by, 1, by.len());
        let shr = vstd::slice::slice_subrange(shape, 1, shape.len());
        let ghost shv = replaced@;
        let mut out: Vec<i64> = Vec::new();
        let mut i: usize = 0;
        proof {
            assert(fill_shift_chunks(byr@, shr@, shv, fill, 0) == Seq::<i64>::empty());
            assert(out@ =~= fill_shift_chunks(byr@, shr@, shv, fill, 0));
        }
        while i < n
            invariant
                0 <= i <= n,
                byr@ == by@.drop_first(),
                shr@ == shape@.drop_first(),
                shv == replaced@,
                replaced@.len() == (n as nat) * prod(shr@),
                rl as nat == prod(shr@),
                out@ == fill_shift_chunks(byr@, shr@, shv, fill, i as nat),
            decreases n - i,
        {
            proof {
                assert((i + 1) * rl <= (n as nat) * rl && i * rl + rl == (i + 1) * rl && 0 <= i
                    * rl) by (nonlinear_arith)
                    requires
                        i + 1 <= n,
                        rl >= 0,
                ;
            }
            let chunk = vstd::slice::slice_subrange(replaced.as_slice(), i * rl, i * rl + rl);
            let rec = Self::fill_shift_buf(byr, shr, chunk, fill);
            out.append(&mut { rec });
            proof {
                assert(fill_shift_chunks(byr@, shr@, shv, fill, (i + 1) as nat)
                    == fill_shift_chunks(byr@, shr@, shv, fill, i as nat) + fill_shift_spec(
                    byr@,
                    shr@,
                    shv.subrange((i * prod(shr@)) as int, ((i + 1) * prod(shr@)) as int),
                    fill,
                ));
            }
            i = i + 1;
        }
        proof {
            assert(out@ == fill_shift_spec(by@, shape@, data@, fill));
        }
        out
    }
}

/// One aligned row rotated by its offsets, with the optional fill
/// pass after the cyclic rotation.
pub open spec fn rot_row(arsh: Seq<usize>, arow: Seq<i64>, brow: Seq<i64>, fill: Option<i64>)
    -> Seq<i64> {
    let rotated = rotate_spec(brow, arsh, arow);
    match fill {
        Option::Some(f) => fill_shift_spec(brow, arsh, rotated, f),
        Option::None => rotated,
    }
}

/// The first `k` aligned row pairs rotated in lock-step.
pub open spec fn rotated_rows(
    arsh: Seq<usize>,
    adata: Seq<i64>,
    bdata: Seq<i64>,
    brl: nat,
    fill: Option<i64>,
    k: nat,
) -> Seq<i64>
    decreases k,
{
    if k == 0 {
        Seq::empty()
    } else {
        rotated_rows(arsh, adata, bdata, brl, fill, (k - 1) as nat) + rot_row(
            arsh,
            adata.subrange(((k - 1) * prod(arsh)) as int, (k * prod(arsh)) as int),
            bdata.subrange(((k - 1) * brl) as int, (k * brl) as int),
            fill,
        )
    }
}

pub proof fn lemma_rotated_rows_len(
    arsh: Seq<usize>,
    adata: Seq<i64>,
    bdata: Seq<i64>,
    brl: nat,
    fill: Option<i64>,
    k: nat,
)
    requires
        adata.len() >= k * prod(arsh),
    ensures
        rotated_rows(arsh, adata, bdata, brl, fill, k).len() == k * prod(arsh),
    decreases k,
{
    if k == 0 {
        assert(0nat * prod(arsh) == 0) by (nonlinear_arith);
    } else {
        assert((k - 1) * prod(arsh) >= 0 && (k - 1) * prod(arsh) + prod(arsh) == k * prod(
            arsh,
        )) by (nonlinear_arith)
            requires
                k >= 1,
        ;
        lemma_rotated_rows_len(arsh, adata, bdata, brl, fill, (k - 1) as nat);
        let row = adata.subrange(((k - 1) * prod(arsh)) as int, (k * prod(arsh)) as int);
        lemma_rotate_spec_len(
            bdata.subrange(((k - 1) * brl) as int, (k * brl) as int),
            arsh,
            row,
        );
        if fill is Some {
            lemma_fill_shift_spec_len(
                bdata.subrange(((k - 1) * brl) as int, (k * brl) as int),
                arsh,
                rotate_spec(bdata.subrange(((k - 1) * brl) as int, (k * brl) as int), arsh, row),
                fill->0,
            );
        }
    }
}

impl Array {
    /// Rotates `pairs` aligned row pairs in lock-step and carries the
    /// untouched tail of the rotated side over.
    fn rotate_rows_exec(
        adata: &[i64],
        bdata: &[i64],
        asl: &[usize],
        bsl: &[usize],
        arl: usize,
        brl: usize,
        pairs: usize,
        fill: Option<i64>,
    ) -> (out: Vec<i64>)
        requires
            arl as nat == prod(asl@),
            brl as nat == prod(bsl@),
            pairs * arl <= adata@.len(),
            pairs * brl <= bdata@.len(),
        ensures
            out@ == rotated_rows(asl@, adata@, bdata@, brl as nat, fill, pairs as nat)
                + adata@.skip(pairs * arl),
    {
        let alen: usize = adata.len();
        let blen: usize = bdata.len();
        let mut out: Vec<i64> = Vec::new();
        let mut i: usize = 0;
        proof {
            assert(out@ =~= rotated_rows(asl@, adata@, bdata@, brl as nat, fill, 0));
        }
        while i < pairs
            invariant
                0 <= i <= pairs,
                pairs * arl <= adata@.len(),
                pairs * brl <= bdata@.len(),
                alen == adata@.len(),
                arl as nat == prod(asl@),
                brl as nat == prod(bsl@),
                out@ == rotated_rows(asl@, adata@, bdata@, brl as nat, fill, i as nat),
            decreases pairs - i,
        {
            proof {
                assert((i + 1) * arl <= (pairs as nat) * arl && i * arl + arl == (i + 1) * arl
                    && 0 <= i * arl) by (nonlinear_arith)
                    requires
                        i + 1 <= pairs,
                        arl >= 0,
                ;
                assert((i + 1) * brl <= (pairs as nat) * brl && i * brl + brl == (i + 1) * brl
                    && 0 <= i * brl) by (nonlinear_arith)
                    requires
                        i + 1 <= pairs,
                        brl >= 0,
                ;
            }
            let arow = vstd::slice::slice_subrange(adata, i * arl, i * arl + arl);
            let brow = vstd::slice::slice_subrange(bdata, i * brl, i * brl + brl);
            let rotated = Self::rotate_buf(brow, asl, arow);
            match fill {
                Some(f) => {
                    let filled = Self::fill_shift_buf(brow, asl, rotated.as_slice(), f);
                    out.append(&mut { filled });
                },
                None => {
                    out.append(&mut { rotated });
                },
            }
            proof {
                assert(rotated_rows(asl@, adata@, bdata@, brl as nat, fill, (i + 1) as nat)
                    == rotated_rows(asl@, adata@, bdata@, brl as nat, fill, i as nat) + rot_row(
                    asl@,
                    adata@.subrange((i * prod(asl@)) as int, ((i + 1) * prod(asl@)) as int),
                    bdata@.subrange((i * brl) as int, ((i + 1) * brl) as int),
                    fill,
                ));
            }
            i = i + 1;
        }
        let tail = vstd::slice::slice_subrange(adata, pairs * arl, alen);
        out.extend_from_slice(tail);
        out
    }

    /// Rotates this array by the offsets in `by` at the given depths:
    /// the two are aligned first, then every aligned row of this array
    /// is cyclically rotated by the matching row of offsets (and
    /// blanked with the fill value where one is given), row pairs in
    /// lock-step as far as both sides have rows. At depth zero any key
    /// table is rotated by the leading offset.
    #[verifier::rlimit(100)]
    pub fn rotate_depth(&mut self, by: &Array, depth: usize, by_depth: usize, fill: Option<
        i64,
    >) -> (r: Result<(), ArrayError>)
        requires
            old(self).wf(),
            by.wf(),
        ensures
            final(self).wf(),
            ({
                let ar = align_result(
                    old(self).shapev(),
                    old(self).datav(),
                    by.shapev(),
                    by.datav(),
                    depth as nat,
                    by_depth as nat,
                );
                &&& (ar matches Err(e) ==> r == Err::<(), ArrayError>(e) && final(self).datav()
                    == old(self).datav() && final(self).keysv() == old(self).keysv())
                &&& (ar matches Ok(t) ==> ({
                    let arsh = t.0.skip(t.4 as int);
                    let brsh = t.2.skip(t.4 as int);
                    let arl = prod(arsh);
                    let brl = prod(brsh);
                    let pairs = if arl == 0 || brl == 0 {
                        0int
                    } else {
                        let pa = t.1.len() as int / arl as int;
                        let pb = t.3.len() as int / brl as int;
                        if pa <= pb {
                            pa
                        } else {
                            pb
                        }
                    };
                    &&& final(self).shapev() == t.0
                    &&& (pairs > 0 && brsh.len() > 1 ==> r == Err::<(), ArrayError>(
                        ArrayError::RankMismatch,
                    ) && final(self).datav() == t.1 && final(self).keysv() == old(self).keysv())
                    &&& (pairs > 0 && brsh.len() <= 1 && brl > arsh.len() ==> r == Err::<
                        (),
                        ArrayError,
                    >(ArrayError::TooManyIndices) && final(self).datav() == t.1
                        && final(self).keysv() == old(self).keysv())
                    &&& (!(pairs > 0 && (brsh.len() > 1 || brl > arsh.len())) ==> r is Ok
                        && final(self).datav() == rotated_rows(
                        arsh,
                        t.1,
                        t.3,
                        brl,
                        fill,
                        pairs as nat,
                    ) + t.1.skip(pairs * arl))
                    &&& (r is Ok ==> final(self).keysv() == (if depth == 0 && by.datav().len()
                        > 0 {
                        match old(self).keysv() {
                            Option::Some(ks) => Option::Some(
                                rotate_spec(seq![by.datav()[0]], seq![ks.len() as usize], ks),
                            ),
                            Option::None => Option::None::<Seq<i64>>,
                        }
                    } else {
                        old(self).keysv()
                    }))
                }))
            }),
    {
        let (b2, dep): (Array, usize) = match self.align_depths(by, depth, by_depth) {
            Ok(p) => p,
            Err(e) => {
                return Err(e);
            },
        };
        let arank: usize = self.shape.len();
        let brank: usize = b2.shape.len();
        let ghost arsh = self.shapev().skip(dep as int);
        let ghost brsh = b2.shapev().skip(dep as int);
        let alen: usize = self.element_count();
        let blen: usize = b2.element_count();
        let arl_opt: Option<usize> = checked_prod(
            vstd::slice::slice_subrange(self.shape.as_slice(), dep, arank),
        );
        let brl_opt: Option<usize> = checked_prod(
            vstd::slice::slice_subrange(b2.shape.as_slice(), dep, brank),
        );
        let mut rotated_any: bool = false;
        let ghost done = self.datav();
        match (arl_opt, brl_opt) {
            (Some(arl), Some(brl)) => {
                if arl > 0 && brl > 0 {
                    let pairs_a: usize = alen / arl;
                    let pairs_b: usize = blen / brl;
                    let pairs: usize = if pairs_a <= pairs_b {
                        pairs_a
                    } else {
                        pairs_b
                    };
                    if pairs > 0 {
                        if brank - dep > 1 {
                            return Err(ArrayError::RankMismatch);
                        }
                        if brl > arank - dep {
                            return Err(ArrayError::TooManyIndices);
                        }
                        proof {
                            vstd::arithmetic::div_mod::lemma_fundamental_div_mod(
                                alen as int,
                                arl as int,
                            );
                            vstd::arithmetic::div_mod::lemma_fundamental_div_mod(
                                blen as int,
                                brl as int,
                            );
                            vstd::arithmetic::div_mod::lemma_mod_bound(alen as int, arl as int);
                            vstd::arithmetic::div_mod::lemma_mod_bound(blen as int, brl as int);
                            assert(pairs * arl <= alen && pairs * brl <= blen)
                                by (nonlinear_arith)
                                requires
                                    alen as int == arl * (alen as int / arl as int) + alen as int
                                        % arl as int,
                                    blen as int == brl * (blen as int / brl as int) + blen as int
                                        % brl as int,
                                    0 <= alen as int % arl as int,
                                    0 <= blen as int % brl as int,
                                    pairs <= alen as int / arl as int,
                                    pairs <= blen as int / brl as int,
                                    arl > 0,
                                    brl > 0,
                            ;
                        }
                        let adata = buf_slice(&self.data);
                        let bdata = buf_slice(&b2.data);
                        let asl = vstd::slice::slice_subrange(self.shape.as_slice(), dep, arank);
                        let bsl = vstd::slice::slice_subrange(b2.shape.as_slice(), dep, brank);
                        let out = Self::rotate_rows_exec(adata, bdata, asl, bsl, arl, brl,
                            pairs, fill);
                        proof {
                            lemma_rotated_rows_len(arsh, adata@, bdata@, brl as nat, fill,
                                pairs as nat);
                        }
                        self.data = buf_from_vec(out);
                        rotated_any = true;
                    }
                }
            },
            _ => {
                // a row too large to address can only stand beside an
                // empty prefix, so there are no rows to rotate
                proof {
                    if arl_opt is None {
                        assert(prod(arsh) > usize::MAX);
                        vstd::arithmetic::div_mod::lemma_basic_div(
                            buf_view(self.data).len() as int,
                            prod(arsh) as int,
                        );
                    } else {
                        assert(prod(brsh) > usize::MAX);
                        vstd::arithmetic::div_mod::lemma_basic_div(
                            buf_view(b2.data).len() as int,
                            prod(brsh) as int,
                        );
                    }
                }
            },
        }
        proof {
            if !rotated_any {
                assert(self.datav() =~= rotated_rows(
                    arsh,
                    done,
                    buf_view(b2.data),
                    prod(brsh),
                    fill,
                    0,
                ) + done.skip(0));
            }
        }
        // the key table follows the leading offset at depth zero
        if depth == 0 {
            let bydata = buf_slice(&by.data);
            if bydata.len() > 0 {
                let off: i64 = bydata[0];
                let keys_in: Option<Vec<i64>> = self.keys.take();
                match keys_in {
                    Some(ks) => {
                        let klen: usize = ks.len();
                        let mut kshape: Vec<usize> = Vec::new();
                        kshape.push(klen);
                        proof {
                            assert(kshape@ =~= seq![klen]);
                            assert(kshape@.drop_first() =~= Seq::<usize>::empty());
                            assert(prod(kshape@) == (klen as nat) * prod(kshape@.drop_first()));
                            assert((klen as nat) * 1 == klen as nat) by (nonlinear_arith);
                            assert(seq![off] =~= seq![by.datav()[0]]);
                        }
                        let mut offv: Vec<i64> = Vec::new();
                        offv.push(off);
                        proof {
                            assert(offv@ =~= seq![off]);
                        }
                        let rk = Self::rotate_buf(
                            offv.as_slice(),
                            kshape.as_slice(),
                            ks.as_slice(),
                        );
                        self.keys = Some(rk);
                    },
                    None => {
                        self.keys = None;
                    },
                }
            }
        }
        Ok(())
    }

    /// Rotates this array by the offsets in `by` (both depths zero:
    /// whole-array against the whole offset list).
    pub fn rotate(&mut self, by: &Array, fill: Option<i64>) -> (r: Result<(), ArrayError>)
        requires
            old(self).wf(),
            by.wf(),
        ensures
            final(self).wf(),
            ({
                let ar = align_result(
                    old(self).shapev(),
                    old(self).datav(),
                    by.shapev(),
                    by.datav(),
                    0,
                    0,
                );
                &&& (ar matches Err(e) ==> r == Err::<(), ArrayError>(e) && final(self).datav()
                    == old(self).datav() && final(self).keysv() == old(self).keysv())
                &&& (ar matches Ok(t) ==> ({
                    let arsh = t.0.skip(t.4 as int);
                    let brsh = t.2.skip(t.4 as int);
                    let arl = prod(arsh);
                    let brl = prod(brsh);
                    let pairs = if arl == 0 || brl == 0 {
                        0int
                    } else {
                        let pa = t.1.len() as int / arl as int;
                        let pb = t.3.len() as int / brl as int;
                        if pa <= pb {
                            pa
                        } else {
                            pb
                        }
                    };
                    &&& final(self).shapev() == t.0
                    &&& (pairs > 0 && brsh.len() > 1 ==> r == Err::<(), ArrayError>(
                        ArrayError::RankMismatch,
                    ) && final(self).datav() == t.1 && final(self).keysv() == old(self).keysv())
                    &&& (pairs > 0 && brsh.len() <= 1 && brl > arsh.len() ==> r == Err::<
                        (),
                        ArrayError,
                    >(ArrayError::TooManyIndices) && final(self).datav() == t.1
                        && final(self).keysv() == old(self).keysv())
                    &&& (!(pairs > 0 && (brsh.len() > 1 || brl > arsh.len())) ==> r is Ok
                        && final(self).datav() == rotated_rows(
                        arsh,
                        t.1,
                        t.3,
                        brl,
                        fill,
                        pairs as nat,
                    ) + t.1.skip(pairs * arl))
                    &&& (r is Ok ==> final(self).keysv() == (if by.datav().len() > 0 {
                        match old(self).keysv() {
                            Option::Some(ks) => Option::Some(
                                rotate_spec(seq![by.datav()[0]], seq![ks.len() as usize], ks),
                            ),
                            Option::None => Option::None::<Seq<i64>>,
                        }
                    } else {
                        old(self).keysv()
                    }))
                }))
            }),
    {
        self.rotate_depth(by, 0, 0, fill)
    }
}

} // verus!
