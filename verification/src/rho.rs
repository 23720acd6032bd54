//! Pollard's rho in Brent's variant: a walk `y -> y * y + c (mod n)` whose
//! values, taken modulo an unknown prime factor of `n`, run into a cycle long
//! before they do modulo `n`. Two values of the walk that agree modulo the
//! factor but not modulo `n` differ by a multiple of the factor, which a gcd
//! with `n` brings out.
//!
//! The walk is written down twice: as spec functions, which say what is
//! computed, and as loops, which are proved to compute it.

use crate::divisors::{divides, greatest_common_divisor, lemma_gcd_divides_both};
use vstd::prelude::*;

verus! {

/// Steps of the walk whose distances are multiplied together before one gcd
/// is taken.
pub const BATCH: u64 = 128;

/// The longest stride of the walk; a walk that has found nothing by then is
/// given up.
pub const MAX_STRIDE: u64 = 1048576;

/// The distance between `a` and `b`.
pub open spec fn distance(a: nat, b: nat) -> nat {
    if a >= b {
        (a - b) as nat
    } else {
        (b - a) as nat
    }
}

/// One step of the walk: `(y * y + c) mod n`.
pub open spec fn rho_next(y: nat, c: nat, n: nat) -> nat {
    (y * y + c) % n
}

/// Where the walk stands `steps` steps after `y`.
pub open spec fn walked(y: nat, c: nat, n: nat, steps: nat) -> nat
    decreases steps,
{
    if steps == 0 {
        y
    } else {
        walked(rho_next(y, c, n), c, n, (steps - 1) as nat)
    }
}

/// The running product after `steps` more steps from `y`: each step moves
/// the walk on and multiplies its distance from `x` into `q`, modulo `n`.
pub open spec fn batch_product(x: nat, y: nat, q: nat, c: nat, n: nat, steps: nat) -> nat
    decreases steps,
{
    if steps == 0 {
        q
    } else {
        let next = rho_next(y, c, n);
        batch_product(x, next, (q * distance(x, next)) % n, c, n, (steps - 1) as nat)
    }
}

/// The state of a walk: the value `x` that a stride compares against, the
/// head `y` of the walk, the head `ys` as it was before the last batch, the
/// running product `q`, and the last gcd `g`, which is 1 until something is
/// found.
pub struct Walk {
    pub x: nat,
    pub y: nat,
    pub ys: nat,
    pub q: nat,
    pub g: nat,
}

/// How many steps the batch takes that begins `k` steps into a stride of `r`.
pub open spec fn batch_len(r: nat, k: nat) -> nat {
    if r - k < BATCH {
        (r - k) as nat
    } else {
        BATCH as nat
    }
}

/// The rest of a stride of `r` steps, from `k` steps into it: batch after
/// batch, with a gcd after each, until the stride is over or a gcd is not 1.
pub open spec fn stride_scanned(s: Walk, r: nat, k: nat, c: nat, n: nat) -> Walk
    decreases r - k,
{
    if k >= r || s.g != 1 {
        s
    } else {
        let len = batch_len(r, k);
        let q = batch_product(s.x, s.y, s.q, c, n, len);
        let after = Walk {
            x: s.x,
            y: walked(s.y, c, n, len),
            ys: s.y,
            q,
            g: greatest_common_divisor(q, n),
        };
        stride_scanned(after, r, k + len, c, n)
    }
}

/// The walk from the stride of `r` steps on: each stride remembers the head
/// as `x`, moves `r` steps ahead, then scans `r` further steps against `x`;
/// the next stride is twice as long. The walk ends when a gcd is not 1 or
/// the stride has grown beyond `MAX_STRIDE`.
pub open spec fn strides_walked(s: Walk, r: nat, c: nat, n: nat) -> Walk
    decreases 2 * MAX_STRIDE + 1 - r,
{
    if s.g != 1 || r > MAX_STRIDE || r == 0 {
        s
    } else {
        let ahead = Walk { x: s.y, y: walked(s.y, c, n, r), ys: s.ys, q: s.q, g: s.g };
        strides_walked(stride_scanned(ahead, r, 0, c, n), 2 * r, c, n)
    }
}

/// The last batch walked again from its beginning `ys`, one step at a time
/// and with a gcd at each, from step `j` on: the first gcd that is not 1, or
/// 1 if the `BATCH` steps bring none.
pub open spec fn retraced(x: nat, ys: nat, g: nat, j: nat, c: nat, n: nat) -> nat
    decreases BATCH - j,
{
    if g != 1 || j >= BATCH {
        g
    } else {
        let next = rho_next(ys, c, n);
        retraced(x, next, greatest_common_divisor(distance(x, next), n), j + 1, c, n)
    }
}

/// Where every walk begins.
pub open spec fn walk_start() -> Walk {
    Walk { x: 2, y: 2, ys: 2, q: 1, g: 1 }
}

/// The divisor of `n` that the walk on `y * y + c` brings out: the gcd at
/// which the strides ended, or, where a whole batch multiplied out to a
/// multiple of `n`, what walking that batch again step by step gives. It is
/// 1 or `n` where the walk found nothing.
pub open spec fn rho_divisor(n: nat, c: nat) -> nat {
    let end = strides_walked(walk_start(), 1, c, n);
    if end.g == n {
        retraced(end.x, end.ys, 1, 0, c, n)
    } else {
        end.g
    }
}

/// A scan of a stride ends on a gcd that divides `n`, if it began on one.
pub proof fn lemma_stride_scanned_divides(s: Walk, r: nat, k: nat, c: nat, n: nat)
    requires
        n > 0,
        divides(s.g, n),
    ensures
        divides(stride_scanned(s, r, k, c, n).g, n),
    decreases r - k,
{
    if !(k >= r || s.g != 1) {
        let len = batch_len(r, k);
        let q = batch_product(s.x, s.y, s.q, c, n, len);
        let after = Walk {
            x: s.x,
            y: walked(s.y, c, n, len),
            ys: s.y,
            q,
            g: greatest_common_divisor(q, n),
        };
        lemma_gcd_divides_both(q, n);
        lemma_stride_scanned_divides(after, r, k + len, c, n);
    }
}

/// A walk ends on a gcd that divides `n`, if it began on one.
pub proof fn lemma_strides_walked_divides(s: Walk, r: nat, c: nat, n: nat)
    requires
        n > 0,
        divides(s.g, n),
    ensures
        divides(strides_walked(s, r, c, n).g, n),
    decreases 2 * MAX_STRIDE + 1 - r,
{
    if !(s.g != 1 || r > MAX_STRIDE || r == 0) {
        let ahead = Walk { x: s.y, y: walked(s.y, c, n, r), ys: s.ys, q: s.q, g: s.g };
        lemma_stride_scanned_divides(ahead, r, 0, c, n);
        lemma_strides_walked_divides(stride_scanned(ahead, r, 0, c, n), 2 * r, c, n);
    }
}

/// Walking a batch again ends on a gcd that divides `n`, if it began on one.
pub proof fn lemma_retraced_divides(x: nat, ys: nat, g: nat, j: nat, c: nat, n: nat)
    requires
        n > 0,
        divides(g, n),
    ensures
        divides(retraced(x, ys, g, j, c, n), n),
    decreases BATCH - j,
{
    if !(g != 1 || j >= BATCH) {
        let next = rho_next(ys, c, n);
        lemma_gcd_divides_both(distance(x, next), n);
        lemma_retraced_divides(
            x,
            next,
            greatest_common_divisor(distance(x, next), n),
            j + 1,
            c,
            n,
        );
    }
}

/// What a rho walk brings out divides `n`.
pub proof fn lemma_rho_divisor_divides(n: nat, c: nat)
    requires
        n > 0,
    ensures
        divides(rho_divisor(n, c), n),
{
    lemma_gcd_divides_both(1, n);
    assert(divides(1, n));
    lemma_strides_walked_divides(walk_start(), 1, c, n);
    let end = strides_walked(walk_start(), 1, c, n);
    if end.g == n {
        lemma_retraced_divides(end.x, end.ys, 1, 0, c, n);
    }
}

/// The product `a * b` reduced modulo `n`, computed without overflow.
pub fn mul_mod(a: u64, b: u64, n: u64) -> (r: u64)
    requires
        n > 0,
    ensures
        r == (a * b) % (n as int),
{
    assert(a * b <= 0xffff_ffff_ffff_ffff * 0xffff_ffff_ffff_ffff) by (nonlinear_arith)
        requires
            0 <= a <= 0xffff_ffff_ffff_ffff,
            0 <= b <= 0xffff_ffff_ffff_ffff,
    ;
    let wide: u128 = (a as u128) * (b as u128);
    (wide % (n as u128)) as u64
}

/// One step of the walk: `(y * y + c) mod n`.
pub fn rho_step(y: u64, c: u64, n: u64) -> (r: u64)
    requires
        n > 0,
    ensures
        r == rho_next(y as nat, c as nat, n as nat),
{
    assert(y * y <= 0xffff_ffff_ffff_ffff * 0xffff_ffff_ffff_ffff) by (nonlinear_arith)
        requires
            0 <= y <= 0xffff_ffff_ffff_ffff,
    ;
    let wide: u128 = (y as u128) * (y as u128) + (c as u128);
    (wide % (n as u128)) as u64
}

/// The distance between `a` and `b`.
pub fn abs_diff(a: u64, b: u64) -> (r: u64)
    ensures
        r == distance(a as nat, b as nat),
{
    if a >= b {
        a - b
    } else {
        b - a
    }
}

/// The greatest common divisor of `a` and `b`, by Euclid's algorithm.
pub fn gcd(a: u64, b: u64) -> (g: u64)
    ensures
        g == greatest_common_divisor(a as nat, b as nat),
{
    let mut x: u64 = a;
    let mut y: u64 = b;
    while y != 0
        invariant
            greatest_common_divisor(x as nat, y as nat) == greatest_common_divisor(
                a as nat,
                b as nat,
            ),
        decreases y,
    {
        let r: u64 = x % y;
        x = y;
        y = r;
    }
    x
}

/// The walk moved `steps` steps on from `y`.
pub fn walk_ahead(y: u64, c: u64, n: u64, steps: u64) -> (end: u64)
    requires
        n > 0,
    ensures
        end == walked(y as nat, c as nat, n as nat, steps as nat),
{
    let mut end: u64 = y;
    let mut i: u64 = 0;
    while i < steps
        invariant
            n > 0,
            i <= steps,
            walked(end as nat, c as nat, n as nat, (steps - i) as nat) == walked(
                y as nat,
                c as nat,
                n as nat,
                steps as nat,
            ),
        decreases steps - i,
    {
        end = rho_step(end, c, n);
        i = i + 1;
    }
    end
}

/// One batch: the walk moved `steps` steps on from `y`, and the distance of
/// each of those steps from `x` multiplied into `q`. Returns the new head
/// and the new product.
pub fn walk_batch(x: u64, y: u64, q: u64, c: u64, n: u64, steps: u64) -> (end: (u64, u64))
    requires
        n > 0,
    ensures
        end.0 == walked(y as nat, c as nat, n as nat, steps as nat),
        end.1 == batch_product(x as nat, y as nat, q as nat, c as nat, n as nat, steps as nat),
{
    let mut head: u64 = y;
    let mut product: u64 = q;
    let mut j: u64 = 0;
    while j < steps
        invariant
            n > 0,
            j <= steps,
            walked(head as nat, c as nat, n as nat, (steps - j) as nat) == walked(
                y as nat,
                c as nat,
                n as nat,
                steps as nat,
            ),
            batch_product(
                x as nat,
                head as nat,
                product as nat,
                c as nat,
                n as nat,
                (steps - j) as nat,
            ) == batch_product(x as nat, y as nat, q as nat, c as nat, n as nat, steps as nat),
        decreases steps - j,
    {
        head = rho_step(head, c, n);
        product = mul_mod(product, abs_diff(x, head), n);
        j = j + 1;
    }
    (head, product)
}

/// One rho walk on the polynomial `y * y + c` modulo `n`, in Brent's form.
/// Returns `rho_divisor(n, c)`, which divides `n`; the caller tests whether
/// it is a proper divisor. 1 and `n` both mean that the walk found nothing.
pub fn pollard_brent(n: u64, c: u64) -> (g: u64)
    requires
        n > 0,
    ensures
        g == rho_divisor(n as nat, c as nat),
        divides(g as nat, n as nat),
{
    proof {
        lemma_rho_divisor_divides(n as nat, c as nat);
    }
    let mut y: u64 = 2;
    let mut x: u64 = 2;
    let mut ys: u64 = 2;
    let mut q: u64 = 1;
    let mut g: u64 = 1;
    let mut r: u64 = 1;
    while g == 1 && r <= MAX_STRIDE
        invariant
            n > 0,
            1 <= r <= 2 * MAX_STRIDE,
            strides_walked(
                Walk { x: x as nat, y: y as nat, ys: ys as nat, q: q as nat, g: g as nat },
                r as nat,
                c as nat,
                n as nat,
            ) == strides_walked(walk_start(), 1, c as nat, n as nat),
        decreases 2 * MAX_STRIDE - r,
    {
        let ghost ahead = Walk {
            x: y as nat,
            y: walked(y as nat, c as nat, n as nat, r as nat),
            ys: ys as nat,
            q: q as nat,
            g: g as nat,
        };
        x = y;
        y = walk_ahead(y, c, n, r);
        let mut k: u64 = 0;
        while k < r && g == 1
            invariant
                n > 0,
                k <= r,
                stride_scanned(
                    Walk { x: x as nat, y: y as nat, ys: ys as nat, q: q as nat, g: g as nat },
                    r as nat,
                    k as nat,
                    c as nat,
                    n as nat,
                ) == stride_scanned(ahead, r as nat, 0, c as nat, n as nat),
            decreases r - k,
        {
            let len: u64 = if r - k < BATCH {
                r - k
            } else {
                BATCH
            };
            ys = y;
            let (head, product) = walk_batch(x, y, q, c, n, len);
            y = head;
            q = product;
            g = gcd(q, n);
            k = k + len;
        }
        r = r * 2;
    }
    if g == n {
        // A whole batch multiplied out to a multiple of n: walk it again
        // from where it began, one step at a time.
        let ghost begun = ys as nat;
        g = 1;
        let mut j: u64 = 0;
        while g == 1 && j < BATCH
            invariant
                n > 0,
                j <= BATCH,
                retraced(x as nat, ys as nat, g as nat, j as nat, c as nat, n as nat) == retraced(
                    x as nat,
                    begun,
                    1,
                    0,
                    c as nat,
                    n as nat,
                ),
            decreases BATCH - j,
        {
            ys = rho_step(ys, c, n);
            g = gcd(abs_diff(x, ys), n);
            j = j + 1;
        }
    }
    g
}

} // verus!
