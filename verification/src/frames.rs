//! The frames of an animation: how long each is shown and how large it is drawn.

use crate::binary64::{
    exp2, half_up, lemma_nearest_error, lemma_nearest_monotone, nearest, round_quotient,
};
use vstd::prelude::*;

verus! {

/// The sum of delays.
pub open spec fn total(delays: Seq<u32>) -> int
    decreases delays.len(),
{
    if delays.len() == 0 {
        0
    } else {
        total(delays.drop_last()) + delays.last()
    }
}

/// The average of delays, rounded down.
pub open spec fn average(delays: Seq<u32>) -> int {
    total(delays) / delays.len() as int
}

/// The delay of frame `i`: its own or, for a frame beyond those with one, the average.
pub open spec fn delay_of(delays: Seq<u32>, i: int) -> int {
    if i < delays.len() {
        delays[i] as int
    } else {
        average(delays)
    }
}

/// The sum of the first delays is at most the sum of all.
proof fn lemma_total(delays: Seq<u32>, i: int)
    requires
        0 <= i <= delays.len(),
    ensures
        0 <= total(delays.take(i)) <= total(delays),
    decreases delays.len() - i,
{
    if i < delays.len() {
        lemma_total(delays, i + 1);
        assert(delays.take(i + 1).drop_last() == delays.take(i));
        lemma_total_nonnegative(delays.take(i));
    } else {
        assert(delays.take(i) == delays);
        lemma_total_nonnegative(delays);
    }
}

/// A sum of delays is not negative.
proof fn lemma_total_nonnegative(delays: Seq<u32>)
    ensures
        0 <= total(delays),
    decreases delays.len(),
{
    if delays.len() > 0 {
        lemma_total_nonnegative(delays.drop_last());
    }
}

/// Computes the average delay, where there are delays and their sum fits 32 bits.
pub fn average_delay(delays: &[u32]) -> (r: Option<u32>)
    ensures
        r matches Some(n) ==> n == average(delays@),
        r is Some <==> 0 < delays@.len() <= u32::MAX && total(delays@) <= u32::MAX,
{
    let mut sum: u32 = 0;
    let mut i: usize = 0;
    while i < delays.len()
        invariant
            i <= delays.len(),
            sum == total(delays@.take(i as int)),
        decreases delays.len() - i,
    {
        proof {
            assert(delays@.take(i + 1).drop_last() == delays@.take(i as int));
            lemma_total(delays@, i + 1);
        }
        match sum.checked_add(delays[i]) {
            Some(n) => {
                sum = n;
            },
            None => {
                return None;
            },
        }
        i = i + 1;
    }
    assert(delays@.take(i as int) == delays@);
    if delays.len() == 0 || delays.len() > u32::MAX as usize {
        return None;
    }
    Some(sum / delays.len() as u32)
}

/// Picks the delay of frame `i`, given the average.
pub fn delay_for(delays: &[u32], i: usize, avg_delay: u32) -> (r: u32)
    requires
        avg_delay == average(delays@),
    ensures
        r == delay_of(delays@, i as int),
        i < delays@.len() ==> r == delays@[i as int],
        i >= delays@.len() ==> r == avg_delay,
{
    if i < delays.len() {
        delays[i]
    } else {
        avg_delay
    }
}

/// The number of rows for a picture of `w` by `h` pixels that is drawn `columns` wide: as many
/// as keep its shape where a character is twice as high as it is wide, and at least one.
pub open spec fn rows_for(w: u32, h: u32, columns: u32) -> int {
    if w == 0 {
        if h == 0 || columns == 0 {
            1
        } else {
            u32::MAX as int
        }
    } else {
        let n = half_up(nearest(nearest(nearest(h as real / w as real) * columns as real) / 2real));
        if n < 1 {
            1
        } else if n > u32::MAX {
            u32::MAX as int
        } else {
            n
        }
    }
}

/// Computes the number of rows for a picture.
pub fn frame_height(w: u32, h: u32, columns: u32) -> (r: u32)
    ensures
        r == rows_for(w, h, columns),
{
    if w == 0 {
        return if h == 0 || columns == 0 {
            1
        } else {
            u32::MAX
        };
    }
    if h == 0 {
        proof {
            lemma_nearest_error(0real);
            let (x, c) = (w as real, columns as real);
            assert(0real / x == 0real && 0real * c == 0real) by (nonlinear_arith)
                requires
                    x > 0real,
            ;
        }
        return 1;
    }
    let ratio = round_quotient(h as u128, w as u128, 0);
    assert(h as real / w as real * exp2(0) == h as real / w as real);
    let n = ratio.times(columns).over(2).round();
    if n < 1 {
        1
    } else {
        n
    }
}

/// Whether progress is reported after frame `i` of `n`: after every fifth and after the last.
pub fn reports_progress(i: usize, n: usize) -> (r: bool)
    requires
        i < n,
    ensures
        r == ((i + 1) % 5 == 0 || i + 1 == n),
{
    (i + 1) % 5 == 0 || i + 1 == n
}

/// Bounds on each delay bound their sum.
proof fn lemma_total_bounds(delays: Seq<u32>, lo: u32, hi: u32)
    requires
        forall|i: int| 0 <= i < delays.len() ==> lo <= #[trigger] delays[i] <= hi,
    ensures
        lo * delays.len() <= total(delays) <= hi * delays.len(),
    decreases delays.len(),
{
    if delays.len() > 0 {
        let rest = delays.drop_last();
        assert forall|i: int| 0 <= i < rest.len() implies lo <= #[trigger] rest[i] <= hi by {
            assert(rest[i] == delays[i]);
        }
        lemma_total_bounds(rest, lo, hi);
        let n = delays.len() as int;
        assert(lo * n == lo * (n - 1) + lo && hi * n == hi * (n - 1) + hi) by (nonlinear_arith);
    }
}

/// The average lies between the shortest and the longest delay, and so does the delay of every
/// frame.
pub proof fn lemma_average_bounds(delays: Seq<u32>, lo: u32, hi: u32, i: int)
    requires
        delays.len() > 0,
        forall|i: int| 0 <= i < delays.len() ==> lo <= #[trigger] delays[i] <= hi,
        0 <= i,
    ensures
        lo <= average(delays) <= hi,
        lo <= delay_of(delays, i) <= hi,
{
    lemma_total_bounds(delays, lo, hi);
    let (n, t, a) = (delays.len() as int, total(delays), average(delays));
    vstd::arithmetic::div_mod::lemma_fundamental_div_mod(t, n);
    assert(lo <= a <= hi) by (nonlinear_arith)
        requires
            lo * n <= t <= hi * n,
            t == n * a + t % n,
            0 <= t % n < n,
            n > 0,
    ;
}

/// There is at least one row.
pub proof fn lemma_rows_positive(w: u32, h: u32, columns: u32)
    ensures
        1 <= rows_for(w, h, columns) <= u32::MAX,
{
}

/// A taller picture is never drawn with fewer rows.
pub proof fn lemma_rows_monotone(w: u32, h: u32, h2: u32, columns: u32)
    requires
        h <= h2,
    ensures
        rows_for(w, h, columns) <= rows_for(w, h2, columns),
{
    if w > 0 {
        let (x, a, b, c) = (w as real, h as real, h2 as real, columns as real);
        assert(a / x <= b / x) by (nonlinear_arith)
            requires
                a <= b,
                x > 0real,
        ;
        lemma_nearest_monotone(a / x, b / x);
        let (p, q) = (nearest(a / x), nearest(b / x));
        assert(p * c <= q * c) by (nonlinear_arith)
            requires
                p <= q,
                c >= 0real,
        ;
        lemma_nearest_monotone(p * c, q * c);
        lemma_nearest_monotone(nearest(p * c) / 2real, nearest(q * c) / 2real);
    }
}

/// The number of rows keeps the shape of a picture to within a little more than half a row,
/// where that leaves at least one row and not too many.
pub proof fn lemma_rows_keep_shape(w: u32, h: u32, columns: u32)
    requires
        w > 0,
        2 * w <= h * columns <= 0x1_0000_0000 * w,
    ensures
        ({
            let exact = h as real * columns as real / (2real * w as real);
            exact - 51real / 100real <= rows_for(w, h, columns) as real <= exact + 51real / 100real
        }),
{
    let (x, y, c) = (w as real, h as real, columns as real);
    let a = y / x;
    let t = a * c;
    let exact = y * c / (2real * x);
    assert((h * columns) as real == y * c) by (nonlinear_arith)
        requires
            y == h as real,
            c == columns as real,
    ;
    assert(a * x == y) by (nonlinear_arith)
        requires
            a == y / x,
            x > 0real,
    ;
    assert(exact == t / 2real && 2real <= t <= 0x1_0000_0000real) by (nonlinear_arith)
        requires
            t == a * c,
            a * x == y,
            exact == y * c / (2real * x),
            x > 0real,
            2real * x <= y * c <= 0x1_0000_0000real * x,
    ;
    assert(a >= 0real) by (nonlinear_arith)
        requires
            a == y / x,
            y >= 0real,
            x > 0real,
    ;
    let p = nearest(a);
    lemma_nearest_error(a);
    assert(t - 1real / 1000real <= p * c <= t + 1real / 1000real) by (nonlinear_arith)
        requires
            t == a * c,
            a - a / 0x20_0000_0000_0000real <= p <= a + a / 0x20_0000_0000_0000real,
            0real <= t <= 0x1_0000_0000real,
            c >= 0real,
    ;
    let q = nearest(p * c);
    lemma_nearest_error(p * c);
    lemma_nearest_error(q / 2real);
}

} // verus!
