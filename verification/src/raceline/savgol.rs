//! Circular Savitzky-Golay smoothing: which window is used, which samples it
//! covers, and how the fit is pivoted.

use vstd::prelude::*;

use crate::scalar::Single;

verus! {

/// Window length and polynomial order of the fit.
#[derive(Clone, Copy, Debug, PartialEq, Eq, Structural)]
pub struct SavitzkyGolayParams {
    pub window_points: usize,
    pub polynomial_order: usize,
}

impl Default for SavitzkyGolayParams {
    fn default() -> (out: Self)
        ensures
            out == (SavitzkyGolayParams { window_points: 7, polynomial_order: 3 }),
    {
        SavitzkyGolayParams { window_points: 7, polynomial_order: 3 }
    }
}

/// Why a signal cannot be smoothed.
#[derive(Clone, Copy, Debug, PartialEq, Eq, Structural)]
pub enum SavitzkyGolayError {
    EmptyInput,
    EvenWindow,
    WindowTooSmall,
    SingularFit,
}

/// 1e-8, the size up to which a pivot makes the fit singular.
pub const PIVOT_EPS: u32 = 0x322B_CC77;

/// The longest odd window that a signal of this length has room for.
pub open spec fn room_for(len: int) -> int {
    if len % 2 == 1 {
        len
    } else if len > 0 {
        len - 1
    } else {
        0
    }
}

/// The window used for a signal: the one asked for, as far as there is room.
pub open spec fn window_for(len: int, params: SavitzkyGolayParams) -> Result<
    int,
    SavitzkyGolayError,
> {
    let window = if params.window_points < room_for(len) {
        params.window_points as int
    } else {
        room_for(len)
    };
    if len == 0 {
        Err(SavitzkyGolayError::EmptyInput)
    } else if params.window_points % 2 == 0 {
        Err(SavitzkyGolayError::EvenWindow)
    } else if params.window_points <= params.polynomial_order || window <= params.polynomial_order {
        Err(SavitzkyGolayError::WindowTooSmall)
    } else {
        Ok(window)
    }
}

/// The window with which a signal of the given length is smoothed.
pub fn smoothing_window(len: usize, params: SavitzkyGolayParams) -> (out: Result<
    usize,
    SavitzkyGolayError,
>)
    ensures
        out is Ok <==> window_for(len as int, params) is Ok,
        out matches Ok(w) ==> window_for(len as int, params) == Ok::<int, SavitzkyGolayError>(
            w as int,
        ),
        out matches Err(e) ==> window_for(len as int, params) == Err::<int, SavitzkyGolayError>(e),
{
    if len == 0 {
        return Err(SavitzkyGolayError::EmptyInput);
    }
    if params.window_points % 2 == 0 {
        return Err(SavitzkyGolayError::EvenWindow);
    }
    if params.window_points <= params.polynomial_order {
        return Err(SavitzkyGolayError::WindowTooSmall);
    }
    let room: usize = if len % 2 == 1 {
        len
    } else {
        len - 1
    };
    let window: usize = if params.window_points < room {
        params.window_points
    } else {
        room
    };
    if window == 0 || window <= params.polynomial_order || window % 2 == 0 {
        return Err(SavitzkyGolayError::WindowTooSmall);
    }
    Ok(window)
}

/// A window that is granted is odd, longer than the polynomial order, and no
/// longer than the signal or than what was asked for.
pub proof fn law_window_fits(len: int, params: SavitzkyGolayParams)
    requires
        len >= 0,
        window_for(len, params) is Ok,
    ensures
        ({
            let w = window_for(len, params)->Ok_0;
            w % 2 == 1 && params.polynomial_order < w && w <= len && w <= params.window_points
        }),
{
}

/// The sample that tap `j` of a window around sample `i` reads; the signal is
/// a ring.
pub open spec fn tap_index(i: int, j: int, window: int, n: int) -> int {
    (i + j - window / 2) % n
}

/// The samples that the window around sample `i` covers, in tap order.
pub fn taps(i: usize, window: usize, n: usize) -> (out: Vec<usize>)
    requires
        i < n,
        0 < window <= n,
    ensures
        out@.len() == window,
        forall|j: int|
            0 <= j < window ==> #[trigger] out@[j] == tap_index(
                i as int,
                j,
                window as int,
                n as int,
            ),
{
    let half: usize = window / 2;
    let mut out: Vec<usize> = Vec::new();
    // The tap before the first one; it walks once around the ring at most.
    let mut at: usize = if i >= half {
        i - half
    } else {
        i + (n - half)
    };
    proof {
        lemma_tap_start(i as int, half as int, n as int);
    }
    let mut j: usize = 0;
    while j < window
        invariant
            i < n,
            0 < window <= n,
            half == window / 2,
            j <= window,
            at < n,
            at == tap_index(i as int, j as int, window as int, n as int),
            out@.len() == j,
            forall|k: int|
                0 <= k < j ==> #[trigger] out@[k] == tap_index(
                    i as int,
                    k,
                    window as int,
                    n as int,
                ),
        decreases window - j,
    {
        out.push(at);
        proof {
            lemma_tap_next(i + j - half, n as int);
        }
        at = if at == n - 1 {
            0
        } else {
            at + 1
        };
        j = j + 1;
    }
    out
}

proof fn lemma_tap_start(i: int, half: int, n: int)
    requires
        0 <= i < n,
        0 <= half < n || (half == 0 && n > 0),
    ensures
        (i - half) % n == if i >= half {
            i - half
        } else {
            i + (n - half)
        },
{
    if i >= half {
        vstd::arithmetic::div_mod::lemma_small_mod((i - half) as nat, n as nat);
    } else {
        vstd::arithmetic::div_mod::lemma_mod_add_multiples_vanish(i - half, n);
        vstd::arithmetic::div_mod::lemma_small_mod((i - half + n) as nat, n as nat);
    }
}

proof fn lemma_tap_next(a: int, n: int)
    requires
        n > 0,
    ensures
        (a + 1) % n == if a % n == n - 1 {
            0
        } else {
            a % n + 1
        },
{
    let q = a / n;
    let r = a % n;
    vstd::arithmetic::div_mod::lemma_fundamental_div_mod(a, n);
    if r == n - 1 {
        assert(a + 1 == (q + 1) * n + 0) by (nonlinear_arith)
            requires
                a == n * q + r,
                r == n - 1,
        ;
        vstd::arithmetic::div_mod::lemma_fundamental_div_mod_converse(a + 1, n, q + 1, 0);
    } else {
        assert(a + 1 == q * n + (r + 1)) by (nonlinear_arith)
            requires
                a == n * q + r,
        ;
        vstd::arithmetic::div_mod::lemma_fundamental_div_mod_converse(a + 1, n, q, r + 1);
    }
}

/// The row kept after looking at the first `n` rows from `first` on: a later
/// row replaces it unless it is numerically smaller.
pub open spec fn pivot_upto(column: Seq<Single>, first: int, n: int) -> int
    decreases n - first,
{
    if n <= first + 1 {
        first
    } else {
        let best = pivot_upto(column, first, n - 1);
        if column[n - 1].absolute().less(column[best].absolute()) {
            best
        } else {
            n - 1
        }
    }
}

/// The row with which a column is eliminated, from row `first` on; nothing if
/// its entry is too small.
pub fn pivot_row(column: &Vec<Single>, first: usize) -> (out: Option<usize>)
    requires
        first < column@.len(),
    ensures
        ({
            let best = pivot_upto(column@, first as int, column@.len() as int);
            out == if column@[best].absolute().at_most(Single { bits: PIVOT_EPS }) {
                None
            } else {
                Some(best as usize)
            }
        }),
        out matches Some(p) ==> first <= p < column@.len(),
{
    assert(column.len() == column@.len());
    let mut best: usize = first;
    let mut k: usize = first + 1;
    while k < column.len()
        invariant
            first <= best < k <= column@.len(),
            best == pivot_upto(column@, first as int, k as int),
        decreases column@.len() - k,
    {
        if !column[k].abs().lt(column[best].abs()) {
            best = k;
        }
        k = k + 1;
    }
    if column[best].abs().le(Single { bits: PIVOT_EPS }) {
        None
    } else {
        Some(best)
    }
}

/// Among numbers, the pivot is the entry of largest size, the last of several.
pub proof fn law_pivot_is_largest(column: Seq<Single>, first: int, n: int, k: int)
    requires
        0 <= first <= k < n <= column.len(),
        forall|i: int| 0 <= i < column.len() ==> !(#[trigger] column[i]).nan(),
    ensures
        first <= pivot_upto(column, first, n) < n,
        !column[pivot_upto(column, first, n)].absolute().less(column[k].absolute()),
        k > pivot_upto(column, first, n) ==> column[k].absolute().less(
            column[pivot_upto(column, first, n)].absolute(),
        ),
    decreases n,
{
    if n > first + 1 {
        let best = pivot_upto(column, first, n - 1);
        if k < n - 1 {
            law_pivot_is_largest(column, first, n - 1, k);
        } else {
            law_pivot_is_largest(column, first, n - 1, first);
        }
        assert(!column[n - 1].nan());
        assert(!column[best].nan());
        assert(!column[k].nan());
    }
}

/// The window is the longest odd one that is neither longer than the signal nor
/// than what was asked for.
pub proof fn law_window_is_the_longest(len: int, params: SavitzkyGolayParams, v: int)
    requires
        0 <= len,
        window_for(len, params) is Ok,
        v % 2 == 1,
        v <= len,
        v <= params.window_points,
    ensures
        v <= window_for(len, params)->Ok_0,
{
}

/// A signal is smoothed whenever an odd window was asked for and some odd window
/// longer than the polynomial order has room both in it and in what was asked for.
pub proof fn law_room_is_enough(len: int, params: SavitzkyGolayParams, v: int)
    requires
        params.window_points % 2 == 1,
        v % 2 == 1,
        params.polynomial_order < v,
        v <= len,
        v <= params.window_points,
    ensures
        window_for(len, params) is Ok,
{
}

/// A window stands in the middle: its middle tap reads the sample itself, the tap
/// after another reads the sample after, and past the last sample comes the first.
pub proof fn law_taps_are_centred(i: int, j: int, window: int, n: int)
    requires
        0 <= i < n,
        0 < window <= n,
    ensures
        tap_index(i, window / 2, window, n) == i,
        0 <= tap_index(i, j, window, n) < n,
        tap_index(i, j, window, n) < n - 1 ==> tap_index(i, j + 1, window, n) == tap_index(
            i,
            j,
            window,
            n,
        ) + 1,
        tap_index(i, j, window, n) == n - 1 ==> tap_index(i, j + 1, window, n) == 0,
{
    vstd::arithmetic::div_mod::lemma_small_mod(i as nat, n as nat);
    lemma_tap_next(i + j - window / 2, n);
    assert(i + (j + 1) - window / 2 == (i + j - window / 2) + 1);
}

} // verus!
