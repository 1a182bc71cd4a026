//! The integer bookkeeping of the Fourier coefficients: which frequency each
//! transform bin stands for, and how many harmonics are kept.

use vstd::prelude::*;

verus! {

/// The signed frequency of bin `i` of an `n`-point transform: bins up to `n / 2`
/// are the non-negative frequencies, the ones above are the negative frequencies `i - n`.
pub open spec fn bin_frequency(i: int, n: int) -> int {
    if i <= n / 2 {
        i
    } else {
        i - n
    }
}

/// The frequency a bin gets as `i32` arithmetic computes it: `i` for bins up to
/// `n / 2`, otherwise `i - n` with both taken as `i32` (truncated).
pub open spec fn bin_frequency_i32(i: usize, n: usize) -> int {
    if i <= n / 2 {
        (i as i32) as int
    } else {
        (i as i32) - (n as i32)
    }
}

/// The `i32` subtraction for a bin above `n / 2` does not overflow.
pub open spec fn frequency_fits(i: usize, n: usize) -> bool {
    i > n / 2 ==> i32::MIN <= (i as i32) - (n as i32) <= i32::MAX
}

/// The signed frequency of bin `i` of an `n`-point transform.
pub fn frequency_index(i: usize, n: usize) -> (f: i32)
    requires
        i < n,
        frequency_fits(i, n),
    ensures
        f == bin_frequency_i32(i, n),
        n <= i32::MAX ==> f == bin_frequency(i as int, n as int),
        n <= i32::MAX ==> (f == 0 <==> i == 0),
        n <= i32::MAX ==> -(n as int) / 2 <= f <= (n as int) / 2,
{
    let wide_i: i32 = #[verifier::truncate]
    (i as i32);
    if i <= n / 2 {
        wide_i
    } else {
        let wide_n: i32 = #[verifier::truncate]
        (n as i32);
        wide_i - wide_n
    }
}

/// How many harmonics besides the constant term are kept out of an `n`-point
/// transform: all `n - 1` without a limit, otherwise one fewer than the limit
/// (none for a limit of 0 or 1), but never more than `n - 1`.
pub open spec fn kept_harmonics(max_coefficients: Option<usize>, n: int) -> int {
    match max_coefficients {
        None => n - 1,
        Some(m) => {
            let wanted = if m >= 1 {
                m - 1
            } else {
                0
            };
            if wanted < n - 1 {
                wanted
            } else {
                n - 1
            }
        },
    }
}

/// How many harmonics besides the constant term are kept.
pub fn harmonics_kept(max_coefficients: Option<usize>, n: usize) -> (k: usize)
    requires
        n >= 1,
    ensures
        k == kept_harmonics(max_coefficients, n as int),
        k <= n - 1,
{
    match max_coefficients {
        None => n - 1,
        Some(m) => {
            let wanted = m.saturating_sub(1);
            if wanted < n - 1 {
                wanted
            } else {
                n - 1
            }
        },
    }
}

/// The limit on the number of coefficients a configuration asks for: none for 0.
pub fn coefficient_limit(max_coefficients: usize) -> (limit: Option<usize>)
    ensures
        limit == (if max_coefficients == 0 {
            None::<usize>
        } else {
            Some(max_coefficients)
        }),
{
    if max_coefficients == 0 {
        None
    } else {
        Some(max_coefficients)
    }
}

} // verus!
