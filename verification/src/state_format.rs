//! Verified recognizer for the textual interchange form of an index.
//!
//! The serializer emits `{`, a newline, one entry per depth in the form
//! `  "D": [c1, c2, ...]` with entries separated by comma-newline, then a
//! newline and `}`.  [`state_bytes_ok`] describes exactly that shape, with
//! every depth key at most 29 and every listed cell id below the cell
//! count of its depth.  Text in this form cannot make the interchange
//! parser's cell-to-range conversion overflow, so the trusted parse
//! wrapper requires it; [`check_state_bytes`] decides it executably.

use crate::range_model::n_cells;
use vstd::prelude::*;

verus! {

/// An ASCII decimal digit.
pub open spec fn is_digit(b: u8) -> bool {
    48 <= b && b <= 57
}

/// One past the last digit of the digit run starting at `i`.
pub open spec fn digits_end(bytes: Seq<u8>, i: int) -> int
    decreases bytes.len() - i,
{
    if 0 <= i < bytes.len() && is_digit(bytes[i]) {
        digits_end(bytes, i + 1)
    } else {
        i
    }
}

/// Decimal value of the digits in `[i, j)`.
pub open spec fn digits_val(bytes: Seq<u8>, i: int, j: int) -> int
    decreases j - i,
{
    if i < j {
        digits_val(bytes, i, j - 1) * 10 + (bytes[j - 1] - 48)
    } else {
        0
    }
}

/// A well-formed decimal number at `i`: a non-empty run of at most
/// nineteen digits, with no leading zero unless the number is exactly
/// zero.  Nineteen decimal digits always fit in 64 bits.
pub open spec fn num_ok(bytes: Seq<u8>, i: int) -> bool {
    let j = digits_end(bytes, i);
    j > i && j - i <= 19 && (bytes[i] != 48 || j == i + 1)
}

/// Position of the closing bracket after a non-empty cell list starting at
/// `i`, provided every listed value is below `bound`; cells are separated
/// by a comma and a space.
pub open spec fn cells_end(bytes: Seq<u8>, i: int, bound: int) -> Option<int>
    decreases bytes.len() - i,
{
    if !num_ok(bytes, i) {
        None
    } else {
        let j = digits_end(bytes, i);
        if digits_val(bytes, i, j) >= bound {
            None
        } else if j < bytes.len() && bytes[j] == 93 {
            Some(j)
        } else if i < j && j + 2 <= bytes.len() && bytes[j] == 44 && bytes[j + 1] == 32 {
            cells_end(bytes, j + 2, bound)
        } else {
            None
        }
    }
}

/// Position just after one entry (`  "D": [cells]`) starting at `i`: two
/// spaces, the quoted depth key (at most 29), a colon and space, and the
/// bracketed cell list, every cell below the cell count at that depth.
pub open spec fn entry_end(bytes: Seq<u8>, i: int) -> Option<int> {
    if !(0 <= i && i + 3 <= bytes.len() && bytes[i] == 32 && bytes[i + 1] == 32 && bytes[i + 2]
        == 34) {
        None
    } else if !num_ok(bytes, i + 3) {
        None
    } else {
        let j = digits_end(bytes, i + 3);
        let d = digits_val(bytes, i + 3, j);
        if !(d <= 29 && j + 4 <= bytes.len() && bytes[j] == 34 && bytes[j + 1] == 58 && bytes[j
            + 2] == 32 && bytes[j + 3] == 91) {
            None
        } else if j + 4 < bytes.len() && bytes[j + 4] == 93 {
            Some(j + 5)
        } else {
            match cells_end(bytes, j + 4, n_cells(d)) {
                Some(k) => Some(k + 1),
                None => None,
            }
        }
    }
}

/// The run of entries from `i`, separated by comma-newline, up to the
/// closing newline-brace at the very end of the text.
pub open spec fn entries_ok(bytes: Seq<u8>, i: int) -> bool
    decreases bytes.len() - i,
{
    match entry_end(bytes, i) {
        None => false,
        Some(j) => {
            if j + 2 == bytes.len() && 0 <= j && bytes[j] == 10 && bytes[j + 1] == 125 {
                true
            } else if i < j && j + 2 <= bytes.len() && bytes[j] == 44 && bytes[j + 1] == 10 {
                entries_ok(bytes, j + 2)
            } else {
                false
            }
        },
    }
}

/// The canonical interchange text: an opening brace and newline, at least
/// one entry, and the closing newline and brace — with depth keys at most
/// 29 and every cell id below the cell count of its depth.
pub open spec fn state_bytes_ok(bytes: Seq<u8>) -> bool {
    bytes.len() >= 2 && bytes[0] == 123 && bytes[1] == 10 && entries_ok(bytes, 2)
}

/// Powers of ten.
pub open spec fn ten_to(n: nat) -> int
    decreases n,
{
    if n == 0 {
        1
    } else {
        10 * ten_to((n - 1) as nat)
    }
}

proof fn lemma_ten_to_vals()
    ensures
        ten_to(18) == 1_000_000_000_000_000_000,
{
    assert(ten_to(0) == 1);
    assert(ten_to(1) == 10);
    assert(ten_to(2) == 100);
    assert(ten_to(3) == 1000);
    assert(ten_to(4) == 10000);
    assert(ten_to(5) == 100000);
    assert(ten_to(6) == 1000000);
    assert(ten_to(7) == 10000000);
    assert(ten_to(8) == 100000000);
    assert(ten_to(9) == 1000000000);
    assert(ten_to(10) == 10000000000);
    assert(ten_to(11) == 100000000000);
    assert(ten_to(12) == 1000000000000);
    assert(ten_to(13) == 10000000000000);
    assert(ten_to(14) == 100000000000000);
    assert(ten_to(15) == 1000000000000000);
    assert(ten_to(16) == 10000000000000000);
    assert(ten_to(17) == 100000000000000000);
    assert(ten_to(18) == 1000000000000000000);
}

proof fn lemma_ten_to_pos(n: nat)
    ensures
        ten_to(n) >= 1,
    decreases n,
{
    if n > 0 {
        lemma_ten_to_pos((n - 1) as nat);
    }
}

proof fn lemma_ten_to_le(a: nat, b: nat)
    requires
        a <= b,
    ensures
        1 <= ten_to(a) <= ten_to(b),
    decreases b,
{
    lemma_ten_to_pos(a);
    if a < b {
        lemma_ten_to_le(a, (b - 1) as nat);
    }
}

/// A run of digits is worth less than ten to its length.
proof fn lemma_digits_val_bound(bytes: Seq<u8>, i: int, j: int)
    requires
        i <= j,
        forall|m: int| i <= m < j ==> is_digit(#[trigger] bytes[m]),
    ensures
        0 <= digits_val(bytes, i, j) < ten_to((j - i) as nat),
    decreases j - i,
{
    if i < j {
        lemma_digits_val_bound(bytes, i, j - 1);
    }
}

/// The digit run never retreats.
proof fn lemma_digits_end_ge(bytes: Seq<u8>, i: int)
    ensures
        digits_end(bytes, i) >= i,
    decreases bytes.len() - i,
{
    if 0 <= i < bytes.len() && is_digit(bytes[i]) {
        lemma_digits_end_ge(bytes, i + 1);
    }
}

/// Scan one decimal number: its value and the position after its digits.
#[verifier::loop_isolation(false)]
fn parse_num(bytes: &Vec<u8>, start: usize) -> (r: Option<(u64, usize)>)
    requires
        start <= bytes@.len(),
    ensures
        r matches Some(p) ==> num_ok(bytes@, start as int) && p.1 as int == digits_end(
            bytes@,
            start as int,
        ) && p.0 as int == digits_val(bytes@, start as int, p.1 as int) && start < p.1
            <= bytes@.len(),
        r is None ==> !num_ok(bytes@, start as int),
{
    let n = bytes.len();
    let mut k = start;
    let mut acc: u64 = 0;
    proof {
        lemma_ten_to_vals();
    }
    while k < n && 48 <= bytes[k] && bytes[k] <= 57
        invariant
            start <= k <= n,
            k - start <= 19,
            forall|m: int| start <= m < k ==> is_digit(#[trigger] bytes@[m]),
            digits_end(bytes@, start as int) == digits_end(bytes@, k as int),
            acc as int == digits_val(bytes@, start as int, k as int),
        decreases n - k,
    {
        if k - start == 19 {
            proof {
                lemma_digits_end_ge(bytes@, k as int + 1);
                assert(digits_end(bytes@, k as int) == digits_end(bytes@, k as int + 1));
            }
            return None;
        }
        proof {
            lemma_digits_val_bound(bytes@, start as int, k as int);
            lemma_ten_to_le((k - start) as nat, 18);
        }
        acc = acc * 10 + ((bytes[k] - 48) as u64);
        proof {
            assert(digits_end(bytes@, k as int) == digits_end(bytes@, k as int + 1));
        }
        k = k + 1;
    }
    proof {
        assert(digits_end(bytes@, k as int) == k as int);
    }
    if k == start {
        return None;
    }
    if bytes[start] == 48 && k > start + 1 {
        return None;
    }
    Some((acc, k))
}

/// Recognize one entry; returns the position just after it.
#[verifier::loop_isolation(false)]
fn parse_entry(bytes: &Vec<u8>, start: usize) -> (r: Option<usize>)
    requires
        start <= bytes@.len(),
    ensures
        r matches Some(j) ==> entry_end(bytes@, start as int) == Some(j as int) && start < j
            <= bytes@.len(),
        r is None ==> entry_end(bytes@, start as int) is None,
{
    let n = bytes.len();
    if !(n - start >= 3 && bytes[start] == 32 && bytes[start + 1] == 32 && bytes[start + 2] == 34) {
        return None;
    }
    let (d, jd) = match parse_num(bytes, start + 3) {
        Some(p) => p,
        None => {
            return None;
        },
    };
    if d > 29 {
        return None;
    }
    if !(n - jd >= 4 && bytes[jd] == 34 && bytes[jd + 1] == 58 && bytes[jd + 2] == 32 && bytes[jd
        + 3] == 91) {
        return None;
    }
    let bound = crate::index::n_cells_exec(d as u8);
    if n - jd >= 5 && bytes[jd + 4] == 93 {
        return Some(jd + 5);
    }
    let mut p = jd + 4;
    loop
        invariant
            jd + 4 <= p <= n,
            cells_end(bytes@, jd + 4 as int, bound as int) == cells_end(
                bytes@,
                p as int,
                bound as int,
            ),
        decreases n - p,
    {
        let (v, e) = match parse_num(bytes, p) {
            Some(x) => x,
            None => {
                return None;
            },
        };
        if v >= bound {
            return None;
        }
        if e < n && bytes[e] == 93 {
            return Some(e + 1);
        }
        if p < e && n - e >= 2 && bytes[e] == 44 && bytes[e + 1] == 32 {
            p = e + 2;
        } else {
            return None;
        }
    }
}

/// Decide whether the bytes are canonical interchange text.
#[verifier::loop_isolation(false)]
pub fn check_state_bytes(bytes: &Vec<u8>) -> (r: bool)
    ensures
        r <==> state_bytes_ok(bytes@),
{
    let n = bytes.len();
    if !(n >= 2 && bytes[0] == 123 && bytes[1] == 10) {
        return false;
    }
    let mut i: usize = 2;
    loop
        invariant
            2 <= i <= n,
            state_bytes_ok(bytes@) <==> entries_ok(bytes@, i as int),
        decreases n - i,
    {
        let j = match parse_entry(bytes, i) {
            Some(j) => j,
            None => {
                return false;
            },
        };
        if j == n - 2 && bytes[j] == 10 && bytes[j + 1] == 125 {
            return true;
        }
        if j <= n - 2 && bytes[j] == 44 && bytes[j + 1] == 10 {
            i = j + 2;
        } else {
            return false;
        }
    }
}

} // verus!
