//! Parent, sibling and child relations of nested-scheme cell ids.
//!
//! In the nested numbering scheme a cell at depth `d` has the four cells
//! `4*p .. 4*p + 4` as children at depth `d + 1`; moving between depths is
//! a division or multiplication by a power of four.

use crate::range_model::{lemma_cells_times_width, lemma_n_cells_bound, lemma_width_pos, n_cells};
use vstd::arithmetic::power2::pow2;
use vstd::prelude::*;

verus! {

/// The ancestor of `ipix` (a cell at `current_depth`) at the coarser
/// `depth`; the cell itself when the depths agree.
pub fn parent(current_depth: u8, ipix: u64, depth: u8) -> (r: u64)
    requires
        depth <= current_depth <= 29,
    ensures
        r as int == ipix as int / (pow2((2 * (current_depth - depth)) as nat) as int),
{
    if current_depth == depth {
        proof {
            vstd::arithmetic::power2::lemma2_to64();
            vstd::arithmetic::div_mod::lemma_div_basics(ipix as int);
        }
        ipix
    } else {
        let shift: u64 = 2 * ((current_depth - depth) as u64);
        proof {
            vstd::bits::lemma_u64_shr_is_div(ipix, shift);
        }
        ipix >> shift
    }
}

/// The cells sharing a parent with `ipix` at `current_depth`, the cell
/// itself included: the twelve base cells at depth zero, else the four
/// cells of its parent.
pub fn siblings(current_depth: u8, ipix: u64) -> (r: Vec<u64>)
    requires
        current_depth <= 29,
        (ipix as int) < n_cells(current_depth as int),
    ensures
        current_depth == 0 ==> r@ == Seq::new(12, |k: int| k as u64),
        current_depth > 0 ==> r@ == Seq::new(
            4,
            |k: int| ((ipix as int / 4) * 4 + k) as u64,
        ),
{
    if current_depth == 0 {
        let mut out: Vec<u64> = Vec::new();
        let mut c: u64 = 0;
        while c < 12
            invariant
                0 <= c <= 12,
                out@ =~= Seq::new(c as nat, |k: int| k as u64),
            decreases 12 - c,
        {
            proof {
                assert(Seq::new(c as nat + 1, |k: int| k as u64) =~= Seq::new(
                    c as nat,
                    |k: int| k as u64,
                ).push(c));
            }
            out.push(c);
            c = c + 1;
        }
        out
    } else {
        let p = parent(current_depth, ipix, current_depth - 1);
        proof {
            vstd::arithmetic::power2::lemma2_to64();
            lemma_n_cells_bound(current_depth as int);
            vstd::arithmetic::div_mod::lemma_div_is_ordered(
                ipix as int,
                n_cells(current_depth as int),
                4,
            );
        }
        let first = p * 4;
        let mut out: Vec<u64> = Vec::new();
        let mut c: u64 = 0;
        while c < 4
            invariant
                0 <= c <= 4,
                first as int == (ipix as int / 4) * 4,
                first <= 0x3000_0000_0000_0000u64,
                out@ =~= Seq::new(c as nat, |k: int| (first as int + k) as u64),
            decreases 4 - c,
        {
            proof {
                assert(Seq::new(c as nat + 1, |k: int| (first as int + k) as u64) =~= Seq::new(
                    c as nat,
                    |k: int| (first as int + k) as u64,
                ).push((first + c) as u64));
            }
            out.push(first + c);
            c = c + 1;
        }
        out
    }
}

/// The descendants of `ipix` (a cell at `current_depth`) at the finer
/// `depth`: the contiguous run of `4^(depth - current_depth)` cells.
pub fn children(current_depth: u8, ipix: u64, depth: u8) -> (r: Vec<u64>)
    requires
        current_depth < depth <= 29,
        (ipix as int) < n_cells(current_depth as int),
    ensures
        r@ == Seq::new(
            pow2((2 * (depth - current_depth)) as nat),
            |k: int| (ipix as int * (pow2((2 * (depth - current_depth)) as nat) as int) + k) as u64,
        ),
{
    let shift: u64 = 2 * ((depth - current_depth) as u64);
    let ghost width = pow2((2 * (depth - current_depth)) as nat) as int;
    proof {
        vstd::arithmetic::power2::lemma2_to64();
        vstd::arithmetic::power2::lemma2_to64_rest();
        vstd::arithmetic::power2::lemma_pow2_strictly_increases(
            (2 * (depth - current_depth)) as nat,
            64,
        );
        lemma_pow2_products(current_depth as int, depth as int);
        lemma_n_cells_bound(depth as int);
        assert((ipix as int + 1) * width <= n_cells(depth as int)) by (nonlinear_arith)
            requires
                (ipix as int) < n_cells(current_depth as int) && width >= 1 && n_cells(
                    current_depth as int,
                ) * width == n_cells(depth as int),
        ;
        assert(ipix as int * width <= (ipix as int + 1) * width) by (nonlinear_arith)
            requires
                width >= 1,
        ;
        assert(n_cells(depth as int) <= 0x3000_0000_0000_0000) by {
            lemma_n_cells_bound(depth as int);
        }
        vstd::bits::lemma_u64_shl_is_mul(ipix, shift);
        vstd::bits::lemma_u64_shl_is_mul((ipix + 1) as u64, shift);
        assert(ipix as int * width >= 0) by (nonlinear_arith)
            requires
                width >= 1 && ipix as int >= 0,
        ;
    }
    let first = ipix << shift;
    let last = (ipix + 1) << shift;
    let mut out: Vec<u64> = Vec::new();
    let mut c = first;
    proof {
        assert((ipix as int + 1) * width == ipix as int * width + width) by (nonlinear_arith);
    }
    while c < last
        invariant
            first <= c <= last,
            first as int == ipix as int * width,
            last as int == first as int + width,
            width == pow2((2 * (depth - current_depth)) as nat) as int,
            out@ =~= Seq::new((c - first) as nat, |k: int| (first as int + k) as u64),
        decreases last - c,
    {
        proof {
            assert(Seq::new((c - first) as nat + 1, |k: int| (first as int + k) as u64)
                =~= Seq::new((c - first) as nat, |k: int| (first as int + k) as u64).push(c));
        }
        out.push(c);
        c = c + 1;
    }
    out
}

/// Cell counts at two depths are related by the subdivision factor.
proof fn lemma_pow2_products(coarse: int, fine: int)
    requires
        0 <= coarse < fine <= 29,
    ensures
        n_cells(coarse) * (pow2((2 * (fine - coarse)) as nat) as int) == n_cells(fine),
{
    vstd::arithmetic::power2::lemma_pow2_adds((2 * coarse) as nat, (2 * (fine - coarse)) as nat);
    assert(n_cells(coarse) * (pow2((2 * (fine - coarse)) as nat) as int) == 12 * (pow2(
        (2 * coarse) as nat,
    ) * pow2((2 * (fine - coarse)) as nat)) as int) by (nonlinear_arith);
}

} // verus!
