//! The arithmetic-progression ("nth formula") resolver: it turns a predicate's
//! step and offset, together with a parent's child count, into the ascending
//! unique set of zero-based sibling positions the formula selects.

use vstd::prelude::*;
use crate::tree::sorted_strict;

verus! {

/// The formula `step * n + offset` (for some occurrence count `n >= 0`) hits
/// the 1-based position `i + 1`. Without a step, the offset alone names the
/// position.
pub open spec fn nth_allows(step: Option<i64>, offset: i64, i: nat) -> bool {
    match step {
        None => offset == i + 1,
        Some(s) => exists|n: int| n >= 0 && #[trigger] (s * n) + offset == i + 1,
    }
}

/// Reads the literal offset of a predicate that carries no step formula. The
/// rule grammar guarantees one of step and offset is present, so a missing
/// offset is a construction-time programming error, ruled out up front.
pub fn get_index(index: &Option<i64>) -> (r: i64)
    requires
        index.is_some(),
    ensures
        r == index.unwrap(),
{
    match index {
        Some(v) => *v,
        None => vstd::pervasive::unreached(),
    }
}

/// Whether `s * n == d` for some `n >= 0`, decided by sign cases and an
/// unsigned divisibility test.
fn divides_nonneg(s: i64, d: i128) -> (b: bool)
    requires
        s != 0,
        -0x8000_0000_0000_0000_0000i128 <= d <= 0x8000_0000_0000_0000_0000i128,
    ensures
        b == exists|n: int| n >= 0 && #[trigger] (s * n) == d,
{
    let sw: i128 = s as i128;
    if d == 0 {
        proof {
            assert(s * 0 == 0) by (nonlinear_arith);
        }
        true
    } else if s > 0 && d > 0 {
        let q: u128 = (d as u128) / (sw as u128);
        let r: u128 = (d as u128) % (sw as u128);
        proof {
            vstd::arithmetic::div_mod::lemma_fundamental_div_mod(d as int, sw as int);
            if r == 0 {
                assert(d as int == sw * ((d as int) / (sw as int)));
                assert((d as int) / (sw as int) >= 0) by {
                    vstd::arithmetic::div_mod::lemma_div_pos_is_pos(d as int, sw as int);
                }
            } else {
                assert forall|n: int| n >= 0 implies #[trigger] (s * n) != d by {
                    if s * n == d {
                        vstd::arithmetic::div_mod::lemma_fundamental_div_mod_converse(
                            d as int,
                            s as int,
                            n,
                            0,
                        );
                    }
                }
            }
        }
        r == 0
    } else if s < 0 && d < 0 {
        let q: u128 = ((-d) as u128) / ((-sw) as u128);
        let r: u128 = ((-d) as u128) % ((-sw) as u128);
        proof {
            let sp = -(s as int);
            let dp = -(d as int);
            vstd::arithmetic::div_mod::lemma_fundamental_div_mod(dp, sp);
            if r == 0 {
                let n = dp / sp;
                assert(dp == sp * n);
                assert(n >= 0) by {
                    vstd::arithmetic::div_mod::lemma_div_pos_is_pos(dp, sp);
                }
                assert(s * n == -(sp * n)) by (nonlinear_arith)
                    requires
                        sp == -(s as int),
                ;
                assert(s * n == d);
            } else {
                assert forall|n: int| n >= 0 implies #[trigger] (s * n) != d by {
                    if s * n == d {
                        assert(sp * n == dp) by (nonlinear_arith)
                            requires
                                s * n == d,
                                sp == -s,
                                dp == -d,
                        ;
                        vstd::arithmetic::div_mod::lemma_fundamental_div_mod_converse(dp, sp, n, 0);
                    }
                }
            }
        }
        r == 0
    } else {
        // the step and the distance have opposite signs: no occurrence count
        // n >= 0 can bridge them
        proof {
            assert forall|n: int| n >= 0 implies #[trigger] (s * n) != d by {
                if s > 0 {
                    assert(s * n >= 0) by (nonlinear_arith)
                        requires
                            s > 0,
                            n >= 0,
                    ;
                } else {
                    assert(s * n <= 0) by (nonlinear_arith)
                        requires
                            s < 0,
                            n >= 0,
                    ;
                }
            }
        }
        false
    }
}

/// Whether the formula selects the zero-based position `i`.
fn allows_position(step: Option<i64>, offset: i64, i: usize) -> (b: bool)
    requires
        i < usize::MAX,
    ensures
        b == nth_allows(step, offset, i as nat),
{
    let pos: i128 = (i as i128) + 1;
    let d: i128 = pos - (offset as i128);
    match step {
        None => d == 0,
        Some(s) => {
            if s == 0 {
                proof {
                    if d == 0 {
                        assert((s as int) * 0 == 0) by (nonlinear_arith);
                    } else {
                        assert forall|n: int| n >= 0 implies #[trigger] ((s as int) * n) + offset
                            != i + 1 by {
                            assert((s as int) * n == 0) by (nonlinear_arith)
                                requires
                                    s == 0,
                            ;
                        }
                    }
                }
                d == 0
            } else {
                let b = divides_nonneg(s, d);
                proof {
                    assert forall|n: int|
                        #[trigger] (s * n) == (d as int) <==> (s * n) + offset == i + 1 by {}
                }
                b
            }
        },
    }
}

/// Membership of a (mathematical) position in an allowed-index set.
pub open spec fn allow_has(allow: Seq<usize>, d: int) -> bool {
    exists|k: int| 0 <= k < allow.len() && (#[trigger] allow[k]) == d
}

/// A machine position is in the set exactly when its mathematical value is.
pub proof fn lemma_allow_has_contains(allow: Seq<usize>, x: usize)
    ensures
        allow_has(allow, x as int) <==> allow.contains(x),
{
    if allow_has(allow, x as int) {
        let k = choose|k: int| 0 <= k < allow.len() && (#[trigger] allow[k]) == x as int;
        assert(allow[k] == x);
    }
    if allow.contains(x) {
        let k = choose|k: int| 0 <= k < allow.len() && allow[k] == x;
        assert((#[trigger] allow[k]) == x as int);
    }
}

/// Resolves the formula against a parent's child count `total`: the ascending,
/// duplicate-free list of all zero-based positions below `total` the formula
/// selects.
pub fn get_allowed_indexs(step: Option<i64>, offset: Option<i64>, total: usize) -> (r: Vec<usize>)
    ensures
        sorted_strict(r@),
        forall|k: int| 0 <= k < r@.len() ==> r@[k] < total,
        forall|i: usize|
            i < total ==> (r@.contains(i) <==> nth_allows(step, spec_offset(offset), i as nat)),
        forall|d: int|
            0 <= d < total ==> (allow_has(r@, d) <==> nth_allows(
                step,
                spec_offset(offset),
                d as nat,
            )),
{
    let off: i64 = match offset {
        Some(v) => v,
        None => 0,
    };
    let mut r: Vec<usize> = Vec::new();
    let mut i: usize = 0;
    while i < total
        invariant
            i <= total,
            forall|k: int| 0 <= k < r@.len() ==> r@[k] < i,
            sorted_strict(r@),
            off == spec_offset(offset),
            forall|x: usize| x < i ==> (r@.contains(x) <==> nth_allows(step, off, x as nat)),
        decreases total - i,
    {
        if allows_position(step, off, i) {
            let ghost old_r = r@;
            r.push(i);
            proof {
                assert forall|x: usize| x < i + 1 implies (r@.contains(x) <==> nth_allows(
                    step,
                    off,
                    x as nat,
                )) by {
                    if x < i {
                        assert(old_r.contains(x) ==> r@.contains(x)) by {
                            if old_r.contains(x) {
                                let k = choose|k: int|
                                    0 <= k < old_r.len() && old_r[k] == x;
                                assert(r@[k] == x);
                            }
                        }
                        assert(r@.contains(x) ==> old_r.contains(x)) by {
                            if r@.contains(x) {
                                let k = choose|k: int| 0 <= k < r@.len() && r@[k] == x;
                                assert(k < old_r.len());  // x != i, so not the pushed slot
                                assert(old_r[k] == x);
                            }
                        }
                    } else {
                        assert(r@[r@.len() - 1] == x);
                    }
                }
            }
        } else {
            proof {
                assert forall|x: usize| x < i + 1 implies (r@.contains(x) <==> nth_allows(
                    step,
                    off,
                    x as nat,
                )) by {
                    if x == i {
                        if r@.contains(x) {
                            let k = choose|k: int| 0 <= k < r@.len() && r@[k] == x;
                        }
                    }
                }
            }
        }
        i = i + 1;
    }
    proof {
        assert forall|d: int| 0 <= d < total implies (allow_has(r@, d) <==> nth_allows(
            step,
            spec_offset(offset),
            d as nat,
        )) by {
            let x: usize = d as usize;
            lemma_allow_has_contains(r@, x);
        }
    }
    r
}

/// The offset a predicate's optional capture stands for: absent means zero.
pub open spec fn spec_offset(offset: Option<i64>) -> i64 {
    match offset {
        Some(v) => v,
        None => 0,
    }
}

/// Membership in a sorted allowed-index set, by binary search.
pub fn allow_contains(allow: &Vec<usize>, x: usize) -> (b: bool)
    requires
        sorted_strict(allow@),
    ensures
        b == allow@.contains(x),
{
    let mut lo: usize = 0;
    let mut hi: usize = allow.len();
    while lo < hi
        invariant
            lo <= hi <= allow@.len(),
            sorted_strict(allow@),
            forall|k: int| 0 <= k < lo ==> allow@[k] < x,
            forall|k: int| hi <= k < allow@.len() ==> allow@[k] > x,
        decreases hi - lo,
    {
        let mid = lo + (hi - lo) / 2;
        let v = allow[mid];
        if v == x {
            proof {
                assert(allow@[mid as int] == x);
            }
            return true;
        } else if v < x {
            lo = mid + 1;
        } else {
            hi = mid;
        }
    }
    proof {
        if allow@.contains(x) {
            let k = choose|k: int| 0 <= k < allow@.len() && allow@[k] == x;
        }
    }
    false
}

} // verus!
