//! Small helpers over vectors of modifier ids and saturating arithmetic.

use vstd::prelude::*;

verus! {

/// `s` is strictly increasing (hence free of duplicates): the canonical
/// vector form of a finite set of ids.
pub open spec fn strictly_sorted(s: Seq<u8>) -> bool {
    forall|i: int, j: int| 0 <= i < j < s.len() ==> s[i] < s[j]
}

/// Every element of `s` is smaller than every element from index `i` on.
pub proof fn lemma_sorted_from_adjacent(s: Seq<u8>)
    requires
        forall|k: int| 0 <= k < s.len() - 1 ==> #[trigger] s[k] < s[k + 1],
    ensures
        strictly_sorted(s),
{
    assert forall|i: int, j: int| 0 <= i < j < s.len() implies s[i] < s[j] by {
        lemma_sorted_le(s, i, j);
    }
}

proof fn lemma_sorted_le(s: Seq<u8>, i: int, j: int)
    requires
        forall|k: int| 0 <= k < s.len() - 1 ==> #[trigger] s[k] < s[k + 1],
        0 <= i < j < s.len(),
    ensures
        s[i] < s[j],
    decreases j - i,
{
    if i + 1 < j {
        lemma_sorted_le(s, i + 1, j);
    }
}

/// Whether `x` occurs in `v`.
pub fn contains_id(v: &Vec<u8>, x: u8) -> (r: bool)
    ensures
        r == v@.contains(x),
{
    let mut i: usize = 0;
    while i < v.len()
        invariant
            0 <= i <= v@.len(),
            forall|j: int| 0 <= j < i ==> v@[j] != x,
        decreases v@.len() - i,
    {
        if v[i] == x {
            assert(v@.contains(x));
            return true;
        }
        i += 1;
    }
    assert(!v@.contains(x));
    false
}

/// Whether the two vectors hold the same ids in the same order.
pub fn ids_eq(a: &Vec<u8>, b: &Vec<u8>) -> (r: bool)
    ensures
        r == (a@ == b@),
{
    if a.len() != b.len() {
        return false;
    }
    let mut i: usize = 0;
    while i < a.len()
        invariant
            a@.len() == b@.len(),
            0 <= i <= a@.len(),
            forall|j: int| 0 <= j < i ==> a@[j] == b@[j],
        decreases a@.len() - i,
    {
        if a[i] != b[i] {
            return false;
        }
        i += 1;
    }
    proof {
        assert(a@ =~= b@);
    }
    true
}

/// First position in `s[..n]` holding an id not below `x`.
pub open spec fn spec_lb_upto(s: Seq<u8>, x: u8, n: int) -> Option<int>
    decreases n,
{
    if n <= 0 {
        None
    } else {
        match spec_lb_upto(s, x, n - 1) {
            Some(i) => Some(i),
            None => if s[n - 1] >= x {
                Some(n - 1)
            } else {
                None
            },
        }
    }
}

/// First position holding an id not below `x`.
pub open spec fn spec_lb(s: Seq<u8>, x: u8) -> Option<int> {
    spec_lb_upto(s, x, s.len() as int)
}

pub proof fn lemma_lb_props(s: Seq<u8>, x: u8, n: int)
    requires
        0 <= n <= s.len(),
    ensures
        match spec_lb_upto(s, x, n) {
            Some(i) => 0 <= i < n && s[i] >= x && forall|j: int| 0 <= j < i ==> s[j] < x,
            None => forall|j: int| 0 <= j < n ==> s[j] < x,
        },
    decreases n,
{
    if n > 0 {
        lemma_lb_props(s, x, n - 1);
    }
}

proof fn lemma_lb_extend(s: Seq<u8>, x: u8, i: int, n: int)
    requires
        0 <= i < n <= s.len(),
        spec_lb_upto(s, x, i) is None,
        s[i] >= x,
    ensures
        spec_lb_upto(s, x, n) == Some(i),
    decreases n,
{
    if n - 1 > i {
        lemma_lb_extend(s, x, i, n - 1);
    }
}

/// Place `x` into the strictly sorted id vector `s`, keeping it sorted and
/// free of duplicates.
pub open spec fn spec_insert_sorted(s: Seq<u8>, x: u8) -> Seq<u8> {
    match spec_lb(s, x) {
        None => s.push(x),
        Some(i) => if s[i] == x {
            s
        } else {
            s.insert(i, x)
        },
    }
}

pub proof fn lemma_insert_sorted_props(s: Seq<u8>, x: u8)
    requires
        strictly_sorted(s),
    ensures
        strictly_sorted(spec_insert_sorted(s, x)),
        forall|y: u8| spec_insert_sorted(s, x).contains(y) <==> (s.contains(y) || y == x),
        spec_insert_sorted(s, x).len() == s.len() + (if s.contains(x) {
            0int
        } else {
            1int
        }),
        spec_insert_sorted(s, x).contains(x),
{
    lemma_lb_props(s, x, s.len() as int);
    let r = spec_insert_sorted(s, x);
    match spec_lb(s, x) {
        None => {
            assert forall|y: u8| r.contains(y) <==> (s.contains(y) || y == x) by {
                if s.contains(y) {
                    let j = choose|j: int| 0 <= j < s.len() && s[j] == y;
                    assert(r[j] == y);
                }
                if y == x {
                    assert(r[s.len() as int] == x);
                }
                if r.contains(y) {
                    let j = choose|j: int| 0 <= j < r.len() && r[j] == y;
                    if j < s.len() {
                        assert(s[j] == y);
                    }
                }
            }
            assert(r.contains(x)) by {
                assert(r[s.len() as int] == x);
            }
            if s.contains(x) {
                let j = choose|j: int| 0 <= j < s.len() && s[j] == x;
                assert(false);
            }
        },
        Some(i) => {
            if s[i] == x {
                assert(r.contains(x)) by {
                    assert(r[i] == x);
                }
            } else {
                assert(s[i] > x);
                assert forall|a: int, b: int| 0 <= a < b < r.len() implies r[a] < r[b] by {
                    if a < i && b < i {
                    } else if a < i && b == i {
                    } else if a < i && b > i {
                        assert(r[a] == s[a] && r[b] == s[b - 1]);
                    } else if a == i && b > i {
                        assert(r[b] == s[b - 1] && s[b - 1] >= s[i]);
                    } else if a > i && b > i {
                        assert(r[a] == s[a - 1] && r[b] == s[b - 1]);
                    }
                }
                assert forall|y: u8| r.contains(y) <==> (s.contains(y) || y == x) by {
                    if s.contains(y) {
                        let j = choose|j: int| 0 <= j < s.len() && s[j] == y;
                        if j < i {
                            assert(r[j] == y);
                        } else {
                            assert(r[j + 1] == y);
                        }
                    }
                    if y == x {
                        assert(r[i] == x);
                    }
                    if r.contains(y) {
                        let j = choose|j: int| 0 <= j < r.len() && r[j] == y;
                        if j < i {
                            assert(s[j] == y);
                        } else if j == i {
                        } else {
                            assert(s[j - 1] == y);
                        }
                    }
                }
                assert(r.contains(x)) by {
                    assert(r[i] == x);
                }
                if s.contains(x) {
                    let j = choose|j: int| 0 <= j < s.len() && s[j] == x;
                    if j < i {
                        assert(s[j] < x);
                    } else if j > i {
                        assert(s[i] < s[j]);
                    }
                    assert(false);
                }
            }
        },
    }
}

/// Insert `x` into the strictly sorted vector `v`, keeping it sorted; a
/// duplicate leaves the vector unchanged.
pub fn insert_sorted(v: &mut Vec<u8>, x: u8)
    ensures
        final(v)@ == spec_insert_sorted(old(v)@, x),
{
    let mut i: usize = 0;
    while i < v.len()
        invariant
            v@ == old(v)@,
            0 <= i <= v@.len(),
            spec_lb_upto(v@, x, i as int) is None,
        decreases v@.len() - i,
    {
        if v[i] >= x {
            proof {
                lemma_lb_extend(v@, x, i as int, v@.len() as int);
            }
            if v[i] == x {
                return ;
            }
            v.insert(i, x);
            return ;
        }
        i += 1;
    }
    v.push(x);
}

/// A fresh copy of an id vector.
pub fn copy_ids(v: &Vec<u8>) -> (r: Vec<u8>)
    ensures
        r@ == v@,
{
    let mut r: Vec<u8> = Vec::new();
    let mut i: usize = 0;
    while i < v.len()
        invariant
            0 <= i <= v@.len(),
            r@ == v@.subrange(0, i as int),
        decreases v@.len() - i,
    {
        r.push(v[i]);
        proof {
            assert(r@ =~= v@.subrange(0, i + 1));
        }
        i += 1;
    }
    proof {
        assert(v@.subrange(0, v@.len() as int) =~= v@);
    }
    r
}

/// A one-element id vector.
pub fn single_id(x: u8) -> (r: Vec<u8>)
    ensures
        r@ == seq![x],
{
    let mut r: Vec<u8> = Vec::new();
    r.push(x);
    proof {
        assert(r@ =~= seq![x]);
    }
    r
}

/// Addition that stops at `u64::MAX` instead of wrapping.
pub open spec fn sat_add(a: u64, b: u64) -> u64 {
    if a + b > u64::MAX {
        u64::MAX
    } else {
        (a + b) as u64
    }
}

/// Multiplication that stops at `u64::MAX` instead of wrapping.
pub open spec fn sat_mul(a: u64, b: u64) -> u64 {
    if a * b > u64::MAX {
        u64::MAX
    } else {
        (a * b) as u64
    }
}

pub fn saturating_add(a: u64, b: u64) -> (r: u64)
    ensures
        r == sat_add(a, b),
{
    if a > u64::MAX - b {
        u64::MAX
    } else {
        a + b
    }
}

pub fn saturating_mul(a: u64, b: u64) -> (r: u64)
    ensures
        r == sat_mul(a, b),
{
    if b == 0 {
        return 0;
    }
    if a > u64::MAX / b {
        proof {
            assert(a * b > u64::MAX) by (nonlinear_arith)
                requires
                    b > 0,
                    a > u64::MAX / b,
                    u64::MAX / b == u64::MAX as int / b as int,
            {
            }
        }
        u64::MAX
    } else {
        proof {
            assert(a * b <= u64::MAX) by (nonlinear_arith)
                requires
                    b > 0,
                    a <= u64::MAX / b,
                    u64::MAX / b == u64::MAX as int / b as int,
            {
            }
        }
        a * b
    }
}

} // verus!
