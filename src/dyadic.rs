use vstd::prelude::*;

use crate::construction::{lefts, rights, SurrealContext, SurrealStructure};
use crate::handle::{lemma_index, SurrealFinite};

verus! {

broadcast use lemma_index;

/// `2^e`.
pub open spec fn two_to(e: nat) -> int
    decreases e,
{
    if e == 0 {
        1
    } else {
        2 * two_to((e - 1) as nat)
    }
}

/// `v` fits in `i128`.
pub open spec fn in_range(v: int) -> bool {
    i128::MIN <= v <= i128::MAX
}

/// `(n, e)` stands for `n / 2^e`; this is `v + d`, at the exponent of `v`.
pub open spec fn shift(v: (int, nat), d: int) -> (int, nat) {
    (v.0 + d * two_to(v.1), v.1)
}

/// The larger exponent of `u` and `v`.
pub open spec fn top(u: (int, nat), v: (int, nat)) -> nat {
    if u.1 >= v.1 {
        u.1
    } else {
        v.1
    }
}

/// `(u + v) / 2`, at one more than the larger exponent.
pub open spec fn mean(u: (int, nat), v: (int, nat)) -> (int, nat) {
    let e = top(u, v);
    (u.0 * two_to((e - u.1) as nat) + v.0 * two_to((e - v.1) as nat), e + 1)
}

/// The exact value of `x` by the projection rule: `0` without options; one
/// below the least right option or one above the greatest left option when
/// the other side is empty; else the mean of the two.
pub open spec fn dyadic(a: Seq<SurrealStructure>, x: SurrealFinite) -> (int, nat)
    decreases x.index(),
{
    let (l, r) = (lefts(a, x), rights(a, x));
    if l.len() == 0 && r.len() == 0 {
        (0, 0)
    } else if l.len() == 0 {
        if 0 <= r[0].index() < x.index() {
            shift(dyadic(a, r[0]), -1)
        } else {
            (0, 0)
        }
    } else if r.len() == 0 {
        if 0 <= l.last().index() < x.index() {
            shift(dyadic(a, l.last()), 1)
        } else {
            (0, 0)
        }
    } else {
        if 0 <= l.last().index() < x.index() && 0 <= r[0].index() < x.index() {
            mean(dyadic(a, l.last()), dyadic(a, r[0]))
        } else {
            (0, 0)
        }
    }
}

/// Every step of the projection of `x` fits in `i128`, and every exponent in `u32`.
pub open spec fn fits(a: Seq<SurrealStructure>, x: SurrealFinite) -> bool
    decreases x.index(),
{
    let (l, r) = (lefts(a, x), rights(a, x));
    if l.len() == 0 && r.len() == 0 {
        true
    } else if l.len() == 0 {
        &&& 0 <= r[0].index() < x.index()
        &&& fits(a, r[0])
        &&& in_range(two_to(dyadic(a, r[0]).1))
        &&& in_range(shift(dyadic(a, r[0]), -1).0)
    } else if r.len() == 0 {
        &&& 0 <= l.last().index() < x.index()
        &&& fits(a, l.last())
        &&& in_range(two_to(dyadic(a, l.last()).1))
        &&& in_range(shift(dyadic(a, l.last()), 1).0)
    } else {
        let (u, v) = (dyadic(a, l.last()), dyadic(a, r[0]));
        let e = top(u, v);
        &&& 0 <= l.last().index() < x.index()
        &&& 0 <= r[0].index() < x.index()
        &&& fits(a, l.last())
        &&& fits(a, r[0])
        &&& in_range(two_to((e - u.1) as nat))
        &&& in_range(two_to((e - v.1) as nat))
        &&& in_range(u.0 * two_to((e - u.1) as nat))
        &&& in_range(v.0 * two_to((e - v.1) as nat))
        &&& in_range(mean(u, v).0)
        &&& e + 1 <= u32::MAX
    }
}

proof fn lemma_two_to_grows(i: nat, k: nat)
    requires
        i <= k,
    ensures
        1 <= two_to(i) <= two_to(k),
    decreases k,
{
    if k > 0 && i < k {
        lemma_two_to_grows(i, (k - 1) as nat);
    } else if k > 0 {
        lemma_two_to_grows((k - 1) as nat, (k - 1) as nat);
    }
}

/// `2^e`, if it fits in `i128`.
fn power_of_two(e: u32) -> (r: Option<i128>)
    ensures
        r is Some <==> in_range(two_to(e as nat)),
        r matches Some(v) ==> v == two_to(e as nat),
{
    let mut v: i128 = 1;
    let mut i: u32 = 0;
    while i < e
        invariant
            0 <= i <= e,
            v == two_to(i as nat),
        decreases e - i,
    {
        proof {
            lemma_two_to_grows(i as nat, i as nat);
        }
        match v.checked_mul(2) {
            Some(w) => {
                v = w;
            },
            None => {
                proof {
                    lemma_two_to_grows((i + 1) as nat, e as nat);
                }
                return None;
            },
        }
        i = i + 1;
    }
    proof {
        lemma_two_to_grows(e as nat, e as nat);
    }
    Some(v)
}

/// The exact value of `x` as `(n, e)`, standing for `n / 2^e`, or `None` when
/// a step overflows.
pub fn to_dyadic(ctx: &SurrealContext, x: SurrealFinite) -> (r: Option<(i128, u32)>)
    requires
        ctx.wf(),
        ctx.contains(x),
    ensures
        r is Some <==> fits(ctx.arena(), x),
        r matches Some(v) ==> v.0 == dyadic(ctx.arena(), x).0 && v.1 == dyadic(ctx.arena(), x).1,
    decreases x.index(),
{
    let ghost a = ctx.arena();
    let l = x.iter_left(ctx);
    let r = x.iter_right(ctx);
    if l.len() == 0 && r.len() == 0 {
        return Some((0, 0));
    }
    if l.len() == 0 {
        assert(a[x.index()].right@[0].index() < x.index());
        let (n, e) = match to_dyadic(ctx, r[0]) {
            Some(v) => v,
            None => return None,
        };
        let p = match power_of_two(e) {
            Some(p) => p,
            None => return None,
        };
        return match n.checked_sub(p) {
            Some(m) => Some((m, e)),
            None => None,
        };
    }
    let last = l[l.len() - 1];
    assert(a[x.index()].left@[l@.len() - 1].index() < x.index());
    if r.len() == 0 {
        let (n, e) = match to_dyadic(ctx, last) {
            Some(v) => v,
            None => return None,
        };
        let p = match power_of_two(e) {
            Some(p) => p,
            None => return None,
        };
        return match n.checked_add(p) {
            Some(m) => Some((m, e)),
            None => None,
        };
    }
    assert(a[x.index()].right@[0].index() < x.index());
    let (n1, e1) = match to_dyadic(ctx, last) {
        Some(v) => v,
        None => return None,
    };
    let (n2, e2) = match to_dyadic(ctx, r[0]) {
        Some(v) => v,
        None => return None,
    };
    let e = if e1 >= e2 { e1 } else { e2 };
    let p1 = match power_of_two(e - e1) {
        Some(p) => p,
        None => return None,
    };
    let p2 = match power_of_two(e - e2) {
        Some(p) => p,
        None => return None,
    };
    let m1 = match n1.checked_mul(p1) {
        Some(m) => m,
        None => return None,
    };
    let m2 = match n2.checked_mul(p2) {
        Some(m) => m,
        None => return None,
    };
    let s = match m1.checked_add(m2) {
        Some(s) => s,
        None => return None,
    };
    if e == u32::MAX {
        return None;
    }
    Some((s, e + 1))
}

} // verus!
