use vstd::prelude::*;

use crate::construction::{arena_extends, lefts, rights, SurrealContext, SurrealStructure};
use crate::finite::{ill_formed, WellFormingError};
use crate::handle::{lemma_index, SurrealFinite};

verus! {

broadcast use {lemma_index, vstd::seq_lib::group_to_multiset_ensures};

/// Either a finite or an infinite surreal number.
pub enum SurrealElement {
    Finite(SurrealFinite),
    Infinite(Box<SurrealInfinite>),
}

impl SurrealElement {
    /// The finite number held.
    pub fn coerce_finite(&self) -> (r: SurrealFinite)
        requires
            self is Finite,
        ensures
            *self == SurrealElement::Finite(r),
    {
        match self {
            SurrealElement::Finite(s) => *s,
            SurrealElement::Infinite(_) => {
                proof {
                    assert(false);
                }
                SurrealFinite::from_index(0)
            },
        }
    }
}

/// A rule that produces the members of a left or right set one index at a time.
pub enum Production {
    /// The members of the list, in order.
    Listed(Vec<SurrealFinite>),
    /// The integers `1, 2, 3, ...`.
    Naturals,
    /// `{0 | 1}, {0 | {0 | 1}}, ...`: each member has `0` on the left and the
    /// previous member, starting from `1`, on the right.
    Halvings,
}

/// `h` is the integer `k`, built as `{ k - 1 | }` down to `{ | }`.
pub open spec fn is_integer(a: Seq<SurrealStructure>, h: SurrealFinite, k: nat) -> bool
    decreases k,
{
    &&& h.index() < a.len()
    &&& rights(a, h).len() == 0
    &&& if k == 0 {
        lefts(a, h).len() == 0
    } else {
        lefts(a, h).len() == 1 && is_integer(a, lefts(a, h)[0], (k - 1) as nat)
    }
}

/// `h` is the `k`-th halving: `1` for `k == 0`, else `{ 0 | previous }`.
pub open spec fn is_halving(a: Seq<SurrealStructure>, h: SurrealFinite, k: nat) -> bool
    decreases k,
{
    if k == 0 {
        is_integer(a, h, 1)
    } else {
        &&& h.index() < a.len()
        &&& lefts(a, h).len() == 1
        &&& is_integer(a, lefts(a, h)[0], 0)
        &&& rights(a, h).len() == 1
        &&& is_halving(a, rights(a, h)[0], (k - 1) as nat)
    }
}

/// `s` is what `p` produces for the indices below `n`.
pub open spec fn produces(a: Seq<SurrealStructure>, p: Production, n: nat, s: Seq<SurrealFinite>) -> bool {
    match p {
        Production::Listed(v) => s == v@.take(if n < v@.len() { n as int } else { v@.len() as int }),
        Production::Naturals => s.len() == n && forall|i: int|
            0 <= i < n ==> is_integer(a, #[trigger] s[i], (i + 1) as nat),
        Production::Halvings => s.len() == n && forall|i: int|
            0 <= i < n ==> is_halving(a, #[trigger] s[i], (i + 1) as nat),
    }
}

proof fn lemma_integer_stable(a: Seq<SurrealStructure>, b: Seq<SurrealStructure>, h: SurrealFinite, k: nat)
    requires
        arena_extends(a, b),
        is_integer(a, h, k),
    ensures
        is_integer(b, h, k),
    decreases k,
{
    assert(b[h.index()] == a[h.index()]);
    if k > 0 {
        lemma_integer_stable(a, b, lefts(a, h)[0], (k - 1) as nat);
    }
}

proof fn lemma_halving_stable(a: Seq<SurrealStructure>, b: Seq<SurrealStructure>, h: SurrealFinite, k: nat)
    requires
        arena_extends(a, b),
        is_halving(a, h, k),
    ensures
        is_halving(b, h, k),
    decreases k,
{
    if k == 0 {
        lemma_integer_stable(a, b, h, 1);
    } else {
        assert(b[h.index()] == a[h.index()]);
        lemma_integer_stable(a, b, lefts(a, h)[0], 0);
        lemma_halving_stable(a, b, rights(a, h)[0], (k - 1) as nat);
    }
}

proof fn lemma_produces_stable(
    a: Seq<SurrealStructure>,
    b: Seq<SurrealStructure>,
    p: Production,
    n: nat,
    s: Seq<SurrealFinite>,
)
    requires
        arena_extends(a, b),
        produces(a, p, n, s),
    ensures
        produces(b, p, n, s),
{
    match p {
        Production::Listed(_) => {},
        Production::Naturals => {
            assert forall|i: int| 0 <= i < n implies is_integer(b, #[trigger] s[i], (i + 1) as nat) by {
                lemma_integer_stable(a, b, s[i], (i + 1) as nat);
            }
        },
        Production::Halvings => {
            assert forall|i: int| 0 <= i < n implies is_halving(b, #[trigger] s[i], (i + 1) as nat) by {
                lemma_halving_stable(a, b, s[i], (i + 1) as nat);
            }
        },
    }
}

/// `{ x | }`, the successor of an integer.
fn successor(ctx: &mut SurrealContext, x: SurrealFinite, Ghost(k): Ghost<nat>) -> (r: SurrealFinite)
    requires
        old(ctx).wf(),
        is_integer(old(ctx).arena(), x, k),
    ensures
        final(ctx).wf(),
        old(ctx).mint_step(final(ctx)),
        is_integer(final(ctx).arena(), r, k + 1),
{
    let ghost a = ctx.arena();
    let v = vec![x];
    assert(v@ =~= seq![x]);
    let r = SurrealFinite::new_unchecked(ctx, v, Vec::new());
    proof {
        let l = lefts(ctx.arena(), r);
        assert(l.to_multiset().len() == l.len());
        assert(seq![x].to_multiset().len() == 1);
        assert(l.contains(l[0]));
        assert(l.to_multiset().count(l[0]) > 0);
        assert(seq![x].contains(l[0]));
        assert(seq![x][0] == x);
        assert(rights(ctx.arena(), r).to_multiset().len() == rights(ctx.arena(), r).len());
        lemma_integer_stable(a, ctx.arena(), x, k);
    }
    r
}

/// `{ 0 | x }`.
fn halve(ctx: &mut SurrealContext, zero: SurrealFinite, x: SurrealFinite, Ghost(k): Ghost<nat>) -> (r:
    SurrealFinite)
    requires
        old(ctx).wf(),
        is_integer(old(ctx).arena(), zero, 0),
        is_halving(old(ctx).arena(), x, k),
    ensures
        final(ctx).wf(),
        old(ctx).mint_step(final(ctx)),
        is_halving(final(ctx).arena(), r, k + 1),
{
    let ghost a = ctx.arena();
    let vl = vec![zero];
    let vr = vec![x];
    assert(vl@ =~= seq![zero]);
    assert(vr@ =~= seq![x]);
    let r = SurrealFinite::new_unchecked(ctx, vl, vr);
    proof {
        let b = ctx.arena();
        let l = lefts(b, r);
        let rr = rights(b, r);
        assert(l.to_multiset().len() == l.len());
        assert(seq![zero].to_multiset().len() == 1);
        assert(l.contains(l[0]));
        assert(l.to_multiset().count(l[0]) > 0);
        assert(seq![zero].contains(l[0]));
        assert(seq![zero][0] == zero);
        assert(rr.to_multiset().len() == rr.len());
        assert(seq![x].to_multiset().len() == 1);
        assert(rr.contains(rr[0]));
        assert(rr.to_multiset().count(rr[0]) > 0);
        assert(seq![x].contains(rr[0]));
        assert(seq![x][0] == x);
        lemma_integer_stable(a, b, zero, 0);
        lemma_halving_stable(a, b, x, k);
    }
    r
}

impl Production {
    /// The members for the indices below `n`; a list stops at its end.
    pub fn take(&self, ctx: &mut SurrealContext, n: usize) -> (r: Vec<SurrealFinite>)
        requires
            old(ctx).wf(),
            self matches Production::Listed(v) ==> old(ctx).contains_all(v@),
        ensures
            final(ctx).wf(),
            old(ctx).mint_step(final(ctx)),
            produces(final(ctx).arena(), *self, n as nat, r@),
            final(ctx).contains_all(r@),
    {
        let ghost c0 = *ctx;
        match self {
            Production::Listed(v) => {
                let m = if n < v.len() { n } else { v.len() };
                let mut out: Vec<SurrealFinite> = Vec::new();
                let mut i: usize = 0;
                while i < m
                    invariant
                        0 <= i <= m <= v@.len(),
                        out@ == v@.take(i as int),
                    decreases m - i,
                {
                    out.push(v[i]);
                    assert(v@.take(i as int + 1) =~= v@.take(i as int).push(v@[i as int]));
                    i = i + 1;
                }
                out
            },
            Production::Naturals => {
                let mut out: Vec<SurrealFinite> = Vec::new();
                let mut cur = SurrealFinite::zero(ctx);
                let mut i: usize = 0;
                while i < n
                    invariant
                        ctx.wf(),
                        c0.mint_step(ctx),
                        0 <= i <= n,
                        out@.len() == i,
                        forall|k: int| 0 <= k < i ==> is_integer(ctx.arena(), #[trigger] out@[k], (k + 1) as nat),
                        is_integer(ctx.arena(), cur, i as nat),
                    decreases n - i,
                {
                    let ghost c1 = *ctx;
                    let ghost before = out@;
                    cur = successor(ctx, cur, Ghost(i as nat));
                    out.push(cur);
                    proof {
                        assert forall|k: int| 0 <= k <= i implies is_integer(ctx.arena(), #[trigger] out@[k], (k + 1) as nat) by {
                            if k < i {
                                assert(out@[k] == before[k]);
                                lemma_integer_stable(c1.arena(), ctx.arena(), before[k], (k + 1) as nat);
                            }
                        }
                        c0.lemma_mint_trans(&c1, ctx);
                    }
                    i = i + 1;
                }
                out
            },
            Production::Halvings => {
                let mut out: Vec<SurrealFinite> = Vec::new();
                let zero = SurrealFinite::zero(ctx);
                let ghost c1 = *ctx;
                let mut cur = successor(ctx, zero, Ghost(0));
                proof {
                    lemma_integer_stable(c1.arena(), ctx.arena(), zero, 0);
                    c0.lemma_mint_trans(&c1, ctx);
                }
                let mut i: usize = 0;
                while i < n
                    invariant
                        ctx.wf(),
                        c0.mint_step(ctx),
                        is_integer(ctx.arena(), zero, 0),
                        0 <= i <= n,
                        out@.len() == i,
                        forall|k: int| 0 <= k < i ==> is_halving(ctx.arena(), #[trigger] out@[k], (k + 1) as nat),
                        is_halving(ctx.arena(), cur, i as nat),
                    decreases n - i,
                {
                    let ghost c2 = *ctx;
                    let ghost before = out@;
                    cur = halve(ctx, zero, cur, Ghost(i as nat));
                    out.push(cur);
                    proof {
                        assert forall|k: int| 0 <= k <= i implies is_halving(ctx.arena(), #[trigger] out@[k], (k + 1) as nat) by {
                            if k < i {
                                assert(out@[k] == before[k]);
                                lemma_halving_stable(c2.arena(), ctx.arena(), before[k], (k + 1) as nat);
                            }
                        }
                        lemma_integer_stable(c2.arena(), ctx.arena(), zero, 0);
                        c0.lemma_mint_trans(&c2, ctx);
                    }
                    i = i + 1;
                }
                out
            },
        }
    }
}

/// A surreal number whose left and right sets are produced by rules, possibly
/// without end.
pub struct SurrealInfinite {
    pub left: Production,
    pub right: Production,
    pub name: Option<String>,
    pub value: Option<SurrealFinite>,
}

impl SurrealInfinite {
    /// The number with the given production rules and display name.
    pub fn new(left: Production, right: Production, name: Option<String>) -> (r: SurrealInfinite)
        ensures
            r.left == left,
            r.right == right,
            r.name == name,
            r.value is None,
    {
        SurrealInfinite { left, right, name, value: None }
    }

    /// The finite number `x`, with its options listed.
    pub fn from_finite(ctx: &SurrealContext, x: SurrealFinite) -> (r: SurrealInfinite)
        requires
            ctx.contains(x),
        ensures
            r.left == Production::Listed(r.left->Listed_0) && r.left->Listed_0@ == lefts(ctx.arena(), x),
            r.right == Production::Listed(r.right->Listed_0) && r.right->Listed_0@ == rights(ctx.arena(), x),
            r.name is None,
            r.value == Some(x),
    {
        SurrealInfinite {
            left: Production::Listed(x.iter_left(ctx)),
            right: Production::Listed(x.iter_right(ctx)),
            name: None,
            value: Some(x),
        }
    }

    /// `ω = { 1, 2, 3, ... | }`.
    pub fn omega() -> (r: SurrealInfinite)
        ensures
            r.left == Production::Naturals,
            r.right == Production::Listed(r.right->Listed_0) && r.right->Listed_0@.len() == 0,
            r.name matches Some(s) && s@ == "ω"@,
            r.value is None,
    {
        SurrealInfinite::new(Production::Naturals, Production::Listed(Vec::new()), Some(String::from_str("ω")))
    }

    /// `ε = { 0 | 1/2, 1/4, ... }`.
    pub fn epsilon(ctx: &mut SurrealContext) -> (r: SurrealInfinite)
        requires
            old(ctx).wf(),
        ensures
            final(ctx).wf(),
            old(ctx).mint_step(final(ctx)),
            r.left == Production::Listed(r.left->Listed_0) && r.left->Listed_0@.len() == 1,
            is_integer(final(ctx).arena(), r.left->Listed_0@[0], 0),
            r.right == Production::Halvings,
            r.name matches Some(s) && s@ == "ϵ"@,
            r.value is None,
    {
        let zero = SurrealFinite::zero(ctx);
        proof {
            assert(rights(ctx.arena(), zero).len() == 0);
        }
        SurrealInfinite::new(Production::Listed(vec![zero]), Production::Halvings, Some(String::from_str("ϵ")))
    }

    /// The finite number whose sets are the first `precision` members of each
    /// production, or `None` when they are not well formed.
    pub fn to_finite(&self, ctx: &mut SurrealContext, precision: usize) -> (r: Option<SurrealFinite>)
        requires
            old(ctx).wf(),
            self.left matches Production::Listed(v) ==> old(ctx).contains_all(v@),
            self.right matches Production::Listed(v) ==> old(ctx).contains_all(v@),
        ensures
            final(ctx).wf(),
            old(ctx).mint_step(final(ctx)),
            exists|l: Seq<SurrealFinite>, rt: Seq<SurrealFinite>|
                {
                    &&& produces(final(ctx).arena(), self.left, precision as nat, l)
                    &&& produces(final(ctx).arena(), self.right, precision as nat, rt)
                    &&& (r is None <==> ill_formed(final(ctx).arena(), l, rt))
                    &&& (r matches Some(x) ==> {
                        &&& final(ctx).contains(x)
                        &&& lefts(final(ctx).arena(), x).to_multiset() == l.to_multiset()
                        &&& rights(final(ctx).arena(), x).to_multiset() == rt.to_multiset()
                    })
                },
    {
        let ghost c0 = *ctx;
        let l = self.left.take(ctx, precision);
        let ghost c1 = *ctx;
        let rt = self.right.take(ctx, precision);
        let ghost c2 = *ctx;
        let ghost (ls, rs) = (l@, rt@);
        let res = SurrealFinite::new(ctx, l, rt);
        proof {
            c0.lemma_mint_trans(&c1, &c2);
            c0.lemma_mint_trans(&c2, ctx);
            lemma_produces_stable(c1.arena(), ctx.arena(), self.left, precision as nat, ls);
            lemma_produces_stable(c2.arena(), ctx.arena(), self.right, precision as nat, rs);
        }
        match res {
            Ok(x) => Some(x),
            Err(WellFormingError) => None,
        }
    }

    /// This number as an element of a set.
    pub fn to_element(self) -> (r: SurrealElement)
        ensures
            r == SurrealElement::Infinite(Box::new(self)),
    {
        SurrealElement::Infinite(Box::new(self))
    }
}

} // verus!
