use vstd::prelude::*;

use crate::handle::{lemma_index, SurrealFinite};
use crate::theorems::is_number;
use crate::construction::{
    arena_extends, arena_wf, cache_insert, cache_left, cache_right, le, lefts, lemma_le_stable, leq,
    rights, table_extends, SurrealContext, SurrealStructure,
};

verus! {

broadcast use {lemma_index, vstd::seq_lib::group_to_multiset_ensures};

/// Returned when a left option is not strictly below a right option.
#[derive(Clone, Copy, Debug)]
pub struct WellFormingError;

/// `x < y`: `x <= y` and not `y <= x`.
pub open spec fn lt(a: Seq<SurrealStructure>, x: SurrealFinite, y: SurrealFinite) -> bool {
    le(a, x, y) && !le(a, y, x)
}

/// No element of `s` is strictly above the one after it.
pub open spec fn sorted(a: Seq<SurrealStructure>, s: Seq<SurrealFinite>) -> bool {
    forall|i: int| 0 <= i < s.len() - 1 ==> !lt(a, #[trigger] s[i + 1], s[i])
}

/// Some left option is at least some right option.
pub open spec fn ill_formed(
    a: Seq<SurrealStructure>,
    left: Seq<SurrealFinite>,
    right: Seq<SurrealFinite>,
) -> bool {
    exists|i: int, j: int|
        0 <= i < left.len() && 0 <= j < right.len() && le(a, #[trigger] right[j], #[trigger] left[i])
}

proof fn lemma_sorted_stable(a: Seq<SurrealStructure>, b: Seq<SurrealStructure>, s: Seq<SurrealFinite>)
    requires
        arena_wf(a),
        arena_extends(a, b),
        sorted(a, s),
        forall|i: int| 0 <= i < s.len() ==> #[trigger] s[i].index() < a.len(),
    ensures
        sorted(b, s),
{
    assert forall|i: int| 0 <= i < s.len() - 1 implies !lt(b, #[trigger] s[i + 1], s[i]) by {
        lemma_le_stable(a, b, s[i], s[i + 1]);
        lemma_le_stable(a, b, s[i + 1], s[i]);
    }
}

proof fn lemma_built_number(
    a: Seq<SurrealStructure>,
    x: SurrealFinite,
    left: Seq<SurrealFinite>,
    right: Seq<SurrealFinite>,
)
    requires
        arena_wf(a),
        x.index() < a.len(),
        lefts(a, x).to_multiset() == left.to_multiset(),
        rights(a, x).to_multiset() == right.to_multiset(),
        forall|p: int, q: int|
            0 <= p < left.len() && 0 <= q < right.len() ==> !le(a, #[trigger] right[q], #[trigger] left[p]),
    ensures
        (forall|i: int| 0 <= i < left.len() ==> is_number(a, #[trigger] left[i])) && (forall|j: int|
            0 <= j < right.len() ==> is_number(a, #[trigger] right[j])) ==> is_number(a, x),
{
    let (l, r) = (lefts(a, x), rights(a, x));
    assert forall|i: int| 0 <= i < l.len() implies #[trigger] left.contains(l[i]) by {
        assert(l.contains(l[i]));
        assert(l.to_multiset().count(l[i]) > 0);
    }
    assert forall|j: int| 0 <= j < r.len() implies #[trigger] right.contains(r[j]) by {
        assert(r.contains(r[j]));
        assert(r.to_multiset().count(r[j]) > 0);
    }
    assert forall|i: int, j: int| 0 <= i < l.len() && 0 <= j < r.len() implies !le(
        a,
        #[trigger] r[j],
        #[trigger] l[i],
    ) by {
        assert(left.contains(l[i]));
        assert(right.contains(r[j]));
    }
    if (forall|i: int| 0 <= i < left.len() ==> is_number(a, #[trigger] left[i])) && (forall|j: int|
        0 <= j < right.len() ==> is_number(a, #[trigger] right[j])) {
        assert forall|i: int| 0 <= i < l.len() implies is_number(a, #[trigger] l[i]) by {
            assert(left.contains(l[i]));
            let p = choose|p: int| 0 <= p < left.len() && left[p] == l[i];
            assert(is_number(a, left[p]));
        }
        assert forall|j: int| 0 <= j < r.len() implies is_number(a, #[trigger] r[j]) by {
            assert(right.contains(r[j]));
            let q = choose|q: int| 0 <= q < right.len() && right[q] == r[j];
            assert(is_number(a, right[q]));
        }
    }
}

/// Sorts `v` under the order of `ctx`, by insertion.
fn sort_options(ctx: &mut SurrealContext, v: Vec<SurrealFinite>) -> (r: Vec<SurrealFinite>)
    requires
        old(ctx).wf(),
        old(ctx).contains_all(v@),
    ensures
        final(ctx).wf(),
        old(ctx).order_step(final(ctx)),
        r@.to_multiset() == v@.to_multiset(),
        sorted(final(ctx).arena(), r@),
        final(ctx).contains_all(r@),
{
    let ghost c0 = *ctx;
    let ghost a = ctx.arena();
    let mut r: Vec<SurrealFinite> = Vec::new();
    let mut i: usize = 0;
    assert(v@.take(0) =~= Seq::<SurrealFinite>::empty());
    while i < v.len()
        invariant
            ctx.wf(),
            c0.order_step(ctx),
            a == ctx.arena(),
            ctx.contains_all(v@),
            0 <= i <= v.len(),
            r@.to_multiset() == v@.take(i as int).to_multiset(),
            sorted(a, r@),
            ctx.contains_all(r@),
        decreases v.len() - i,
    {
        let e = v[i];
        let mut k: usize = r.len();
        let mut placed = false;
        while k > 0 && !placed
            invariant
                ctx.wf(),
                c0.order_step(ctx),
                a == ctx.arena(),
                ctx.contains_all(r@),
                ctx.contains(e),
                0 <= k <= r.len(),
                k < r.len() ==> !le(a, r@[k as int], e),
                placed ==> k > 0 && le(a, r@[k - 1], e),
            decreases k + (if placed { 0int } else { 1int }),
        {
            if leq(ctx, r[k - 1], e) {
                placed = true;
            } else {
                k = k - 1;
            }
        }
        let ghost r0 = r@;
        r.insert(k, e);
        assert(r@ == r0.insert(k as int, e));
        assert(v@.take(i as int + 1) =~= v@.take(i as int).push(e));
        assert forall|j: int| 0 <= j < r@.len() - 1 implies !lt(a, #[trigger] r@[j + 1], r@[j]) by {
            if j < k as int - 1 {
                assert(r@[j] == r0[j] && r@[j + 1] == r0[j + 1]);
            } else if j == k as int - 1 {
                assert(r@[j] == r0[j] && r@[j + 1] == e);
            } else if j == k as int {
                assert(r@[j] == e && r@[j + 1] == r0[j]);
            } else {
                let jj = j - 1;
                assert(r0[jj + 1] == r0[j]);
                assert(r@[j] == r0[j - 1] && r@[j + 1] == r0[j]);
            }
        }
        assert forall|j: int| 0 <= j < r@.len() implies #[trigger] r@[j].index() < a.len() by {
            if j < k {
                assert(r@[j] == r0[j]);
            } else if j > k {
                assert(r@[j] == r0[j - 1]);
            }
        }
        i = i + 1;
    }
    assert(v@.take(v@.len() as int) =~= v@);
    r
}

impl SurrealFinite {
    /// Interns the structure with `left` and `right` sorted, without checking
    /// that it is well formed.
    pub(crate) fn new_unchecked(
        ctx: &mut SurrealContext,
        left: Vec<SurrealFinite>,
        right: Vec<SurrealFinite>,
    ) -> (r: SurrealFinite)
        requires
            old(ctx).wf(),
            old(ctx).contains_all(left@),
            old(ctx).contains_all(right@),
        ensures
            final(ctx).wf(),
            old(ctx).mint_step(final(ctx)),
            final(ctx).contains(r),
            lefts(final(ctx).arena(), r).to_multiset() == left@.to_multiset(),
            rights(final(ctx).arena(), r).to_multiset() == right@.to_multiset(),
            sorted(final(ctx).arena(), lefts(final(ctx).arena(), r)),
            sorted(final(ctx).arena(), rights(final(ctx).arena(), r)),
    {
        let l = sort_options(ctx, left);
        let rt = sort_options(ctx, right);
        let ghost a = ctx.arena();
        let ghost (ls, rs) = (l@, rt@);
        let x = cache_insert(ctx, SurrealStructure::new(l, rt));
        proof {
            lemma_sorted_stable(a, ctx.arena(), ls);
            lemma_sorted_stable(a, ctx.arena(), rs);
        }
        x
    }

    /// Builds the number `{ left | right }`.
    ///
    /// The structure is interned in any case; it is returned unless some left
    /// option is at least some right option.
    pub fn new(ctx: &mut SurrealContext, left: Vec<SurrealFinite>, right: Vec<SurrealFinite>) -> (r:
        Result<SurrealFinite, WellFormingError>)
        requires
            old(ctx).wf(),
            old(ctx).contains_all(left@),
            old(ctx).contains_all(right@),
        ensures
            final(ctx).wf(),
            old(ctx).mint_step(final(ctx)),
            r is Err <==> ill_formed(final(ctx).arena(), left@, right@),
            r matches Ok(x) ==> {
                &&& final(ctx).contains(x)
                &&& lefts(final(ctx).arena(), x).to_multiset() == left@.to_multiset()
                &&& rights(final(ctx).arena(), x).to_multiset() == right@.to_multiset()
                &&& sorted(final(ctx).arena(), lefts(final(ctx).arena(), x))
                &&& sorted(final(ctx).arena(), rights(final(ctx).arena(), x))
                &&& (forall|i: int| 0 <= i < left@.len() ==> is_number(final(ctx).arena(), #[trigger] left@[i]))
                    && (forall|j: int| 0 <= j < right@.len() ==> is_number(final(ctx).arena(), #[trigger] right@[j]))
                    ==> is_number(final(ctx).arena(), x)
            },
    {
        let ghost c0 = *ctx;
        let x = SurrealFinite::new_unchecked(ctx, left.clone(), right.clone());
        let ghost c1 = *ctx;
        let mut i: usize = 0;
        while i < left.len()
            invariant
                ctx.wf(),
                c0 == *old(ctx),
                c0.mint_step(ctx),
                ctx.arena() == c1.arena(),
                c1.contains(x),
                lefts(c1.arena(), x).to_multiset() == left@.to_multiset(),
                rights(c1.arena(), x).to_multiset() == right@.to_multiset(),
                sorted(c1.arena(), lefts(c1.arena(), x)),
                sorted(c1.arena(), rights(c1.arena(), x)),
                ctx.contains_all(left@),
                ctx.contains_all(right@),
                0 <= i <= left.len(),
                forall|p: int, q: int|
                    0 <= p < i && 0 <= q < right@.len() ==> !le(
                        ctx.arena(),
                        #[trigger] right@[q],
                        #[trigger] left@[p],
                    ),
            decreases left.len() - i,
        {
            let mut j: usize = 0;
            while j < right.len()
                invariant
                    ctx.wf(),
                    c0 == *old(ctx),
                    c0.mint_step(ctx),
                    ctx.arena() == c1.arena(),
                    ctx.contains_all(left@),
                    ctx.contains_all(right@),
                    0 <= i < left.len(),
                    0 <= j <= right.len(),
                    forall|p: int, q: int|
                        0 <= p < i && 0 <= q < right@.len() ==> !le(
                            ctx.arena(),
                            #[trigger] right@[q],
                            #[trigger] left@[p],
                        ),
                    forall|q: int|
                        0 <= q < j ==> !le(ctx.arena(), #[trigger] right@[q], left@[i as int]),
                decreases right.len() - j,
            {
                let ghost c2 = *ctx;
                let below = leq(ctx, right[j], left[i]);
                proof {
                    c0.lemma_mint_then_order(&c2, ctx);
                }
                if below {
                    return Err(WellFormingError);
                }
                j = j + 1;
            }
            i = i + 1;
        }
        proof {
            lemma_built_number(ctx.arena(), x, left@, right@);
        }
        Ok(x)
    }

    /// The number `{ | }`.
    pub fn zero(ctx: &mut SurrealContext) -> (r: SurrealFinite)
        requires
            old(ctx).wf(),
        ensures
            final(ctx).wf(),
            old(ctx).mint_step(final(ctx)),
            final(ctx).contains(r),
            lefts(final(ctx).arena(), r).len() == 0,
            rights(final(ctx).arena(), r).len() == 0,
    {
        let r = SurrealFinite::new_unchecked(ctx, Vec::new(), Vec::new());
        proof {
            lefts(ctx.arena(), r).to_multiset_ensures();
            rights(ctx.arena(), r).to_multiset_ensures();
        }
        r
    }

    /// The number `{ 0 | }`.
    pub fn one(ctx: &mut SurrealContext) -> (r: SurrealFinite)
        requires
            old(ctx).wf(),
        ensures
            final(ctx).wf(),
            old(ctx).mint_step(final(ctx)),
            final(ctx).contains(r),
            lefts(final(ctx).arena(), r).len() == 1,
            lefts(final(ctx).arena(), lefts(final(ctx).arena(), r)[0]).len() == 0,
            rights(final(ctx).arena(), lefts(final(ctx).arena(), r)[0]).len() == 0,
            rights(final(ctx).arena(), r).len() == 0,
    {
        let z = SurrealFinite::zero(ctx);
        let ghost a = ctx.arena();
        let v = vec![z];
        assert(v@ =~= seq![z]);
        let r = SurrealFinite::new_unchecked(ctx, v, Vec::new());
        proof {
            let l = lefts(ctx.arena(), r);
            assert(l.to_multiset().len() == l.len());
            assert(seq![z].to_multiset().len() == 1);
            assert(l.len() == 1);
            assert(l.contains(l[0]));
            assert(l.to_multiset().count(l[0]) > 0);
            assert(seq![z].contains(l[0]));
            assert(seq![z][0] == z);
            assert(l[0] == z);
            assert(ctx.arena()[z.index()] == a[z.index()]);
        }
        r
    }

    /// The left options, in order.
    pub fn iter_left(&self, ctx: &SurrealContext) -> (r: Vec<SurrealFinite>)
        requires
            ctx.contains(*self),
        ensures
            r@ == lefts(ctx.arena(), *self),
    {
        cache_left(ctx, *self)
    }

    /// The right options, in order.
    pub fn iter_right(&self, ctx: &SurrealContext) -> (r: Vec<SurrealFinite>)
        requires
            ctx.contains(*self),
        ensures
            r@ == rights(ctx.arena(), *self),
    {
        cache_right(ctx, *self)
    }
}

} // verus!
