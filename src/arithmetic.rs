use vstd::prelude::*;

use crate::construction::{
    arena_extends, cache_left, cache_right, lefts, pair_key, rights, table_extends, SurrealContext,
    SurrealStructure,
};
use crate::handle::{lemma_index, SurrealFinite};

verus! {

broadcast use lemma_index;

/// The memo key of a single handle.
pub open spec fn neg_key(x: SurrealFinite) -> usize {
    x.index() as usize
}

/// The recorded negations of the handles of `xs`.
pub open spec fn negs(t: Map<usize, SurrealFinite>, xs: Seq<SurrealFinite>) -> Seq<SurrealFinite> {
    xs.map_values(|o: SurrealFinite| t[neg_key(o)])
}

/// Every handle of `xs` has a recorded negation.
pub open spec fn has_negs(t: Map<usize, SurrealFinite>, xs: Seq<SurrealFinite>) -> bool {
    forall|i: int| 0 <= i < xs.len() ==> t.contains_key(neg_key(#[trigger] xs[i]))
}

/// `r` is `-x`: its left options are the negated right options of `x`, and
/// its right options the negated left options, as multisets.
pub open spec fn neg_entry(
    a: Seq<SurrealStructure>,
    t: Map<usize, SurrealFinite>,
    x: SurrealFinite,
    r: SurrealFinite,
) -> bool {
    &&& x.index() < a.len()
    &&& r.index() < a.len()
    &&& has_negs(t, lefts(a, x))
    &&& has_negs(t, rights(a, x))
    &&& lefts(a, r).to_multiset() == negs(t, rights(a, x)).to_multiset()
    &&& rights(a, r).to_multiset() == negs(t, lefts(a, x)).to_multiset()
}

/// Every recorded negation is an exact negation.
pub open spec fn neg_table_ok(a: Seq<SurrealStructure>, t: Map<usize, SurrealFinite>) -> bool {
    forall|x: SurrealFinite| #[trigger]
        t.contains_key(neg_key(x)) ==> neg_entry(a, t, x, t[neg_key(x)])
}

/// The recorded sums `xo + y` for the handles `xo` of `xs`.
pub open spec fn sums(
    t: Map<u128, SurrealFinite>,
    xs: Seq<SurrealFinite>,
    y: SurrealFinite,
) -> Seq<SurrealFinite> {
    xs.map_values(|o: SurrealFinite| t[pair_key(o, y)])
}

/// Every sum `xo + y` for `xo` in `xs` is recorded.
pub open spec fn has_sums(t: Map<u128, SurrealFinite>, xs: Seq<SurrealFinite>, y: SurrealFinite) -> bool {
    forall|i: int| 0 <= i < xs.len() ==> t.contains_key(pair_key(#[trigger] xs[i], y))
}

/// `r` is `x + y`: its left options are the `xl + y` and the `yl + x`, its
/// right options the `xr + y` and the `yr + x`, as multisets.
pub open spec fn add_entry(
    a: Seq<SurrealStructure>,
    t: Map<u128, SurrealFinite>,
    x: SurrealFinite,
    y: SurrealFinite,
    r: SurrealFinite,
) -> bool {
    &&& x.index() < a.len()
    &&& y.index() < a.len()
    &&& r.index() < a.len()
    &&& has_sums(t, lefts(a, x), y)
    &&& has_sums(t, lefts(a, y), x)
    &&& has_sums(t, rights(a, x), y)
    &&& has_sums(t, rights(a, y), x)
    &&& lefts(a, r).to_multiset() == (sums(t, lefts(a, x), y) + sums(
        t,
        lefts(a, y),
        x,
    )).to_multiset()
    &&& rights(a, r).to_multiset() == (sums(t, rights(a, x), y) + sums(
        t,
        rights(a, y),
        x,
    )).to_multiset()
}

/// Every recorded sum is an exact sum.
pub open spec fn add_table_ok(a: Seq<SurrealStructure>, t: Map<u128, SurrealFinite>) -> bool {
    forall|x: SurrealFinite, y: SurrealFinite| #[trigger]
        t.contains_key(pair_key(x, y)) ==> add_entry(a, t, x, y, t[pair_key(x, y)])
}

/// The recorded product of `p` and `q`.
pub open spec fn prod(tm: Map<u128, SurrealFinite>, p: SurrealFinite, q: SurrealFinite) -> SurrealFinite {
    tm[pair_key(p, q)]
}

/// The recorded sum of `p` and `q`.
pub open spec fn sum(ta: Map<u128, SurrealFinite>, p: SurrealFinite, q: SurrealFinite) -> SurrealFinite {
    ta[pair_key(p, q)]
}

/// The option `p*y + x*q - p*q` of `x*y`, for an option `p` of `x` and `q` of `y`,
/// from recorded results.
pub open spec fn mul_term(
    ta: Map<u128, SurrealFinite>,
    tn: Map<usize, SurrealFinite>,
    tm: Map<u128, SurrealFinite>,
    x: SurrealFinite,
    y: SurrealFinite,
    p: SurrealFinite,
    q: SurrealFinite,
) -> SurrealFinite {
    sum(ta, sum(ta, prod(tm, p, y), prod(tm, x, q)), tn[neg_key(prod(tm, p, q))])
}

/// Every result that `mul_term` reads is recorded.
pub open spec fn has_mul_term(
    ta: Map<u128, SurrealFinite>,
    tn: Map<usize, SurrealFinite>,
    tm: Map<u128, SurrealFinite>,
    x: SurrealFinite,
    y: SurrealFinite,
    p: SurrealFinite,
    q: SurrealFinite,
) -> bool {
    &&& tm.contains_key(pair_key(p, y))
    &&& tm.contains_key(pair_key(x, q))
    &&& tm.contains_key(pair_key(p, q))
    &&& ta.contains_key(pair_key(prod(tm, p, y), prod(tm, x, q)))
    &&& tn.contains_key(neg_key(prod(tm, p, q)))
    &&& ta.contains_key(
        pair_key(sum(ta, prod(tm, p, y), prod(tm, x, q)), tn[neg_key(prod(tm, p, q))]),
    )
}

/// The terms for every `p` of `ps` and, within it, every `q` of `qs`.
pub open spec fn mul_terms(
    ta: Map<u128, SurrealFinite>,
    tn: Map<usize, SurrealFinite>,
    tm: Map<u128, SurrealFinite>,
    x: SurrealFinite,
    y: SurrealFinite,
    ps: Seq<SurrealFinite>,
    qs: Seq<SurrealFinite>,
) -> Seq<SurrealFinite>
    decreases ps.len(),
{
    if ps.len() == 0 {
        Seq::empty()
    } else {
        mul_terms(ta, tn, tm, x, y, ps.drop_last(), qs) + qs.map_values(
            |q: SurrealFinite| mul_term(ta, tn, tm, x, y, ps.last(), q),
        )
    }
}

/// Every term for `ps` and `qs` is recorded.
pub open spec fn has_mul_terms(
    ta: Map<u128, SurrealFinite>,
    tn: Map<usize, SurrealFinite>,
    tm: Map<u128, SurrealFinite>,
    x: SurrealFinite,
    y: SurrealFinite,
    ps: Seq<SurrealFinite>,
    qs: Seq<SurrealFinite>,
) -> bool {
    forall|i: int, j: int|
        0 <= i < ps.len() && 0 <= j < qs.len() ==> has_mul_term(
            ta,
            tn,
            tm,
            x,
            y,
            #[trigger] ps[i],
            #[trigger] qs[j],
        )
}

/// `r` is `x * y` by the product rule, as multisets of options.
pub open spec fn mul_entry(
    a: Seq<SurrealStructure>,
    ta: Map<u128, SurrealFinite>,
    tn: Map<usize, SurrealFinite>,
    tm: Map<u128, SurrealFinite>,
    x: SurrealFinite,
    y: SurrealFinite,
    r: SurrealFinite,
) -> bool {
    let (xl, xr, yl, yr) = (lefts(a, x), rights(a, x), lefts(a, y), rights(a, y));
    &&& x.index() < a.len()
    &&& y.index() < a.len()
    &&& r.index() < a.len()
    &&& has_mul_terms(ta, tn, tm, x, y, xl, yl)
    &&& has_mul_terms(ta, tn, tm, x, y, xr, yr)
    &&& has_mul_terms(ta, tn, tm, x, y, xl, yr)
    &&& has_mul_terms(ta, tn, tm, x, y, xr, yl)
    &&& lefts(a, r).to_multiset() == (mul_terms(ta, tn, tm, x, y, xl, yl) + mul_terms(
        ta,
        tn,
        tm,
        x,
        y,
        xr,
        yr,
    )).to_multiset()
    &&& rights(a, r).to_multiset() == (mul_terms(ta, tn, tm, x, y, xl, yr) + mul_terms(
        ta,
        tn,
        tm,
        x,
        y,
        xr,
        yl,
    )).to_multiset()
}

/// Every recorded product is an exact product.
pub open spec fn mul_table_ok(
    a: Seq<SurrealStructure>,
    ta: Map<u128, SurrealFinite>,
    tn: Map<usize, SurrealFinite>,
    tm: Map<u128, SurrealFinite>,
) -> bool {
    forall|x: SurrealFinite, y: SurrealFinite| #[trigger]
        tm.contains_key(pair_key(x, y)) ==> mul_entry(a, ta, tn, tm, x, y, tm[pair_key(x, y)])
}

proof fn lemma_negs_extend(t: Map<usize, SurrealFinite>, t2: Map<usize, SurrealFinite>, xs: Seq<SurrealFinite>)
    requires
        has_negs(t, xs),
        table_extends(t, t2),
    ensures
        has_negs(t2, xs),
        negs(t2, xs) == negs(t, xs),
{
    assert(negs(t2, xs) =~= negs(t, xs));
}

proof fn lemma_sums_extend(
    t: Map<u128, SurrealFinite>,
    t2: Map<u128, SurrealFinite>,
    xs: Seq<SurrealFinite>,
    y: SurrealFinite,
)
    requires
        has_sums(t, xs, y),
        table_extends(t, t2),
    ensures
        has_sums(t2, xs, y),
        sums(t2, xs, y) == sums(t, xs, y),
{
    assert(sums(t2, xs, y) =~= sums(t, xs, y));
}

proof fn lemma_mul_terms_extend(
    ta: Map<u128, SurrealFinite>,
    tn: Map<usize, SurrealFinite>,
    tm: Map<u128, SurrealFinite>,
    ta2: Map<u128, SurrealFinite>,
    tn2: Map<usize, SurrealFinite>,
    tm2: Map<u128, SurrealFinite>,
    x: SurrealFinite,
    y: SurrealFinite,
    ps: Seq<SurrealFinite>,
    qs: Seq<SurrealFinite>,
)
    requires
        has_mul_terms(ta, tn, tm, x, y, ps, qs),
        table_extends(ta, ta2),
        table_extends(tn, tn2),
        table_extends(tm, tm2),
    ensures
        has_mul_terms(ta2, tn2, tm2, x, y, ps, qs),
        mul_terms(ta2, tn2, tm2, x, y, ps, qs) == mul_terms(ta, tn, tm, x, y, ps, qs),
    decreases ps.len(),
{
    assert forall|i: int, j: int| 0 <= i < ps.len() && 0 <= j < qs.len() implies has_mul_term(
        ta2,
        tn2,
        tm2,
        x,
        y,
        #[trigger] ps[i],
        #[trigger] qs[j],
    ) && mul_term(ta2, tn2, tm2, x, y, ps[i], qs[j]) == mul_term(ta, tn, tm, x, y, ps[i], qs[j]) by {
        assert(has_mul_term(ta, tn, tm, x, y, ps[i], qs[j]));
    }
    if ps.len() > 0 {
        let ps0 = ps.drop_last();
        assert forall|i: int, j: int| 0 <= i < ps0.len() && 0 <= j < qs.len() implies has_mul_term(
            ta,
            tn,
            tm,
            x,
            y,
            #[trigger] ps0[i],
            #[trigger] qs[j],
        ) by {
            assert(ps0[i] == ps[i]);
        }
        lemma_mul_terms_extend(ta, tn, tm, ta2, tn2, tm2, x, y, ps0, qs);
        let last = ps.last();
        assert(ps[ps.len() - 1] == last);
        assert(qs.map_values(|q: SurrealFinite| mul_term(ta2, tn2, tm2, x, y, last, q))
            =~= qs.map_values(|q: SurrealFinite| mul_term(ta, tn, tm, x, y, last, q)));
    }
}

/// Recorded negations stay exact when the arena and the table grow.
pub proof fn lemma_neg_table_extend(
    a: Seq<SurrealStructure>,
    t: Map<usize, SurrealFinite>,
    a2: Seq<SurrealStructure>,
    t2: Map<usize, SurrealFinite>,
    x: SurrealFinite,
    r: SurrealFinite,
)
    requires
        neg_entry(a, t, x, r),
        arena_extends(a, a2),
        table_extends(t, t2),
    ensures
        neg_entry(a2, t2, x, r),
{
    assert(a2[x.index()] == a[x.index()]);
    assert(a2[r.index()] == a[r.index()]);
    lemma_negs_extend(t, t2, lefts(a, x));
    lemma_negs_extend(t, t2, rights(a, x));
}

/// Recorded sums stay exact when the arena and the table grow.
pub proof fn lemma_add_table_extend(
    a: Seq<SurrealStructure>,
    t: Map<u128, SurrealFinite>,
    a2: Seq<SurrealStructure>,
    t2: Map<u128, SurrealFinite>,
    x: SurrealFinite,
    y: SurrealFinite,
    r: SurrealFinite,
)
    requires
        add_entry(a, t, x, y, r),
        arena_extends(a, a2),
        table_extends(t, t2),
    ensures
        add_entry(a2, t2, x, y, r),
{
    assert(a2[x.index()] == a[x.index()]);
    assert(a2[y.index()] == a[y.index()]);
    assert(a2[r.index()] == a[r.index()]);
    lemma_sums_extend(t, t2, lefts(a, x), y);
    lemma_sums_extend(t, t2, lefts(a, y), x);
    lemma_sums_extend(t, t2, rights(a, x), y);
    lemma_sums_extend(t, t2, rights(a, y), x);
}

/// Recorded products stay exact when the arena and the tables grow.
pub proof fn lemma_mul_table_extend(
    a: Seq<SurrealStructure>,
    ta: Map<u128, SurrealFinite>,
    tn: Map<usize, SurrealFinite>,
    tm: Map<u128, SurrealFinite>,
    a2: Seq<SurrealStructure>,
    ta2: Map<u128, SurrealFinite>,
    tn2: Map<usize, SurrealFinite>,
    tm2: Map<u128, SurrealFinite>,
    x: SurrealFinite,
    y: SurrealFinite,
    r: SurrealFinite,
)
    requires
        mul_entry(a, ta, tn, tm, x, y, r),
        arena_extends(a, a2),
        table_extends(ta, ta2),
        table_extends(tn, tn2),
        table_extends(tm, tm2),
    ensures
        mul_entry(a2, ta2, tn2, tm2, x, y, r),
{
    assert(a2[x.index()] == a[x.index()]);
    assert(a2[y.index()] == a[y.index()]);
    assert(a2[r.index()] == a[r.index()]);
    let (xl, xr, yl, yr) = (lefts(a, x), rights(a, x), lefts(a, y), rights(a, y));
    lemma_mul_terms_extend(ta, tn, tm, ta2, tn2, tm2, x, y, xl, yl);
    lemma_mul_terms_extend(ta, tn, tm, ta2, tn2, tm2, x, y, xr, yr);
    lemma_mul_terms_extend(ta, tn, tm, ta2, tn2, tm2, x, y, xl, yr);
    lemma_mul_terms_extend(ta, tn, tm, ta2, tn2, tm2, x, y, xr, yl);
}

/// All three arithmetic tables stay exact when the arena and the tables grow.
pub proof fn lemma_arith_tables_extend(
    a: Seq<SurrealStructure>,
    ta: Map<u128, SurrealFinite>,
    tn: Map<usize, SurrealFinite>,
    tm: Map<u128, SurrealFinite>,
    a2: Seq<SurrealStructure>,
    ta2: Map<u128, SurrealFinite>,
    tn2: Map<usize, SurrealFinite>,
    tm2: Map<u128, SurrealFinite>,
)
    requires
        neg_table_ok(a, tn),
        add_table_ok(a, ta),
        mul_table_ok(a, ta, tn, tm),
        arena_extends(a, a2),
        table_extends(ta, ta2),
        table_extends(tn, tn2),
        table_extends(tm, tm2),
        forall|x: SurrealFinite| #[trigger]
            tn2.contains_key(neg_key(x)) && !tn.contains_key(neg_key(x)) ==> neg_entry(a2, tn2, x, tn2[neg_key(x)]),
        forall|x: SurrealFinite, y: SurrealFinite| #[trigger]
            ta2.contains_key(pair_key(x, y)) && !ta.contains_key(pair_key(x, y)) ==> add_entry(
                a2,
                ta2,
                x,
                y,
                ta2[pair_key(x, y)],
            ),
        forall|x: SurrealFinite, y: SurrealFinite| #[trigger]
            tm2.contains_key(pair_key(x, y)) && !tm.contains_key(pair_key(x, y)) ==> mul_entry(
                a2,
                ta2,
                tn2,
                tm2,
                x,
                y,
                tm2[pair_key(x, y)],
            ),
    ensures
        neg_table_ok(a2, tn2),
        add_table_ok(a2, ta2),
        mul_table_ok(a2, ta2, tn2, tm2),
{
    assert forall|x: SurrealFinite| #[trigger] tn2.contains_key(neg_key(x)) implies neg_entry(
        a2,
        tn2,
        x,
        tn2[neg_key(x)],
    ) by {
        if tn.contains_key(neg_key(x)) {
            lemma_neg_table_extend(a, tn, a2, tn2, x, tn[neg_key(x)]);
        }
    }
    assert forall|x: SurrealFinite, y: SurrealFinite| #[trigger]
        ta2.contains_key(pair_key(x, y)) implies add_entry(a2, ta2, x, y, ta2[pair_key(x, y)]) by {
        if ta.contains_key(pair_key(x, y)) {
            lemma_add_table_extend(a, ta, a2, ta2, x, y, ta[pair_key(x, y)]);
        }
    }
    assert forall|x: SurrealFinite, y: SurrealFinite| #[trigger]
        tm2.contains_key(pair_key(x, y)) implies mul_entry(
        a2,
        ta2,
        tn2,
        tm2,
        x,
        y,
        tm2[pair_key(x, y)],
    ) by {
        if tm.contains_key(pair_key(x, y)) {
            lemma_mul_table_extend(a, ta, tn, tm, a2, ta2, tn2, tm2, x, y, tm[pair_key(x, y)]);
        }
    }
}


/// `-x`, computed from the negated options of `x` and recorded.
pub fn neg(ctx: &mut SurrealContext, x: SurrealFinite) -> (r: SurrealFinite)
    requires
        old(ctx).wf(),
        old(ctx).contains(x),
    ensures
        final(ctx).wf(),
        old(ctx).grows_to(final(ctx)),
        final(ctx).contains(r),
        final(ctx).neg_table().contains_key(neg_key(x)),
        final(ctx).neg_table()[neg_key(x)] == r,
        old(ctx).neg_table().contains_key(neg_key(x)) ==> r == old(ctx).neg_table()[neg_key(x)],
        neg_entry(final(ctx).arena(), final(ctx).neg_table(), x, r),
    decreases x.index(), 1int,
{
    if let Some(r) = ctx.recorded_neg(x) {
        return r;
    }
    let ghost c0 = *ctx;
    let xl = cache_left(ctx, x);
    let xr = cache_right(ctx, x);
    let new_left = negate_all(ctx, &xr, x);
    let ghost c1 = *ctx;
    let new_right = negate_all(ctx, &xl, x);
    let ghost c2 = *ctx;
    let r = SurrealFinite::new_unchecked(ctx, new_left, new_right);
    proof {
        c0.lemma_grows_trans(&c1, &c2);
        c2.lemma_mint_grows(ctx);
        c0.lemma_grows_trans(&c2, ctx);
        lemma_negs_extend(c1.neg_table(), c2.neg_table(), xr@);
        assert(ctx.arena()[x.index()] == c0.arena()[x.index()]);
    }
    match ctx.recorded_neg(x) {
        Some(r2) => r2,
        None => {
            let ghost c3 = *ctx;
            ctx.record_neg(x, r);
            proof {
                c3.lemma_record_grows(ctx);
                c0.lemma_grows_trans(&c3, ctx);
            }
            r
        },
    }
}

/// The negations of the options `xs` of `parent`, in order.
fn negate_all(ctx: &mut SurrealContext, xs: &Vec<SurrealFinite>, parent: SurrealFinite) -> (r: Vec<
    SurrealFinite,
>)
    requires
        old(ctx).wf(),
        forall|i: int| 0 <= i < xs@.len() ==> #[trigger] xs@[i].index() < parent.index(),
        parent.index() <= old(ctx).arena().len(),
    ensures
        final(ctx).wf(),
        old(ctx).grows_to(final(ctx)),
        has_negs(final(ctx).neg_table(), xs@),
        r@ == negs(final(ctx).neg_table(), xs@),
        final(ctx).contains_all(r@),
    decreases parent.index(), 0int,
{
    let ghost c0 = *ctx;
    let mut out: Vec<SurrealFinite> = Vec::new();
    let mut i: usize = 0;
    while i < xs.len()
        invariant
            ctx.wf(),
            c0.grows_to(ctx),
            forall|k: int| 0 <= k < xs@.len() ==> #[trigger] xs@[k].index() < parent.index(),
            parent.index() <= c0.arena().len(),
            0 <= i <= xs.len(),
            has_negs(ctx.neg_table(), xs@.take(i as int)),
            out@ == negs(ctx.neg_table(), xs@.take(i as int)),
            ctx.contains_all(out@),
        decreases xs.len() - i,
    {
        let ghost c1 = *ctx;
        let n = neg(ctx, xs[i]);
        proof {
            c0.lemma_grows_trans(&c1, ctx);
            lemma_negs_extend(c1.neg_table(), ctx.neg_table(), xs@.take(i as int));
        }
        out.push(n);
        proof {
            let t = ctx.neg_table();
            assert(xs@.take(i as int + 1) =~= xs@.take(i as int).push(xs@[i as int]));
            assert(negs(t, xs@.take(i as int + 1)) =~= negs(t, xs@.take(i as int)).push(n));
        }
        i = i + 1;
    }
    assert(xs@.take(xs@.len() as int) =~= xs@);
    out
}

/// `x + y`, computed from the sums of options and recorded.
pub fn add(ctx: &mut SurrealContext, x: SurrealFinite, y: SurrealFinite) -> (r: SurrealFinite)
    requires
        old(ctx).wf(),
        old(ctx).contains(x),
        old(ctx).contains(y),
    ensures
        final(ctx).wf(),
        old(ctx).grows_to(final(ctx)),
        final(ctx).contains(r),
        final(ctx).add_table().contains_key(pair_key(x, y)),
        final(ctx).add_table()[pair_key(x, y)] == r,
        old(ctx).add_table().contains_key(pair_key(x, y)) ==> r == old(ctx).add_table()[pair_key(
            x,
            y,
        )],
        add_entry(final(ctx).arena(), final(ctx).add_table(), x, y, r),
    decreases x.index() + y.index(), 1int,
{
    if let Some(r) = ctx.recorded_add(x, y) {
        return r;
    }
    let ghost c0 = *ctx;
    let xl = cache_left(ctx, x);
    let xr = cache_right(ctx, x);
    let yl = cache_left(ctx, y);
    let yr = cache_right(ctx, y);
    let mut new_left: Vec<SurrealFinite> = Vec::new();
    let mut new_right: Vec<SurrealFinite> = Vec::new();
    push_sums(ctx, &mut new_left, &xl, y, Ghost(x.index() + y.index()));
    let ghost c1 = *ctx;
    push_sums(ctx, &mut new_left, &yl, x, Ghost(x.index() + y.index()));
    let ghost c2 = *ctx;
    push_sums(ctx, &mut new_right, &xr, y, Ghost(x.index() + y.index()));
    let ghost c3 = *ctx;
    push_sums(ctx, &mut new_right, &yr, x, Ghost(x.index() + y.index()));
    let ghost c4 = *ctx;
    let r = SurrealFinite::new_unchecked(ctx, new_left, new_right);
    proof {
        c0.lemma_grows_trans(&c1, &c2);
        c0.lemma_grows_trans(&c2, &c3);
        c0.lemma_grows_trans(&c3, &c4);
        c1.lemma_grows_trans(&c2, &c3);
        c1.lemma_grows_trans(&c3, &c4);
        c2.lemma_grows_trans(&c3, &c4);
        c4.lemma_mint_grows(ctx);
        c0.lemma_grows_trans(&c4, ctx);
        lemma_sums_extend(c1.add_table(), c4.add_table(), xl@, y);
        lemma_sums_extend(c2.add_table(), c4.add_table(), yl@, x);
        lemma_sums_extend(c3.add_table(), c4.add_table(), xr@, y);
        assert(ctx.arena()[x.index()] == c0.arena()[x.index()]);
        assert(ctx.arena()[y.index()] == c0.arena()[y.index()]);
    }
    match ctx.recorded_add(x, y) {
        Some(r2) => r2,
        None => {
            let ghost c5 = *ctx;
            ctx.record_add(x, y, r);
            proof {
                c5.lemma_record_grows(ctx);
                c0.lemma_grows_trans(&c5, ctx);
            }
            r
        },
    }
}

/// Appends the sums `xo + y` for the options `xo` of `xs`, in order.
fn push_sums(
    ctx: &mut SurrealContext,
    out: &mut Vec<SurrealFinite>,
    xs: &Vec<SurrealFinite>,
    y: SurrealFinite,
    Ghost(bound): Ghost<int>,
)
    requires
        old(ctx).wf(),
        old(ctx).contains(y),
        old(ctx).contains_all(old(out)@),
        forall|i: int|
            0 <= i < xs@.len() ==> #[trigger] xs@[i].index() + y.index() < bound && xs@[i].index()
                < old(ctx).arena().len(),
    ensures
        final(ctx).wf(),
        old(ctx).grows_to(final(ctx)),
        has_sums(final(ctx).add_table(), xs@, y),
        final(out)@ == old(out)@ + sums(final(ctx).add_table(), xs@, y),
        final(ctx).contains_all(final(out)@),
    decreases bound, 0int,
{
    let ghost c0 = *ctx;
    let ghost out0 = out@;
    let mut i: usize = 0;
    while i < xs.len()
        invariant
            ctx.wf(),
            c0.grows_to(ctx),
            ctx.contains(y),
            forall|k: int|
                0 <= k < xs@.len() ==> #[trigger] xs@[k].index() + y.index() < bound && xs@[k].index()
                    < c0.arena().len(),
            0 <= i <= xs.len(),
            has_sums(ctx.add_table(), xs@.take(i as int), y),
            out@ == out0 + sums(ctx.add_table(), xs@.take(i as int), y),
            ctx.contains_all(out@),
        decreases xs.len() - i,
    {
        let ghost c1 = *ctx;
        let s = crate::arithmetic::add(ctx, xs[i], y);
        proof {
            c0.lemma_grows_trans(&c1, ctx);
            lemma_sums_extend(c1.add_table(), ctx.add_table(), xs@.take(i as int), y);
        }
        out.push(s);
        proof {
            let t = ctx.add_table();
            assert(xs@.take(i as int + 1) =~= xs@.take(i as int).push(xs@[i as int]));
            assert(sums(t, xs@.take(i as int + 1), y) =~= sums(t, xs@.take(i as int), y).push(s));
            assert(out@ =~= out0 + sums(t, xs@.take(i as int + 1), y));
        }
        i = i + 1;
    }
    assert(xs@.take(xs@.len() as int) =~= xs@);
}

proof fn lemma_row_extend(
    ta: Map<u128, SurrealFinite>,
    tn: Map<usize, SurrealFinite>,
    tm: Map<u128, SurrealFinite>,
    ta2: Map<u128, SurrealFinite>,
    tn2: Map<usize, SurrealFinite>,
    tm2: Map<u128, SurrealFinite>,
    x: SurrealFinite,
    y: SurrealFinite,
    p: SurrealFinite,
    qs: Seq<SurrealFinite>,
)
    requires
        forall|k: int| 0 <= k < qs.len() ==> has_mul_term(ta, tn, tm, x, y, p, #[trigger] qs[k]),
        table_extends(ta, ta2),
        table_extends(tn, tn2),
        table_extends(tm, tm2),
    ensures
        forall|k: int| 0 <= k < qs.len() ==> has_mul_term(ta2, tn2, tm2, x, y, p, #[trigger] qs[k]),
        qs.map_values(|q: SurrealFinite| mul_term(ta2, tn2, tm2, x, y, p, q)) == qs.map_values(
            |q: SurrealFinite| mul_term(ta, tn, tm, x, y, p, q),
        ),
{
    assert forall|k: int| 0 <= k < qs.len() implies has_mul_term(
        ta2,
        tn2,
        tm2,
        x,
        y,
        p,
        #[trigger] qs[k],
    ) && mul_term(ta2, tn2, tm2, x, y, p, qs[k]) == mul_term(ta, tn, tm, x, y, p, qs[k]) by {
        assert(has_mul_term(ta, tn, tm, x, y, p, qs[k]));
    }
    assert(qs.map_values(|q: SurrealFinite| mul_term(ta2, tn2, tm2, x, y, p, q)) =~= qs.map_values(
        |q: SurrealFinite| mul_term(ta, tn, tm, x, y, p, q),
    ));
}

/// The option `p*y + x*q - p*q` of `x*y`, for an option `p` of `x` and `q` of `y`.
fn mul_option(
    ctx: &mut SurrealContext,
    x: SurrealFinite,
    y: SurrealFinite,
    p: SurrealFinite,
    q: SurrealFinite,
) -> (t: SurrealFinite)
    requires
        old(ctx).wf(),
        old(ctx).contains(x),
        old(ctx).contains(y),
        p.index() < x.index(),
        q.index() < y.index(),
    ensures
        final(ctx).wf(),
        old(ctx).grows_to(final(ctx)),
        final(ctx).contains(t),
        has_mul_term(final(ctx).add_table(), final(ctx).neg_table(), final(ctx).mul_table(), x, y, p, q),
        mul_term(final(ctx).add_table(), final(ctx).neg_table(), final(ctx).mul_table(), x, y, p, q)
            == t,
    decreases x.index() + y.index(), 0int,
{
    let ghost c0 = *ctx;
    let py = crate::arithmetic::mul(ctx, p, y);
    let ghost c1 = *ctx;
    let xq = crate::arithmetic::mul(ctx, x, q);
    let ghost c2 = *ctx;
    let pq = crate::arithmetic::mul(ctx, p, q);
    let ghost c3 = *ctx;
    let s = crate::arithmetic::add(ctx, py, xq);
    let ghost c4 = *ctx;
    let n = neg(ctx, pq);
    let ghost c5 = *ctx;
    let t = crate::arithmetic::add(ctx, s, n);
    proof {
        c4.lemma_grows_trans(&c5, ctx);
        c3.lemma_grows_trans(&c4, ctx);
        c2.lemma_grows_trans(&c3, ctx);
        c1.lemma_grows_trans(&c2, ctx);
        c0.lemma_grows_trans(&c1, ctx);
    }
    t
}

/// Appends the terms for every option `p` of `ps` and, within it, every
/// option `q` of `qs`.
fn push_terms(
    ctx: &mut SurrealContext,
    out: &mut Vec<SurrealFinite>,
    x: SurrealFinite,
    y: SurrealFinite,
    ps: &Vec<SurrealFinite>,
    qs: &Vec<SurrealFinite>,
)
    requires
        old(ctx).wf(),
        old(ctx).contains(x),
        old(ctx).contains(y),
        old(ctx).contains_all(old(out)@),
        forall|i: int| 0 <= i < ps@.len() ==> #[trigger] ps@[i].index() < x.index(),
        forall|j: int| 0 <= j < qs@.len() ==> #[trigger] qs@[j].index() < y.index(),
    ensures
        final(ctx).wf(),
        old(ctx).grows_to(final(ctx)),
        has_mul_terms(
            final(ctx).add_table(),
            final(ctx).neg_table(),
            final(ctx).mul_table(),
            x,
            y,
            ps@,
            qs@,
        ),
        final(out)@ == old(out)@ + mul_terms(
            final(ctx).add_table(),
            final(ctx).neg_table(),
            final(ctx).mul_table(),
            x,
            y,
            ps@,
            qs@,
        ),
        final(ctx).contains_all(final(out)@),
    decreases x.index() + y.index(), 1int,
{
    let ghost c0 = *ctx;
    let ghost out0 = out@;
    let mut i: usize = 0;
    while i < ps.len()
        invariant
            ctx.wf(),
            c0.grows_to(ctx),
            ctx.contains(x),
            ctx.contains(y),
            forall|k: int| 0 <= k < ps@.len() ==> #[trigger] ps@[k].index() < x.index(),
            forall|k: int| 0 <= k < qs@.len() ==> #[trigger] qs@[k].index() < y.index(),
            0 <= i <= ps.len(),
            has_mul_terms(
                ctx.add_table(),
                ctx.neg_table(),
                ctx.mul_table(),
                x,
                y,
                ps@.take(i as int),
                qs@,
            ),
            out@ == out0 + mul_terms(
                ctx.add_table(),
                ctx.neg_table(),
                ctx.mul_table(),
                x,
                y,
                ps@.take(i as int),
                qs@,
            ),
            ctx.contains_all(out@),
        decreases ps.len() - i,
    {
        let p = ps[i];
        let ghost c1 = *ctx;
        let ghost done = out@;
        let mut j: usize = 0;
        while j < qs.len()
            invariant
                ctx.wf(),
                c1.grows_to(ctx),
                ctx.contains(x),
                ctx.contains(y),
                p.index() < x.index(),
                forall|k: int| 0 <= k < qs@.len() ==> #[trigger] qs@[k].index() < y.index(),
                0 <= j <= qs.len(),
                forall|k: int|
                    0 <= k < j ==> has_mul_term(
                        ctx.add_table(),
                        ctx.neg_table(),
                        ctx.mul_table(),
                        x,
                        y,
                        p,
                        #[trigger] qs@[k],
                    ),
                out@ == done + qs@.take(j as int).map_values(
                    |q: SurrealFinite|
                        mul_term(ctx.add_table(), ctx.neg_table(), ctx.mul_table(), x, y, p, q),
                ),
                ctx.contains_all(out@),
            decreases qs.len() - j,
        {
            let ghost c2 = *ctx;
            let t = mul_option(ctx, x, y, p, qs[j]);
            proof {
                c1.lemma_grows_trans(&c2, ctx);
                let qj = qs@.take(j as int);
                assert forall|k: int| 0 <= k < qj.len() implies has_mul_term(
                    c2.add_table(),
                    c2.neg_table(),
                    c2.mul_table(),
                    x,
                    y,
                    p,
                    #[trigger] qj[k],
                ) by {
                    assert(qj[k] == qs@[k]);
                }
                lemma_row_extend(
                    c2.add_table(),
                    c2.neg_table(),
                    c2.mul_table(),
                    ctx.add_table(),
                    ctx.neg_table(),
                    ctx.mul_table(),
                    x,
                    y,
                    p,
                    qj,
                );
                assert forall|k: int| 0 <= k < j implies has_mul_term(
                    ctx.add_table(),
                    ctx.neg_table(),
                    ctx.mul_table(),
                    x,
                    y,
                    p,
                    #[trigger] qs@[k],
                ) by {
                    assert(qj[k] == qs@[k]);
                }
            }
            out.push(t);
            proof {
                let (ta, tn, tm) = (ctx.add_table(), ctx.neg_table(), ctx.mul_table());
                assert(qs@.take(j as int + 1) =~= qs@.take(j as int).push(qs@[j as int]));
                assert(qs@.take(j as int + 1).map_values(
                    |q: SurrealFinite| mul_term(ta, tn, tm, x, y, p, q),
                ) =~= qs@.take(j as int).map_values(
                    |q: SurrealFinite| mul_term(ta, tn, tm, x, y, p, q),
                ).push(t));
            }
            j = j + 1;
        }
        proof {
            let (ta, tn, tm) = (ctx.add_table(), ctx.neg_table(), ctx.mul_table());
            let (ta1, tn1, tm1) = (c1.add_table(), c1.neg_table(), c1.mul_table());
            lemma_mul_terms_extend(ta1, tn1, tm1, ta, tn, tm, x, y, ps@.take(i as int), qs@);
            assert(qs@.take(qs@.len() as int) =~= qs@);
            let pi = ps@.take(i as int + 1);
            assert(pi.drop_last() =~= ps@.take(i as int));
            assert(pi.last() == p);
            assert(mul_terms(ta, tn, tm, x, y, pi, qs@) == mul_terms(
                ta,
                tn,
                tm,
                x,
                y,
                ps@.take(i as int),
                qs@,
            ) + qs@.map_values(|q: SurrealFinite| mul_term(ta, tn, tm, x, y, p, q)));
            assert(out@ =~= out0 + mul_terms(ta, tn, tm, x, y, pi, qs@));
            assert forall|a: int, b: int| 0 <= a < pi.len() && 0 <= b < qs@.len() implies has_mul_term(
                ta,
                tn,
                tm,
                x,
                y,
                #[trigger] pi[a],
                #[trigger] qs@[b],
            ) by {
                if a < i {
                    assert(pi[a] == ps@.take(i as int)[a]);
                } else {
                    assert(pi[a] == p);
                }
            }
            c0.lemma_grows_trans(&c1, ctx);
        }
        i = i + 1;
    }
    assert(ps@.take(ps@.len() as int) =~= ps@);
}

/// `x * y`, computed by the product rule and recorded.
pub fn mul(ctx: &mut SurrealContext, x: SurrealFinite, y: SurrealFinite) -> (r: SurrealFinite)
    requires
        old(ctx).wf(),
        old(ctx).contains(x),
        old(ctx).contains(y),
    ensures
        final(ctx).wf(),
        old(ctx).grows_to(final(ctx)),
        final(ctx).contains(r),
        final(ctx).mul_table().contains_key(pair_key(x, y)),
        final(ctx).mul_table()[pair_key(x, y)] == r,
        old(ctx).mul_table().contains_key(pair_key(x, y)) ==> r == old(ctx).mul_table()[pair_key(
            x,
            y,
        )],
        mul_entry(
            final(ctx).arena(),
            final(ctx).add_table(),
            final(ctx).neg_table(),
            final(ctx).mul_table(),
            x,
            y,
            r,
        ),
    decreases x.index() + y.index(), 2int,
{
    if let Some(r) = ctx.recorded_mul(x, y) {
        return r;
    }
    let ghost c0 = *ctx;
    let xl = cache_left(ctx, x);
    let xr = cache_right(ctx, x);
    let yl = cache_left(ctx, y);
    let yr = cache_right(ctx, y);
    let mut new_left: Vec<SurrealFinite> = Vec::new();
    let mut new_right: Vec<SurrealFinite> = Vec::new();
    push_terms(ctx, &mut new_left, x, y, &xl, &yl);
    let ghost c1 = *ctx;
    push_terms(ctx, &mut new_left, x, y, &xr, &yr);
    let ghost c2 = *ctx;
    push_terms(ctx, &mut new_right, x, y, &xl, &yr);
    let ghost c3 = *ctx;
    push_terms(ctx, &mut new_right, x, y, &xr, &yl);
    let ghost c4 = *ctx;
    let r = SurrealFinite::new_unchecked(ctx, new_left, new_right);
    proof {
        c2.lemma_grows_trans(&c3, &c4);
        c1.lemma_grows_trans(&c2, &c4);
        c0.lemma_grows_trans(&c1, &c4);
        c4.lemma_mint_grows(ctx);
        c0.lemma_grows_trans(&c4, ctx);
        let (ta, tn, tm) = (c4.add_table(), c4.neg_table(), c4.mul_table());
        lemma_mul_terms_extend(c1.add_table(), c1.neg_table(), c1.mul_table(), ta, tn, tm, x, y, xl@, yl@);
        lemma_mul_terms_extend(c2.add_table(), c2.neg_table(), c2.mul_table(), ta, tn, tm, x, y, xr@, yr@);
        lemma_mul_terms_extend(c3.add_table(), c3.neg_table(), c3.mul_table(), ta, tn, tm, x, y, xl@, yr@);
        assert(ctx.arena()[x.index()] == c0.arena()[x.index()]);
        assert(ctx.arena()[y.index()] == c0.arena()[y.index()]);
    }
    match ctx.recorded_mul(x, y) {
        Some(r2) => r2,
        None => {
            let ghost c5 = *ctx;
            ctx.record_mul(x, y, r);
            proof {
                c5.lemma_record_grows(ctx);
                c0.lemma_grows_trans(&c5, ctx);
            }
            r
        },
    }
}

} // verus!
