use vstd::prelude::*;

use crate::arithmetic::{add_entry, has_negs, has_sums, mul_entry, mul_terms, neg_entry, neg_key, negs, sums};
use crate::construction::{arena_wf, le, lefts, pair_key, rights, SurrealContext, SurrealStructure};
use crate::finite::lt;
use crate::handle::{lemma_index, SurrealFinite};

verus! {

broadcast use {lemma_index, vstd::seq_lib::group_to_multiset_ensures};

/// `x` and `y` are equal as numbers.
pub open spec fn same_value(a: Seq<SurrealStructure>, x: SurrealFinite, y: SurrealFinite) -> bool {
    le(a, x, y) && le(a, y, x)
}

/// Every left option is below every right option, and so on for all options,
/// recursively.
pub open spec fn is_number(a: Seq<SurrealStructure>, x: SurrealFinite) -> bool
    decreases x.index(),
{
    &&& forall|i: int, j: int|
        0 <= i < lefts(a, x).len() && 0 <= j < rights(a, x).len() ==> !le(
            a,
            #[trigger] rights(a, x)[j],
            #[trigger] lefts(a, x)[i],
        )
    &&& forall|i: int|
        0 <= i < lefts(a, x).len() && 0 <= #[trigger] lefts(a, x)[i].index() < x.index()
            ==> is_number(a, lefts(a, x)[i])
    &&& forall|j: int|
        0 <= j < rights(a, x).len() && 0 <= #[trigger] rights(a, x)[j].index() < x.index()
            ==> is_number(a, rights(a, x)[j])
}

/// Every number is at most itself; no number is at most one of its own left
/// options, and no right option of a number is at most it.
pub proof fn lemma_le_reflexive(a: Seq<SurrealStructure>, x: SurrealFinite)
    requires
        arena_wf(a),
        x.index() < a.len(),
    ensures
        le(a, x, x),
        forall|i: int| 0 <= i < lefts(a, x).len() ==> !le(a, x, #[trigger] lefts(a, x)[i]),
        forall|j: int| 0 <= j < rights(a, x).len() ==> !le(a, #[trigger] rights(a, x)[j], x),
    decreases x.index(),
{
    assert forall|i: int| 0 <= i < lefts(a, x).len() implies !le(a, x, #[trigger] lefts(a, x)[i]) by {
        let xl = lefts(a, x)[i];
        assert(a[x.index()].left@[i].index() < x.index());
        lemma_le_reflexive(a, xl);
    }
    assert forall|j: int| 0 <= j < rights(a, x).len() implies !le(a, #[trigger] rights(a, x)[j], x) by {
        let xr = rights(a, x)[j];
        assert(a[x.index()].right@[j].index() < x.index());
        lemma_le_reflexive(a, xr);
    }
}

/// `x <= y` and `y <= z` give `x <= z`.
pub proof fn lemma_le_transitive(
    a: Seq<SurrealStructure>,
    x: SurrealFinite,
    y: SurrealFinite,
    z: SurrealFinite,
)
    requires
        arena_wf(a),
        x.index() < a.len(),
        y.index() < a.len(),
        z.index() < a.len(),
        le(a, x, y),
        le(a, y, z),
    ensures
        le(a, x, z),
    decreases x.index() + y.index() + z.index(),
{
    assert forall|i: int|
        0 <= i < lefts(a, x).len() && 0 <= #[trigger] lefts(a, x)[i].index() < x.index() implies !le(
        a,
        z,
        lefts(a, x)[i],
    ) by {
        let xl = lefts(a, x)[i];
        if le(a, z, xl) {
            lemma_le_transitive(a, y, z, xl);
        }
    }
    assert forall|j: int|
        0 <= j < rights(a, z).len() && 0 <= #[trigger] rights(a, z)[j].index() < z.index() implies !le(
        a,
        rights(a, z)[j],
        x,
    ) by {
        let zr = rights(a, z)[j];
        if le(a, zr, x) {
            lemma_le_transitive(a, zr, x, y);
        }
    }
}

/// `x <= y < z` and `x < y <= z` both give `x < z`; `x < y` gives `x <= y`
/// and not `y <= x`.
pub proof fn lemma_lt_consistent(
    a: Seq<SurrealStructure>,
    x: SurrealFinite,
    y: SurrealFinite,
    z: SurrealFinite,
)
    requires
        arena_wf(a),
        x.index() < a.len(),
        y.index() < a.len(),
        z.index() < a.len(),
    ensures
        lt(a, x, y) <==> le(a, x, y) && !le(a, y, x),
        le(a, x, y) && lt(a, y, z) ==> lt(a, x, z),
        lt(a, x, y) && le(a, y, z) ==> lt(a, x, z),
{
    if le(a, x, y) && le(a, y, z) {
        lemma_le_transitive(a, x, y, z);
        if le(a, z, x) {
            lemma_le_transitive(a, z, x, y);
            lemma_le_transitive(a, y, z, x);
        }
    }
}

/// A left option of a number is at most it, and it is at most a right option.
pub proof fn lemma_options_bound(a: Seq<SurrealStructure>, x: SurrealFinite)
    requires
        arena_wf(a),
        x.index() < a.len(),
        is_number(a, x),
    ensures
        forall|i: int| 0 <= i < lefts(a, x).len() ==> le(a, #[trigger] lefts(a, x)[i], x),
        forall|j: int| 0 <= j < rights(a, x).len() ==> le(a, x, #[trigger] rights(a, x)[j]),
    decreases x.index(),
{
    lemma_le_reflexive(a, x);
    assert forall|i: int| 0 <= i < lefts(a, x).len() implies le(a, #[trigger] lefts(a, x)[i], x) by {
        let xl = lefts(a, x)[i];
        assert(a[x.index()].left@[i].index() < x.index());
        assert(is_number(a, xl));
        lemma_options_bound(a, xl);
        assert forall|k: int|
            0 <= k < lefts(a, xl).len() && 0 <= #[trigger] lefts(a, xl)[k].index() < xl.index() implies !le(
            a,
            x,
            lefts(a, xl)[k],
        ) by {
            let xll = lefts(a, xl)[k];
            assert(a[xl.index()].left@[k].index() < xl.index());
            if le(a, x, xll) {
                lemma_le_transitive(a, x, xll, xl);
            }
        }
    }
    assert forall|j: int| 0 <= j < rights(a, x).len() implies le(a, x, #[trigger] rights(a, x)[j]) by {
        let xr = rights(a, x)[j];
        assert(a[x.index()].right@[j].index() < x.index());
        assert(is_number(a, xr));
        lemma_options_bound(a, xr);
        assert forall|k: int|
            0 <= k < rights(a, xr).len() && 0 <= #[trigger] rights(a, xr)[k].index() < xr.index() implies !le(
            a,
            rights(a, xr)[k],
            x,
        ) by {
            let xrr = rights(a, xr)[k];
            assert(a[xr.index()].right@[k].index() < xr.index());
            if le(a, xrr, x) {
                lemma_le_transitive(a, xr, xrr, x);
            }
        }
    }
}

/// Any two numbers are comparable.
pub proof fn lemma_le_total(a: Seq<SurrealStructure>, x: SurrealFinite, y: SurrealFinite)
    requires
        arena_wf(a),
        x.index() < a.len(),
        y.index() < a.len(),
        is_number(a, x),
        is_number(a, y),
    ensures
        le(a, x, y) || le(a, y, x),
{
    if !le(a, x, y) {
        lemma_options_bound(a, x);
        lemma_options_bound(a, y);
        if exists|i: int|
            0 <= i < lefts(a, x).len() && 0 <= #[trigger] lefts(a, x)[i].index() < x.index() && le(
                a,
                y,
                lefts(a, x)[i],
            ) {
            let i = choose|i: int|
                0 <= i < lefts(a, x).len() && 0 <= #[trigger] lefts(a, x)[i].index() < x.index()
                    && le(a, y, lefts(a, x)[i]);
            lemma_le_transitive(a, y, lefts(a, x)[i], x);
        } else {
            let j = choose|j: int|
                0 <= j < rights(a, y).len() && 0 <= #[trigger] rights(a, y)[j].index() < y.index()
                    && le(a, rights(a, y)[j], x);
            lemma_le_transitive(a, y, rights(a, y)[j], x);
        }
    }
}

/// Two structures whose options agree as multisets are equal as numbers.
pub proof fn lemma_same_options_same_value(
    a: Seq<SurrealStructure>,
    g: SurrealFinite,
    h: SurrealFinite,
)
    requires
        arena_wf(a),
        g.index() < a.len(),
        h.index() < a.len(),
        lefts(a, g).to_multiset() == lefts(a, h).to_multiset(),
        rights(a, g).to_multiset() == rights(a, h).to_multiset(),
    ensures
        same_value(a, g, h),
{
    lemma_le_reflexive(a, g);
    lemma_le_reflexive(a, h);
    assert forall|i: int| 0 <= i < lefts(a, g).len() implies !le(a, h, #[trigger] lefts(a, g)[i]) by {
        let e = lefts(a, g)[i];
        assert(lefts(a, g).contains(e));
        assert(lefts(a, g).to_multiset().count(e) > 0);
        assert(lefts(a, h).to_multiset().count(e) > 0);
        assert(lefts(a, h).contains(e));
    }
    assert forall|i: int| 0 <= i < lefts(a, h).len() implies !le(a, g, #[trigger] lefts(a, h)[i]) by {
        let e = lefts(a, h)[i];
        assert(lefts(a, h).contains(e));
        assert(lefts(a, h).to_multiset().count(e) > 0);
        assert(lefts(a, g).to_multiset().count(e) > 0);
        assert(lefts(a, g).contains(e));
    }
    assert forall|j: int| 0 <= j < rights(a, g).len() implies !le(a, #[trigger] rights(a, g)[j], h) by {
        let e = rights(a, g)[j];
        assert(rights(a, g).contains(e));
        assert(rights(a, g).to_multiset().count(e) > 0);
        assert(rights(a, h).to_multiset().count(e) > 0);
        assert(rights(a, h).contains(e));
    }
    assert forall|j: int| 0 <= j < rights(a, h).len() implies !le(a, #[trigger] rights(a, h)[j], g) by {
        let e = rights(a, h)[j];
        assert(rights(a, h).contains(e));
        assert(rights(a, h).to_multiset().count(e) > 0);
        assert(rights(a, g).to_multiset().count(e) > 0);
        assert(rights(a, g).contains(e));
    }
}

/// `x + y` and `y + x` are equal as numbers.
pub proof fn lemma_add_commutative(ctx: &SurrealContext, x: SurrealFinite, y: SurrealFinite)
    requires
        ctx.wf(),
        ctx.add_table().contains_key(pair_key(x, y)),
        ctx.add_table().contains_key(pair_key(y, x)),
    ensures
        same_value(ctx.arena(), ctx.add_table()[pair_key(x, y)], ctx.add_table()[pair_key(y, x)]),
{
    let (a, t) = (ctx.arena(), ctx.add_table());
    let (r1, r2) = (t[pair_key(x, y)], t[pair_key(y, x)]);
    assert(add_entry(a, t, x, y, r1));
    assert(add_entry(a, t, y, x, r2));
    vstd::seq_lib::lemma_multiset_commutative(sums(t, lefts(a, x), y), sums(t, lefts(a, y), x));
    vstd::seq_lib::lemma_multiset_commutative(sums(t, lefts(a, y), x), sums(t, lefts(a, x), y));
    vstd::seq_lib::lemma_multiset_commutative(sums(t, rights(a, x), y), sums(t, rights(a, y), x));
    vstd::seq_lib::lemma_multiset_commutative(sums(t, rights(a, y), x), sums(t, rights(a, x), y));
    let (lx, ly, rx, ry) = (
        sums(t, lefts(a, x), y),
        sums(t, lefts(a, y), x),
        sums(t, rights(a, x), y),
        sums(t, rights(a, y), x),
    );
    assert(lx.to_multiset().add(ly.to_multiset()) =~= ly.to_multiset().add(lx.to_multiset()));
    assert(rx.to_multiset().add(ry.to_multiset()) =~= ry.to_multiset().add(rx.to_multiset()));
    lemma_same_options_same_value(a, r1, r2);
}

/// Every member of `s` equals, as a number, some member of `t`.
pub open spec fn covered_by(a: Seq<SurrealStructure>, s: Seq<SurrealFinite>, t: Seq<SurrealFinite>) -> bool {
    forall|i: int| 0 <= i < s.len() ==> matched(a, #[trigger] s[i], t)
}

/// `e` equals, as a number, some member of `t`.
pub open spec fn matched(a: Seq<SurrealStructure>, e: SurrealFinite, t: Seq<SurrealFinite>) -> bool {
    exists|j: int| 0 <= j < t.len() && same_value(a, e, #[trigger] t[j])
}

/// A number is at most another when each left option of the first equals some
/// left option of the second, and each right option of the second equals some
/// right option of the first.
pub proof fn lemma_covered_le(a: Seq<SurrealStructure>, g: SurrealFinite, h: SurrealFinite)
    requires
        arena_wf(a),
        g.index() < a.len(),
        h.index() < a.len(),
        covered_by(a, lefts(a, g), lefts(a, h)),
        covered_by(a, rights(a, h), rights(a, g)),
    ensures
        le(a, g, h),
{
    lemma_le_reflexive(a, g);
    lemma_le_reflexive(a, h);
    let (gl, hl, gr, hr) = (lefts(a, g), lefts(a, h), rights(a, g), rights(a, h));
    assert forall|i: int| 0 <= i < gl.len() implies !le(a, h, #[trigger] gl[i]) by {
        let j = choose|j: int| 0 <= j < hl.len() && same_value(a, gl[i], hl[j]);
        assert(a[g.index()].left@[i].index() < g.index());
        assert(a[h.index()].left@[j].index() < h.index());
        if le(a, h, gl[i]) {
            lemma_le_transitive(a, h, gl[i], hl[j]);
        }
    }
    assert forall|j: int| 0 <= j < hr.len() implies !le(a, #[trigger] hr[j], g) by {
        let i = choose|i: int| 0 <= i < gr.len() && same_value(a, hr[j], gr[i]);
        assert(a[h.index()].right@[j].index() < h.index());
        assert(a[g.index()].right@[i].index() < g.index());
        if le(a, hr[j], g) {
            lemma_le_transitive(a, gr[i], hr[j], g);
        }
    }
}

/// Two numbers whose options match up to equal values are equal.
pub proof fn lemma_equal_options_same_value(
    a: Seq<SurrealStructure>,
    g: SurrealFinite,
    h: SurrealFinite,
)
    requires
        arena_wf(a),
        g.index() < a.len(),
        h.index() < a.len(),
        covered_by(a, lefts(a, g), lefts(a, h)),
        covered_by(a, lefts(a, h), lefts(a, g)),
        covered_by(a, rights(a, g), rights(a, h)),
        covered_by(a, rights(a, h), rights(a, g)),
    ensures
        same_value(a, g, h),
{
    lemma_covered_le(a, g, h);
    lemma_covered_le(a, h, g);
}

proof fn lemma_ms_contains<A>(s: Seq<A>, t: Seq<A>, e: A)
    requires
        s.to_multiset() == t.to_multiset(),
        s.contains(e),
    ensures
        t.contains(e),
{
    assert(s.to_multiset().count(e) > 0);
}

/// `0` is `{ | }`: a number without options.
pub open spec fn is_zero_shape(a: Seq<SurrealStructure>, z: SurrealFinite) -> bool {
    z.index() < a.len() && lefts(a, z).len() == 0 && rights(a, z).len() == 0
}

/// `x + 0` equals `x`.
pub proof fn lemma_add_zero(ctx: &SurrealContext, x: SurrealFinite, z: SurrealFinite)
    requires
        ctx.wf(),
        ctx.contains(x),
        is_zero_shape(ctx.arena(), z),
        ctx.add_table().contains_key(pair_key(x, z)),
    ensures
        same_value(ctx.arena(), ctx.add_table()[pair_key(x, z)], x),
    decreases x.index(),
{
    let a = ctx.arena();
    let t = ctx.add_table();
    let r = t[pair_key(x, z)];
    assert(add_entry(a, t, x, z, r));
    let sl = sums(t, lefts(a, x), z);
    let sr = sums(t, rights(a, x), z);
    assert(sums(t, lefts(a, z), x) =~= Seq::<SurrealFinite>::empty());
    assert(sums(t, rights(a, z), x) =~= Seq::<SurrealFinite>::empty());
    assert(sl + sums(t, lefts(a, z), x) =~= sl);
    assert(sr + sums(t, rights(a, z), x) =~= sr);
    assert forall|k: int| 0 <= k < lefts(a, x).len() implies same_value(a, #[trigger] sl[k], lefts(a, x)[k]) by {
        assert(t.contains_key(pair_key(lefts(a, x)[k], z)));
        assert(a[x.index()].left@[k].index() < x.index());
        lemma_add_zero(ctx, lefts(a, x)[k], z);
    }
    assert forall|k: int| 0 <= k < rights(a, x).len() implies same_value(a, #[trigger] sr[k], rights(a, x)[k]) by {
        assert(t.contains_key(pair_key(rights(a, x)[k], z)));
        assert(a[x.index()].right@[k].index() < x.index());
        lemma_add_zero(ctx, rights(a, x)[k], z);
    }
    let lr = lefts(a, r);
    let lx = lefts(a, x);
    let rr = rights(a, r);
    let rx = rights(a, x);
    assert forall|i: int| 0 <= i < lr.len() implies matched(a, #[trigger] lr[i], lx) by {
        assert(lr.contains(lr[i]));
        lemma_ms_contains(lr, sl, lr[i]);
        let k = choose|k: int| 0 <= k < sl.len() && sl[k] == lr[i];
        assert(same_value(a, sl[k], lx[k]));
    }
    assert(covered_by(a, lr, lx));
    assert(covered_by(a, lx, lr)) by {
        assert forall|j: int| 0 <= j < lx.len() implies matched(a, #[trigger] lx[j], lr) by {
            assert(sl.contains(sl[j]));
            lemma_ms_contains(sl, lr, sl[j]);
            let i = choose|i: int| 0 <= i < lr.len() && lr[i] == sl[j];
            assert(same_value(a, sl[j], lx[j]));
            lemma_le_reflexive(a, lx[j]);
        }
    }
    assert(covered_by(a, rr, rx)) by {
        assert forall|i: int| 0 <= i < rr.len() implies matched(a, #[trigger] rr[i], rx) by {
            assert(rr.contains(rr[i]));
            lemma_ms_contains(rr, sr, rr[i]);
            let k = choose|k: int| 0 <= k < sr.len() && sr[k] == rr[i];
            assert(same_value(a, sr[k], rx[k]));
        }
    }
    assert(covered_by(a, rx, rr)) by {
        assert forall|j: int| 0 <= j < rx.len() implies matched(a, #[trigger] rx[j], rr) by {
            assert(sr.contains(sr[j]));
            lemma_ms_contains(sr, rr, sr[j]);
            let i = choose|i: int| 0 <= i < rr.len() && rr[i] == sr[j];
            assert(same_value(a, sr[j], rx[j]));
        }
    }
    lemma_equal_options_same_value(a, r, x);
}

proof fn lemma_double_neg_side(
    a: Seq<SurrealStructure>,
    tn: Map<usize, SurrealFinite>,
    xs: Seq<SurrealFinite>,
    mid: Seq<SurrealFinite>,
    outs: Seq<SurrealFinite>,
)
    requires
        has_negs(tn, xs),
        has_negs(tn, mid),
        mid.to_multiset() == negs(tn, xs).to_multiset(),
        outs.to_multiset() == negs(tn, mid).to_multiset(),
        forall|m: int|
            0 <= m < xs.len() ==> same_value(a, tn[neg_key(tn[neg_key(#[trigger] xs[m])])], xs[m]),
    ensures
        covered_by(a, outs, xs),
        covered_by(a, xs, outs),
{
    let nx = negs(tn, xs);
    let nm = negs(tn, mid);
    assert forall|i: int| 0 <= i < outs.len() implies matched(a, #[trigger] outs[i], xs) by {
        assert(outs.contains(outs[i]));
        lemma_ms_contains(outs, nm, outs[i]);
        let k = choose|k: int| 0 <= k < nm.len() && nm[k] == outs[i];
        assert(mid.contains(mid[k]));
        lemma_ms_contains(mid, nx, mid[k]);
        let m = choose|m: int| 0 <= m < nx.len() && nx[m] == mid[k];
        assert(same_value(a, tn[neg_key(tn[neg_key(xs[m])])], xs[m]));
    }
    assert forall|m: int| 0 <= m < xs.len() implies matched(a, #[trigger] xs[m], outs) by {
        assert(nx.contains(nx[m]));
        lemma_ms_contains(nx, mid, nx[m]);
        let k = choose|k: int| 0 <= k < mid.len() && mid[k] == nx[m];
        assert(nm.contains(nm[k]));
        lemma_ms_contains(nm, outs, nm[k]);
        let i = choose|i: int| 0 <= i < outs.len() && outs[i] == nm[k];
        let e = tn[neg_key(tn[neg_key(xs[m])])];
        assert(same_value(a, e, xs[m]));
        assert(outs[i] == e);
    }
}

/// `-(-x)` equals `x`.
pub proof fn lemma_neg_involutive(ctx: &SurrealContext, x: SurrealFinite)
    requires
        ctx.wf(),
        ctx.contains(x),
        ctx.neg_table().contains_key(neg_key(x)),
        ctx.neg_table().contains_key(neg_key(ctx.neg_table()[neg_key(x)])),
    ensures
        same_value(ctx.arena(), ctx.neg_table()[neg_key(ctx.neg_table()[neg_key(x)])], x),
    decreases x.index(),
{
    let a = ctx.arena();
    let tn = ctx.neg_table();
    let r1 = tn[neg_key(x)];
    let r2 = tn[neg_key(r1)];
    assert(neg_entry(a, tn, x, r1));
    assert(neg_entry(a, tn, r1, r2));
    let nlx = negs(tn, lefts(a, x));
    let nrx = negs(tn, rights(a, x));
    assert forall|m: int| 0 <= m < lefts(a, x).len() implies same_value(
        a,
        tn[neg_key(tn[neg_key(#[trigger] lefts(a, x)[m])])],
        lefts(a, x)[m],
    ) by {
        assert(nlx.contains(nlx[m]));
        lemma_ms_contains(nlx, rights(a, r1), nlx[m]);
        assert(a[x.index()].left@[m].index() < x.index());
        lemma_neg_involutive(ctx, lefts(a, x)[m]);
    }
    assert forall|m: int| 0 <= m < rights(a, x).len() implies same_value(
        a,
        tn[neg_key(tn[neg_key(#[trigger] rights(a, x)[m])])],
        rights(a, x)[m],
    ) by {
        assert(nrx.contains(nrx[m]));
        lemma_ms_contains(nrx, lefts(a, r1), nrx[m]);
        assert(a[x.index()].right@[m].index() < x.index());
        lemma_neg_involutive(ctx, rights(a, x)[m]);
    }
    lemma_double_neg_side(a, tn, lefts(a, x), rights(a, r1), lefts(a, r2));
    lemma_double_neg_side(a, tn, rights(a, x), lefts(a, r1), rights(a, r2));
    lemma_equal_options_same_value(a, r2, x);
}

proof fn lemma_mul_terms_none(
    ta: Map<u128, SurrealFinite>,
    tn: Map<usize, SurrealFinite>,
    tm: Map<u128, SurrealFinite>,
    x: SurrealFinite,
    y: SurrealFinite,
    ps: Seq<SurrealFinite>,
    qs: Seq<SurrealFinite>,
)
    requires
        qs.len() == 0,
    ensures
        mul_terms(ta, tn, tm, x, y, ps, qs).len() == 0,
    decreases ps.len(),
{
    if ps.len() > 0 {
        lemma_mul_terms_none(ta, tn, tm, x, y, ps.drop_last(), qs);
    }
}

/// `x * 0` equals `0`.
pub proof fn lemma_mul_zero(ctx: &SurrealContext, x: SurrealFinite, z: SurrealFinite)
    requires
        ctx.wf(),
        ctx.contains(x),
        is_zero_shape(ctx.arena(), z),
        ctx.mul_table().contains_key(pair_key(x, z)),
    ensures
        same_value(ctx.arena(), ctx.mul_table()[pair_key(x, z)], z),
{
    let a = ctx.arena();
    let (ta, tn, tm) = (ctx.add_table(), ctx.neg_table(), ctx.mul_table());
    let r = tm[pair_key(x, z)];
    assert(mul_entry(a, ta, tn, tm, x, z, r));
    lemma_mul_terms_none(ta, tn, tm, x, z, lefts(a, x), lefts(a, z));
    lemma_mul_terms_none(ta, tn, tm, x, z, rights(a, x), rights(a, z));
    lemma_mul_terms_none(ta, tn, tm, x, z, lefts(a, x), rights(a, z));
    lemma_mul_terms_none(ta, tn, tm, x, z, rights(a, x), lefts(a, z));
    let e = Seq::<SurrealFinite>::empty();
    assert(mul_terms(ta, tn, tm, x, z, lefts(a, x), lefts(a, z)) + mul_terms(ta, tn, tm, x, z, rights(a, x), rights(a, z)) =~= e);
    assert(mul_terms(ta, tn, tm, x, z, lefts(a, x), rights(a, z)) + mul_terms(ta, tn, tm, x, z, rights(a, x), lefts(a, z)) =~= e);
    assert(lefts(a, r).to_multiset().len() == lefts(a, r).len());
    assert(e.to_multiset().len() == 0);
    assert(lefts(a, r).len() == 0);
    assert(rights(a, r).to_multiset().len() == rights(a, r).len());
    assert(rights(a, r).len() == 0);
    assert(lefts(a, r) =~= lefts(a, z));
    assert(rights(a, r) =~= rights(a, z));
    lemma_same_options_same_value(a, r, z);
}

/// The recorded negation of `v`.
pub open spec fn negated(tn: Map<usize, SurrealFinite>, v: SurrealFinite) -> SurrealFinite {
    tn[neg_key(v)]
}

/// The recorded sum of `u` and `v`.
pub open spec fn summed(ta: Map<u128, SurrealFinite>, u: SurrealFinite, v: SurrealFinite) -> SurrealFinite {
    ta[pair_key(u, v)]
}

/// For the `m`-th sum of `xs` with `u` followed by `ys` with `v`, the sum of
/// the negated operands.
pub open spec fn partner(
    ta: Map<u128, SurrealFinite>,
    tn: Map<usize, SurrealFinite>,
    xs: Seq<SurrealFinite>,
    ys: Seq<SurrealFinite>,
    u: SurrealFinite,
    v: SurrealFinite,
    m: int,
) -> SurrealFinite {
    if m < xs.len() {
        summed(ta, negated(tn, xs[m]), negated(tn, u))
    } else {
        summed(ta, negated(tn, ys[m - xs.len()]), negated(tn, v))
    }
}

proof fn lemma_neg_add_side(
    a: Seq<SurrealStructure>,
    ta: Map<u128, SurrealFinite>,
    tn: Map<usize, SurrealFinite>,
    p: Seq<SurrealFinite>,
    xs: Seq<SurrealFinite>,
    ys: Seq<SurrealFinite>,
    u: SurrealFinite,
    v: SurrealFinite,
    nxs: Seq<SurrealFinite>,
    nys: Seq<SurrealFinite>,
    outs: Seq<SurrealFinite>,
    targets: Seq<SurrealFinite>,
)
    requires
        has_sums(ta, xs, u),
        has_sums(ta, ys, v),
        p.to_multiset() == (sums(ta, xs, u) + sums(ta, ys, v)).to_multiset(),
        has_negs(tn, p),
        outs.to_multiset() == negs(tn, p).to_multiset(),
        nxs.to_multiset() == negs(tn, xs).to_multiset(),
        nys.to_multiset() == negs(tn, ys).to_multiset(),
        targets.to_multiset() == (sums(ta, nxs, negated(tn, u)) + sums(ta, nys, negated(tn, v))).to_multiset(),
        forall|m: int|
            0 <= m < xs.len() ==> same_value(
                a,
                negated(tn, summed(ta, #[trigger] xs[m], u)),
                summed(ta, negated(tn, xs[m]), negated(tn, u)),
            ),
        forall|m: int|
            0 <= m < ys.len() ==> same_value(
                a,
                negated(tn, summed(ta, #[trigger] ys[m], v)),
                summed(ta, negated(tn, ys[m]), negated(tn, v)),
            ),
    ensures
        covered_by(a, outs, targets),
        covered_by(a, targets, outs),
{
    let (nu, nv) = (negated(tn, u), negated(tn, v));
    let sp = sums(ta, xs, u) + sums(ta, ys, v);
    let st = sums(ta, nxs, nu) + sums(ta, nys, nv);
    let np = negs(tn, p);
    let (nx, ny) = (negs(tn, xs), negs(tn, ys));
    // the target matching a member of `p`, and the member of `outs` for it
    assert forall|m: int| 0 <= m < sp.len() implies targets.contains(
        #[trigger] partner(ta, tn, xs, ys, u, v, m),
    ) by {
        if m < xs.len() {
            assert(nx.contains(nx[m]));
            lemma_ms_contains(nx, nxs, nx[m]);
            let k = choose|k: int| 0 <= k < nxs.len() && nxs[k] == nx[m];
            assert(st[k] == summed(ta, nxs[k], nu));
            assert(st.contains(st[k]));
            lemma_ms_contains(st, targets, st[k]);
        } else {
            let mm = m - xs.len();
            assert(ny.contains(ny[mm]));
            lemma_ms_contains(ny, nys, ny[mm]);
            let k = choose|k: int| 0 <= k < nys.len() && nys[k] == ny[mm];
            assert(st[nxs.len() + k] == summed(ta, nys[k], nv));
            assert(st.contains(st[nxs.len() + k]));
            lemma_ms_contains(st, targets, st[nxs.len() + k]);
        }
    }
    assert forall|i: int| 0 <= i < outs.len() implies matched(a, #[trigger] outs[i], targets) by {
        assert(outs.contains(outs[i]));
        lemma_ms_contains(outs, np, outs[i]);
        let k = choose|k: int| 0 <= k < np.len() && np[k] == outs[i];
        assert(p.contains(p[k]));
        lemma_ms_contains(p, sp, p[k]);
        let m = choose|m: int| 0 <= m < sp.len() && sp[m] == p[k];
        let t = partner(ta, tn, xs, ys, u, v, m);
        assert(targets.contains(t));
        let j = choose|j: int| 0 <= j < targets.len() && targets[j] == t;
        if m < xs.len() {
            assert(same_value(a, negated(tn, summed(ta, xs[m], u)), t));
        } else {
            assert(same_value(a, negated(tn, summed(ta, ys[m - xs.len()], v)), t));
        }
    }
    assert forall|j: int| 0 <= j < targets.len() implies matched(a, #[trigger] targets[j], outs) by {
        assert(targets.contains(targets[j]));
        lemma_ms_contains(targets, st, targets[j]);
        let k = choose|k: int| 0 <= k < st.len() && st[k] == targets[j];
        if k < nxs.len() {
            assert(nxs.contains(nxs[k]));
            lemma_ms_contains(nxs, nx, nxs[k]);
            let m = choose|m: int| 0 <= m < nx.len() && nx[m] == nxs[k];
            assert(sp[m] == summed(ta, xs[m], u));
            assert(sp.contains(sp[m]));
            lemma_ms_contains(sp, p, sp[m]);
            let q = choose|q: int| 0 <= q < p.len() && p[q] == sp[m];
            assert(np.contains(np[q]));
            lemma_ms_contains(np, outs, np[q]);
            let i = choose|i: int| 0 <= i < outs.len() && outs[i] == np[q];
            assert(same_value(a, negated(tn, summed(ta, xs[m], u)), summed(ta, negated(tn, xs[m]), nu)));
        } else {
            let kk = k - nxs.len();
            assert(nys.contains(nys[kk]));
            lemma_ms_contains(nys, ny, nys[kk]);
            let m = choose|m: int| 0 <= m < ny.len() && ny[m] == nys[kk];
            assert(sp[xs.len() + m] == summed(ta, ys[m], v));
            assert(sp.contains(sp[xs.len() + m]));
            lemma_ms_contains(sp, p, sp[xs.len() + m]);
            let q = choose|q: int| 0 <= q < p.len() && p[q] == sp[xs.len() + m];
            assert(np.contains(np[q]));
            lemma_ms_contains(np, outs, np[q]);
            let i = choose|i: int| 0 <= i < outs.len() && outs[i] == np[q];
            assert(same_value(a, negated(tn, summed(ta, ys[m], v)), summed(ta, negated(tn, ys[m]), nv)));
        }
    }
}

/// `-(x + y)` equals `(-x) + (-y)`.
pub proof fn lemma_neg_add(ctx: &SurrealContext, x: SurrealFinite, y: SurrealFinite)
    requires
        ctx.wf(),
        ctx.contains(x),
        ctx.contains(y),
        ctx.add_table().contains_key(pair_key(x, y)),
        ctx.neg_table().contains_key(neg_key(ctx.add_table()[pair_key(x, y)])),
        ctx.neg_table().contains_key(neg_key(x)),
        ctx.neg_table().contains_key(neg_key(y)),
        ctx.add_table().contains_key(
            pair_key(ctx.neg_table()[neg_key(x)], ctx.neg_table()[neg_key(y)]),
        ),
    ensures
        same_value(
            ctx.arena(),
            ctx.neg_table()[neg_key(ctx.add_table()[pair_key(x, y)])],
            ctx.add_table()[pair_key(ctx.neg_table()[neg_key(x)], ctx.neg_table()[neg_key(y)])],
        ),
    decreases x.index() + y.index(),
{
    let a = ctx.arena();
    let ta = ctx.add_table();
    let tn = ctx.neg_table();
    let sxy = summed(ta, x, y);
    let ns = negated(tn, sxy);
    let nx = negated(tn, x);
    let ny = negated(tn, y);
    let q = summed(ta, nx, ny);
    assert(add_entry(a, ta, x, y, sxy));
    assert(neg_entry(a, tn, sxy, ns));
    assert(neg_entry(a, tn, x, nx));
    assert(neg_entry(a, tn, y, ny));
    assert(add_entry(a, ta, nx, ny, q));
    let srx = sums(ta, rights(a, x), y) + sums(ta, rights(a, y), x);
    let slx = sums(ta, lefts(a, x), y) + sums(ta, lefts(a, y), x);
    assert forall|m: int| 0 <= m < rights(a, x).len() implies same_value(
        a,
        negated(tn, summed(ta, #[trigger] rights(a, x)[m], y)),
        summed(ta, negated(tn, rights(a, x)[m]), negated(tn, y)),
    ) by {
        let e = srx[m];
        assert(e == summed(ta, rights(a, x)[m], y));
        assert(srx.contains(e));
        lemma_ms_contains(srx, rights(a, sxy), e);
        let k = choose|k: int| 0 <= k < rights(a, sxy).len() && rights(a, sxy)[k] == e;
        assert(tn.contains_key(neg_key(rights(a, sxy)[k])));
        let f = negs(tn, rights(a, x))[m];
        assert(negs(tn, rights(a, x)).contains(f));
        lemma_ms_contains(negs(tn, rights(a, x)), lefts(a, nx), f);
        let j = choose|j: int| 0 <= j < lefts(a, nx).len() && lefts(a, nx)[j] == f;
        assert(ta.contains_key(pair_key(lefts(a, nx)[j], negated(tn, y))));
        assert(a[x.index()].right@[m].index() < x.index());
        lemma_neg_add(ctx, rights(a, x)[m], y);
    }
    assert forall|m: int| 0 <= m < rights(a, y).len() implies same_value(
        a,
        negated(tn, summed(ta, #[trigger] rights(a, y)[m], x)),
        summed(ta, negated(tn, rights(a, y)[m]), negated(tn, x)),
    ) by {
        let e = srx[rights(a, x).len() + m];
        assert(e == summed(ta, rights(a, y)[m], x));
        assert(srx.contains(e));
        lemma_ms_contains(srx, rights(a, sxy), e);
        let k = choose|k: int| 0 <= k < rights(a, sxy).len() && rights(a, sxy)[k] == e;
        assert(tn.contains_key(neg_key(rights(a, sxy)[k])));
        let f = negs(tn, rights(a, y))[m];
        assert(negs(tn, rights(a, y)).contains(f));
        lemma_ms_contains(negs(tn, rights(a, y)), lefts(a, ny), f);
        let j = choose|j: int| 0 <= j < lefts(a, ny).len() && lefts(a, ny)[j] == f;
        assert(ta.contains_key(pair_key(lefts(a, ny)[j], negated(tn, x))));
        assert(a[y.index()].right@[m].index() < y.index());
        lemma_neg_add(ctx, rights(a, y)[m], x);
    }
    assert forall|m: int| 0 <= m < lefts(a, x).len() implies same_value(
        a,
        negated(tn, summed(ta, #[trigger] lefts(a, x)[m], y)),
        summed(ta, negated(tn, lefts(a, x)[m]), negated(tn, y)),
    ) by {
        let e = slx[m];
        assert(e == summed(ta, lefts(a, x)[m], y));
        assert(slx.contains(e));
        lemma_ms_contains(slx, lefts(a, sxy), e);
        let k = choose|k: int| 0 <= k < lefts(a, sxy).len() && lefts(a, sxy)[k] == e;
        assert(tn.contains_key(neg_key(lefts(a, sxy)[k])));
        let f = negs(tn, lefts(a, x))[m];
        assert(negs(tn, lefts(a, x)).contains(f));
        lemma_ms_contains(negs(tn, lefts(a, x)), rights(a, nx), f);
        let j = choose|j: int| 0 <= j < rights(a, nx).len() && rights(a, nx)[j] == f;
        assert(ta.contains_key(pair_key(rights(a, nx)[j], negated(tn, y))));
        assert(a[x.index()].left@[m].index() < x.index());
        lemma_neg_add(ctx, lefts(a, x)[m], y);
    }
    assert forall|m: int| 0 <= m < lefts(a, y).len() implies same_value(
        a,
        negated(tn, summed(ta, #[trigger] lefts(a, y)[m], x)),
        summed(ta, negated(tn, lefts(a, y)[m]), negated(tn, x)),
    ) by {
        let e = slx[lefts(a, x).len() + m];
        assert(e == summed(ta, lefts(a, y)[m], x));
        assert(slx.contains(e));
        lemma_ms_contains(slx, lefts(a, sxy), e);
        let k = choose|k: int| 0 <= k < lefts(a, sxy).len() && lefts(a, sxy)[k] == e;
        assert(tn.contains_key(neg_key(lefts(a, sxy)[k])));
        let f = negs(tn, lefts(a, y))[m];
        assert(negs(tn, lefts(a, y)).contains(f));
        lemma_ms_contains(negs(tn, lefts(a, y)), rights(a, ny), f);
        let j = choose|j: int| 0 <= j < rights(a, ny).len() && rights(a, ny)[j] == f;
        assert(ta.contains_key(pair_key(rights(a, ny)[j], negated(tn, x))));
        assert(a[y.index()].left@[m].index() < y.index());
        lemma_neg_add(ctx, lefts(a, y)[m], x);
    }
    lemma_neg_add_side(
        a,
        ta,
        tn,
        rights(a, sxy),
        rights(a, x),
        rights(a, y),
        y,
        x,
        lefts(a, nx),
        lefts(a, ny),
        lefts(a, ns),
        lefts(a, q),
    );
    lemma_neg_add_side(
        a,
        ta,
        tn,
        lefts(a, sxy),
        lefts(a, x),
        lefts(a, y),
        y,
        x,
        rights(a, nx),
        rights(a, ny),
        rights(a, ns),
        rights(a, q),
    );
    lemma_equal_options_same_value(a, ns, q);
}

/// `e` is a recorded sum `p + v` for some `p` of `ps`, or `q + w` for some `q` of `qs`.
pub open spec fn sum_source(
    ta: Map<u128, SurrealFinite>,
    ps: Seq<SurrealFinite>,
    v: SurrealFinite,
    qs: Seq<SurrealFinite>,
    w: SurrealFinite,
    e: SurrealFinite,
) -> bool {
    (exists|i: int| 0 <= i < ps.len() && e == summed(ta, #[trigger] ps[i], v)) || (exists|i: int|
        0 <= i < qs.len() && e == summed(ta, #[trigger] qs[i], w))
}

/// `e` is the recorded negation of some member of `ps`.
pub open spec fn neg_source(tn: Map<usize, SurrealFinite>, ps: Seq<SurrealFinite>, e: SurrealFinite) -> bool {
    exists|i: int| 0 <= i < ps.len() && e == negated(tn, #[trigger] ps[i])
}

/// Where the options of a recorded sum come from, and that each such sum is one.
proof fn lemma_sum_options(
    a: Seq<SurrealStructure>,
    ta: Map<u128, SurrealFinite>,
    x: SurrealFinite,
    y: SurrealFinite,
)
    requires
        add_entry(a, ta, x, y, summed(ta, x, y)),
    ensures
        forall|i: int|
            0 <= i < lefts(a, x).len() ==> lefts(a, summed(ta, x, y)).contains(
                summed(ta, #[trigger] lefts(a, x)[i], y),
            ),
        forall|i: int|
            0 <= i < lefts(a, y).len() ==> lefts(a, summed(ta, x, y)).contains(
                summed(ta, #[trigger] lefts(a, y)[i], x),
            ),
        forall|i: int|
            0 <= i < rights(a, x).len() ==> rights(a, summed(ta, x, y)).contains(
                summed(ta, #[trigger] rights(a, x)[i], y),
            ),
        forall|i: int|
            0 <= i < rights(a, y).len() ==> rights(a, summed(ta, x, y)).contains(
                summed(ta, #[trigger] rights(a, y)[i], x),
            ),
        forall|k: int|
            0 <= k < lefts(a, summed(ta, x, y)).len() ==> sum_source(
                ta,
                lefts(a, x),
                y,
                lefts(a, y),
                x,
                #[trigger] lefts(a, summed(ta, x, y))[k],
            ),
        forall|k: int|
            0 <= k < rights(a, summed(ta, x, y)).len() ==> sum_source(
                ta,
                rights(a, x),
                y,
                rights(a, y),
                x,
                #[trigger] rights(a, summed(ta, x, y))[k],
            ),
{
    let r = summed(ta, x, y);
    let sl = sums(ta, lefts(a, x), y) + sums(ta, lefts(a, y), x);
    let sr = sums(ta, rights(a, x), y) + sums(ta, rights(a, y), x);
    assert forall|i: int| 0 <= i < lefts(a, x).len() implies lefts(a, r).contains(
        summed(ta, #[trigger] lefts(a, x)[i], y),
    ) by {
        assert(sl[i] == summed(ta, lefts(a, x)[i], y));
        assert(sl.contains(sl[i]));
        lemma_ms_contains(sl, lefts(a, r), sl[i]);
    }
    assert forall|i: int| 0 <= i < lefts(a, y).len() implies lefts(a, r).contains(
        summed(ta, #[trigger] lefts(a, y)[i], x),
    ) by {
        let m = lefts(a, x).len() + i;
        assert(sl[m] == summed(ta, lefts(a, y)[i], x));
        assert(sl.contains(sl[m]));
        lemma_ms_contains(sl, lefts(a, r), sl[m]);
    }
    assert forall|i: int| 0 <= i < rights(a, x).len() implies rights(a, r).contains(
        summed(ta, #[trigger] rights(a, x)[i], y),
    ) by {
        assert(sr[i] == summed(ta, rights(a, x)[i], y));
        assert(sr.contains(sr[i]));
        lemma_ms_contains(sr, rights(a, r), sr[i]);
    }
    assert forall|i: int| 0 <= i < rights(a, y).len() implies rights(a, r).contains(
        summed(ta, #[trigger] rights(a, y)[i], x),
    ) by {
        let m = rights(a, x).len() + i;
        assert(sr[m] == summed(ta, rights(a, y)[i], x));
        assert(sr.contains(sr[m]));
        lemma_ms_contains(sr, rights(a, r), sr[m]);
    }
    assert forall|k: int| 0 <= k < lefts(a, r).len() implies sum_source(
        ta,
        lefts(a, x),
        y,
        lefts(a, y),
        x,
        #[trigger] lefts(a, r)[k],
    ) by {
        assert(lefts(a, r).contains(lefts(a, r)[k]));
        lemma_ms_contains(lefts(a, r), sl, lefts(a, r)[k]);
        let m = choose|m: int| 0 <= m < sl.len() && sl[m] == lefts(a, r)[k];
        if m < lefts(a, x).len() {
            assert(sl[m] == summed(ta, lefts(a, x)[m], y));
        } else {
            assert(sl[m] == summed(ta, lefts(a, y)[m - lefts(a, x).len()], x));
        }
    }
    assert forall|k: int| 0 <= k < rights(a, r).len() implies sum_source(
        ta,
        rights(a, x),
        y,
        rights(a, y),
        x,
        #[trigger] rights(a, r)[k],
    ) by {
        assert(rights(a, r).contains(rights(a, r)[k]));
        lemma_ms_contains(rights(a, r), sr, rights(a, r)[k]);
        let m = choose|m: int| 0 <= m < sr.len() && sr[m] == rights(a, r)[k];
        if m < rights(a, x).len() {
            assert(sr[m] == summed(ta, rights(a, x)[m], y));
        } else {
            assert(sr[m] == summed(ta, rights(a, y)[m - rights(a, x).len()], x));
        }
    }
}

/// Where the options of a recorded negation come from, and that each such
/// negation is one.
proof fn lemma_neg_options(a: Seq<SurrealStructure>, tn: Map<usize, SurrealFinite>, x: SurrealFinite)
    requires
        neg_entry(a, tn, x, negated(tn, x)),
    ensures
        forall|i: int|
            0 <= i < rights(a, x).len() ==> lefts(a, negated(tn, x)).contains(
                negated(tn, #[trigger] rights(a, x)[i]),
            ),
        forall|i: int|
            0 <= i < lefts(a, x).len() ==> rights(a, negated(tn, x)).contains(
                negated(tn, #[trigger] lefts(a, x)[i]),
            ),
        forall|k: int|
            0 <= k < lefts(a, negated(tn, x)).len() ==> neg_source(
                tn,
                rights(a, x),
                #[trigger] lefts(a, negated(tn, x))[k],
            ),
        forall|k: int|
            0 <= k < rights(a, negated(tn, x)).len() ==> neg_source(
                tn,
                lefts(a, x),
                #[trigger] rights(a, negated(tn, x))[k],
            ),
{
    let r = negated(tn, x);
    let nl = negs(tn, lefts(a, x));
    let nr = negs(tn, rights(a, x));
    assert forall|i: int| 0 <= i < rights(a, x).len() implies lefts(a, r).contains(
        negated(tn, #[trigger] rights(a, x)[i]),
    ) by {
        assert(nr.contains(nr[i]));
        lemma_ms_contains(nr, lefts(a, r), nr[i]);
    }
    assert forall|i: int| 0 <= i < lefts(a, x).len() implies rights(a, r).contains(
        negated(tn, #[trigger] lefts(a, x)[i]),
    ) by {
        assert(nl.contains(nl[i]));
        lemma_ms_contains(nl, rights(a, r), nl[i]);
    }
    assert forall|k: int| 0 <= k < lefts(a, r).len() implies neg_source(
        tn,
        rights(a, x),
        #[trigger] lefts(a, r)[k],
    ) by {
        assert(lefts(a, r).contains(lefts(a, r)[k]));
        lemma_ms_contains(lefts(a, r), nr, lefts(a, r)[k]);
    }
    assert forall|k: int| 0 <= k < rights(a, r).len() implies neg_source(
        tn,
        lefts(a, x),
        #[trigger] rights(a, r)[k],
    ) by {
        assert(rights(a, r).contains(rights(a, r)[k]));
        lemma_ms_contains(rights(a, r), nl, rights(a, r)[k]);
    }
}

/// Some right option of `g` is at most `z`.
pub open spec fn low_right(a: Seq<SurrealStructure>, g: SurrealFinite, z: SurrealFinite) -> bool {
    exists|m: int| 0 <= m < rights(a, g).len() && le(a, #[trigger] rights(a, g)[m], z)
}

/// Some left option of `h` is at least `z`.
pub open spec fn high_left(a: Seq<SurrealStructure>, h: SurrealFinite, z: SurrealFinite) -> bool {
    exists|m: int| 0 <= m < lefts(a, h).len() && le(a, z, #[trigger] lefts(a, h)[m])
}

proof fn lemma_zero_by_options(a: Seq<SurrealStructure>, s: SurrealFinite, z: SurrealFinite)
    requires
        arena_wf(a),
        s.index() < a.len(),
        is_zero_shape(a, z),
        forall|k: int| 0 <= k < lefts(a, s).len() ==> low_right(a, #[trigger] lefts(a, s)[k], z),
        forall|k: int| 0 <= k < rights(a, s).len() ==> high_left(a, #[trigger] rights(a, s)[k], z),
    ensures
        same_value(a, s, z),
{
    assert forall|k: int| 0 <= k < lefts(a, s).len() implies !le(a, z, #[trigger] lefts(a, s)[k]) by {
        let g = lefts(a, s)[k];
        assert(a[s.index()].left@[k].index() < s.index());
        let m = choose|m: int| 0 <= m < rights(a, g).len() && le(a, #[trigger] rights(a, g)[m], z);
        assert(a[g.index()].right@[m].index() < g.index());
    }
    assert forall|k: int| 0 <= k < rights(a, s).len() implies !le(a, #[trigger] rights(a, s)[k], z) by {
        let h = rights(a, s)[k];
        assert(a[s.index()].right@[k].index() < s.index());
        let m = choose|m: int| 0 <= m < lefts(a, h).len() && le(a, z, #[trigger] lefts(a, h)[m]);
        assert(a[h.index()].left@[m].index() < h.index());
    }
}

/// `c + (-c)` and `(-c) + c`, for a left option `c`, are at least and at most `z` as needed.
pub open spec fn cancels_left(
    a: Seq<SurrealStructure>,
    ta: Map<u128, SurrealFinite>,
    tn: Map<usize, SurrealFinite>,
    c: SurrealFinite,
    z: SurrealFinite,
) -> bool {
    le(a, summed(ta, negated(tn, c), c), z) && le(a, z, summed(ta, c, negated(tn, c)))
}

/// `c + (-c)` and `(-c) + c`, for a right option `c`, are at most and at least `z` as needed.
pub open spec fn cancels_right(
    a: Seq<SurrealStructure>,
    ta: Map<u128, SurrealFinite>,
    tn: Map<usize, SurrealFinite>,
    c: SurrealFinite,
    z: SurrealFinite,
) -> bool {
    le(a, summed(ta, c, negated(tn, c)), z) && le(a, z, summed(ta, negated(tn, c), c))
}

/// What the options of `x + (-x)` and `(-x) + x` need in order to cancel.
pub open spec fn cancel_ready(ctx: &SurrealContext, x: SurrealFinite, z: SurrealFinite) -> bool {
    let (a, ta, tn) = (ctx.arena(), ctx.add_table(), ctx.neg_table());
    &&& ctx.wf()
    &&& ctx.contains(x)
    &&& is_zero_shape(a, z)
    &&& tn.contains_key(neg_key(x))
    &&& has_sums(ta, lefts(a, x), negated(tn, x))
    &&& has_sums(ta, rights(a, x), negated(tn, x))
    &&& has_sums(ta, lefts(a, negated(tn, x)), x)
    &&& has_sums(ta, rights(a, negated(tn, x)), x)
    &&& forall|i: int|
        0 <= i < lefts(a, x).len() ==> cancels_left(a, ta, tn, #[trigger] lefts(a, x)[i], z)
    &&& forall|i: int|
        0 <= i < rights(a, x).len() ==> cancels_right(a, ta, tn, #[trigger] rights(a, x)[i], z)
}

proof fn lemma_left_option_low_from_own(ctx: &SurrealContext, x: SurrealFinite, z: SurrealFinite, g: SurrealFinite)
    requires
        exists|i: int| 0 <= i < lefts(ctx.arena(), x).len() && g == summed(ctx.add_table(), #[trigger] lefts(ctx.arena(), x)[i], negated(ctx.neg_table(), x)),
        cancel_ready(ctx, x, z),
        sum_source(
            ctx.add_table(),
            lefts(ctx.arena(), x),
            negated(ctx.neg_table(), x),
            lefts(ctx.arena(), negated(ctx.neg_table(), x)),
            x,
            g,
        ),
    ensures
        low_right(ctx.arena(), g, z),
{
    let a = ctx.arena();
    let ta = ctx.add_table();
    let tn = ctx.neg_table();
    let nx = negated(tn, x);
    assert(neg_entry(a, tn, x, nx));
    lemma_neg_options(a, tn, x);
        let i = choose|i: int| 0 <= i < lefts(a, x).len() && g == summed(ta, #[trigger] lefts(a, x)[i], nx);
        let c = lefts(a, x)[i];
        assert(ta.contains_key(pair_key(c, nx)));
        assert(add_entry(a, ta, c, nx, g));
        lemma_sum_options(a, ta, c, nx);
        assert(rights(a, nx).contains(negated(tn, c)));
        let j = choose|j: int| 0 <= j < rights(a, nx).len() && rights(a, nx)[j] == negated(tn, c);
        assert(rights(a, g).contains(summed(ta, rights(a, nx)[j], c)));
        let m = choose|m: int| 0 <= m < rights(a, g).len() && rights(a, g)[m] == summed(ta, negated(tn, c), c);
        assert(cancels_left(a, ta, tn, c, z));
        assert(le(a, rights(a, g)[m], z));
}

proof fn lemma_left_option_low_from_negated(ctx: &SurrealContext, x: SurrealFinite, z: SurrealFinite, g: SurrealFinite)
    requires
        !(exists|i: int| 0 <= i < lefts(ctx.arena(), x).len() && g == summed(ctx.add_table(), #[trigger] lefts(ctx.arena(), x)[i], negated(ctx.neg_table(), x))),
        cancel_ready(ctx, x, z),
        sum_source(
            ctx.add_table(),
            lefts(ctx.arena(), x),
            negated(ctx.neg_table(), x),
            lefts(ctx.arena(), negated(ctx.neg_table(), x)),
            x,
            g,
        ),
    ensures
        low_right(ctx.arena(), g, z),
{
    let a = ctx.arena();
    let ta = ctx.add_table();
    let tn = ctx.neg_table();
    let nx = negated(tn, x);
    assert(neg_entry(a, tn, x, nx));
    lemma_neg_options(a, tn, x);
        let j = choose|j: int|
            0 <= j < lefts(a, nx).len() && g == summed(ta, #[trigger] lefts(a, nx)[j], x);
        assert(neg_source(tn, rights(a, x), lefts(a, nx)[j]));
        let i = choose|i: int| 0 <= i < rights(a, x).len() && lefts(a, nx)[j] == negated(tn, #[trigger] rights(a, x)[i]);
        let c = rights(a, x)[i];
        let nc = lefts(a, nx)[j];
        assert(ta.contains_key(pair_key(nc, x)));
        assert(add_entry(a, ta, nc, x, g));
        lemma_sum_options(a, ta, nc, x);
        assert(rights(a, g).contains(summed(ta, rights(a, x)[i], nc)));
        let m = choose|m: int| 0 <= m < rights(a, g).len() && rights(a, g)[m] == summed(ta, c, nc);
        assert(cancels_right(a, ta, tn, c, z));
        assert(le(a, rights(a, g)[m], z));
}

proof fn lemma_left_option_low(ctx: &SurrealContext, x: SurrealFinite, z: SurrealFinite, g: SurrealFinite)
    requires
        cancel_ready(ctx, x, z),
        sum_source(
            ctx.add_table(),
            lefts(ctx.arena(), x),
            negated(ctx.neg_table(), x),
            lefts(ctx.arena(), negated(ctx.neg_table(), x)),
            x,
            g,
        ),
    ensures
        low_right(ctx.arena(), g, z),
{
    let a = ctx.arena();
    let ta = ctx.add_table();
    let tn = ctx.neg_table();
    let nx = negated(tn, x);
    assert(neg_entry(a, tn, x, nx));
    lemma_neg_options(a, tn, x);
    if exists|i: int| 0 <= i < lefts(a, x).len() && g == summed(ta, #[trigger] lefts(a, x)[i], nx) {
        lemma_left_option_low_from_own(ctx, x, z, g);
    } else {
        lemma_left_option_low_from_negated(ctx, x, z, g);
    }
}

proof fn lemma_right_option_high_from_own(ctx: &SurrealContext, x: SurrealFinite, z: SurrealFinite, h: SurrealFinite)
    requires
        exists|i: int| 0 <= i < rights(ctx.arena(), x).len() && h == summed(ctx.add_table(), #[trigger] rights(ctx.arena(), x)[i], negated(ctx.neg_table(), x)),
        cancel_ready(ctx, x, z),
        sum_source(
            ctx.add_table(),
            rights(ctx.arena(), x),
            negated(ctx.neg_table(), x),
            rights(ctx.arena(), negated(ctx.neg_table(), x)),
            x,
            h,
        ),
    ensures
        high_left(ctx.arena(), h, z),
{
    let a = ctx.arena();
    let ta = ctx.add_table();
    let tn = ctx.neg_table();
    let nx = negated(tn, x);
    assert(neg_entry(a, tn, x, nx));
    lemma_neg_options(a, tn, x);
        let i = choose|i: int| 0 <= i < rights(a, x).len() && h == summed(ta, #[trigger] rights(a, x)[i], nx);
        let c = rights(a, x)[i];
        assert(ta.contains_key(pair_key(c, nx)));
        assert(add_entry(a, ta, c, nx, h));
        lemma_sum_options(a, ta, c, nx);
        assert(lefts(a, nx).contains(negated(tn, c)));
        let j = choose|j: int| 0 <= j < lefts(a, nx).len() && lefts(a, nx)[j] == negated(tn, c);
        assert(lefts(a, h).contains(summed(ta, lefts(a, nx)[j], c)));
        let m = choose|m: int| 0 <= m < lefts(a, h).len() && lefts(a, h)[m] == summed(ta, negated(tn, c), c);
        assert(cancels_right(a, ta, tn, c, z));
        assert(le(a, z, lefts(a, h)[m]));
}

proof fn lemma_right_option_high_from_negated(ctx: &SurrealContext, x: SurrealFinite, z: SurrealFinite, h: SurrealFinite)
    requires
        !(exists|i: int| 0 <= i < rights(ctx.arena(), x).len() && h == summed(ctx.add_table(), #[trigger] rights(ctx.arena(), x)[i], negated(ctx.neg_table(), x))),
        cancel_ready(ctx, x, z),
        sum_source(
            ctx.add_table(),
            rights(ctx.arena(), x),
            negated(ctx.neg_table(), x),
            rights(ctx.arena(), negated(ctx.neg_table(), x)),
            x,
            h,
        ),
    ensures
        high_left(ctx.arena(), h, z),
{
    let a = ctx.arena();
    let ta = ctx.add_table();
    let tn = ctx.neg_table();
    let nx = negated(tn, x);
    assert(neg_entry(a, tn, x, nx));
    lemma_neg_options(a, tn, x);
        let j = choose|j: int|
            0 <= j < rights(a, nx).len() && h == summed(ta, #[trigger] rights(a, nx)[j], x);
        assert(neg_source(tn, lefts(a, x), rights(a, nx)[j]));
        let i = choose|i: int| 0 <= i < lefts(a, x).len() && rights(a, nx)[j] == negated(tn, #[trigger] lefts(a, x)[i]);
        let c = lefts(a, x)[i];
        let nc = rights(a, nx)[j];
        assert(ta.contains_key(pair_key(nc, x)));
        assert(add_entry(a, ta, nc, x, h));
        lemma_sum_options(a, ta, nc, x);
        assert(lefts(a, h).contains(summed(ta, lefts(a, x)[i], nc)));
        let m = choose|m: int| 0 <= m < lefts(a, h).len() && lefts(a, h)[m] == summed(ta, c, nc);
        assert(cancels_left(a, ta, tn, c, z));
        assert(le(a, z, lefts(a, h)[m]));
}

proof fn lemma_right_option_high(ctx: &SurrealContext, x: SurrealFinite, z: SurrealFinite, h: SurrealFinite)
    requires
        cancel_ready(ctx, x, z),
        sum_source(
            ctx.add_table(),
            rights(ctx.arena(), x),
            negated(ctx.neg_table(), x),
            rights(ctx.arena(), negated(ctx.neg_table(), x)),
            x,
            h,
        ),
    ensures
        high_left(ctx.arena(), h, z),
{
    let a = ctx.arena();
    let ta = ctx.add_table();
    let tn = ctx.neg_table();
    let nx = negated(tn, x);
    assert(neg_entry(a, tn, x, nx));
    lemma_neg_options(a, tn, x);
    if exists|i: int| 0 <= i < rights(a, x).len() && h == summed(ta, #[trigger] rights(a, x)[i], nx) {
        lemma_right_option_high_from_own(ctx, x, z, h);
    } else {
        lemma_right_option_high_from_negated(ctx, x, z, h);
    }
}

proof fn lemma_cancel_options(ctx: &SurrealContext, x: SurrealFinite, z: SurrealFinite, s: SurrealFinite)
    requires
        cancel_ready(ctx, x, z),
        s.index() < ctx.arena().len(),
        forall|k: int|
            0 <= k < lefts(ctx.arena(), s).len() ==> sum_source(
                ctx.add_table(),
                lefts(ctx.arena(), x),
                negated(ctx.neg_table(), x),
                lefts(ctx.arena(), negated(ctx.neg_table(), x)),
                x,
                #[trigger] lefts(ctx.arena(), s)[k],
            ),
        forall|k: int|
            0 <= k < rights(ctx.arena(), s).len() ==> sum_source(
                ctx.add_table(),
                rights(ctx.arena(), x),
                negated(ctx.neg_table(), x),
                rights(ctx.arena(), negated(ctx.neg_table(), x)),
                x,
                #[trigger] rights(ctx.arena(), s)[k],
            ),
    ensures
        same_value(ctx.arena(), s, z),
{
    let a = ctx.arena();
    assert forall|k: int| 0 <= k < lefts(a, s).len() implies low_right(a, #[trigger] lefts(a, s)[k], z) by {
        lemma_left_option_low(ctx, x, z, lefts(a, s)[k]);
    }
    assert forall|k: int| 0 <= k < rights(a, s).len() implies high_left(a, #[trigger] rights(a, s)[k], z) by {
        lemma_right_option_high(ctx, x, z, rights(a, s)[k]);
    }
    lemma_zero_by_options(a, s, z);
}

/// `x - x` equals `0`: `x + (-x)` is `0`, and so is `(-x) + x` where it is recorded.
pub proof fn lemma_add_neg_cancels(ctx: &SurrealContext, x: SurrealFinite, z: SurrealFinite)
    requires
        ctx.wf(),
        ctx.contains(x),
        is_zero_shape(ctx.arena(), z),
        ctx.neg_table().contains_key(neg_key(x)),
        ctx.add_table().contains_key(pair_key(x, ctx.neg_table()[neg_key(x)])),
    ensures
        same_value(ctx.arena(), ctx.add_table()[pair_key(x, ctx.neg_table()[neg_key(x)])], z),
        ctx.add_table().contains_key(pair_key(ctx.neg_table()[neg_key(x)], x)) ==> same_value(
            ctx.arena(),
            ctx.add_table()[pair_key(ctx.neg_table()[neg_key(x)], x)],
            z,
        ),
    decreases x.index(),
{
    let a = ctx.arena();
    let ta = ctx.add_table();
    let tn = ctx.neg_table();
    let nx = negated(tn, x);
    let s1 = summed(ta, x, nx);
    assert(add_entry(a, ta, x, nx, s1));
    assert(neg_entry(a, tn, x, nx));
    lemma_neg_options(a, tn, x);
    assert forall|i: int| 0 <= i < lefts(a, x).len() implies cancels_left(a, ta, tn, #[trigger] lefts(a, x)[i], z) by {
        let c = lefts(a, x)[i];
        let nc = negated(tn, c);
        assert(rights(a, nx).contains(nc));
        let j = choose|j: int| 0 <= j < rights(a, nx).len() && rights(a, nx)[j] == nc;
        assert(ta.contains_key(pair_key(rights(a, nx)[j], x)));
        assert(add_entry(a, ta, nc, x, summed(ta, nc, x)));
        assert(ta.contains_key(pair_key(lefts(a, x)[i], nc)));
        assert(ta.contains_key(pair_key(c, nx)));
        assert(add_entry(a, ta, c, nx, summed(ta, c, nx)));
        assert(ta.contains_key(pair_key(rights(a, nx)[j], c)));
        assert(a[x.index()].left@[i].index() < x.index());
        lemma_add_neg_cancels(ctx, c, z);
    }
    assert forall|i: int| 0 <= i < rights(a, x).len() implies cancels_right(a, ta, tn, #[trigger] rights(a, x)[i], z) by {
        let c = rights(a, x)[i];
        let nc = negated(tn, c);
        assert(lefts(a, nx).contains(nc));
        let j = choose|j: int| 0 <= j < lefts(a, nx).len() && lefts(a, nx)[j] == nc;
        assert(ta.contains_key(pair_key(lefts(a, nx)[j], x)));
        assert(add_entry(a, ta, nc, x, summed(ta, nc, x)));
        assert(ta.contains_key(pair_key(rights(a, x)[i], nc)));
        assert(ta.contains_key(pair_key(c, nx)));
        assert(add_entry(a, ta, c, nx, summed(ta, c, nx)));
        assert(ta.contains_key(pair_key(lefts(a, nx)[j], c)));
        assert(a[x.index()].right@[i].index() < x.index());
        lemma_add_neg_cancels(ctx, c, z);
    }
    assert(cancel_ready(ctx, x, z));
    lemma_sum_options(a, ta, x, nx);
    lemma_cancel_options(ctx, x, z, s1);
    if ta.contains_key(pair_key(nx, x)) {
        let s2 = summed(ta, nx, x);
        assert(add_entry(a, ta, nx, x, s2));
        lemma_sum_options(a, ta, nx, x);
        assert forall|k: int| 0 <= k < lefts(a, s2).len() implies sum_source(
            ta,
            lefts(a, x),
            nx,
            lefts(a, nx),
            x,
            #[trigger] lefts(a, s2)[k],
        ) by {
            assert(sum_source(ta, lefts(a, nx), x, lefts(a, x), nx, lefts(a, s2)[k]));
        }
        assert forall|k: int| 0 <= k < rights(a, s2).len() implies sum_source(
            ta,
            rights(a, x),
            nx,
            rights(a, nx),
            x,
            #[trigger] rights(a, s2)[k],
        ) by {
            assert(sum_source(ta, rights(a, nx), x, rights(a, x), nx, rights(a, s2)[k]));
        }
        lemma_cancel_options(ctx, x, z, s2);
    }
}

} // verus!
