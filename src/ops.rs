use std::cmp::Ordering;
use vstd::prelude::*;

use crate::arithmetic::{add_entry, mul_entry, neg_entry, neg_key};
use crate::construction::{le, leq, pair_key, SurrealContext};
use crate::finite::lt;
use crate::handle::SurrealFinite;

verus! {

/// The three-way comparison: `Greater` unless `x <= y`, then `Less` unless
/// `y <= x`, else `Equal`.
pub open spec fn compare(ctx: &SurrealContext, x: SurrealFinite, y: SurrealFinite) -> Ordering {
    if !le(ctx.arena(), x, y) {
        Ordering::Greater
    } else if !le(ctx.arena(), y, x) {
        Ordering::Less
    } else {
        Ordering::Equal
    }
}

impl SurrealFinite {
    /// Three-way comparison through the order relation.
    pub fn cmp(self, ctx: &mut SurrealContext, other: SurrealFinite) -> (r: Ordering)
        requires
            old(ctx).wf(),
            old(ctx).contains(self),
            old(ctx).contains(other),
        ensures
            final(ctx).wf(),
            old(ctx).order_step(final(ctx)),
            r == compare(final(ctx), self, other),
    {
        if !leq(ctx, self, other) {
            Ordering::Greater
        } else if !leq(ctx, other, self) {
            Ordering::Less
        } else {
            Ordering::Equal
        }
    }

    /// `self == other` as numbers: each is at most the other.
    pub fn eq(self, ctx: &mut SurrealContext, other: SurrealFinite) -> (r: bool)
        requires
            old(ctx).wf(),
            old(ctx).contains(self),
            old(ctx).contains(other),
        ensures
            final(ctx).wf(),
            old(ctx).order_step(final(ctx)),
            r == (le(final(ctx).arena(), self, other) && le(final(ctx).arena(), other, self)),
    {
        let a = leq(ctx, self, other);
        let b = leq(ctx, other, self);
        a && b
    }

    /// `self <= other`.
    pub fn le(self, ctx: &mut SurrealContext, other: SurrealFinite) -> (r: bool)
        requires
            old(ctx).wf(),
            old(ctx).contains(self),
            old(ctx).contains(other),
        ensures
            final(ctx).wf(),
            old(ctx).order_step(final(ctx)),
            r == le(final(ctx).arena(), self, other),
    {
        leq(ctx, self, other)
    }

    /// `self < other`: the comparison gives `Less`.
    pub fn lt(self, ctx: &mut SurrealContext, other: SurrealFinite) -> (r: bool)
        requires
            old(ctx).wf(),
            old(ctx).contains(self),
            old(ctx).contains(other),
        ensures
            final(ctx).wf(),
            old(ctx).order_step(final(ctx)),
            r == lt(final(ctx).arena(), self, other),
    {
        let a = leq(ctx, self, other);
        let b = leq(ctx, other, self);
        a && !b
    }

    /// `self > other`: the comparison gives `Greater`.
    pub fn gt(self, ctx: &mut SurrealContext, other: SurrealFinite) -> (r: bool)
        requires
            old(ctx).wf(),
            old(ctx).contains(self),
            old(ctx).contains(other),
        ensures
            final(ctx).wf(),
            old(ctx).order_step(final(ctx)),
            r == !le(final(ctx).arena(), self, other),
    {
        !leq(ctx, self, other)
    }

    /// `self >= other`: the comparison gives `Greater` or `Equal`.
    pub fn ge(self, ctx: &mut SurrealContext, other: SurrealFinite) -> (r: bool)
        requires
            old(ctx).wf(),
            old(ctx).contains(self),
            old(ctx).contains(other),
        ensures
            final(ctx).wf(),
            old(ctx).order_step(final(ctx)),
            r == !lt(final(ctx).arena(), self, other),
    {
        !self.lt(ctx, other)
    }

    /// `self + other`.
    pub fn add(self, ctx: &mut SurrealContext, other: SurrealFinite) -> (r: SurrealFinite)
        requires
            old(ctx).wf(),
            old(ctx).contains(self),
            old(ctx).contains(other),
        ensures
            final(ctx).wf(),
            old(ctx).grows_to(final(ctx)),
            final(ctx).contains(r),
            final(ctx).add_table().contains_key(pair_key(self, other)),
            final(ctx).add_table()[pair_key(self, other)] == r,
            add_entry(final(ctx).arena(), final(ctx).add_table(), self, other, r),
    {
        crate::arithmetic::add(ctx, self, other)
    }

    /// `-self`.
    pub fn neg(self, ctx: &mut SurrealContext) -> (r: SurrealFinite)
        requires
            old(ctx).wf(),
            old(ctx).contains(self),
        ensures
            final(ctx).wf(),
            old(ctx).grows_to(final(ctx)),
            final(ctx).contains(r),
            final(ctx).neg_table().contains_key(neg_key(self)),
            final(ctx).neg_table()[neg_key(self)] == r,
            neg_entry(final(ctx).arena(), final(ctx).neg_table(), self, r),
    {
        crate::arithmetic::neg(ctx, self)
    }

    /// `self - other`, that is `self + (-other)`.
    pub fn sub(self, ctx: &mut SurrealContext, other: SurrealFinite) -> (r: SurrealFinite)
        requires
            old(ctx).wf(),
            old(ctx).contains(self),
            old(ctx).contains(other),
        ensures
            final(ctx).wf(),
            old(ctx).grows_to(final(ctx)),
            final(ctx).contains(r),
            final(ctx).neg_table().contains_key(neg_key(other)),
            final(ctx).add_table().contains_key(
                pair_key(self, final(ctx).neg_table()[neg_key(other)]),
            ),
            final(ctx).add_table()[pair_key(self, final(ctx).neg_table()[neg_key(other)])] == r,
    {
        let ghost c0 = *ctx;
        let n = crate::arithmetic::neg(ctx, other);
        let ghost c1 = *ctx;
        let r = crate::arithmetic::add(ctx, self, n);
        proof {
            c0.lemma_grows_trans(&c1, ctx);
        }
        r
    }

    /// `self * other`.
    pub fn mul(self, ctx: &mut SurrealContext, other: SurrealFinite) -> (r: SurrealFinite)
        requires
            old(ctx).wf(),
            old(ctx).contains(self),
            old(ctx).contains(other),
        ensures
            final(ctx).wf(),
            old(ctx).grows_to(final(ctx)),
            final(ctx).contains(r),
            final(ctx).mul_table().contains_key(pair_key(self, other)),
            final(ctx).mul_table()[pair_key(self, other)] == r,
            mul_entry(
                final(ctx).arena(),
                final(ctx).add_table(),
                final(ctx).neg_table(),
                final(ctx).mul_table(),
                self,
                other,
                r,
            ),
    {
        crate::arithmetic::mul(ctx, self, other)
    }

    /// Rebinds `self` to `self + other`.
    pub fn add_assign(&mut self, ctx: &mut SurrealContext, other: SurrealFinite)
        requires
            old(ctx).wf(),
            old(ctx).contains(*old(self)),
            old(ctx).contains(other),
        ensures
            final(ctx).wf(),
            old(ctx).grows_to(final(ctx)),
            final(ctx).contains(*final(self)),
            final(ctx).add_table()[pair_key(*old(self), other)] == *final(self),
    {
        *self = crate::arithmetic::add(ctx, *self, other);
    }

    /// Rebinds `self` to `self - other`.
    pub fn sub_assign(&mut self, ctx: &mut SurrealContext, other: SurrealFinite)
        requires
            old(ctx).wf(),
            old(ctx).contains(*old(self)),
            old(ctx).contains(other),
        ensures
            final(ctx).wf(),
            old(ctx).grows_to(final(ctx)),
            final(ctx).contains(*final(self)),
            final(ctx).add_table()[pair_key(*old(self), final(ctx).neg_table()[neg_key(other)])]
                == *final(self),
    {
        *self = self.sub(ctx, other);
    }

    /// Rebinds `self` to `self * other`.
    pub fn mul_assign(&mut self, ctx: &mut SurrealContext, other: SurrealFinite)
        requires
            old(ctx).wf(),
            old(ctx).contains(*old(self)),
            old(ctx).contains(other),
        ensures
            final(ctx).wf(),
            old(ctx).grows_to(final(ctx)),
            final(ctx).contains(*final(self)),
            final(ctx).mul_table()[pair_key(*old(self), other)] == *final(self),
    {
        *self = crate::arithmetic::mul(ctx, *self, other);
    }
}

} // verus!
