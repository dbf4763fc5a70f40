use std::collections::HashMap;
use vstd::prelude::*;

use crate::arithmetic::{
    add_entry, add_table_ok, lemma_arith_tables_extend, mul_entry, mul_table_ok, neg_entry, neg_key,
    neg_table_ok,
};
use crate::handle::SurrealFinite;

verus! {

broadcast use {vstd::std_specs::hash::group_hash_axioms, crate::handle::lemma_index};

/// The left and right options of a surreal number.
pub struct SurrealStructure {
    pub left: Vec<SurrealFinite>,
    pub right: Vec<SurrealFinite>,
}

impl SurrealStructure {
    pub fn new(left: Vec<SurrealFinite>, right: Vec<SurrealFinite>) -> (r: SurrealStructure)
        ensures
            r.left@ == left@,
            r.right@ == right@,
    {
        SurrealStructure { left, right }
    }
}

/// The left options of `x` in the arena `a`.
pub open spec fn lefts(a: Seq<SurrealStructure>, x: SurrealFinite) -> Seq<SurrealFinite> {
    a[x.index()].left@
}

/// The right options of `x` in the arena `a`.
pub open spec fn rights(a: Seq<SurrealStructure>, x: SurrealFinite) -> Seq<SurrealFinite> {
    a[x.index()].right@
}

/// Every option of every structure was interned before that structure.
pub open spec fn arena_wf(a: Seq<SurrealStructure>) -> bool {
    &&& forall|i: int, j: int|
        0 <= i < a.len() && 0 <= j < a[i].left@.len() ==> #[trigger] a[i].left@[j].index() < i
    &&& forall|i: int, j: int|
        0 <= i < a.len() && 0 <= j < a[i].right@.len() ==> #[trigger] a[i].right@[j].index() < i
}

/// `b` keeps every structure of `a` at its place and may add more after them.
pub open spec fn arena_extends(a: Seq<SurrealStructure>, b: Seq<SurrealStructure>) -> bool {
    &&& a.len() <= b.len()
    &&& forall|i: int| 0 <= i < a.len() ==> #[trigger] b[i] == a[i]
}

/// Every entry of `a` stays in `b` with the same value.
pub open spec fn table_extends<K, V>(a: Map<K, V>, b: Map<K, V>) -> bool {
    forall|k: K| #[trigger] a.contains_key(k) ==> b.contains_key(k) && b[k] == a[k]
}

/// Two structures hold the same options in the same order.
pub open spec fn same_shape(s: SurrealStructure, t: SurrealStructure) -> bool {
    s.left@ == t.left@ && s.right@ == t.right@
}

/// Conway's order: `x <= y` unless some left option of `x` is at least `y`
/// or some right option of `y` is at most `x`.
pub open spec fn le(a: Seq<SurrealStructure>, x: SurrealFinite, y: SurrealFinite) -> bool
    decreases x.index() + y.index(),
{
    &&& forall|i: int|
        0 <= i < lefts(a, x).len() && 0 <= #[trigger] lefts(a, x)[i].index() < x.index()
            ==> !le(a, y, lefts(a, x)[i])
    &&& forall|j: int|
        0 <= j < rights(a, y).len() && 0 <= #[trigger] rights(a, y)[j].index() < y.index()
            ==> !le(a, rights(a, y)[j], x)
}

/// The memo key of an ordered pair of handles.
pub open spec fn pair_key(x: SurrealFinite, y: SurrealFinite) -> u128 {
    (x.index() * 0x1_0000_0000_0000_0000 + y.index()) as u128
}

/// Every recorded comparison agrees with `le`.
pub open spec fn leq_table_ok(a: Seq<SurrealStructure>, t: Map<u128, bool>) -> bool {
    forall|x: SurrealFinite, y: SurrealFinite| #[trigger]
        t.contains_key(pair_key(x, y)) ==> {
            &&& x.index() < a.len()
            &&& y.index() < a.len()
            &&& t[pair_key(x, y)] == le(a, x, y)
        }
}

pub const HASH_MOD: u64 = 1_000_000_007;

/// A rolling hash of the handles of `s`.
pub open spec fn ids_hash(s: Seq<SurrealFinite>) -> int
    decreases s.len(),
{
    if s.len() == 0 {
        17
    } else {
        (ids_hash(s.drop_last()) * 31 + s.last().index() % (HASH_MOD as int)) % (HASH_MOD as int)
    }
}

/// The bucket in which a structure is filed.
pub open spec fn shape_hash(s: SurrealStructure) -> u64 {
    ((ids_hash(s.left@) * 1_000_003 + ids_hash(s.right@)) % (HASH_MOD as int)) as u64
}

proof fn lemma_ids_hash_bound(s: Seq<SurrealFinite>)
    ensures
        0 <= ids_hash(s) < HASH_MOD,
    decreases s.len(),
{
    if s.len() > 0 {
        lemma_ids_hash_bound(s.drop_last());
    }
}

fn ids_hash_exec(s: &Vec<SurrealFinite>) -> (h: u64)
    ensures
        h as int == ids_hash(s@),
{
    let mut h: u64 = 17;
    let mut i: usize = 0;
    assert(s@.take(0) =~= Seq::<SurrealFinite>::empty());
    while i < s.len()
        invariant
            0 <= i <= s.len(),
            h as int == ids_hash(s@.take(i as int)),
            h < HASH_MOD,
        decreases s.len() - i,
    {
        assert(s@.take(i as int + 1).drop_last() =~= s@.take(i as int));
        h = (h * 31 + (s[i].position() as u64) % HASH_MOD) % HASH_MOD;
        i = i + 1;
    }
    assert(s@.take(s@.len() as int) =~= s@);
    h
}

fn shape_hash_exec(s: &SurrealStructure) -> (h: u64)
    ensures
        h == shape_hash(*s),
{
    let hl = ids_hash_exec(&s.left);
    let hr = ids_hash_exec(&s.right);
    proof {
        lemma_ids_hash_bound(s.left@);
        lemma_ids_hash_bound(s.right@);
    }
    (hl * 1_000_003 + hr) % HASH_MOD
}

/// Every structure of `a` is listed in the bucket of its hash.
pub open spec fn filed(b: Map<u64, Vec<usize>>, a: Seq<SurrealStructure>) -> bool {
    forall|i: int|
        0 <= i < a.len() ==> {
            &&& #[trigger] b.contains_key(shape_hash(a[i]))
            &&& b[shape_hash(a[i])]@.contains(i as usize)
        }
}

/// Every bucket lists positions below `n`.
pub open spec fn bucket_ids_ok(b: Map<u64, Vec<usize>>, n: nat) -> bool {
    forall|h: u64, k: int|
        b.contains_key(h) && 0 <= k < b[h]@.len() ==> #[trigger] b[h]@[k] < n
}

/// No two structures of `a` have the same shape.
pub open spec fn distinct_shapes(a: Seq<SurrealStructure>) -> bool {
    forall|i: int, j: int|
        0 <= i < a.len() && 0 <= j < a.len() && i != j ==> !same_shape(
            #[trigger] a[i],
            #[trigger] a[j],
        )
}

proof fn lemma_arena_wf_push(a: Seq<SurrealStructure>, s: SurrealStructure)
    requires
        arena_wf(a),
        forall|j: int| 0 <= j < s.left@.len() ==> #[trigger] s.left@[j].index() < a.len(),
        forall|j: int| 0 <= j < s.right@.len() ==> #[trigger] s.right@[j].index() < a.len(),
    ensures
        arena_wf(a.push(s)),
{
    let a2 = a.push(s);
    assert forall|i: int, j: int|
        0 <= i < a2.len() && 0 <= j < a2[i].left@.len() implies #[trigger] a2[i].left@[j].index()
        < i by {
        if i < a.len() {
            assert(a2[i] == a[i]);
        } else {
            assert(a2[i] == s);
        }
    }
    assert forall|i: int, j: int|
        0 <= i < a2.len() && 0 <= j < a2[i].right@.len() implies #[trigger] a2[i].right@[
        j].index() < i by {
        if i < a.len() {
            assert(a2[i] == a[i]);
            assert(a[i].right@[j].index() < i);
        } else {
            assert(a2[i] == s);
            assert(s.right@[j].index() < a.len());
        }
    }
}

proof fn lemma_distinct_push(a: Seq<SurrealStructure>, s: SurrealStructure)
    requires
        distinct_shapes(a),
        forall|i: int| 0 <= i < a.len() ==> !same_shape(#[trigger] a[i], s),
    ensures
        distinct_shapes(a.push(s)),
{
    let a2 = a.push(s);
    assert forall|i: int, j: int|
        0 <= i < a2.len() && 0 <= j < a2.len() && i != j implies !same_shape(
            #[trigger] a2[i],
            #[trigger] a2[j],
        ) by {
        if i < a.len() && j < a.len() {
            assert(a2[i] == a[i] && a2[j] == a[j]);
        } else if i < a.len() {
            assert(a2[i] == a[i]);
        } else {
            assert(a2[j] == a[j]);
        }
    }
}

proof fn lemma_filed_push(
    b: Map<u64, Vec<usize>>,
    a: Seq<SurrealStructure>,
    s: SurrealStructure,
    nb: Vec<usize>,
)
    requires
        filed(b, a),
        bucket_ids_ok(b, a.len()),
        a.len() <= usize::MAX,
        nb@ == (if b.contains_key(shape_hash(s)) {
            b[shape_hash(s)]@
        } else {
            Seq::empty()
        }).push(a.len() as usize),
    ensures
        filed(b.insert(shape_hash(s), nb), a.push(s)),
        bucket_ids_ok(b.insert(shape_hash(s), nb), a.len() + 1 as nat),
{
    let h = shape_hash(s);
    let a2 = a.push(s);
    let b2 = b.insert(h, nb);
    assert forall|i: int| 0 <= i < a2.len() implies {
        &&& #[trigger] b2.contains_key(shape_hash(a2[i]))
        &&& b2[shape_hash(a2[i])]@.contains(i as usize)
    } by {
        if i < a.len() {
            assert(a2[i] == a[i]);
            assert(b.contains_key(shape_hash(a[i])));
            if shape_hash(a[i]) == h {
                assert(b[h]@.contains(i as usize));
                let k = choose|k: int| 0 <= k < b[h]@.len() && b[h]@[k] == i as usize;
                assert(nb@[k] == i as usize);
            }
        } else {
            assert(nb@[nb@.len() - 1] == a.len() as usize);
        }
    }
    assert forall|g: u64, k: int| b2.contains_key(g) && 0 <= k < b2[g]@.len() implies #[trigger] b2[
        g]@[k] < a.len() + 1 by {
        if g != h {
            assert(b2[g] == b[g]);
        } else if k < nb@.len() - 1 {
            assert(b[h]@[k] < a.len());
        }
    }
}

/// The arena of interned structures, its index, and the memo tables of the
/// order relation and of arithmetic.
pub struct SurrealContext {
    structures: Vec<SurrealStructure>,
    buckets: HashMap<u64, Vec<usize>>,
    leq_memo: HashMap<u128, bool>,
    add_memo: HashMap<u128, SurrealFinite>,
    neg_memo: HashMap<usize, SurrealFinite>,
    mul_memo: HashMap<u128, SurrealFinite>,
}

impl SurrealContext {
    /// The interned structures; a handle is a position in this sequence.
    pub closed spec fn arena(&self) -> Seq<SurrealStructure> {
        self.structures@
    }

    /// The recorded comparisons.
    pub closed spec fn leq_table(&self) -> Map<u128, bool> {
        self.leq_memo@
    }

    /// The recorded sums.
    pub closed spec fn add_table(&self) -> Map<u128, SurrealFinite> {
        self.add_memo@
    }

    /// The recorded negations.
    pub closed spec fn neg_table(&self) -> Map<usize, SurrealFinite> {
        self.neg_memo@
    }

    /// The recorded products.
    pub closed spec fn mul_table(&self) -> Map<u128, SurrealFinite> {
        self.mul_memo@
    }

    /// The buckets file every structure by its hash, and no two structures
    /// of the arena have the same shape.
    pub closed spec fn index_ok(&self) -> bool {
        &&& filed(self.buckets@, self.structures@)
        &&& bucket_ids_ok(self.buckets@, self.structures@.len())
        &&& distinct_shapes(self.structures@)
    }

    /// `x` names a structure of this context.
    pub open spec fn contains(&self, x: SurrealFinite) -> bool {
        x.index() < self.arena().len()
    }

    /// Every handle of `s` names a structure of this context.
    pub open spec fn contains_all(&self, s: Seq<SurrealFinite>) -> bool {
        forall|i: int| 0 <= i < s.len() ==> #[trigger] s[i].index() < self.arena().len()
    }

    /// The context's invariant.
    pub open spec fn wf(&self) -> bool {
        &&& arena_wf(self.arena())
        &&& self.index_ok()
        &&& leq_table_ok(self.arena(), self.leq_table())
        &&& neg_table_ok(self.arena(), self.neg_table())
        &&& add_table_ok(self.arena(), self.add_table())
        &&& mul_table_ok(self.arena(), self.add_table(), self.neg_table(), self.mul_table())
    }

    /// Whether `x` names a structure of this context.
    pub fn holds(&self, x: SurrealFinite) -> (r: bool)
        ensures
            r == self.contains(x),
    {
        x.position() < self.structures.len()
    }

    /// An empty context.
    pub fn new() -> (r: SurrealContext)
        ensures
            r.wf(),
            r.arena().len() == 0,
    {
        SurrealContext {
            structures: Vec::new(),
            buckets: HashMap::new(),
            leq_memo: HashMap::new(),
            add_memo: HashMap::new(),
            neg_memo: HashMap::new(),
            mul_memo: HashMap::new(),
        }
    }
}


/// A pair key determines both handles.
pub broadcast proof fn lemma_pair_key_injective(
    x: SurrealFinite,
    y: SurrealFinite,
    u: SurrealFinite,
    v: SurrealFinite,
)
    ensures
        #[trigger] pair_key(x, y) == #[trigger] pair_key(u, v) ==> x == u && y == v,
{
    let b: int = 0x1_0000_0000_0000_0000;
    let (xi, yi, ui, vi) = (x.index(), y.index(), u.index(), v.index());
    assert(0 <= xi < b && 0 <= yi < b && 0 <= ui < b && 0 <= vi < b);
    assert(0 <= xi * b + yi < 0x1_0000_0000_0000_0000_0000_0000_0000_0000) by (nonlinear_arith)
        requires
            0 <= xi < b,
            0 <= yi < b,
            b == 0x1_0000_0000_0000_0000,
    ;
    assert(0 <= ui * b + vi < 0x1_0000_0000_0000_0000_0000_0000_0000_0000) by (nonlinear_arith)
        requires
            0 <= ui < b,
            0 <= vi < b,
            b == 0x1_0000_0000_0000_0000,
    ;
    if pair_key(x, y) == pair_key(u, v) {
        assert(xi * b + yi == ui * b + vi);
        assert(xi == ui && yi == vi) by (nonlinear_arith)
            requires
                xi * b + yi == ui * b + vi,
                0 <= yi < b,
                0 <= vi < b,
                b > 0,
        ;
    }
}

pub(crate) fn key_of(x: SurrealFinite, y: SurrealFinite) -> (k: u128)
    ensures
        k == pair_key(x, y),
{
    let xi = x.position() as u128;
    let yi = y.position() as u128;
    assert(xi * 0x1_0000_0000_0000_0000 + yi <= u128::MAX) by (nonlinear_arith)
        requires
            xi <= 0xffff_ffff_ffff_ffff,
            yi <= 0xffff_ffff_ffff_ffff,
    ;
    xi * 0x1_0000_0000_0000_0000 + yi
}

/// Comparisons keep their results when the arena grows.
pub proof fn lemma_le_stable(
    a: Seq<SurrealStructure>,
    b: Seq<SurrealStructure>,
    x: SurrealFinite,
    y: SurrealFinite,
)
    requires
        arena_wf(a),
        arena_extends(a, b),
        x.index() < a.len(),
        y.index() < a.len(),
    ensures
        le(a, x, y) == le(b, x, y),
    decreases x.index() + y.index(),
{
    assert(lefts(b, x) == lefts(a, x));
    assert(rights(b, y) == rights(a, y));
    assert forall|i: int| 0 <= i < lefts(a, x).len() implies le(a, y, lefts(a, x)[i]) == le(
        b,
        y,
        lefts(a, x)[i],
    ) by {
        assert(a[x.index()].left@[i].index() < x.index());
        lemma_le_stable(a, b, y, lefts(a, x)[i]);
    }
    assert forall|j: int| 0 <= j < rights(a, y).len() implies le(a, rights(a, y)[j], x) == le(
        b,
        rights(a, y)[j],
        x,
    ) by {
        assert(a[y.index()].right@[j].index() < y.index());
        lemma_le_stable(a, b, rights(a, y)[j], x);
    }
}

impl SurrealContext {
    /// Only the order's memo table changed, and it only grew.
    pub open spec fn order_step(&self, next: &SurrealContext) -> bool {
        &&& next.arena() == self.arena()
        &&& table_extends(self.leq_table(), next.leq_table())
        &&& next.add_table() == self.add_table()
        &&& next.neg_table() == self.neg_table()
        &&& next.mul_table() == self.mul_table()
    }

    /// Structures were appended and comparisons recorded; arithmetic tables
    /// are unchanged.
    pub open spec fn mint_step(&self, next: &SurrealContext) -> bool {
        &&& arena_extends(self.arena(), next.arena())
        &&& table_extends(self.leq_table(), next.leq_table())
        &&& next.add_table() == self.add_table()
        &&& next.neg_table() == self.neg_table()
        &&& next.mul_table() == self.mul_table()
    }

    pub proof fn lemma_mint_then_order(&self, mid: &SurrealContext, last: &SurrealContext)
        requires
            self.mint_step(mid),
            mid.order_step(last),
        ensures
            self.mint_step(last),
    {
        assert forall|k: u128| #[trigger] self.leq_table().contains_key(k) implies last.leq_table().contains_key(k)
            && last.leq_table()[k] == self.leq_table()[k] by {
            assert(mid.leq_table().contains_key(k));
        }
    }

    pub proof fn lemma_grows_trans(&self, mid: &SurrealContext, last: &SurrealContext)
        requires
            self.grows_to(mid),
            mid.grows_to(last),
        ensures
            self.grows_to(last),
    {
        assert forall|k: u128| #[trigger] self.leq_table().contains_key(k) implies last.leq_table().contains_key(k)
            && last.leq_table()[k] == self.leq_table()[k] by {
            assert(mid.leq_table().contains_key(k));
        }
        assert forall|k: u128| #[trigger] self.add_table().contains_key(k) implies last.add_table().contains_key(k)
            && last.add_table()[k] == self.add_table()[k] by {
            assert(mid.add_table().contains_key(k));
        }
        assert forall|k: usize| #[trigger] self.neg_table().contains_key(k) implies last.neg_table().contains_key(k)
            && last.neg_table()[k] == self.neg_table()[k] by {
            assert(mid.neg_table().contains_key(k));
        }
        assert forall|k: u128| #[trigger] self.mul_table().contains_key(k) implies last.mul_table().contains_key(k)
            && last.mul_table()[k] == self.mul_table()[k] by {
            assert(mid.mul_table().contains_key(k));
        }
    }

    pub proof fn lemma_mint_trans(&self, mid: &SurrealContext, last: &SurrealContext)
        requires
            self.mint_step(mid),
            mid.mint_step(last),
        ensures
            self.mint_step(last),
    {
        assert forall|k: u128| #[trigger] self.leq_table().contains_key(k) implies last.leq_table().contains_key(k)
            && last.leq_table()[k] == self.leq_table()[k] by {
            assert(mid.leq_table().contains_key(k));
        }
    }

    pub proof fn lemma_mint_grows(&self, next: &SurrealContext)
        requires
            self.mint_step(next),
        ensures
            self.grows_to(next),
    {
    }

    pub proof fn lemma_record_grows(&self, next: &SurrealContext)
        requires
            next.arena() == self.arena(),
            next.leq_table() == self.leq_table(),
            table_extends(self.add_table(), next.add_table()),
            table_extends(self.neg_table(), next.neg_table()),
            table_extends(self.mul_table(), next.mul_table()),
        ensures
            self.grows_to(next),
    {
    }

    /// The arena and every memo table only grew.
    pub open spec fn grows_to(&self, next: &SurrealContext) -> bool {
        &&& arena_extends(self.arena(), next.arena())
        &&& table_extends(self.leq_table(), next.leq_table())
        &&& table_extends(self.add_table(), next.add_table())
        &&& table_extends(self.neg_table(), next.neg_table())
        &&& table_extends(self.mul_table(), next.mul_table())
    }
}

impl SurrealContext {
    /// The recorded negation of `x`, if any.
    pub(crate) fn recorded_neg(&self, x: SurrealFinite) -> (r: Option<SurrealFinite>)
        ensures
            r == (if self.neg_table().contains_key(neg_key(x)) {
                Some(self.neg_table()[neg_key(x)])
            } else {
                None
            }),
    {
        match self.neg_memo.get(&x.position()) {
            Some(r) => Some(*r),
            None => None,
        }
    }

    /// The recorded sum of `x` and `y`, if any.
    pub(crate) fn recorded_add(&self, x: SurrealFinite, y: SurrealFinite) -> (r: Option<SurrealFinite>)
        ensures
            r == (if self.add_table().contains_key(pair_key(x, y)) {
                Some(self.add_table()[pair_key(x, y)])
            } else {
                None
            }),
    {
        match self.add_memo.get(&key_of(x, y)) {
            Some(r) => Some(*r),
            None => None,
        }
    }

    /// The recorded product of `x` and `y`, if any.
    pub(crate) fn recorded_mul(&self, x: SurrealFinite, y: SurrealFinite) -> (r: Option<SurrealFinite>)
        ensures
            r == (if self.mul_table().contains_key(pair_key(x, y)) {
                Some(self.mul_table()[pair_key(x, y)])
            } else {
                None
            }),
    {
        match self.mul_memo.get(&key_of(x, y)) {
            Some(r) => Some(*r),
            None => None,
        }
    }

    /// Records `r` as the negation of `x`.
    pub(crate) fn record_neg(&mut self, x: SurrealFinite, r: SurrealFinite)
        requires
            old(self).wf(),
            !old(self).neg_table().contains_key(neg_key(x)),
            neg_entry(old(self).arena(), old(self).neg_table(), x, r),
        ensures
            final(self).wf(),
            final(self).neg_table() == old(self).neg_table().insert(neg_key(x), r),
            final(self).arena() == old(self).arena(),
            final(self).leq_table() == old(self).leq_table(),
            final(self).add_table() == old(self).add_table(),
            final(self).mul_table() == old(self).mul_table(),
    {
        broadcast use crate::handle::lemma_index;

        let ghost (a, ta, tn, tm) = (self.arena(), self.add_table(), self.neg_table(), self.mul_table());
        self.neg_memo.insert(x.position(), r);
        let ghost tn2 = self.neg_table();
        proof {
            crate::arithmetic::lemma_neg_table_extend(a, tn, a, tn2, x, r);
            lemma_arith_tables_extend(a, ta, tn, tm, a, ta, tn2, tm);
        }
    }

    /// Records `r` as the sum of `x` and `y`.
    pub(crate) fn record_add(&mut self, x: SurrealFinite, y: SurrealFinite, r: SurrealFinite)
        requires
            old(self).wf(),
            !old(self).add_table().contains_key(pair_key(x, y)),
            add_entry(old(self).arena(), old(self).add_table(), x, y, r),
        ensures
            final(self).wf(),
            final(self).add_table() == old(self).add_table().insert(pair_key(x, y), r),
            final(self).arena() == old(self).arena(),
            final(self).leq_table() == old(self).leq_table(),
            final(self).neg_table() == old(self).neg_table(),
            final(self).mul_table() == old(self).mul_table(),
    {
        broadcast use lemma_pair_key_injective;

        let ghost (a, ta, tn, tm) = (self.arena(), self.add_table(), self.neg_table(), self.mul_table());
        self.add_memo.insert(key_of(x, y), r);
        let ghost ta2 = self.add_table();
        proof {
            crate::arithmetic::lemma_add_table_extend(a, ta, a, ta2, x, y, r);
            lemma_arith_tables_extend(a, ta, tn, tm, a, ta2, tn, tm);
        }
    }

    /// Records `r` as the product of `x` and `y`.
    pub(crate) fn record_mul(&mut self, x: SurrealFinite, y: SurrealFinite, r: SurrealFinite)
        requires
            old(self).wf(),
            !old(self).mul_table().contains_key(pair_key(x, y)),
            mul_entry(
                old(self).arena(),
                old(self).add_table(),
                old(self).neg_table(),
                old(self).mul_table(),
                x,
                y,
                r,
            ),
        ensures
            final(self).wf(),
            final(self).mul_table() == old(self).mul_table().insert(pair_key(x, y), r),
            final(self).arena() == old(self).arena(),
            final(self).leq_table() == old(self).leq_table(),
            final(self).add_table() == old(self).add_table(),
            final(self).neg_table() == old(self).neg_table(),
    {
        broadcast use lemma_pair_key_injective;

        let ghost (a, ta, tn, tm) = (self.arena(), self.add_table(), self.neg_table(), self.mul_table());
        self.mul_memo.insert(key_of(x, y), r);
        let ghost tm2 = self.mul_table();
        proof {
            crate::arithmetic::lemma_mul_table_extend(a, ta, tn, tm, a, ta, tn, tm2, x, y, r);
            lemma_arith_tables_extend(a, ta, tn, tm, a, ta, tn, tm2);
        }
    }
}

/// Decides `x <= y`, consulting and filling the context's memo table.
pub fn leq(ctx: &mut SurrealContext, x: SurrealFinite, y: SurrealFinite) -> (r: bool)
    requires
        old(ctx).wf(),
        old(ctx).contains(x),
        old(ctx).contains(y),
    ensures
        final(ctx).wf(),
        old(ctx).order_step(final(ctx)),
        r == le(final(ctx).arena(), x, y),
    decreases x.index() + y.index(),
{
    broadcast use lemma_pair_key_injective;

    let ghost c0 = *ctx;
    let k = key_of(x, y);
    if let Some(b) = ctx.leq_memo.get(&k) {
        return *b;
    }
    let ghost a = ctx.arena();
    let mut result = true;
    let n = ctx.structures[x.position()].left.len();
    let mut i: usize = 0;
    while i < n && result
        invariant
            ctx.wf(),
            c0.order_step(ctx),
            a == ctx.arena(),
            x.index() < a.len(),
            y.index() < a.len(),
            n == lefts(a, x).len(),
            0 <= i <= n,
            result ==> forall|k: int| 0 <= k < i ==> !le(a, y, #[trigger] lefts(a, x)[k]),
            !result ==> exists|k: int| 0 <= k < i && le(a, y, #[trigger] lefts(a, x)[k]),
        decreases n - i,
    {
        let xl = ctx.structures[x.position()].left[i];
        assert(a[x.index()].left@[i as int].index() < x.index());
        if leq(ctx, y, xl) {
            result = false;
        }
        i = i + 1;
    }
    proof {
        if !result {
            let k = choose|k: int| 0 <= k < i && le(a, y, #[trigger] lefts(a, x)[k]);
            assert(a[x.index()].left@[k].index() < x.index());
        }
    }
    let m = ctx.structures[y.position()].right.len();
    let mut j: usize = 0;
    while j < m && result
        invariant
            ctx.wf(),
            c0.order_step(ctx),
            a == ctx.arena(),
            x.index() < a.len(),
            y.index() < a.len(),
            m == rights(a, y).len(),
            0 <= j <= m,
            result ==> forall|k: int| 0 <= k < n ==> !le(a, y, #[trigger] lefts(a, x)[k]),
            result ==> forall|k: int| 0 <= k < j ==> !le(a, #[trigger] rights(a, y)[k], x),
            !result ==> !le(a, x, y),
        decreases m - j,
    {
        let yr = ctx.structures[y.position()].right[j];
        assert(a[y.index()].right@[j as int].index() < y.index());
        if leq(ctx, yr, x) {
            result = false;
        }
        j = j + 1;
    }
    assert(result == le(a, x, y)) by {
        if result {
            assert forall|k: int| 0 <= k < lefts(a, x).len() implies !le(
                a,
                y,
                #[trigger] lefts(a, x)[k],
            ) by {}
        }
    }
    ctx.leq_memo.insert(k, result);
    result
}

fn same_handles(s: &Vec<SurrealFinite>, t: &Vec<SurrealFinite>) -> (r: bool)
    ensures
        r == (s@ == t@),
{
    if s.len() != t.len() {
        return false;
    }
    let mut i: usize = 0;
    while i < s.len()
        invariant
            s@.len() == t@.len(),
            0 <= i <= s.len(),
            forall|k: int| 0 <= k < i ==> s@[k] == t@[k],
        decreases s.len() - i,
    {
        if s[i].position() != t[i].position() {
            assert(s@[i as int] != t@[i as int]);
            return false;
        }
        i = i + 1;
    }
    assert(s@ =~= t@);
    true
}

/// The position of a structure of the arena with the shape of `s`, if any.
fn find_shape(ctx: &SurrealContext, s: &SurrealStructure) -> (r: Option<usize>)
    requires
        ctx.wf(),
    ensures
        r matches Some(c) ==> c < ctx.arena().len() && same_shape(ctx.arena()[c as int], *s),
        r is None ==> forall|i: int|
            0 <= i < ctx.arena().len() ==> !same_shape(#[trigger] ctx.arena()[i], *s),
{
    let ghost a = ctx.arena();
    let h = shape_hash_exec(s);
    match ctx.buckets.get(&h) {
        Some(bucket) => {
            let mut j: usize = 0;
            while j < bucket.len()
                invariant
                    ctx.wf(),
                    a == ctx.arena(),
                    ctx.buckets@.contains_key(h),
                    bucket@ == ctx.buckets@[h]@,
                    0 <= j <= bucket.len(),
                    forall|k: int| 0 <= k < j ==> !same_shape(a[#[trigger] bucket@[k] as int], *s),
                decreases bucket.len() - j,
            {
                let c = bucket[j];
                assert(ctx.buckets@[h]@[j as int] < a.len());
                if same_handles(&ctx.structures[c].left, &s.left) && same_handles(
                    &ctx.structures[c].right,
                    &s.right,
                ) {
                    return Some(c);
                }
                j = j + 1;
            }
            assert forall|i: int| 0 <= i < a.len() implies !same_shape(#[trigger] a[i], *s) by {
                if same_shape(a[i], *s) {
                    assert(a.len() == ctx.structures.len());
                    assert(shape_hash(a[i]) == shape_hash(*s));
                    assert(ctx.buckets@.contains_key(shape_hash(a[i])));
                    assert(ctx.buckets@[shape_hash(a[i])]@.contains(i as usize));
                    let k = choose|k: int| 0 <= k < bucket@.len() && bucket@[k] == i as usize;
                    assert(!same_shape(a[bucket@[k] as int], *s));
                }
            }
            None
        },
        None => {
            assert forall|i: int| 0 <= i < a.len() implies !same_shape(#[trigger] a[i], *s) by {
                if same_shape(a[i], *s) {
                    assert(shape_hash(a[i]) == shape_hash(*s));
                    assert(ctx.buckets@.contains_key(shape_hash(a[i])));
                }
            }
            None
        },
    }
}

impl SurrealContext {
    /// Appends `s`, which no structure of the arena has the shape of.
    fn append(&mut self, s: SurrealStructure) -> (r: usize)
        requires
            old(self).wf(),
            old(self).contains_all(s.left@),
            old(self).contains_all(s.right@),
            forall|i: int|
                0 <= i < old(self).arena().len() ==> !same_shape(#[trigger] old(self).arena()[i], s),
        ensures
            final(self).wf(),
            r == old(self).arena().len(),
            final(self).arena() == old(self).arena().push(s),
            final(self).leq_table() == old(self).leq_table(),
            final(self).add_table() == old(self).add_table(),
            final(self).neg_table() == old(self).neg_table(),
            final(self).mul_table() == old(self).mul_table(),
    {
        let ghost a = self.arena();
        let ghost buckets0 = self.buckets@;
        let h = shape_hash_exec(&s);
        let n = self.structures.len();
        self.structures.push(s);
        let mut b = match self.buckets.remove(&h) {
            Some(v) => v,
            None => Vec::new(),
        };
        assert(b@ == (if buckets0.contains_key(h) {
            buckets0[h]@
        } else {
            Seq::empty()
        }));
        b.push(n);
        let ghost nb = b;
        self.buckets.insert(h, b);
        assert(self.buckets@ =~= buckets0.insert(h, nb));
        let ghost a2 = self.arena();
        assert(arena_extends(a, a2));
        proof {
            self.lemma_leq_table_after_append(a, a2);
            lemma_arith_tables_extend(
                a,
                self.add_table(),
                self.neg_table(),
                self.mul_table(),
                a2,
                self.add_table(),
                self.neg_table(),
                self.mul_table(),
            );
            lemma_arena_wf_push(a, s);
            lemma_distinct_push(a, s);
            lemma_filed_push(buckets0, a, s, nb);
        }
        n
    }

    proof fn lemma_leq_table_after_append(&self, a: Seq<SurrealStructure>, a2: Seq<SurrealStructure>)
        requires
            arena_wf(a),
            arena_extends(a, a2),
            leq_table_ok(a, self.leq_table()),
        ensures
            leq_table_ok(a2, self.leq_table()),
    {
        let t = self.leq_table();
        assert forall|x: SurrealFinite, y: SurrealFinite| #[trigger]
            t.contains_key(pair_key(x, y)) implies x.index() < a2.len() && y.index() < a2.len()
            && t[pair_key(x, y)] == le(a2, x, y) by {
            lemma_le_stable(a, a2, x, y);
        }
    }
}

/// Interns `s` as it stands: a structure of the same shape already in the
/// arena is returned, otherwise `s` is appended.
pub fn cache_insert(ctx: &mut SurrealContext, s: SurrealStructure) -> (r: SurrealFinite)
    requires
        old(ctx).wf(),
        old(ctx).contains_all(s.left@),
        old(ctx).contains_all(s.right@),
    ensures
        final(ctx).wf(),
        final(ctx).contains(r),
        same_shape(final(ctx).arena()[r.index()], s),
        final(ctx).leq_table() == old(ctx).leq_table(),
        final(ctx).add_table() == old(ctx).add_table(),
        final(ctx).neg_table() == old(ctx).neg_table(),
        final(ctx).mul_table() == old(ctx).mul_table(),
        forall|i: int|
            0 <= i < old(ctx).arena().len() && same_shape(#[trigger] old(ctx).arena()[i], s)
                ==> r.index() == i && final(ctx).arena() == old(ctx).arena(),
        (forall|i: int|
            0 <= i < old(ctx).arena().len() ==> !same_shape(#[trigger] old(ctx).arena()[i], s))
            ==> final(ctx).arena() == old(ctx).arena().push(s),
{
    match find_shape(ctx, &s) {
        Some(c) => {
            assert forall|i: int|
                0 <= i < ctx.arena().len() && same_shape(#[trigger] ctx.arena()[i], s) implies i
                == c by {
                if i != c {
                    assert(!same_shape(ctx.arena()[i], ctx.arena()[c as int]));
                }
            }
            SurrealFinite::from_index(c)
        },
        None => {
            let n = ctx.append(s);
            SurrealFinite::from_index(n)
        },
    }
}

/// The left options of `x`.
pub fn cache_left(ctx: &SurrealContext, x: SurrealFinite) -> (r: Vec<SurrealFinite>)
    requires
        ctx.contains(x),
    ensures
        r@ == lefts(ctx.arena(), x),
{
    ctx.structures[x.position()].left.clone()
}

/// The right options of `x`.
pub fn cache_right(ctx: &SurrealContext, x: SurrealFinite) -> (r: Vec<SurrealFinite>)
    requires
        ctx.contains(x),
    ensures
        r@ == rights(ctx.arena(), x),
{
    ctx.structures[x.position()].right.clone()
}

} // verus!
