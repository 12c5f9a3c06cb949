//! A duplex sponge over the scalar field with a fixed input/output pattern.
//!
//! The pattern of absorptions and squeezes is fixed when the sponge is built;
//! every operation is checked against it, and `finish` reports whether it was
//! followed to the end.  The state has three elements, two of rate and one of
//! capacity; the capacity element starts as a tag of the pattern.  The
//! permutation is a small algebraic permutation (round constants, the power
//! map `x^5`, and the mixing matrix `[[2,1,1],[1,2,1],[1,1,2]]`); it is
//! deterministic and mixes every input into every output, but no claim of
//! cryptographic strength is made for it.  It is not Poseidon2: the
//! challenges it gives differ from those of a Poseidon2 duplex sponge, and
//! the protocols here are only as sound as this permutation, which is meant
//! for testing the protocols, not for deployment.
use crate::algebra::views;
use crate::field::{fadd, fmul, group_field, Scalar};
use vstd::prelude::*;

verus! {

broadcast use group_field;

/// Number of rate elements.
pub const RATE: usize = 2;

/// Number of rounds of the permutation.
pub const ROUNDS: u64 = 8;

/// One operation of a sponge pattern, with how many elements it covers.
#[derive(Clone, Copy, PartialEq, Eq, Structural)]
pub enum SpongeOp {
    Absorb(u32),
    Squeeze(u32),
}

/// Errors of a sponge that is used against its pattern.
#[derive(Clone, Copy, PartialEq, Eq, Structural, Debug)]
pub enum SpongeError {
    /// An element was absorbed where the pattern expects a squeeze or nothing.
    UnexpectedAbsorb,
    /// An element was squeezed where the pattern expects an absorption or nothing.
    UnexpectedSqueeze,
    /// The sponge was finished before its pattern was followed to the end.
    UnfinishedPattern,
}

/// The pattern expanded into single operations: `true` absorbs, `false` squeezes.
pub open spec fn expand(ops: Seq<SpongeOp>) -> Seq<bool>
    decreases ops.len(),
{
    if ops.len() == 0 {
        seq![]
    } else {
        expand(ops.drop_last()) + match ops.last() {
            SpongeOp::Absorb(n) => Seq::new(n as nat, |i: int| true),
            SpongeOp::Squeeze(n) => Seq::new(n as nat, |i: int| false),
        }
    }
}

/// The capacity element that separates sponges of different patterns.
pub open spec fn pattern_tag(ops: Seq<SpongeOp>) -> nat
    decreases ops.len(),
{
    if ops.len() == 0 {
        0
    } else {
        fadd(fmul(pattern_tag(ops.drop_last()), 4294967296), op_code(ops.last()))
    }
}

pub open spec fn op_code(op: SpongeOp) -> nat {
    match op {
        SpongeOp::Absorb(n) => 2 * (n as nat) + 1,
        SpongeOp::Squeeze(n) => 2 * (n as nat) + 2,
    }
}

/// `x^5`.
pub open spec fn sbox(x: nat) -> nat {
    let x2 = fmul(x, x);
    fmul(fmul(x2, x2), x)
}

/// One round of the permutation on a state of three values.
pub open spec fn perm_round(s: Seq<nat>, r: nat) -> Seq<nat> {
    let a = sbox(fadd(s[0], 3 * r + 1));
    let b = sbox(fadd(s[1], 3 * r + 2));
    let c = sbox(fadd(s[2], 3 * r + 3));
    let t = fadd(fadd(a, b), c);
    seq![fadd(t, a), fadd(t, b), fadd(t, c)]
}

/// The first `k` rounds of the permutation.
pub open spec fn perm_rounds(s: Seq<nat>, k: nat) -> Seq<nat>
    decreases k,
{
    if k == 0 {
        s
    } else {
        perm_round(perm_rounds(s, (k - 1) as nat), (k - 1) as nat)
    }
}

#[verifier::opaque]
pub open spec fn permutation(s: Seq<nat>) -> Seq<nat> {
    perm_rounds(s, ROUNDS as nat)
}

/// The abstract state of a sponge.
pub struct SpongeView {
    pub state: Seq<nat>,
    pub absorb_pos: nat,
    pub squeeze_pos: nat,
    pub io: Seq<bool>,
    pub done: nat,
}

/// The state after absorbing `x` (where the pattern allows it).
pub open spec fn spec_absorb(v: SpongeView, x: nat) -> SpongeView {
    let (state, pos) = if v.absorb_pos == RATE {
        (permutation(v.state), 0nat)
    } else {
        (v.state, v.absorb_pos)
    };
    SpongeView {
        state: state.update(pos as int, fadd(state[pos as int], x)),
        absorb_pos: pos + 1,
        squeeze_pos: RATE as nat,
        io: v.io,
        done: v.done + 1,
    }
}

/// The state after a squeeze, with the element squeezed (where the pattern allows it).
pub open spec fn spec_squeeze(v: SpongeView) -> (SpongeView, nat) {
    let (state, pos, apos) = if v.squeeze_pos == RATE {
        (permutation(v.state), 0nat, 0nat)
    } else {
        (v.state, v.squeeze_pos, v.absorb_pos)
    };
    (
        SpongeView {
            state,
            absorb_pos: apos,
            squeeze_pos: pos + 1,
            io: v.io,
            done: v.done + 1,
        },
        state[pos as int],
    )
}

/// The state after absorbing a sequence of values.
pub open spec fn spec_absorb_all(v: SpongeView, xs: Seq<nat>) -> SpongeView
    decreases xs.len(),
{
    if xs.len() == 0 {
        v
    } else {
        spec_absorb(spec_absorb_all(v, xs.drop_last()), xs.last())
    }
}

/// The state after `n` squeezes.
pub open spec fn spec_squeeze_n(v: SpongeView, n: nat) -> SpongeView
    decreases n,
{
    if n == 0 {
        v
    } else {
        spec_squeeze(spec_squeeze_n(v, (n - 1) as nat)).0
    }
}

/// The values of `n` squeezes.
pub open spec fn spec_squeezed(v: SpongeView, n: nat) -> Seq<nat>
    decreases n,
{
    if n == 0 {
        seq![]
    } else {
        spec_squeezed(v, (n - 1) as nat).push(spec_squeeze(spec_squeeze_n(v, (n - 1) as nat)).1)
    }
}

/// The pattern a sponge is built from.
pub struct SpongeBuilder {
    ops: Vec<SpongeOp>,
}

impl View for SpongeBuilder {
    type V = Seq<SpongeOp>;

    closed spec fn view(&self) -> Seq<SpongeOp> {
        self.ops@
    }
}

impl SpongeBuilder {
    /// The empty pattern.
    pub fn new() -> (r: SpongeBuilder)
        ensures
            r@ == Seq::<SpongeOp>::empty(),
    {
        SpongeBuilder { ops: Vec::new() }
    }

    /// Adds the absorption of `n` elements.
    pub fn absorb(self, n: u32) -> (r: SpongeBuilder)
        ensures
            r@ == self@.push(SpongeOp::Absorb(n)),
    {
        let mut ops = self.ops;
        ops.push(SpongeOp::Absorb(n));
        SpongeBuilder { ops }
    }

    /// Adds the squeeze of `n` elements.
    pub fn squeeze(self, n: u32) -> (r: SpongeBuilder)
        ensures
            r@ == self@.push(SpongeOp::Squeeze(n)),
    {
        let mut ops = self.ops;
        ops.push(SpongeOp::Squeeze(n));
        SpongeBuilder { ops }
    }
}

/// A duplex sponge following a fixed pattern.
pub struct Sponge {
    state: Vec<Scalar>,
    absorb_pos: usize,
    squeeze_pos: usize,
    io: Vec<bool>,
    done: usize,
}

impl View for Sponge {
    type V = SpongeView;

    closed spec fn view(&self) -> SpongeView {
        SpongeView {
            state: views(self.state@),
            absorb_pos: self.absorb_pos as nat,
            squeeze_pos: self.squeeze_pos as nat,
            io: self.io@,
            done: self.done as nat,
        }
    }
}

impl Sponge {
    pub closed spec fn wf(&self) -> bool {
        &&& self.state@.len() == 3
        &&& self.absorb_pos <= RATE
        &&& self.squeeze_pos <= RATE
        &&& self.done <= self.io@.len()
        &&& self.io@.len() <= usize::MAX
    }

    /// A sponge following the pattern of `builder`, its capacity set to the
    /// pattern's tag.
    pub fn from_builder(builder: &SpongeBuilder) -> (r: Sponge)
        requires
            expand(builder@).len() <= usize::MAX,
        ensures
            r.wf(),
            r@ == (SpongeView {
                state: seq![0nat, 0nat, pattern_tag(builder@)],
                absorb_pos: 0,
                squeeze_pos: RATE as nat,
                io: expand(builder@),
                done: 0,
            }),
    {
        let n = builder.ops.len();
        let mut io: Vec<bool> = Vec::new();
        let mut tag = Scalar::zero();
        let shift = Scalar::from_u64(4294967296);
        let mut i: usize = 0;
        while i < n
            invariant
                n == builder.ops@.len(),
                i <= n,
                expand(builder@).len() <= usize::MAX,
                builder@ == builder.ops@,
                io@ == expand(builder@.take(i as int)),
                tag@ == pattern_tag(builder@.take(i as int)),
                shift@ == 4294967296,
            decreases n - i,
        {
            proof {
                lemma_expand_prefix_len(builder@, i as nat);
                assert(builder@.take(i + 1).drop_last() =~= builder@.take(i as int));
            }
            let op = builder.ops[i];
            let (count, absorbing, code) = match op {
                SpongeOp::Absorb(k) => (k, true, 2 * (k as u64) + 1),
                SpongeOp::Squeeze(k) => (k, false, 2 * (k as u64) + 2),
            };
            let ghost before = io@;
            proof {
                lemma_expand_prefix_len(builder@, (i + 1) as nat);
                assert(builder@.take(i + 1).last() == op);
            }
            let mut j: u32 = 0;
            while j < count
                invariant
                    j <= count,
                    io@.len() <= usize::MAX,
                    io@ == before + Seq::new(j as nat, |k: int| absorbing),
                    before.len() + count <= usize::MAX,
                decreases count - j,
            {
                io.push(absorbing);
                proof {
                    assert(io@ =~= before + Seq::new((j + 1) as nat, |k: int| absorbing));
                }
                j = j + 1;
            }
            tag = tag.mul(&shift).add(&Scalar::from_u64(code));
            proof {
                let goal = expand(builder@.take(i + 1));
                match op {
                    SpongeOp::Absorb(k) => {
                        assert(Seq::new(count as nat, |k: int| absorbing) =~= Seq::new(
                            k as nat,
                            |i: int| true,
                        ));
                    },
                    SpongeOp::Squeeze(k) => {
                        assert(Seq::new(count as nat, |k: int| absorbing) =~= Seq::new(
                            k as nat,
                            |i: int| false,
                        ));
                    },
                }
                assert(io@ == goal);
            }
            i = i + 1;
        }
        proof {
            assert(builder@.take(n as int) =~= builder@);
        }
        let mut state: Vec<Scalar> = Vec::new();
        state.push(Scalar::zero());
        state.push(Scalar::zero());
        state.push(tag);
        let r = Sponge { state, absorb_pos: 0, squeeze_pos: RATE, io, done: 0 };
        proof {
            assert(views(r.state@) =~= seq![0nat, 0nat, pattern_tag(builder@)]);
        }
        r
    }

    /// Whether the next operation of the pattern is an absorption.
    pub fn next_is_absorb(&self) -> (r: bool)
        requires
            self.wf(),
        ensures
            r == (self@.done < self@.io.len() && self@.io[self@.done as int]),
    {
        self.done < self.io.len() && self.io[self.done]
    }

    /// Whether the next operation of the pattern is a squeeze.
    pub fn next_is_squeeze(&self) -> (r: bool)
        requires
            self.wf(),
        ensures
            r == (self@.done < self@.io.len() && !self@.io[self@.done as int]),
    {
        self.done < self.io.len() && !self.io[self.done]
    }

    /// Absorbs `x`, where the pattern expects an absorption.
    pub fn absorb(&mut self, x: &Scalar) -> (r: Result<(), SpongeError>)
        requires
            old(self).wf(),
        ensures
            final(self).wf(),
            (old(self)@.done < old(self)@.io.len() && old(self)@.io[old(self)@.done as int])
                ==> (r is Ok && final(self)@ == spec_absorb(old(self)@, x@)),
            !(old(self)@.done < old(self)@.io.len() && old(self)@.io[old(self)@.done as int])
                ==> (r == Err::<(), SpongeError>(SpongeError::UnexpectedAbsorb) && final(self)@
                == old(self)@),
    {
        if !self.next_is_absorb() {
            return Err(SpongeError::UnexpectedAbsorb);
        }
        if self.absorb_pos == RATE {
            permute(&mut self.state);
            self.absorb_pos = 0;
        }
        let pos = self.absorb_pos;
        let ghost mid = views(self.state@);
        let v = self.state[pos].add(x);
        self.state.set(pos, v);
        self.absorb_pos = pos + 1;
        self.squeeze_pos = RATE;
        self.done = self.done + 1;
        proof {
            let goal = spec_absorb(old(self)@, x@);
            assert(goal.state == mid.update(pos as int, fadd(mid[pos as int], x@)));
            assert(views(self.state@) =~= goal.state);
        }
        Ok(())
    }

    /// Squeezes an element, where the pattern expects a squeeze.
    pub fn squeeze(&mut self) -> (r: Result<Scalar, SpongeError>)
        requires
            old(self).wf(),
        ensures
            final(self).wf(),
            (old(self)@.done < old(self)@.io.len() && !old(self)@.io[old(self)@.done as int])
                ==> (r matches Ok(x) && final(self)@ == spec_squeeze(old(self)@).0 && x@
                == spec_squeeze(old(self)@).1),
            !(old(self)@.done < old(self)@.io.len() && !old(self)@.io[old(self)@.done as int])
                ==> (r == Err::<Scalar, SpongeError>(SpongeError::UnexpectedSqueeze)
                && final(self)@ == old(self)@),
    {
        if !self.next_is_squeeze() {
            return Err(SpongeError::UnexpectedSqueeze);
        }
        if self.squeeze_pos == RATE {
            permute(&mut self.state);
            self.squeeze_pos = 0;
            self.absorb_pos = 0;
        }
        let pos = self.squeeze_pos;
        let out = self.state[pos];
        self.squeeze_pos = pos + 1;
        self.done = self.done + 1;
        Ok(out)
    }

    /// Ends the use of the sponge: an error unless the pattern was followed to the end.
    pub fn finish(self) -> (r: Result<(), SpongeError>)
        requires
            self.wf(),
        ensures
            r is Ok <==> self@.done == self@.io.len(),
            r is Err ==> r == Err::<(), SpongeError>(SpongeError::UnfinishedPattern),
    {
        if self.done == self.io.len() {
            Ok(())
        } else {
            Err(SpongeError::UnfinishedPattern)
        }
    }
}

/// Applies the permutation to a state of three elements.
fn permute(state: &mut Vec<Scalar>)
    requires
        old(state)@.len() == 3,
    ensures
        final(state)@.len() == 3,
        views(final(state)@) == permutation(views(old(state)@)),
{
    let mut r: u64 = 0;
    let ghost s0 = views(state@);
    while r < ROUNDS
        invariant
            r <= ROUNDS,
            state@.len() == 3,
            views(state@) == perm_rounds(s0, r as nat),
        decreases ROUNDS - r,
    {
        permute_round(state, r);
        r = r + 1;
    }
    proof {
        reveal(permutation);
    }
}

/// One round of the permutation.
fn permute_round(state: &mut Vec<Scalar>, r: u64)
    requires
        old(state)@.len() == 3,
        r < ROUNDS,
    ensures
        final(state)@.len() == 3,
        views(final(state)@) == perm_round(views(old(state)@), r as nat),
{
    let a = power5(&state[0].add(&Scalar::from_u64(3 * r + 1)));
    let b = power5(&state[1].add(&Scalar::from_u64(3 * r + 2)));
    let c = power5(&state[2].add(&Scalar::from_u64(3 * r + 3)));
    let t = a.add(&b).add(&c);
    let ghost s = views(state@);
    state.set(0, t.add(&a));
    state.set(1, t.add(&b));
    state.set(2, t.add(&c));
    proof {
        assert(views(state@) =~= perm_round(s, r as nat));
    }
}

fn power5(x: &Scalar) -> (r: Scalar)
    ensures
        r@ == sbox(x@),
{
    let x2 = x.mul(x);
    x2.mul(&x2).mul(x)
}

proof fn lemma_expand_prefix_len(ops: Seq<SpongeOp>, i: nat)
    requires
        i <= ops.len(),
    ensures
        expand(ops.take(i as int)).len() <= expand(ops).len(),
    decreases ops.len() - i,
{
    if i < ops.len() {
        lemma_expand_prefix_len(ops, i + 1);
        assert(ops.take((i + 1) as int).drop_last() =~= ops.take(i as int));
    } else {
        assert(ops.take(i as int) =~= ops);
    }
}

/// `n` squeezes give `n` values.
pub proof fn lemma_squeezed_len(v: SpongeView, n: nat)
    ensures
        spec_squeezed(v, n).len() == n,
    decreases n,
{
    if n > 0 {
        lemma_squeezed_len(v, (n - 1) as nat);
    }
}

/// A sponge state of three reduced values, with positions within the rate.
pub open spec fn sponge_reduced(v: SpongeView) -> bool {
    &&& v.state.len() == 3
    &&& crate::algebra::reduced(v.state)
    &&& v.absorb_pos <= RATE
    &&& v.squeeze_pos <= RATE
}

proof fn lemma_permutation_reduced(s: Seq<nat>)
    ensures
        permutation(s).len() == 3,
        crate::algebra::reduced(permutation(s)),
{
    reveal(permutation);
    assert(perm_rounds(s, ROUNDS as nat) == perm_round(perm_rounds(s, 7), 7));
}

/// Absorbing and squeezing keep the state reduced; squeezed values are reduced.
pub proof fn lemma_sponge_reduced_step(v: SpongeView, x: nat)
    requires
        sponge_reduced(v),
    ensures
        sponge_reduced(spec_absorb(v, x)),
        sponge_reduced(spec_squeeze(v).0),
        spec_squeeze(v).1 < crate::field::modulus(),
{
    lemma_permutation_reduced(v.state);
}

/// Absorbing a sequence keeps the state reduced.
pub proof fn lemma_sponge_reduced_absorb_all(v: SpongeView, xs: Seq<nat>)
    requires
        sponge_reduced(v),
    ensures
        sponge_reduced(spec_absorb_all(v, xs)),
    decreases xs.len(),
{
    if xs.len() > 0 {
        lemma_sponge_reduced_absorb_all(v, xs.drop_last());
        lemma_sponge_reduced_step(spec_absorb_all(v, xs.drop_last()), xs.last());
    }
}

/// Squeezing keeps the state reduced and gives reduced values.
pub proof fn lemma_sponge_reduced_squeeze_n(v: SpongeView, n: nat)
    requires
        sponge_reduced(v),
    ensures
        sponge_reduced(spec_squeeze_n(v, n)),
        forall|k: int| 0 <= k < n ==> #[trigger] spec_squeezed(v, n)[k] < crate::field::modulus(),
        spec_squeezed(v, n).len() == n,
    decreases n,
{
    if n > 0 {
        lemma_sponge_reduced_squeeze_n(v, (n - 1) as nat);
        lemma_sponge_reduced_step(spec_squeeze_n(v, (n - 1) as nat), 0);
        assert forall|k: int| 0 <= k < n implies #[trigger] spec_squeezed(v, n)[k] < crate::field::modulus() by {
            if k < n - 1 {
                assert(spec_squeezed(v, n)[k] == spec_squeezed(v, (n - 1) as nat)[k]);
            }
        }
    }
}

} // verus!
