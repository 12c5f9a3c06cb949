//! The interaction transcript: the fixed shape of an interactive protocol,
//! and the transcript that lets prover and verifier exchange messages and
//! challenges while rejecting any deviation from that shape.
//!
//! Each round is a message of a given kind and length sent by the prover,
//! answered by a number of challenges; a point round sends nothing and is
//! answered with one challenge per variable.  Messages are absorbed into a
//! sponge whose pattern is derived from the rounds, challenges are squeezed
//! from it.
use crate::algebra::views;
use crate::field::{group_field, Scalar};
use crate::sponge::{
    expand, spec_absorb_all, spec_squeeze_n, spec_squeezed, Sponge,
    SpongeBuilder, SpongeError, SpongeOp, SpongeView,
};
use vstd::prelude::*;

verus! {

broadcast use group_field;

/// The kind of a message, standing for its type.
#[derive(Clone, Copy, PartialEq, Eq, Structural, Debug)]
pub enum MessageKind {
    /// A request for a challenge point.
    Point,
    /// The empty message.
    Unit,
    /// A single field element.
    Element,
    /// An array of that many single elements.
    Elements(u64),
    /// A multivariate point.
    MultiPoint,
    /// A claimed sum.
    Sum,
    /// A sumcheck round message.
    Sumcheck,
    /// The factors of compact powers.
    Powers,
    /// Evaluations provided by a prover.
    Evaluations,
    /// Any other kind, told apart by its tag.
    Custom(u64),
}

/// Errors of the transcript.
#[derive(Clone, Copy, PartialEq, Eq, Structural, Debug)]
pub enum Error {
    SpongeError(SpongeError),
    /// Attempt to send a message when no more messages were expected.
    TranscriptFinished,
    /// Unexpected message or number of challenges generated.
    UnexpectedMessage,
    /// The transcript was finished when more messsages were still expected.
    UnexpectedFinish,
}

/// A message as it enters the transcript: its kind and its field elements.
pub struct TranscriptMessage {
    pub kind: MessageKind,
    pub elements: Vec<Scalar>,
}

/// A message made of a single field element.
#[derive(Clone, Copy)]
pub struct SingleElement(pub Scalar);

impl SingleElement {
    /// The transcript form of the message.
    pub fn to_message(&self) -> (r: TranscriptMessage)
        ensures
            r.kind == MessageKind::Element,
            views(r.elements@) == seq![self.0@],
    {
        let mut elements: Vec<Scalar> = Vec::new();
        elements.push(self.0);
        proof {
            assert(views(elements@) =~= seq![self.0@]);
        }
        TranscriptMessage { kind: MessageKind::Element, elements }
    }

    /// The transcript form of an array of single elements.
    pub fn array_message(items: &Vec<SingleElement>) -> (r: TranscriptMessage)
        ensures
            r.kind == MessageKind::Elements(items@.len() as u64),
            r.elements@.len() == items@.len(),
            forall|i: int| 0 <= i < items@.len() ==> #[trigger] r.elements@[i] == items@[i].0,
    {
        let mut elements: Vec<Scalar> = Vec::new();
        let mut i: usize = 0;
        while i < items.len()
            invariant
                i <= items@.len(),
                elements@.len() == i,
                forall|j: int| 0 <= j < i ==> #[trigger] elements@[j] == items@[j].0,
            decreases items@.len() - i,
        {
            elements.push(items[i].0);
            i = i + 1;
        }
        TranscriptMessage { kind: MessageKind::Elements(items.len() as u64), elements }
    }
}

/// One round of the interaction.
#[derive(Clone, Copy, PartialEq, Eq, Structural)]
pub struct Round {
    pub kind: MessageKind,
    pub message_len: usize,
    pub challenges: usize,
}

/// The sponge pattern of one round: absorb the message, squeeze the challenges.
pub open spec fn round_io(r: Round) -> Seq<bool> {
    Seq::new(r.message_len as nat, |i: int| true) + Seq::new(r.challenges as nat, |i: int| false)
}

/// The sponge pattern of a sequence of rounds.
pub open spec fn rounds_io(rs: Seq<Round>) -> Seq<bool>
    decreases rs.len(),
{
    if rs.len() == 0 {
        seq![]
    } else {
        rounds_io(rs.drop_last()) + round_io(rs.last())
    }
}

/// The sponge operations of a sequence of rounds.
pub open spec fn rounds_ops(rs: Seq<Round>) -> Seq<SpongeOp>
    decreases rs.len(),
{
    if rs.len() == 0 {
        seq![]
    } else {
        let r = rs.last();
        rounds_ops(rs.drop_last()) + if r.kind == MessageKind::Point {
            seq![SpongeOp::Squeeze(r.challenges as u32)]
        } else {
            seq![SpongeOp::Absorb(r.message_len as u32), SpongeOp::Squeeze(r.challenges as u32)]
        }
    }
}

/// Rounds whose counts fit the sponge's 32-bit operation sizes; point rounds
/// carry no message.
pub open spec fn rounds_wf(rs: Seq<Round>) -> bool {
    forall|i: int|
        0 <= i < rs.len() ==> {
            &&& #[trigger] rs[i].message_len <= u32::MAX
            &&& rs[i].challenges <= u32::MAX
            &&& rs[i].kind == MessageKind::Point ==> rs[i].message_len == 0
        }
}

/// Builder of the shape that every interaction of some protocol follows.
pub struct TranscriptBuilder {
    rounds: Vec<Round>,
    vars: usize,
    sponge: SpongeBuilder,
}

/// The abstract state of a builder.
pub struct BuilderView {
    pub rounds: Seq<Round>,
    pub vars: nat,
}

impl View for TranscriptBuilder {
    type V = BuilderView;

    closed spec fn view(&self) -> BuilderView {
        BuilderView { rounds: self.rounds@, vars: self.vars as nat }
    }
}

impl TranscriptBuilder {
    pub closed spec fn wf(&self) -> bool {
        &&& self.sponge@ == rounds_ops(self.rounds@)
        &&& rounds_wf(self.rounds@)
    }

    /// The empty shape, for protocols over `vars` variables.
    pub fn new(vars: usize) -> (r: TranscriptBuilder)
        ensures
            r.wf(),
            r@.rounds == Seq::<Round>::empty(),
            r@.vars == vars,
    {
        TranscriptBuilder { rounds: Vec::new(), vars, sponge: SpongeBuilder::new() }
    }

    /// Adds a round where the prover sends a message of the given kind and
    /// length and the verifier answers with `challenges` challenges.
    pub fn round(self, kind: MessageKind, message_len: usize, challenges: usize) -> (r:
        TranscriptBuilder)
        requires
            self.wf(),
            kind != MessageKind::Point,
            message_len <= u32::MAX,
            challenges <= u32::MAX,
        ensures
            r.wf(),
            r@.rounds == self@.rounds.push(Round { kind, message_len, challenges }),
            r@.vars == self@.vars,
    {
        let TranscriptBuilder { mut rounds, vars, sponge } = self;
        let round = Round { kind, message_len, challenges };
        let sponge = sponge.absorb(message_len as u32).squeeze(challenges as u32);
        let ghost old_rounds = rounds@;
        rounds.push(round);
        proof {
            assert(rounds@.drop_last() =~= old_rounds);
            assert(rounds_ops(rounds@) =~= rounds_ops(old_rounds) + seq![
                SpongeOp::Absorb(message_len as u32),
                SpongeOp::Squeeze(challenges as u32),
            ]);
            assert(sponge@ =~= rounds_ops(rounds@));
            assert forall|i: int| 0 <= i < rounds@.len() implies {
                &&& #[trigger] rounds@[i].message_len <= u32::MAX
                &&& rounds@[i].challenges <= u32::MAX
                &&& rounds@[i].kind == MessageKind::Point ==> rounds@[i].message_len == 0
            } by {
                if i < old_rounds.len() {
                    assert(rounds@[i] == old_rounds[i]);
                }
            }
        }
        TranscriptBuilder { rounds, vars, sponge }
    }

    /// Adds a round where the verifier sends a challenge point of `vars` variables.
    pub fn point(self) -> (r: TranscriptBuilder)
        requires
            self.wf(),
            self@.vars <= u32::MAX,
        ensures
            r.wf(),
            r@.rounds == self@.rounds.push(
                Round { kind: MessageKind::Point, message_len: 0, challenges: self@.vars as usize },
            ),
            r@.vars == self@.vars,
    {
        let TranscriptBuilder { mut rounds, vars, sponge } = self;
        let round = Round { kind: MessageKind::Point, message_len: 0, challenges: vars };
        let sponge = sponge.squeeze(vars as u32);
        let ghost old_rounds = rounds@;
        rounds.push(round);
        proof {
            assert(rounds@.drop_last() =~= old_rounds);
            assert(rounds_ops(rounds@) =~= rounds_ops(old_rounds) + seq![
                SpongeOp::Squeeze(vars as u32),
            ]);
            assert(sponge@ =~= rounds_ops(rounds@));
            assert forall|i: int| 0 <= i < rounds@.len() implies {
                &&& #[trigger] rounds@[i].message_len <= u32::MAX
                &&& rounds@[i].challenges <= u32::MAX
                &&& rounds@[i].kind == MessageKind::Point ==> rounds@[i].message_len == 0
            } by {
                if i < old_rounds.len() {
                    assert(rounds@[i] == old_rounds[i]);
                }
            }
        }
        TranscriptBuilder { rounds, vars, sponge }
    }

    /// Adds one round per variable, for protocols that send one message per
    /// variable.
    pub fn fold_rounds(self, kind: MessageKind, message_len: usize, challenges: usize) -> (r:
        TranscriptBuilder)
        requires
            self.wf(),
            kind != MessageKind::Point,
            message_len <= u32::MAX,
            challenges <= u32::MAX,
        ensures
            r.wf(),
            r@.rounds == self@.rounds + Seq::new(
                self@.vars,
                |i: int| Round { kind, message_len, challenges },
            ),
            r@.vars == self@.vars,
    {
        let vars = self.vars;
        let mut builder = self;
        let mut i: usize = 0;
        let ghost start = self@.rounds;
        while i < vars
            invariant
                builder.wf(),
                i <= vars,
                vars == builder@.vars,
                kind != MessageKind::Point,
                message_len <= u32::MAX,
                challenges <= u32::MAX,
                builder@.rounds == start + Seq::new(
                    i as nat,
                    |j: int| Round { kind, message_len, challenges },
                ),
            decreases vars - i,
        {
            builder = builder.round(kind, message_len, challenges);
            proof {
                assert(builder@.rounds =~= start + Seq::new(
                    (i + 1) as nat,
                    |j: int| Round { kind, message_len, challenges },
                ));
            }
            i = i + 1;
        }
        builder
    }

    /// Applies `f` `n` times, with the index of each application.
    pub fn repeat<M: Fn(TranscriptBuilder, usize) -> TranscriptBuilder>(self, n: usize, f: M) -> (r:
        TranscriptBuilder)
        requires
            self.wf(),
            forall|b: TranscriptBuilder, i: usize| b.wf() ==> #[trigger] f.requires((b, i)),
            forall|b: TranscriptBuilder, i: usize, r: TranscriptBuilder|
                b.wf() && #[trigger] f.ensures((b, i), r) ==> r.wf() && r@.vars == b@.vars,
        ensures
            r.wf(),
            r@.vars == self@.vars,
            exists|steps: Seq<TranscriptBuilder>|
                {
                    &&& steps.len() == n + 1
                    &&& steps[0] == self
                    &&& steps[n as int] == r
                    &&& forall|k: int|
                        0 <= k < n ==> #[trigger] f.ensures((steps[k], k as usize), steps[k + 1])
                },
    {
        let vars = self.vars;
        let ghost start = self;
        let mut builder = self;
        let ghost mut steps = seq![start];
        let mut i: usize = 0;
        while i < n
            invariant
                builder.wf(),
                builder@.vars == vars,
                i <= n,
                steps.len() == i + 1,
                steps[0] == start,
                steps[i as int] == builder,
                forall|k: int| 0 <= k < i ==> #[trigger] f.ensures((steps[k], k as usize), steps[k + 1]),
                forall|b: TranscriptBuilder, i: usize| b.wf() ==> #[trigger] f.requires((b, i)),
                forall|b: TranscriptBuilder, i: usize, r: TranscriptBuilder|
                    b.wf() && #[trigger] f.ensures((b, i), r) ==> r.wf() && r@.vars == b@.vars,
            decreases n - i,
        {
            let ghost before = builder;
            let ghost prev = steps;
            builder = f(builder, i);
            proof {
                steps = prev.push(builder);
                assert forall|k: int| 0 <= k < i + 1 implies #[trigger] f.ensures(
                    (steps[k], k as usize),
                    steps[k + 1],
                ) by {
                    if k < i {
                        assert(steps[k] == prev[k] && steps[k + 1] == prev[k + 1]);
                    } else {
                        assert(steps[k] == before);
                    }
                }
            }
            i = i + 1;
        }
        builder
    }

    /// Freezes the shape into a descriptor.
    pub fn finish(self) -> (r: TranscriptDescriptor)
        requires
            self.wf(),
            rounds_io(self@.rounds).len() <= usize::MAX,
        ensures
            r.wf(),
            r@ == self@.rounds,
    {
        let TranscriptBuilder { rounds, vars, sponge } = self;
        proof {
            lemma_rounds_ops_expand(rounds@);
        }
        TranscriptDescriptor { sponge, rounds }
    }
}

/// A finished and immutable shape; it is instantiated into transcripts that
/// run the interaction.
pub struct TranscriptDescriptor {
    sponge: SpongeBuilder,
    rounds: Vec<Round>,
}

impl View for TranscriptDescriptor {
    type V = Seq<Round>;

    closed spec fn view(&self) -> Seq<Round> {
        self.rounds@
    }
}

impl TranscriptDescriptor {
    pub closed spec fn wf(&self) -> bool {
        &&& self.sponge@ == rounds_ops(self.rounds@)
        &&& rounds_wf(self.rounds@)
        &&& expand(self.sponge@) == rounds_io(self.rounds@)
        &&& rounds_io(self.rounds@).len() <= usize::MAX
    }

    /// The sponge state every transcript of this shape starts from.
    pub closed spec fn initial_sponge(&self) -> SpongeView {
        SpongeView {
            state: seq![0nat, 0nat, crate::sponge::pattern_tag(self.sponge@)],
            absorb_pos: 0,
            squeeze_pos: crate::sponge::RATE as nat,
            io: expand(self.sponge@),
            done: 0,
        }
    }

    /// A fresh transcript of this shape.
    pub fn instanciate(&self) -> (r: Transcript)
        requires
            self.wf(),
        ensures
            r.wf(),
            r@ == (TranscriptView { sponge: self.initial_sponge(), rounds: self@, next: 0 }),
    {
        let sponge = Sponge::from_builder(&self.sponge);
        let rounds = clone_rounds(&self.rounds);
        proof {
            assert(self.rounds@.take(0) =~= Seq::<Round>::empty());
        }
        Transcript { sponge, rounds, next: 0 }
    }
}

/// Descriptors built with the same rounds start their transcripts from the
/// same state, so that their transcripts, fed the same messages, give the
/// same challenges.
pub proof fn lemma_descriptor_determinism(d1: TranscriptDescriptor, d2: TranscriptDescriptor)
    requires
        d1.wf(),
        d2.wf(),
        d1@ == d2@,
    ensures
        d1.initial_sponge() == d2.initial_sponge(),
{
}

impl TranscriptDescriptor {
    /// A fresh transcript of this shape, as `instanciate`.
    pub fn instantiate(&self) -> (r: Transcript)
        requires
            self.wf(),
        ensures
            r.wf(),
            r@ == (TranscriptView { sponge: self.initial_sponge(), rounds: self@, next: 0 }),
    {
        self.instanciate()
    }
}

fn clone_rounds(v: &Vec<Round>) -> (r: Vec<Round>)
    ensures
        r@ == v@,
{
    let mut r: Vec<Round> = Vec::new();
    let mut i: usize = 0;
    while i < v.len()
        invariant
            i <= v@.len(),
            r@ == v@.take(i as int),
        decreases v@.len() - i,
    {
        r.push(v[i]);
        proof {
            assert(r@ =~= v@.take(i + 1));
        }
        i = i + 1;
    }
    proof {
        assert(v@.take(v@.len() as int) =~= v@);
    }
    r
}

/// The abstract state of a transcript.
pub struct TranscriptView {
    pub sponge: SpongeView,
    pub rounds: Seq<Round>,
    pub next: nat,
}

/// A round accepts a message of this kind and length answered by this many challenges.
pub open spec fn round_accepts(r: Round, kind: MessageKind, len: nat, challenges: nat) -> bool {
    r.kind == kind && r.message_len == len && r.challenges == challenges
}

/// The challenges a sponge gives for a message: absorb it, then squeeze.
pub open spec fn challenges_for(v: SpongeView, elements: Seq<nat>, n: nat) -> Seq<nat> {
    spec_squeezed(spec_absorb_all(v, elements), n)
}

/// The sponge after a message and its challenges.
pub open spec fn sponge_after(v: SpongeView, elements: Seq<nat>, n: nat) -> SpongeView {
    spec_squeeze_n(spec_absorb_all(v, elements), n)
}

/// What a transcript at state `v` answers to a message of this kind and
/// these elements asking for `challenges` challenges, and its state after.
pub open spec fn send_outcome(v: TranscriptView, kind: MessageKind, elements: Seq<nat>, challenges: nat) -> (
    Result<Seq<nat>, Error>,
    TranscriptView,
) {
    if v.next >= v.rounds.len() {
        (Err(Error::TranscriptFinished), v)
    } else if !round_accepts(v.rounds[v.next as int], kind, elements.len(), challenges) {
        (Err(Error::UnexpectedMessage), v)
    } else {
        (
            Ok(challenges_for(v.sponge, elements, challenges)),
            TranscriptView {
                sponge: sponge_after(v.sponge, elements, challenges),
                rounds: v.rounds,
                next: v.next + 1,
            },
        )
    }
}

/// The answers of a transcript at state `v` to the messages, one after the
/// other (kind, elements, number of challenges), and its state after them.
pub open spec fn run_outcomes(v: TranscriptView, msgs: Seq<(MessageKind, Seq<nat>, nat)>) -> (
    Seq<Result<Seq<nat>, Error>>,
    TranscriptView,
)
    decreases msgs.len(),
{
    if msgs.len() == 0 {
        (seq![], v)
    } else {
        let prev = run_outcomes(v, msgs.drop_last());
        let m = msgs.last();
        let step = send_outcome(prev.1, m.0, m.1, m.2);
        (prev.0.push(step.0), step.1)
    }
}

/// Prover and verifier agree: two fresh transcripts of descriptors with the
/// same rounds, fed the same messages, give the same answers (the same
/// challenges, or the same refusals) and end in the same state.
pub proof fn lemma_transcripts_agree(
    d1: TranscriptDescriptor,
    d2: TranscriptDescriptor,
    msgs: Seq<(MessageKind, Seq<nat>, nat)>,
)
    requires
        d1.wf(),
        d2.wf(),
        d1@ == d2@,
    ensures
        run_outcomes(TranscriptView { sponge: d1.initial_sponge(), rounds: d1@, next: 0 }, msgs)
            == run_outcomes(TranscriptView { sponge: d2.initial_sponge(), rounds: d2@, next: 0 }, msgs),
{
    lemma_descriptor_determinism(d1, d2);
}

/// The interaction transcript, through which the prover sends messages and
/// receives challenges; it rejects any interaction that deviates from its shape.
pub struct Transcript {
    sponge: Sponge,
    rounds: Vec<Round>,
    next: usize,
}

impl View for Transcript {
    type V = TranscriptView;

    closed spec fn view(&self) -> TranscriptView {
        TranscriptView { sponge: self.sponge@, rounds: self.rounds@, next: self.next as nat }
    }
}

impl Transcript {
    pub closed spec fn wf(&self) -> bool {
        &&& self.sponge.wf()
        &&& self.next <= self.rounds@.len()
        &&& rounds_wf(self.rounds@)
        &&& self.sponge@.io == rounds_io(self.rounds@)
        &&& self.sponge@.done == rounds_io(self.rounds@.take(self.next as int)).len()
    }

    /// What a well-formed transcript's state holds: its sponge follows the
    /// pattern of all its rounds and has done exactly the operations of the
    /// rounds carried out.
    pub proof fn lemma_wf_pattern(&self)
        requires
            self.wf(),
        ensures
            self@.next <= self@.rounds.len(),
            rounds_wf(self@.rounds),
            self@.sponge.io == rounds_io(self@.rounds),
            self@.sponge.done == rounds_io(self@.rounds.take(self@.next as int)).len(),
    {
    }

    /// Sends a message to the verifier and gets back `challenges` challenges.
    ///
    /// The message must be the next round's, of its kind and length, and the
    /// number of challenges that round's; otherwise nothing changes and
    /// `UnexpectedMessage` is returned (`TranscriptFinished` after the last round).
    pub fn send_message(&mut self, message: &TranscriptMessage, challenges: usize) -> (r: Result<
        Vec<Scalar>,
        Error,
    >)
        requires
            old(self).wf(),
        ensures
            final(self).wf(),
            r matches Ok(c) ==> send_outcome(
                old(self)@,
                message.kind,
                views(message.elements@),
                challenges as nat,
            ) == (Ok::<Seq<nat>, Error>(views(c@)), final(self)@),
            r matches Err(e) ==> send_outcome(
                old(self)@,
                message.kind,
                views(message.elements@),
                challenges as nat,
            ) == (Err::<Seq<nat>, Error>(e), final(self)@),
            old(self)@.next >= old(self)@.rounds.len() ==> r == Err::<Vec<Scalar>, Error>(
                Error::TranscriptFinished,
            ) && final(self)@ == old(self)@,
            old(self)@.next < old(self)@.rounds.len() && !round_accepts(
                old(self)@.rounds[old(self)@.next as int],
                message.kind,
                message.elements@.len() as nat,
                challenges as nat,
            ) ==> r == Err::<Vec<Scalar>, Error>(Error::UnexpectedMessage) && final(self)@ == old(
                self,
            )@,
            old(self)@.next < old(self)@.rounds.len() && round_accepts(
                old(self)@.rounds[old(self)@.next as int],
                message.kind,
                message.elements@.len() as nat,
                challenges as nat,
            ) ==> (r matches Ok(c) && views(c@) == challenges_for(
                old(self)@.sponge,
                views(message.elements@),
                challenges as nat,
            ) && final(self)@ == (TranscriptView {
                sponge: sponge_after(old(self)@.sponge, views(message.elements@), challenges as nat),
                rounds: old(self)@.rounds,
                next: old(self)@.next + 1,
            })),
    {
        if self.next >= self.rounds.len() {
            return Err(Error::TranscriptFinished);
        }
        let round = self.rounds[self.next];
        if !(round.kind == message.kind && round.message_len == message.elements.len()
            && round.challenges == challenges) {
            return Err(Error::UnexpectedMessage);
        }
        let out = self.run_round(&message.elements, challenges);
        Ok(out)
    }

    /// Receives the challenge point of a point round.
    pub fn point(&mut self) -> (r: Result<Vec<Scalar>, Error>)
        requires
            old(self).wf(),
        ensures
            final(self).wf(),
            old(self)@.next >= old(self)@.rounds.len() ==> r == Err::<Vec<Scalar>, Error>(
                Error::TranscriptFinished,
            ) && final(self)@ == old(self)@,
            old(self)@.next < old(self)@.rounds.len() && old(self)@.rounds[old(
                self,
            )@.next as int].kind != MessageKind::Point ==> r == Err::<Vec<Scalar>, Error>(
                Error::UnexpectedMessage,
            ) && final(self)@ == old(self)@,
            old(self)@.next < old(self)@.rounds.len() && old(self)@.rounds[old(
                self,
            )@.next as int].kind == MessageKind::Point ==> (r matches Ok(c) && views(c@)
                == spec_squeezed(
                old(self)@.sponge,
                old(self)@.rounds[old(self)@.next as int].challenges as nat,
            ) && final(self)@ == (TranscriptView {
                sponge: spec_squeeze_n(
                    old(self)@.sponge,
                    old(self)@.rounds[old(self)@.next as int].challenges as nat,
                ),
                rounds: old(self)@.rounds,
                next: old(self)@.next + 1,
            })),
    {
        if self.next >= self.rounds.len() {
            return Err(Error::TranscriptFinished);
        }
        let round = self.rounds[self.next];
        if !(round.kind == MessageKind::Point) {
            return Err(Error::UnexpectedMessage);
        }
        let empty: Vec<Scalar> = Vec::new();
        proof {
            assert(views(empty@) =~= Seq::<nat>::empty());
            assert(spec_absorb_all(self@.sponge, views(empty@)) == self@.sponge);
        }
        let out = self.run_round(&empty, round.challenges);
        Ok(out)
    }

    /// Absorbs the elements of the next round and squeezes its challenges.
    fn run_round(&mut self, elements: &Vec<Scalar>, challenges: usize) -> (out: Vec<Scalar>)
        requires
            old(self).wf(),
            old(self)@.next < old(self)@.rounds.len(),
            old(self)@.rounds[old(self)@.next as int].message_len == elements@.len(),
            old(self)@.rounds[old(self)@.next as int].challenges == challenges,
        ensures
            final(self).wf(),
            views(out@) == challenges_for(old(self)@.sponge, views(elements@), challenges as nat),
            final(self)@ == (TranscriptView {
                sponge: sponge_after(old(self)@.sponge, views(elements@), challenges as nat),
                rounds: old(self)@.rounds,
                next: old(self)@.next + 1,
            }),
    {
        let ghost s0 = self.sponge@;
        let ghost k = self.next as int;
        let ghost rs = self.rounds@;
        proof {
            lemma_round_pattern(rs, k);
        }
        absorb_elements(&mut self.sponge, elements);
        let out = squeeze_elements(&mut self.sponge, challenges);
        assert(self.next < self.rounds.len());
        self.next = self.next + 1;
        proof {
            assert(self.sponge@ == sponge_after(s0, views(elements@), challenges as nat));
            assert(self.sponge@.done == rounds_io(rs.take(k + 1)).len());
            assert(self.rounds@ == rs);
        }
        out
    }

    /// Ends the transcript: an error unless every round was carried out.
    /// Rounds left over are an error as soon as one of them absorbs or
    /// squeezes anything; only rounds that do neither may be left.
    pub fn finish(self) -> (r: Result<(), Error>)
        requires
            self.wf(),
        ensures
            r is Ok <==> self@.sponge.done == self@.sponge.io.len(),
            r is Ok <==> rounds_io(self@.rounds.take(self@.next as int)).len() == rounds_io(
                self@.rounds,
            ).len(),
            r is Err ==> r == Err::<(), Error>(Error::SpongeError(SpongeError::UnfinishedPattern)),
            self@.next == self@.rounds.len() ==> r is Ok,
            self@.next < self@.rounds.len() && round_io(self@.rounds[self@.next as int]).len() > 0
                ==> r == Err::<(), Error>(Error::SpongeError(SpongeError::UnfinishedPattern)),
    {
        proof {
            assert(self@.rounds.take(self@.rounds.len() as int) =~= self@.rounds);
            if self@.next < self@.rounds.len() {
                lemma_round_pattern(self@.rounds, self@.next as int);
            }
        }
        match self.sponge.finish() {
            Ok(()) => Ok(()),
            Err(e) => Err(Error::SpongeError(e)),
        }
    }
}

/// Absorbs the elements one by one, where the pattern expects that many absorptions.
fn absorb_elements(sponge: &mut Sponge, elements: &Vec<Scalar>)
    requires
        old(sponge).wf(),
        old(sponge)@.done + elements@.len() <= old(sponge)@.io.len(),
        forall|j: int|
            0 <= j < elements@.len() ==> #[trigger] old(sponge)@.io[old(sponge)@.done + j],
    ensures
        final(sponge).wf(),
        final(sponge)@ == spec_absorb_all(old(sponge)@, views(elements@)),
        final(sponge)@.done == old(sponge)@.done + elements@.len(),
        final(sponge)@.io == old(sponge)@.io,
{
    let ghost s0 = sponge@;
    let n = elements.len();
    let mut i: usize = 0;
    while i < n
        invariant
            sponge.wf(),
            n == elements@.len(),
            i <= n,
            sponge@ == spec_absorb_all(s0, views(elements@).take(i as int)),
            sponge@.done == s0.done + i,
            sponge@.io == s0.io,
            s0.done + n <= s0.io.len(),
            forall|j: int| 0 <= j < n ==> #[trigger] s0.io[s0.done + j],
        decreases n - i,
    {
        proof {
            assert(s0.io[s0.done + i]);
            assert(views(elements@).take(i + 1).drop_last() =~= views(elements@).take(i as int));
        }
        let _ = sponge.absorb(&elements[i]);
        i = i + 1;
    }
    proof {
        assert(views(elements@).take(n as int) =~= views(elements@));
    }
}

/// Squeezes `n` elements, where the pattern expects that many squeezes.
fn squeeze_elements(sponge: &mut Sponge, n: usize) -> (out: Vec<Scalar>)
    requires
        old(sponge).wf(),
        old(sponge)@.done + n <= old(sponge)@.io.len(),
        forall|j: int| 0 <= j < n ==> !#[trigger] old(sponge)@.io[old(sponge)@.done + j],
    ensures
        final(sponge).wf(),
        final(sponge)@ == spec_squeeze_n(old(sponge)@, n as nat),
        views(out@) == spec_squeezed(old(sponge)@, n as nat),
        final(sponge)@.done == old(sponge)@.done + n,
        final(sponge)@.io == old(sponge)@.io,
{
    let ghost s1 = sponge@;
    let mut out: Vec<Scalar> = Vec::new();
    let mut j: usize = 0;
    while j < n
        invariant
            sponge.wf(),
            j <= n,
            sponge@ == spec_squeeze_n(s1, j as nat),
            sponge@.done == s1.done + j,
            sponge@.io == s1.io,
            s1.done + n <= s1.io.len(),
            forall|t: int| 0 <= t < n ==> !#[trigger] s1.io[s1.done + t],
            views(out@) == spec_squeezed(s1, j as nat),
        decreases n - j,
    {
        proof {
            assert(!s1.io[s1.done + j]);
        }
        let res = sponge.squeeze();
        match res {
            Ok(x) => {
                out.push(x);
                proof {
                    assert(views(out@) =~= spec_squeezed(s1, (j + 1) as nat));
                }
            },
            Err(_) => {
                proof {
                    assert(false);
                }
            },
        }
        j = j + 1;
    }
    out
}

/// Within the pattern of all rounds, round `k` starts where the first `k`
/// rounds end: its message's absorptions, then its squeezes.
proof fn lemma_round_pattern(rs: Seq<Round>, k: int)
    requires
        0 <= k < rs.len(),
    ensures
        ({
            let d = rounds_io(rs.take(k)).len();
            let n = rs[k].message_len as int;
            let c = rs[k].challenges as int;
            &&& d + n + c <= rounds_io(rs).len()
            &&& d + n + c == rounds_io(rs.take(k + 1)).len()
            &&& forall|j: int| 0 <= j < n ==> #[trigger] rounds_io(rs)[d + j]
            &&& forall|j: int| 0 <= j < c ==> !#[trigger] rounds_io(rs)[d + n + j]
        }),
{
    lemma_rounds_io_step(rs, k);
    lemma_rounds_io_prefix(rs, k + 1);
    let pre = rounds_io(rs.take(k));
    let step = rounds_io(rs.take(k + 1));
    let d = pre.len();
    let n = rs[k].message_len as int;
    let c = rs[k].challenges as int;
    assert forall|j: int| 0 <= j < n implies #[trigger] rounds_io(rs)[d + j] by {
        assert(step[d + j] == round_io(rs[k])[j]);
    }
    assert forall|j: int| 0 <= j < c implies !#[trigger] rounds_io(rs)[d + n + j] by {
        assert(step[d + n + j] == round_io(rs[k])[n + j]);
    }
}

/// The pattern of the first `k + 1` rounds extends that of the first `k` by round `k`.
proof fn lemma_rounds_io_step(rs: Seq<Round>, k: int)
    requires
        0 <= k < rs.len(),
    ensures
        rounds_io(rs.take(k + 1)) == rounds_io(rs.take(k)) + round_io(rs[k]),
{
    assert(rs.take(k + 1).drop_last() =~= rs.take(k));
}

/// The pattern of a prefix of the rounds is a prefix of their pattern.
proof fn lemma_rounds_io_prefix(rs: Seq<Round>, k: int)
    requires
        0 <= k <= rs.len(),
    ensures
        rounds_io(rs.take(k)).len() <= rounds_io(rs).len(),
        forall|i: int|
            0 <= i < rounds_io(rs.take(k)).len() ==> #[trigger] rounds_io(rs)[i] == rounds_io(
                rs.take(k),
            )[i],
    decreases rs.len() - k,
{
    if k < rs.len() {
        lemma_rounds_io_prefix(rs, k + 1);
        lemma_rounds_io_step(rs, k);
    } else {
        assert(rs.take(k) =~= rs);
    }
}

/// The sponge pattern built from the rounds expands to the rounds' pattern.
proof fn lemma_rounds_ops_expand(rs: Seq<Round>)
    requires
        rounds_wf(rs),
    ensures
        expand(rounds_ops(rs)) == rounds_io(rs),
    decreases rs.len(),
{
    if rs.len() > 0 {
        let r = rs.last();
        let prev = rs.drop_last();
        assert(rounds_wf(prev)) by {
            assert forall|i: int| 0 <= i < prev.len() implies {
                &&& #[trigger] prev[i].message_len <= u32::MAX
                &&& prev[i].challenges <= u32::MAX
                &&& prev[i].kind == MessageKind::Point ==> prev[i].message_len == 0
            } by {
                assert(prev[i] == rs[i]);
            }
        }
        lemma_rounds_ops_expand(prev);
        assert(rs[rs.len() - 1] == r);
        let tail = if r.kind == MessageKind::Point {
            seq![SpongeOp::Squeeze(r.challenges as u32)]
        } else {
            seq![SpongeOp::Absorb(r.message_len as u32), SpongeOp::Squeeze(r.challenges as u32)]
        };
        lemma_expand_concat(rounds_ops(prev), tail);
        let squeezes = Seq::new(r.challenges as nat, |i: int| false);
        let absorbs = Seq::new(r.message_len as nat, |i: int| true);
        if r.kind == MessageKind::Point {
            assert(absorbs =~= Seq::<bool>::empty());
            assert(tail.drop_last() =~= Seq::<SpongeOp>::empty());
            assert(expand(tail.drop_last()) =~= Seq::<bool>::empty());
            assert(expand(tail) == expand(tail.drop_last()) + squeezes);
            assert(expand(tail) =~= round_io(r));
        } else {
            let first = tail.drop_last();
            assert(first =~= seq![SpongeOp::Absorb(r.message_len as u32)]);
            assert(first.drop_last() =~= Seq::<SpongeOp>::empty());
            assert(expand(first.drop_last()) =~= Seq::<bool>::empty());
            assert(expand(first) == expand(first.drop_last()) + absorbs);
            assert(expand(tail) == expand(first) + squeezes);
            assert(expand(tail) =~= round_io(r));
        }
    }
}

proof fn lemma_expand_concat(a: Seq<SpongeOp>, b: Seq<SpongeOp>)
    ensures
        expand(a + b) == expand(a) + expand(b),
    decreases b.len(),
{
    if b.len() == 0 {
        assert(a + b =~= a);
        assert(expand(b) =~= Seq::<bool>::empty());
        assert(expand(a) + expand(b) =~= expand(a));
    } else {
        lemma_expand_concat(a, b.drop_last());
        assert((a + b).drop_last() =~= a + b.drop_last());
        assert((a + b).last() == b.last());
    }
}

/// Protects a message, preventing any access that could bypass the transcript.
pub struct Guard<A> {
    inner: A,
    // This will later allow to avoid reabsorbing messages.
    observed: bool,
}

impl<A> Guard<A> {
    pub closed spec fn value(&self) -> A {
        self.inner
    }

    pub closed spec fn observed(&self) -> bool {
        self.observed
    }

    /// Guards a message, not yet observed.
    pub fn new(inner: A) -> (r: Guard<A>)
        ensures
            r.value() == inner,
            !r.observed(),
    {
        Guard { inner, observed: false }
    }

    /// The message, once it has been observed by the transcript.
    pub fn open(self) -> (r: A)
        requires
            self.observed(),
        ensures
            r == self.value(),
    {
        self.inner
    }

    /// The message, borrowed, once it has been observed by the transcript.
    pub fn open_ref(&self) -> (r: &A)
        requires
            self.observed(),
        ensures
            *r == self.value(),
    {
        &self.inner
    }

    /// Maps the guarded message, before it is observed.
    pub fn map<B, F: Fn(A) -> B>(self, f: F) -> (r: Guard<B>)
        requires
            !self.observed(),
            f.requires((self.value(),)),
        ensures
            f.ensures((self.value(),), r.value()),
            !r.observed(),
    {
        let Guard { inner, observed } = self;
        let inner = f(inner);
        Guard { inner, observed }
    }
}

/// A proof that can only be read through the verifier's transcript.
pub struct GuardedProof<P>(P);

impl<P> GuardedProof<P> {
    pub closed spec fn value(&self) -> P {
        self.0
    }

    /// Maps the guarded proof.
    pub fn map<P2, F: FnOnce(P) -> P2>(self, f: F) -> (r: GuardedProof<P2>)
        requires
            f.requires((self.value(),)),
        ensures
            f.ensures((self.value(),), r.value()),
    {
        GuardedProof(f(self.0))
    }

    pub fn inner(&self) -> (r: &P)
        ensures
            *r == self.value(),
    {
        &self.0
    }

    pub fn new(proof: P) -> (r: GuardedProof<P>)
        ensures
            r.value() == proof,
    {
        GuardedProof(proof)
    }
}

impl<A, B> GuardedProof<(A, B)> {
    /// Splits a guarded pair into its two guarded halves.
    pub fn split(self) -> (r: (GuardedProof<A>, GuardedProof<B>))
        ensures
            r.0.value() == self.value().0,
            r.1.value() == self.value().1,
    {
        let GuardedProof((a, b)) = self;
        (GuardedProof(a), GuardedProof(b))
    }
}

/// A verifier's transcript whose rounds and sponge agree can be finished too.
pub broadcast proof fn lemma_verifier_wf_valid(t: VerifierTranscript)
    requires
        t.wf(),
    ensures
        #[trigger] t.valid(),
{
}

/// The verifier's side of the transcript.
///
/// A round can be consumed without any message entering the sponge, when
/// the prover's message cannot even be turned into field elements; from
/// then on the rounds and the sponge no longer agree, and the transcript
/// only serves to be finished, which fails.
pub struct VerifierTranscript {
    transcript: Transcript,
    /// Rounds consumed without touching the sponge.
    skipped: usize,
}

impl View for VerifierTranscript {
    type V = TranscriptView;

    closed spec fn view(&self) -> TranscriptView {
        TranscriptView {
            sponge: self.transcript@.sponge,
            rounds: self.transcript@.rounds,
            next: (self.transcript@.next + self.skipped) as nat,
        }
    }
}

impl VerifierTranscript {
    /// The rounds and the sponge agree: no round was consumed without
    /// passing through the sponge.
    pub closed spec fn wf(&self) -> bool {
        &&& self.transcript.wf()
        &&& self.skipped == 0
    }

    /// A transcript that may have consumed rounds without passing them
    /// through the sponge; it can still be finished.
    pub closed spec fn valid(&self) -> bool {
        &&& self.transcript.wf()
        &&& self.transcript@.next + self.skipped <= self.transcript@.rounds.len()
    }


    pub fn new(transcript: Transcript) -> (r: VerifierTranscript)
        requires
            transcript.wf(),
        ensures
            r.wf(),
            r@ == transcript@,
    {
        VerifierTranscript { transcript, skipped: 0 }
    }

    /// Consumes the next round without absorbing or squeezing anything, as
    /// when the prover's message for it cannot be turned into field
    /// elements. Without a round left nothing changes.
    pub fn skip_round(&mut self)
        requires
            old(self).valid(),
        ensures
            final(self).valid(),
            old(self)@.next < old(self)@.rounds.len() ==> final(self)@ == (TranscriptView {
                sponge: old(self)@.sponge,
                rounds: old(self)@.rounds,
                next: old(self)@.next + 1,
            }) && !final(self).wf(),
            old(self)@.next >= old(self)@.rounds.len() ==> final(self)@ == old(self)@,
            old(self)@.next >= old(self)@.rounds.len() ==> (final(self).wf() <==> old(self).wf()),
    {
        if self.skipped < self.transcript.rounds.len() - self.transcript.next {
            self.skipped = self.skipped + 1;
        }
    }

    /// Wraps a message into a guard.
    pub fn wrap(&self, message: TranscriptMessage) -> (r: Guard<TranscriptMessage>)
        ensures
            r.value() == message,
            !r.observed(),
    {
        Guard::new(message)
    }

    /// Receives a guarded message into the transcript and answers with
    /// `challenges` challenges; the message is handed back, now observed.
    /// A message of the wrong kind, length or number of challenges, or one
    /// past the last round, is a misuse of the protocol's shape: it is
    /// refused and the transcript is left as it was. A prover's message that
    /// cannot be read as field elements at all consumes its round instead,
    /// through `skip_round`.
    pub fn unwrap_guard(&mut self, message: Guard<TranscriptMessage>, challenges: usize) -> (r:
        Result<(TranscriptMessage, Vec<Scalar>), Error>)
        requires
            old(self).wf(),
        ensures
            final(self).wf(),
            r matches Ok(p) ==> send_outcome(
                old(self)@,
                message.value().kind,
                views(message.value().elements@),
                challenges as nat,
            ) == (Ok::<Seq<nat>, Error>(views(p.1@)), final(self)@),
            r matches Err(e) ==> send_outcome(
                old(self)@,
                message.value().kind,
                views(message.value().elements@),
                challenges as nat,
            ) == (Err::<Seq<nat>, Error>(e), final(self)@),
            r is Err ==> final(self)@ == old(self)@,
            r matches Err(e) ==> e == if old(self)@.next >= old(self)@.rounds.len() {
                Error::TranscriptFinished
            } else {
                Error::UnexpectedMessage
            },
            r matches Ok(p) ==> p.0 == message.value() && views(p.1@) == challenges_for(
                old(self)@.sponge,
                views(message.value().elements@),
                challenges as nat,
            ) && final(self)@ == (TranscriptView {
                sponge: sponge_after(
                    old(self)@.sponge,
                    views(message.value().elements@),
                    challenges as nat,
                ),
                rounds: old(self)@.rounds,
                next: old(self)@.next + 1,
            }),
            old(self)@.next < old(self)@.rounds.len() && round_accepts(
                old(self)@.rounds[old(self)@.next as int],
                message.value().kind,
                message.value().elements@.len() as nat,
                challenges as nat,
            ) <==> r is Ok,
    {
        let message = message.inner;
        match self.transcript.send_message(&message, challenges) {
            Ok(c) => Ok((message, c)),
            Err(e) => Err(e),
        }
    }

    /// Receives a message read from a guarded proof by `query`, and answers
    /// it as `unwrap_guard` does.
    pub fn receive_message<P, Q: Fn(&P) -> TranscriptMessage>(
        &mut self,
        query: Q,
        proof: &GuardedProof<P>,
        challenges: usize,
    ) -> (r: Result<(TranscriptMessage, Vec<Scalar>), Error>)
        requires
            old(self).wf(),
            query.requires((&proof.value(),)),
        ensures
            final(self).wf(),
            r is Err ==> final(self)@ == old(self)@,
            r matches Err(e) ==> e == if old(self)@.next >= old(self)@.rounds.len() {
                Error::TranscriptFinished
            } else {
                Error::UnexpectedMessage
            },
            r matches Ok(p) ==> final(self)@ == (TranscriptView {
                sponge: sponge_after(old(self)@.sponge, views(p.0.elements@), challenges as nat),
                rounds: old(self)@.rounds,
                next: old(self)@.next + 1,
            }),
            r matches Ok(p) ==> query.ensures((&proof.value(),), p.0) && views(p.1@)
                == challenges_for(old(self)@.sponge, views(p.0.elements@), challenges as nat)
                && round_accepts(
                old(self)@.rounds[old(self)@.next as int],
                p.0.kind,
                p.0.elements@.len() as nat,
                challenges as nat,
            ) && old(self)@.next < old(self)@.rounds.len(),
            r is Err ==> exists|m: TranscriptMessage|
                #[trigger] query.ensures((&proof.value(),), m) && !(old(self)@.next < old(self)@.rounds.len()
                    && round_accepts(
                    old(self)@.rounds[old(self)@.next as int],
                    m.kind,
                    m.elements@.len() as nat,
                    challenges as nat,
                )),
    {
        let message = query(proof.inner());
        let ghost m = message;
        let r = self.unwrap_guard(Guard::new(message), challenges);
        proof {
            if r is Err {
                assert(query.ensures((&proof.value(),), m));
                assert(!(old(self)@.next < old(self)@.rounds.len() && round_accepts(
                    old(self)@.rounds[old(self)@.next as int],
                    m.kind,
                    m.elements@.len() as nat,
                    challenges as nat,
                )));
            }
        }
        r
    }

    /// Sends the challenge point of a point round, as `Transcript::point` does.
    pub fn point(&mut self) -> (r: Result<Vec<Scalar>, Error>)
        requires
            old(self).wf(),
        ensures
            final(self).wf(),
            old(self)@.next >= old(self)@.rounds.len() ==> r == Err::<Vec<Scalar>, Error>(
                Error::TranscriptFinished,
            ) && final(self)@ == old(self)@,
            old(self)@.next < old(self)@.rounds.len() && old(self)@.rounds[old(
                self,
            )@.next as int].kind != MessageKind::Point ==> r == Err::<Vec<Scalar>, Error>(
                Error::UnexpectedMessage,
            ) && final(self)@ == old(self)@,
            old(self)@.next < old(self)@.rounds.len() && old(self)@.rounds[old(
                self,
            )@.next as int].kind == MessageKind::Point ==> (r matches Ok(c) && views(c@)
                == spec_squeezed(
                old(self)@.sponge,
                old(self)@.rounds[old(self)@.next as int].challenges as nat,
            ) && final(self)@ == (TranscriptView {
                sponge: spec_squeeze_n(
                    old(self)@.sponge,
                    old(self)@.rounds[old(self)@.next as int].challenges as nat,
                ),
                rounds: old(self)@.rounds,
                next: old(self)@.next + 1,
            })),
    {
        self.transcript.point()
    }

    /// Ends the transcript: `UnexpectedFinish` while rounds remain, otherwise
    /// the sponge's verdict, which fails where a round was consumed without
    /// passing through the sponge.
    pub fn finish(self) -> (r: Result<(), Error>)
        requires
            self.valid(),
        ensures
            self@.next < self@.rounds.len() ==> r == Err::<(), Error>(Error::UnexpectedFinish),
            self@.next == self@.rounds.len() ==> (r is Ok <==> self@.sponge.done
                == self@.sponge.io.len()),
            self@.next == self@.rounds.len() && r is Err ==> r == Err::<(), Error>(
                Error::SpongeError(SpongeError::UnfinishedPattern),
            ),
            self@.next == self@.rounds.len() && self.wf() ==> r is Ok,
    {
        if self.skipped < self.transcript.rounds.len() - self.transcript.next {
            return Err(Error::UnexpectedFinish);
        }
        self.transcript.finish()
    }
}

} // verus!
