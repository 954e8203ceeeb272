//! Stages and the fail-open guard around them.
//!
//! A stage that fails is bypassed: what it decided is discarded and the
//! original payload continues to export. Nothing is lost because governance
//! failed.

use crate::envelope;
use crate::envelope::{Decisions, Envelope, SampleVerdict};
use vstd::prelude::*;

verus! {

/// Stable stage identifier; also the label on bypass counters.
#[derive(Debug, Clone, Copy, PartialEq, Eq)]
pub struct StageId(pub &'static str);

impl View for StageId {
    type V = Seq<char>;

    open spec fn view(&self) -> Seq<char> {
        self.0@
    }
}

/// Stage errors carry rule ids and reasons, never payload bytes.
#[derive(Debug)]
pub enum StageError {
    Rule { rule_id: u32, reason: &'static str },
    Internal(&'static str),
}

/// Why a stage was bypassed.
#[derive(Debug)]
pub enum BypassReason {
    Panic,
    Error(StageError),
}

/// What became of a stage.
#[derive(Debug)]
pub enum StageOutcome {
    Applied,
    Bypassed(BypassReason),
}

/// How an attempt to run a stage ended. A caller that can catch a panic says
/// so here.
#[derive(Debug)]
pub enum Attempt {
    Returned(Result<(), StageError>),
    Panicked,
}

/// Whether a change of decisions only touches what stage `label` contributed.
pub open spec fn additive(label: Seq<char>, before: Decisions, after: Decisions) -> bool {
    &&& envelope::without_stage(after.entries(), label) == envelope::without_stage(
        before.entries(),
        label,
    )
    &&& label != envelope::STAGE_SAMPLE@ ==> after.verdicts() == before.verdicts()
}

/// Decisions with everything that stage `label` contributed taken out.
pub open spec fn cleared(label: Seq<char>, before: Decisions, after: Decisions) -> bool {
    &&& after.entries() == envelope::without_stage(before.entries(), label)
    &&& after.verdicts() == (if label == envelope::STAGE_SAMPLE@ {
        Seq::<SampleVerdict>::empty()
    } else {
        before.verdicts()
    })
}

/// One step of the pipeline. A stage may fill in records and add decisions
/// under its own id; it leaves the payload and other stages' decisions alone.
pub trait Stage {
    /// The stage's id, as text. A stage that is verified says which.
    open spec fn label(&self) -> Seq<char> {
        arbitrary()
    }

    /// Whether running the stage on `env` may leave the stage as `after` and
    /// the envelope as `left`, and return `r`. A stage that is verified says
    /// when.
    open spec fn runs(
        &self,
        env: Envelope,
        after: &Self,
        left: Envelope,
        r: Result<(), StageError>,
    ) -> bool {
        arbitrary()
    }

    fn id(&self) -> (r: StageId)
        ensures
            r@ == self.label(),
    ;

    fn apply(&mut self, env: &mut Envelope) -> (r: Result<(), StageError>)
        ensures
            final(self).label() == old(self).label(),
            final(env).raw == old(env).raw,
            additive(old(self).label(), old(env).decisions, final(env).decisions),
            old(self).runs(*old(env), &*final(self), *final(env), r),
    ;
}

/// Whether an envelope that an attempt left as `left` is settled as `after`,
/// with outcome `r`: a success changes nothing, a failure takes out what stage
/// `label` decided and tells the reason.
pub open spec fn settled(
    label: Seq<char>,
    left: Envelope,
    attempt: Attempt,
    after: Envelope,
    r: StageOutcome,
) -> bool {
    &&& after.raw == left.raw
    &&& after.records == left.records
    &&& after.received_at == left.received_at
    &&& match attempt {
        Attempt::Returned(Ok(())) => r == StageOutcome::Applied && after.decisions
            == left.decisions,
        Attempt::Returned(Err(e)) => r == StageOutcome::Bypassed(BypassReason::Error(e))
            && cleared(label, left.decisions, after.decisions),
        Attempt::Panicked => r == StageOutcome::Bypassed(BypassReason::Panic) && cleared(
            label,
            left.decisions,
            after.decisions,
        ),
    }
}

/// Settles an attempt: where it failed, the stage's decisions are discarded
/// and nothing else changes.
pub fn settle(env: &mut Envelope, id: StageId, attempt: Attempt) -> (r: StageOutcome)
    ensures
        settled(id@, *old(env), attempt, *final(env), r),
{
    match attempt {
        Attempt::Returned(Ok(())) => StageOutcome::Applied,
        Attempt::Returned(Err(e)) => {
            env.decisions.clear_stage(id);
            StageOutcome::Bypassed(BypassReason::Error(e))
        },
        Attempt::Panicked => {
            env.decisions.clear_stage(id);
            StageOutcome::Bypassed(BypassReason::Panic)
        },
    }
}

/// Runs a stage and settles what it returned. The payload survives, and where
/// the stage returns an error, exactly what other stages decided remains. A
/// panic of the stage is not caught here: it passes through to the caller, who
/// catches it and settles it with [`settle`] as [`Attempt::Panicked`].
pub fn guarded<T: Stage>(stage: &mut T, env: &mut Envelope) -> (r: StageOutcome)
    ensures
        exists|left: Envelope, result: Result<(), StageError>|
            {
                &&& #[trigger] old(stage).runs(*old(env), &*final(stage), left, result)
                &&& settled(
                    old(stage).label(),
                    left,
                    Attempt::Returned(result),
                    *final(env),
                    r,
                )
            },
        final(stage).label() == old(stage).label(),
        final(env).raw == old(env).raw,
        additive(old(stage).label(), old(env).decisions, final(env).decisions),
        r matches StageOutcome::Bypassed(reason) ==> reason is Error && cleared(
            old(stage).label(),
            old(env).decisions,
            final(env).decisions,
        ),
{
    let ghost label = stage.label();
    let result = stage.apply(env);
    let ghost applied = env.decisions;
    let ghost left = *env;
    let ghost returned = result;
    let id = stage.id();
    let outcome = settle(env, id, Attempt::Returned(result));
    proof {
        lemma_without_stage_twice(applied.entries(), label);
        assert(old(stage).runs(*old(env), stage, left, returned));
    }
    outcome
}

/// Taking a stage out twice is taking it out once.
proof fn lemma_without_stage_twice(entries: Seq<envelope::StageRedaction>, label: Seq<char>)
    ensures
        envelope::without_stage(envelope::without_stage(entries, label), label)
            == envelope::without_stage(entries, label),
    decreases entries.len(),
{
    reveal(Seq::filter);
    let other = envelope::not_asked_by(label);
    if entries.len() > 0 {
        lemma_without_stage_twice(entries.drop_last(), label);
        let rest = entries.drop_last().filter(other);
        if other(entries.last()) {
            assert(rest.push(entries.last()).drop_last() =~= rest);
        }
    }
}

/// Bypassing one stage leaves every other stage's spans, in their order, and
/// keeps none of its own.
pub proof fn law_bypass_is_exact(label: Seq<char>, other: Seq<char>, before: Decisions, after: Decisions)
    requires
        cleared(label, before, after),
        label != other,
    ensures
        after.entries().filter(envelope::asked_by(other))
            == before.entries().filter(envelope::asked_by(other)),
        after.entries().filter(envelope::asked_by(label)).len() == 0,
{
    lemma_filters(before.entries(), label, other);
}

proof fn lemma_filters(entries: Seq<envelope::StageRedaction>, label: Seq<char>, other: Seq<char>)
    requires
        label != other,
    ensures
        envelope::without_stage(entries, label).filter(envelope::asked_by(other)) == entries.filter(envelope::asked_by(other)),
        envelope::without_stage(entries, label).filter(envelope::asked_by(label)).len() == 0,
    decreases entries.len(),
{
    reveal(Seq::filter);
    let not_label = envelope::not_asked_by(label);
    if entries.len() > 0 {
        lemma_filters(entries.drop_last(), label, other);
        let rest = entries.drop_last().filter(not_label);
        if not_label(entries.last()) {
            assert(rest.push(entries.last()).drop_last() =~= rest);
        }
    }
}

/// What settling does: after a success every decision stands; after an error
/// or a panic no span of the stage is left, every span of any other stage is,
/// and the verdicts stand unless it was the stage that gave them. The payload
/// and its records stand in any case.
pub proof fn law_settling_is_exact(
    label: Seq<char>,
    left: Envelope,
    attempt: Attempt,
    after: Envelope,
    r: StageOutcome,
)
    requires
        settled(label, left, attempt, after, r),
    ensures
        after.raw == left.raw,
        after.records == left.records,
        r is Applied <==> attempt matches Attempt::Returned(Ok(())),
        r is Applied ==> after.decisions == left.decisions,
        attempt is Panicked ==> r == StageOutcome::Bypassed(BypassReason::Panic),
        attempt matches Attempt::Returned(Err(e)) ==> r == StageOutcome::Bypassed(
            BypassReason::Error(e),
        ),
        r is Bypassed ==> {
            &&& forall|i: int|
                0 <= i < after.decisions.entries().len() ==> (
                #[trigger] after.decisions.entries()[i]).stage@ != label
            &&& forall|i: int|
                0 <= i < left.decisions.entries().len() && (
                #[trigger] left.decisions.entries()[i]).stage@ != label
                    ==> after.decisions.entries().contains(left.decisions.entries()[i])
            &&& forall|i: int|
                0 <= i < after.decisions.entries().len() ==> left.decisions.entries().contains(
                    #[trigger] after.decisions.entries()[i],
                )
            &&& label != "sample"@ ==> after.decisions.verdicts() == left.decisions.verdicts()
            &&& label == "sample"@ ==> after.decisions.verdicts().len() == 0
        },
{
    broadcast use vstd::seq_lib::group_filter_ensures;

    let other = envelope::not_asked_by(label);
    let all = left.decisions.entries();
    if r is Bypassed {
        let rest = all.filter(other);
        assert forall|i: int| 0 <= i < rest.len() implies (#[trigger] rest[i]).stage@ != label
            && all.contains(rest[i]) by {
            all.lemma_filter_pred(other, i);
            assert(rest.contains(rest[i]));
            all.lemma_filter_contains_rev(other, rest[i]);
        }
        assert forall|i: int| 0 <= i < all.len() && (#[trigger] all[i]).stage@ != label implies rest.contains(
            all[i],
        ) by {
            assert(other(all[i]));
        }
    }
}

/// A stage leaves what others decided: every span of another stage that was
/// there is there afterwards, and no other span of another stage is.
pub proof fn law_stages_leave_others_alone(
    label: Seq<char>,
    before: Decisions,
    after: Decisions,
    e: envelope::StageRedaction,
)
    requires
        additive(label, before, after),
        e.stage@ != label,
    ensures
        before.entries().contains(e) <==> after.entries().contains(e),
        label != "sample"@ ==> after.verdicts() == before.verdicts(),
{
    broadcast use vstd::seq_lib::group_filter_ensures;

    let other = envelope::not_asked_by(label);
    assert(other(e));
    if before.entries().contains(e) {
        assert(before.entries().filter(other).contains(e));
        after.entries().lemma_filter_contains_rev(other, e);
    }
    if after.entries().contains(e) {
        assert(after.entries().filter(other).contains(e));
        before.entries().lemma_filter_contains_rev(other, e);
    }
}

} // verus!
