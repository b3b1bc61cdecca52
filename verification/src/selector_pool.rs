//! Which candidates of a pool can be compared, and what each would retain.

use crate::clock::{elapsed, spent, Clock};
use crate::eviction::all_wf;
use crate::keep::KeepSpec;
use crate::keep_sets::KeepSets;
use crate::kv_cache::KVCache;
use crate::selector_plan::{calibrated, plan_calibrated, sets_of, spec_sets, Candidate, Exclusion,
    Signals, MAX_BUDGET_PROBES};
use crate::stage_registry::KVMutationStage;
use vstd::prelude::*;

verus! {

/// What a candidate is asked in.
#[derive(Clone, Copy)]
pub struct Asking {
    pub n_heads_q: usize,
    pub n_kv_heads: usize,
    /// The budget per layer.
    pub target_len: usize,
    /// The budget over all layers and heads.
    pub budget: usize,
    /// The frame that retained positions are of.
    pub frame: usize,
}

/// What asking a candidate came to: the keeps and the budget it was finally asked for, or why it
/// cannot be compared.
pub open spec fn outcome<S: KVMutationStage>(
    cand: &Candidate<S>,
    caches: Seq<KVCache>,
    ask: Asking,
    signals: Signals,
    r: Result<(Seq<KeepSpec>, usize), Exclusion>,
) -> bool {
    exists|plan: Result<(Seq<KeepSpec>, usize), Exclusion>|
        #[trigger] calibrated(
            cand,
            ask.n_heads_q,
            ask.n_kv_heads,
            caches,
            ask.budget,
            signals,
            ask.target_len,
            usize::MAX,
            MAX_BUDGET_PROBES as nat,
            plan,
        ) && match plan {
            Err(e) => r == plan,
            Ok((layers, asked)) => if spec_sets(layers, ask.n_kv_heads).valid(ask.frame) {
                r == plan
            } else {
                r matches Err(Exclusion::Invalid(e)) && spec_sets(layers, ask.n_kv_heads).has_fault(
                    ask.frame,
                    e,
                )
            },
        }
}

/// What asking every candidate came to.
pub open spec fn outcomes_of<S: KVMutationStage>(
    candidates: Seq<Candidate<S>>,
    caches: Seq<KVCache>,
    ask: Asking,
    signals: Signals,
    outcomes: Seq<Result<(Seq<KeepSpec>, usize), Exclusion>>,
) -> bool {
    forall|i: int|
        0 <= i < outcomes.len() ==> outcome(
            &candidates[i],
            caches,
            ask,
            signals,
            #[trigger] outcomes[i],
        )
}

/// The candidates that can be compared, in order.
pub open spec fn eligible(outcomes: Seq<Result<(Seq<KeepSpec>, usize), Exclusion>>) -> Seq<int>
    decreases outcomes.len(),
{
    if outcomes.len() == 0 {
        Seq::empty()
    } else {
        let before = eligible(outcomes.drop_last());
        if outcomes.last() is Ok {
            before.push(outcomes.len() - 1)
        } else {
            before
        }
    }
}

/// The candidates that cannot be compared, in order.
pub open spec fn ineligible(outcomes: Seq<Result<(Seq<KeepSpec>, usize), Exclusion>>) -> Seq<int>
    decreases outcomes.len(),
{
    if outcomes.len() == 0 {
        Seq::empty()
    } else {
        let before = ineligible(outcomes.drop_last());
        if outcomes.last() is Err {
            before.push(outcomes.len() - 1)
        } else {
            before
        }
    }
}

/// A candidate that can be compared.
pub struct Entry {
    pub name: String,
    /// What it keeps of each layer.
    pub layers: Vec<KeepSpec>,
    /// The budget it was finally asked for.
    pub asked: usize,
    /// Nanoseconds that planning took.
    pub plan_time: u64,
}

/// The outcome that an entry stands for.
pub open spec fn entry_of<S>(
    candidates: Seq<Candidate<S>>,
    outcomes: Seq<Result<(Seq<KeepSpec>, usize), Exclusion>>,
    i: int,
    entry: Entry,
) -> bool {
    &&& entry.name@ == candidates[i].name@
    &&& outcomes[i] == Ok::<(Seq<KeepSpec>, usize), Exclusion>((entry.layers@, entry.asked))
}

/// The entries are the candidates that can be compared.
pub open spec fn entries_of<S>(
    candidates: Seq<Candidate<S>>,
    outcomes: Seq<Result<(Seq<KeepSpec>, usize), Exclusion>>,
    entries: Seq<Entry>,
) -> bool {
    &&& entries.len() == eligible(outcomes).len()
    &&& forall|j: int|
        0 <= j < entries.len() ==> entry_of(
            candidates,
            outcomes,
            eligible(outcomes)[j],
            #[trigger] entries[j],
        )
}

/// The sets are what the entries retain.
pub open spec fn sets_match(entries: Seq<Entry>, n_kv_heads: usize, sets: Seq<KeepSets>) -> bool {
    &&& sets.len() == entries.len()
    &&& forall|j: int|
        0 <= j < sets.len() ==> (#[trigger] sets[j])@ == spec_sets(entries[j].layers@, n_kv_heads)
}

/// The outcome that a report of an exclusion stands for.
pub open spec fn exclusion_of<S>(
    candidates: Seq<Candidate<S>>,
    outcomes: Seq<Result<(Seq<KeepSpec>, usize), Exclusion>>,
    i: int,
    excluded: (String, Exclusion),
) -> bool {
    &&& excluded.0@ == candidates[i].name@
    &&& outcomes[i] == Err::<(Seq<KeepSpec>, usize), Exclusion>(excluded.1)
}

/// The reports are of the candidates that cannot be compared.
pub open spec fn exclusions_of<S>(
    candidates: Seq<Candidate<S>>,
    outcomes: Seq<Result<(Seq<KeepSpec>, usize), Exclusion>>,
    excluded: Seq<(String, Exclusion)>,
) -> bool {
    &&& excluded.len() == ineligible(outcomes).len()
    &&& forall|j: int|
        0 <= j < excluded.len() ==> exclusion_of(
            candidates,
            outcomes,
            ineligible(outcomes)[j],
            #[trigger] excluded[j],
        )
}

/// A pool that was asked.
pub struct Pool {
    pub entries: Vec<Entry>,
    pub sets: Vec<KeepSets>,
    pub excluded: Vec<(String, Exclusion)>,
}

/// The pool is these candidates' outcomes.
pub open spec fn pool_of<S>(
    candidates: Seq<Candidate<S>>,
    n_kv_heads: usize,
    outcomes: Seq<Result<(Seq<KeepSpec>, usize), Exclusion>>,
    pool: Pool,
) -> bool {
    &&& entries_of(candidates, outcomes, pool.entries@)
    &&& sets_match(pool.entries@, n_kv_heads, pool.sets@)
    &&& exclusions_of(candidates, outcomes, pool.excluded@)
}

/// Every eligible candidate is one, and was answered.
pub proof fn lemma_eligible(outcomes: Seq<Result<(Seq<KeepSpec>, usize), Exclusion>>)
    ensures
        forall|j: int|
            0 <= j < eligible(outcomes).len() ==> 0 <= #[trigger] eligible(outcomes)[j]
                < outcomes.len() && outcomes[eligible(outcomes)[j]] is Ok,
        forall|j: int|
            0 <= j < ineligible(outcomes).len() ==> 0 <= #[trigger] ineligible(outcomes)[j]
                < outcomes.len() && outcomes[ineligible(outcomes)[j]] is Err,
        eligible(outcomes).len() + ineligible(outcomes).len() == outcomes.len(),
    decreases outcomes.len(),
{
    if outcomes.len() > 0 {
        let shorter = outcomes.drop_last();
        lemma_eligible(shorter);
        assert forall|j: int| 0 <= j < eligible(outcomes).len() implies 0
            <= #[trigger] eligible(outcomes)[j] < outcomes.len()
            && outcomes[eligible(outcomes)[j]] is Ok by {
            if j < eligible(shorter).len() {
                assert(eligible(outcomes)[j] == eligible(shorter)[j]);
                assert(shorter[eligible(shorter)[j]] == outcomes[eligible(shorter)[j]]);
            }
        }
        assert forall|j: int| 0 <= j < ineligible(outcomes).len() implies 0
            <= #[trigger] ineligible(outcomes)[j] < outcomes.len()
            && outcomes[ineligible(outcomes)[j]] is Err by {
            if j < ineligible(shorter).len() {
                assert(ineligible(outcomes)[j] == ineligible(shorter)[j]);
                assert(shorter[ineligible(shorter)[j]] == outcomes[ineligible(shorter)[j]]);
            }
        }
    }
}

/// Asks every candidate, and leaves the layers as they are.
pub fn plan_pool<S: KVMutationStage, K: Clock>(
    clock: &K,
    candidates: &Vec<Candidate<S>>,
    caches: &mut Vec<KVCache>,
    ask: &Asking,
    signals: &Signals,
) -> (pool: Pool)
    requires
        all_wf(old(caches)@),
    ensures
        final(caches)@ == old(caches)@,
        exists|outcomes: Seq<Result<(Seq<KeepSpec>, usize), Exclusion>>|
            outcomes.len() == candidates@.len() && #[trigger] outcomes_of(
                candidates@,
                old(caches)@,
                *ask,
                *signals,
                outcomes,
            ) && pool_of(candidates@, ask.n_kv_heads, outcomes, pool),
        forall|j: int|
            0 <= j < pool.entries@.len() ==> (#[trigger] pool.entries@[j]).layers@.len() == old(
                caches)@.len() && spent(clock, pool.entries@[j].plan_time),
{
    let ghost before = caches@;
    let ghost mut outcomes: Seq<Result<(Seq<KeepSpec>, usize), Exclusion>> = Seq::empty();
    let mut pool = Pool { entries: Vec::new(), sets: Vec::new(), excluded: Vec::new() };
    let mut i: usize = 0;
    while i < candidates.len()
        invariant
            i <= candidates@.len(),
            outcomes.len() == i,
            caches@ == before,
            before == old(caches)@,
            all_wf(before),
            outcomes_of(candidates@, before, *ask, *signals, outcomes),
            pool_of(candidates@, ask.n_kv_heads, outcomes, pool),
            forall|j: int|
                0 <= j < pool.entries@.len() ==> (#[trigger] pool.entries@[j]).layers@.len()
                    == before.len() && spent(clock, pool.entries@[j].plan_time),
        decreases candidates@.len() - i,
    {
        let ghost earlier = outcomes;
        let ghost held = pool;
        proof {
            lemma_eligible(earlier);
        }
        let cand = &candidates[i];
        let start: u64 = clock.now();
        assert(call_ensures(K::now, (clock,), start));
        let plan = plan_calibrated(
            cand,
            ask.n_heads_q,
            ask.n_kv_heads,
            caches,
            ask.target_len,
            ask.budget,
            signals,
        );
        match plan {
            Err(e) => {
                proof {
                    outcomes = earlier.push(Err(e));
                }
                pool.excluded.push((cand.name.clone(), e));
            },
            Ok(plan) => {
                let plan_time: u64 = elapsed(clock, start);
                proof {
                    crate::selector_plan::lemma_accepted_plan_is_within_budget(
                        cand,
                        ask.n_heads_q,
                        ask.n_kv_heads,
                        before,
                        ask.budget,
                        *signals,
                        ask.target_len,
                        usize::MAX,
                        MAX_BUDGET_PROBES as nat,
                        plan.layers@,
                        plan.asked,
                    );
                    assert(plan.layers@.len() == before.len());
                }
                let sets = sets_of(&plan.layers, ask.n_kv_heads);
                match sets.validate(ask.frame) {
                    Err(e) => {
                        proof {
                            outcomes = earlier.push(Err(Exclusion::Invalid(e)));
                        }
                        pool.excluded.push((cand.name.clone(), Exclusion::Invalid(e)));
                    },
                    Ok(()) => {
                        proof {
                            outcomes = earlier.push(Ok((plan.layers@, plan.asked)));
                        }
                        pool.sets.push(sets);
                        pool.entries.push(
                            Entry {
                                name: cand.name.clone(),
                                layers: plan.layers,
                                asked: plan.asked,
                                plan_time,
                            },
                        );
                    },
                }
            },
        }
        proof {
            assert(outcomes.drop_last() =~= earlier);
            assert(outcome(&candidates@[i as int], before, *ask, *signals, outcomes[i as int]));
            assert forall|k: int| 0 <= k < outcomes.len() implies outcome(
                &candidates@[k],
                before,
                *ask,
                *signals,
                #[trigger] outcomes[k],
            ) by {
                if k < i {
                    assert(outcomes[k] == earlier[k]);
                }
            }
            assert forall|j: int| 0 <= j < pool.entries@.len() implies entry_of(
                candidates@,
                outcomes,
                eligible(outcomes)[j],
                #[trigger] pool.entries@[j],
            ) by {
                if j < held.entries@.len() {
                    assert(pool.entries@[j] == held.entries@[j]);
                    assert(entry_of(candidates@, earlier, eligible(earlier)[j], held.entries@[j]));
                    assert(eligible(outcomes)[j] == eligible(earlier)[j]);
                    assert(outcomes[eligible(earlier)[j]] == earlier[eligible(earlier)[j]]);
                }
            }
            assert forall|j: int| 0 <= j < pool.excluded@.len() implies exclusion_of(
                candidates@,
                outcomes,
                ineligible(outcomes)[j],
                #[trigger] pool.excluded@[j],
            ) by {
                if j < held.excluded@.len() {
                    assert(pool.excluded@[j] == held.excluded@[j]);
                    assert(exclusion_of(
                        candidates@,
                        earlier,
                        ineligible(earlier)[j],
                        held.excluded@[j],
                    ));
                    assert(ineligible(outcomes)[j] == ineligible(earlier)[j]);
                    assert(outcomes[ineligible(earlier)[j]] == earlier[ineligible(earlier)[j]]);
                }
            }
            assert forall|j: int| 0 <= j < pool.sets@.len() implies (#[trigger] pool.sets@[j])@
                == spec_sets(pool.entries@[j].layers@, ask.n_kv_heads) by {
                if j < held.sets@.len() {
                    assert(pool.sets@[j] == held.sets@[j]);
                    assert(pool.entries@[j] == held.entries@[j]);
                }
            }
        }
        i = i + 1;
    }
    pool
}

/// Every candidate is in one of the two lists, each in the order of the pool: those that answered with
/// a plan, and those that did not.
pub proof fn lemma_every_candidate_is_listed(
    outcomes: Seq<Result<(Seq<KeepSpec>, usize), Exclusion>>,
    i: int,
)
    requires
        0 <= i < outcomes.len(),
    ensures
        outcomes[i] is Ok <==> eligible(outcomes).contains(i),
        outcomes[i] is Err <==> ineligible(outcomes).contains(i),
        forall|x: int, y: int|
            0 <= x < y < eligible(outcomes).len() ==> #[trigger] eligible(outcomes)[x]
                < #[trigger] eligible(outcomes)[y],
        forall|x: int, y: int|
            0 <= x < y < ineligible(outcomes).len() ==> #[trigger] ineligible(outcomes)[x]
                < #[trigger] ineligible(outcomes)[y],
    decreases outcomes.len(),
{
    let rest = outcomes.drop_last();
    let n = outcomes.len() - 1;
    lemma_eligible(outcomes);
    lemma_eligible(rest);
    if rest.len() > 0 {
        lemma_every_candidate_is_listed(
            rest,
            if i < n {
                i
            } else {
                0
            },
        );
    }
    let (e, x) = (eligible(rest), ineligible(rest));
    if i < n {
        assert(rest[i] == outcomes[i]);
        if e.contains(i) {
            let j = choose|j: int| 0 <= j < e.len() && e[j] == i;
            assert(eligible(outcomes)[j] == i);
        }
        if x.contains(i) {
            let j = choose|j: int| 0 <= j < x.len() && x[j] == i;
            assert(ineligible(outcomes)[j] == i);
        }
        if eligible(outcomes).contains(i) {
            let j = choose|j: int| 0 <= j < eligible(outcomes).len() && eligible(outcomes)[j] == i;
            assert(e[j] == i);
        }
        if ineligible(outcomes).contains(i) {
            let j = choose|j: int|
                0 <= j < ineligible(outcomes).len() && ineligible(outcomes)[j] == i;
            assert(x[j] == i);
        }
    } else {
        if outcomes[i] is Ok {
            assert(eligible(outcomes)[e.len() as int] == i);
        } else {
            assert(ineligible(outcomes)[x.len() as int] == i);
        }
        if eligible(outcomes).contains(i) {
            let j = choose|j: int| 0 <= j < eligible(outcomes).len() && eligible(outcomes)[j] == i;
            if j < e.len() {
                assert(e[j] < rest.len());
            }
        }
        if ineligible(outcomes).contains(i) {
            let j = choose|j: int|
                0 <= j < ineligible(outcomes).len() && ineligible(outcomes)[j] == i;
            if j < x.len() {
                assert(x[j] < rest.len());
            }
        }
    }
    assert forall|a: int, b: int|
        0 <= a < b < eligible(outcomes).len() implies #[trigger] eligible(outcomes)[a]
        < #[trigger] eligible(outcomes)[b] by {
        if b < e.len() {
            assert(e[a] < e[b]);
        } else {
            assert(e[a] < rest.len());
        }
    }
    assert forall|a: int, b: int|
        0 <= a < b < ineligible(outcomes).len() implies #[trigger] ineligible(outcomes)[a]
        < #[trigger] ineligible(outcomes)[b] by {
        if b < x.len() {
            assert(x[a] < x[b]);
        } else {
            assert(x[a] < rest.len());
        }
    }
}

} // verus!
