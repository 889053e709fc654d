//! The library's laws: properties that hold across the operations.
//!
//! Every operation requires and preserves `Pallet::wf`, so what `wf` pins
//! down — bounded lists, no empty entry, no reflexive stream — holds at all
//! times; the first two lemmas read those invariants off for a single
//! account. The third accounts for the tick's cost report. The last two
//! state what one tick does to a single registered stream: a payment where
//! the source can afford it, retirement where it cannot.

use vstd::prelude::*;

use crate::keyed::has_key;
use crate::keyed::lemma_key_index_props;
use crate::ledger::transfer_effect;
use crate::pallet::Pallet;
use crate::settlement::lemma_settle_all_counts;
use crate::settlement::settle_all;
use crate::settlement::total_streams;
use crate::types::Event;
use crate::types::Stream;
use crate::types::SurvivalPolicy;

verus! {

/// No account ever has more than `max_streams` streams registered.
pub proof fn lemma_stream_count_bounded(p: Pallet, a: u64)
    requires
        p.wf(),
    ensures
        p.streams_of(a).len() <= p.config.max_streams,
{
    if has_key(p.reg(), a) {
        lemma_key_index_props(p.reg(), a);
    }
}

/// No account maps to an empty list: an account has no streams exactly when
/// it is absent from the registry.
pub proof fn lemma_no_empty_entry(p: Pallet, a: u64)
    requires
        p.wf(),
    ensures
        p.streams_of(a).len() == 0 <==> !has_key(p.reg(), a),
{
    if has_key(p.reg(), a) {
        lemma_key_index_props(p.reg(), a);
    }
}

/// A tick's cost report counts every stream it processed exactly once:
/// the two counters add up to the number of streams registered when the
/// tick began, so a host pricing a tick by them charges in proportion to
/// the active streams, not to capacity.
pub proof fn lemma_tick_report_counts(
    m: Map<u64, u64>,
    entries: Seq<(u64, Seq<Stream>)>,
    policy: SurvivalPolicy,
)
    ensures
        settle_all(m, entries, policy).exhausted + settle_all(m, entries, policy).transfers
            == total_streams(entries),
{
    lemma_settle_all_counts(m, entries, policy);
}

/// Tick correctness for an affordable stream: where the registry holds one
/// stream from `a` to `b` and `a` can afford its rate, one tick moves the
/// rate from `a` to `b`, emits exactly `PaymentMade(a, b, rate)`, and keeps
/// the stream registered. (Stated under the policy that lets an account be
/// emptied, and short of the balance that crediting `b` would overflow.)
pub proof fn lemma_tick_pays(m: Map<u64, u64>, a: u64, b: u64, rate: u64)
    requires
        a != b,
        m[a] >= rate,
        m[b] + rate <= u64::MAX,
    ensures
        ({
            let entries = seq![(a, seq![Stream { target: b, spend_rate: rate }])];
            let out = settle_all(m, entries, SurvivalPolicy::AllowDestinationOrSourceToBeRemoved);
            &&& out.ledger == m.insert(a, (m[a] - rate) as u64).insert(b, (m[b] + rate) as u64)
            &&& out.ledger[a] == m[a] - rate
            &&& out.ledger[b] == m[b] + rate
            &&& out.entries == entries
            &&& out.events == seq![Event::PaymentMade(a, b, rate)]
            &&& out.exhausted == 0
            &&& out.transfers == 1
        }),
{
    let s = Stream { target: b, spend_rate: rate };
    let entries = seq![(a, seq![s])];
    let policy = SurvivalPolicy::AllowDestinationOrSourceToBeRemoved;
    let out = settle_all(m, entries, policy);
    reveal_with_fuel(crate::settlement::settle_account, 2);
    reveal_with_fuel(crate::settlement::settle_all, 2);
    assert(seq![s].drop_first() =~= Seq::<Stream>::empty());
    assert(entries.drop_first() =~= Seq::<(u64, Seq<Stream>)>::empty());
    assert(out.ledger == transfer_effect(m, a, b, rate));
    assert(m.insert(a, (m[a] - rate) as u64)[b] == m[b]);
    assert(out.entries =~~= entries);
    assert(out.events =~= seq![Event::PaymentMade(a, b, rate)]);
}

/// Exhaustion correctness: where the registry holds one stream from `a` to
/// `b` and `a` cannot afford its rate, one tick removes the stream and the
/// account's entry, emits exactly `StreamExhausted(a, b, rate)`, and moves
/// no funds at all — under either survival policy.
pub proof fn lemma_tick_exhausts(m: Map<u64, u64>, a: u64, b: u64, rate: u64, policy: SurvivalPolicy)
    requires
        m[a] < rate,
    ensures
        ({
            let entries = seq![(a, seq![Stream { target: b, spend_rate: rate }])];
            let out = settle_all(m, entries, policy);
            &&& out.ledger == m
            &&& out.entries == Seq::<(u64, Seq<Stream>)>::empty()
            &&& out.events == seq![Event::StreamExhausted(a, b, rate)]
            &&& out.exhausted == 1
            &&& out.transfers == 0
        }),
{
    let s = Stream { target: b, spend_rate: rate };
    let entries = seq![(a, seq![s])];
    let out = settle_all(m, entries, policy);
    reveal_with_fuel(crate::settlement::settle_account, 2);
    reveal_with_fuel(crate::settlement::settle_all, 2);
    assert(seq![s].drop_first() =~= Seq::<Stream>::empty());
    assert(entries.drop_first() =~= Seq::<(u64, Seq<Stream>)>::empty());
    assert(out.entries =~~= Seq::<(u64, Seq<Stream>)>::empty());
    assert(out.events =~= seq![Event::StreamExhausted(a, b, rate)]);
}

} // verus!
