//! The mathematical model of one settlement tick.
//!
//! A tick walks the registry account by account and, within an account, its
//! streams in list order. Each stream is settled against the balances as
//! they stand at that moment: a stream its source can no longer afford is
//! retired (exhausted) without a transfer; any other stream attempts its
//! transfer and is retained whether the ledger accepts or refuses it. An
//! account whose list empties leaves the registry.

use vstd::prelude::*;

use crate::keyed::has_key;
use crate::keyed::keys_distinct;
use crate::ledger::transfer_check;
use crate::ledger::transfer_effect;
use crate::types::Event;
use crate::types::Stream;
use crate::types::SurvivalPolicy;

verus! {

/// What settling one stream does: the balances afterwards, whether the
/// stream stays registered, and the event this emits.
#[verifier::ext_equal]
pub ghost struct StreamOutcome {
    pub ledger: Map<u64, u64>,
    pub kept: bool,
    pub event: Event,
}

/// What settling one account's whole list does.
#[verifier::ext_equal]
pub ghost struct AccountOutcome {
    pub ledger: Map<u64, u64>,
    pub kept: Seq<Stream>,
    pub events: Seq<Event>,
    pub exhausted: nat,
    pub transfers: nat,
}

/// What one whole tick does to the registry and the balances.
#[verifier::ext_equal]
pub ghost struct SweepOutcome {
    pub ledger: Map<u64, u64>,
    pub entries: Seq<(u64, Seq<Stream>)>,
    pub events: Seq<Event>,
    pub exhausted: nat,
    pub transfers: nat,
}

/// Settles one stream of `origin` on balances `m`. Exhaustion is the only
/// condition that removes a stream: a refused transfer retains it.
pub open spec fn settle_stream(
    m: Map<u64, u64>,
    origin: u64,
    s: Stream,
    policy: SurvivalPolicy,
) -> StreamOutcome {
    if m[origin] < s.spend_rate {
        StreamOutcome {
            ledger: m,
            kept: false,
            event: Event::StreamExhausted(origin, s.target, s.spend_rate),
        }
    } else {
        match transfer_check(m, origin, s.target, s.spend_rate, policy) {
            Ok(()) => StreamOutcome {
                ledger: transfer_effect(m, origin, s.target, s.spend_rate),
                kept: true,
                event: Event::PaymentMade(origin, s.target, s.spend_rate),
            },
            Err(e) => StreamOutcome {
                ledger: m,
                kept: true,
                event: Event::PaymentFailed(origin, s.target, s.spend_rate, e),
            },
        }
    }
}

/// Settles `origin`'s streams in list order, each against the balances the
/// earlier ones left behind.
pub open spec fn settle_account(
    m: Map<u64, u64>,
    origin: u64,
    streams: Seq<Stream>,
    policy: SurvivalPolicy,
) -> AccountOutcome
    decreases streams.len(),
{
    if streams.len() == 0 {
        AccountOutcome {
            ledger: m,
            kept: Seq::empty(),
            events: Seq::empty(),
            exhausted: 0,
            transfers: 0,
        }
    } else {
        let first = settle_stream(m, origin, streams[0], policy);
        let rest = settle_account(first.ledger, origin, streams.drop_first(), policy);
        AccountOutcome {
            ledger: rest.ledger,
            kept: (if first.kept {
                seq![streams[0]]
            } else {
                Seq::empty()
            }) + rest.kept,
            events: seq![first.event] + rest.events,
            exhausted: (if first.kept {
                0nat
            } else {
                1nat
            }) + rest.exhausted,
            transfers: (if first.kept {
                1nat
            } else {
                0nat
            }) + rest.transfers,
        }
    }
}

/// Settles every account of the registry, in registry order, each against
/// the balances the earlier ones left behind. An account whose list empties
/// drops out of the registry.
pub open spec fn settle_all(
    m: Map<u64, u64>,
    entries: Seq<(u64, Seq<Stream>)>,
    policy: SurvivalPolicy,
) -> SweepOutcome
    decreases entries.len(),
{
    if entries.len() == 0 {
        SweepOutcome {
            ledger: m,
            entries: Seq::empty(),
            events: Seq::empty(),
            exhausted: 0,
            transfers: 0,
        }
    } else {
        let first = settle_account(m, entries[0].0, entries[0].1, policy);
        let rest = settle_all(first.ledger, entries.drop_first(), policy);
        SweepOutcome {
            ledger: rest.ledger,
            entries: (if first.kept.len() == 0 {
                Seq::empty()
            } else {
                seq![(entries[0].0, first.kept)]
            }) + rest.entries,
            events: first.events + rest.events,
            exhausted: first.exhausted + rest.exhausted,
            transfers: first.transfers + rest.transfers,
        }
    }
}

/// How many streams the registry holds in all.
pub open spec fn total_streams(entries: Seq<(u64, Seq<Stream>)>) -> nat
    decreases entries.len(),
{
    if entries.len() == 0 {
        0
    } else {
        entries[0].1.len() + total_streams(entries.drop_first())
    }
}

/// Settling an account list extended by one stream settles the list first
/// and the new stream last, on the balances the list left behind.
pub proof fn lemma_settle_account_push(
    m: Map<u64, u64>,
    origin: u64,
    streams: Seq<Stream>,
    s: Stream,
    policy: SurvivalPolicy,
)
    ensures
        ({
            let whole = settle_account(m, origin, streams.push(s), policy);
            let pre = settle_account(m, origin, streams, policy);
            let last = settle_stream(pre.ledger, origin, s, policy);
            whole.ledger == last.ledger && whole.kept == pre.kept + (if last.kept {
                seq![s]
            } else {
                Seq::<Stream>::empty()
            }) && whole.events == pre.events.push(last.event) && whole.exhausted == pre.exhausted
                + (if last.kept {
                0nat
            } else {
                1nat
            }) && whole.transfers == pre.transfers + (if last.kept {
                1nat
            } else {
                0nat
            })
        }),
    decreases streams.len(),
{
    let whole = settle_account(m, origin, streams.push(s), policy);
    let pre = settle_account(m, origin, streams, policy);
    let last = settle_stream(pre.ledger, origin, s, policy);
    if streams.len() == 0 {
        reveal_with_fuel(settle_account, 2);
        assert(streams.push(s)[0] == s);
        assert(streams.push(s).drop_first() =~= Seq::<Stream>::empty());
        assert(whole.kept =~= pre.kept + (if last.kept {
            seq![s]
        } else {
            Seq::<Stream>::empty()
        }));
        assert(whole.events =~= pre.events.push(last.event));
    } else {
        let first = settle_stream(m, origin, streams[0], policy);
        assert(streams.push(s)[0] == streams[0]);
        assert(streams.push(s).drop_first() =~= streams.drop_first().push(s));
        lemma_settle_account_push(first.ledger, origin, streams.drop_first(), s, policy);
        assert(whole.kept =~= pre.kept + (if last.kept {
            seq![s]
        } else {
            Seq::<Stream>::empty()
        }));
        assert(whole.events =~= pre.events.push(last.event));
    }
}

/// Settling a registry extended by one account settles the registry first
/// and the new account last, on the balances the registry left behind.
pub proof fn lemma_settle_all_push(
    m: Map<u64, u64>,
    entries: Seq<(u64, Seq<Stream>)>,
    e: (u64, Seq<Stream>),
    policy: SurvivalPolicy,
)
    ensures
        ({
            let whole = settle_all(m, entries.push(e), policy);
            let pre = settle_all(m, entries, policy);
            let last = settle_account(pre.ledger, e.0, e.1, policy);
            whole.ledger == last.ledger && whole.entries == pre.entries + (if last.kept.len()
                == 0 {
                Seq::<(u64, Seq<Stream>)>::empty()
            } else {
                seq![(e.0, last.kept)]
            }) && whole.events == pre.events + last.events && whole.exhausted == pre.exhausted
                + last.exhausted && whole.transfers == pre.transfers + last.transfers
        }),
    decreases entries.len(),
{
    let whole = settle_all(m, entries.push(e), policy);
    let pre = settle_all(m, entries, policy);
    let last = settle_account(pre.ledger, e.0, e.1, policy);
    if entries.len() == 0 {
        reveal_with_fuel(settle_all, 2);
        assert(entries.push(e)[0] == e);
        assert(entries.push(e).drop_first() =~= Seq::<(u64, Seq<Stream>)>::empty());
        assert(whole.entries =~= pre.entries + (if last.kept.len() == 0 {
            Seq::<(u64, Seq<Stream>)>::empty()
        } else {
            seq![(e.0, last.kept)]
        }));
        assert(whole.events =~= pre.events + last.events);
    } else {
        let first = settle_account(m, entries[0].0, entries[0].1, policy);
        assert(entries.push(e)[0] == entries[0]);
        assert(entries.push(e).drop_first() =~= entries.drop_first().push(e));
        lemma_settle_all_push(first.ledger, entries.drop_first(), e, policy);
        assert(whole.entries =~= pre.entries + (if last.kept.len() == 0 {
            Seq::<(u64, Seq<Stream>)>::empty()
        } else {
            seq![(e.0, last.kept)]
        }));
        assert(whole.events =~= pre.events + last.events);
    }
}

/// Every settled stream lands in exactly one of the two counters.
pub proof fn lemma_settle_account_counts(
    m: Map<u64, u64>,
    origin: u64,
    streams: Seq<Stream>,
    policy: SurvivalPolicy,
)
    ensures
        settle_account(m, origin, streams, policy).exhausted + settle_account(
            m,
            origin,
            streams,
            policy,
        ).transfers == streams.len(),
    decreases streams.len(),
{
    if streams.len() > 0 {
        let first = settle_stream(m, origin, streams[0], policy);
        lemma_settle_account_counts(first.ledger, origin, streams.drop_first(), policy);
    }
}

/// The two counters of a tick add up to the number of streams it processed.
pub proof fn lemma_settle_all_counts(
    m: Map<u64, u64>,
    entries: Seq<(u64, Seq<Stream>)>,
    policy: SurvivalPolicy,
)
    ensures
        settle_all(m, entries, policy).exhausted + settle_all(m, entries, policy).transfers
            == total_streams(entries),
    decreases entries.len(),
{
    if entries.len() > 0 {
        let first = settle_account(m, entries[0].0, entries[0].1, policy);
        lemma_settle_account_counts(m, entries[0].0, entries[0].1, policy);
        lemma_settle_all_counts(first.ledger, entries.drop_first(), policy);
    }
}

/// A prefix of the registry holds no more streams than the whole.
pub proof fn lemma_total_streams_take(entries: Seq<(u64, Seq<Stream>)>, i: int)
    requires
        0 <= i <= entries.len(),
    ensures
        total_streams(entries.take(i)) <= total_streams(entries),
    decreases entries.len(),
{
    if i > 0 {
        assert(entries.take(i)[0] == entries[0]);
        assert(entries.take(i).drop_first() =~= entries.drop_first().take(i - 1));
        lemma_total_streams_take(entries.drop_first(), i - 1);
    } else {
        assert(entries.take(0) =~= Seq::<(u64, Seq<Stream>)>::empty());
        lemma_total_streams_nonneg(entries);
    }
}

/// One more registry entry adds its list's length to the total.
pub proof fn lemma_total_streams_push(entries: Seq<(u64, Seq<Stream>)>, e: (u64, Seq<Stream>))
    ensures
        total_streams(entries.push(e)) == total_streams(entries) + e.1.len(),
    decreases entries.len(),
{
    if entries.len() == 0 {
        reveal_with_fuel(total_streams, 2);
        assert(entries.push(e)[0] == e);
        assert(entries.push(e).drop_first() =~= Seq::<(u64, Seq<Stream>)>::empty());
    } else {
        assert(entries.push(e)[0] == entries[0]);
        assert(entries.push(e).drop_first() =~= entries.drop_first().push(e));
        lemma_total_streams_push(entries.drop_first(), e);
    }
}

proof fn lemma_total_streams_nonneg(entries: Seq<(u64, Seq<Stream>)>)
    ensures
        total_streams(entries) >= 0,
{
}

/// What a settled account retains is some of what it had, in order: no more
/// streams than before, and nothing it did not hold.
pub proof fn lemma_settle_account_kept(
    m: Map<u64, u64>,
    origin: u64,
    streams: Seq<Stream>,
    policy: SurvivalPolicy,
)
    ensures
        settle_account(m, origin, streams, policy).kept.len() <= streams.len(),
        forall|k: int|
            0 <= k < settle_account(m, origin, streams, policy).kept.len() ==> streams.contains(
                settle_account(m, origin, streams, policy).kept[k],
            ),
    decreases streams.len(),
{
    if streams.len() > 0 {
        let out = settle_account(m, origin, streams, policy);
        let first = settle_stream(m, origin, streams[0], policy);
        let rest = settle_account(first.ledger, origin, streams.drop_first(), policy);
        lemma_settle_account_kept(first.ledger, origin, streams.drop_first(), policy);
        assert forall|k: int| 0 <= k < out.kept.len() implies streams.contains(out.kept[k]) by {
            let head_len: int = if first.kept {
                1
            } else {
                0
            };
            if k < head_len {
                assert(out.kept[k] == streams[0]);
            } else {
                assert(out.kept[k] == rest.kept[k - head_len]);
                assert(streams.drop_first().contains(rest.kept[k - head_len]));
                let j = choose|j: int|
                    0 <= j < streams.drop_first().len() && streams.drop_first()[j] == rest.kept[k
                        - head_len];
                assert(streams[j + 1] == rest.kept[k - head_len]);
            }
        }
    }
}

/// `e` is a non-empty selection of the list one of `entries` holds for the
/// same account.
pub open spec fn entry_shrunk_from(entries: Seq<(u64, Seq<Stream>)>, e: (u64, Seq<Stream>)) -> bool {
    exists|q: int|
        0 <= q < entries.len() && e.0 == (#[trigger] entries[q]).0 && 1 <= e.1.len()
            <= entries[q].1.len() && (forall|k: int|
            0 <= k < e.1.len() ==> entries[q].1.contains(#[trigger] e.1[k]))
}

/// A tick only ever shrinks the registry: every surviving entry belongs to
/// an account that was registered, keys stay pairwise distinct, and each
/// surviving list is a non-empty selection of the account's old list.
pub proof fn lemma_settle_all_shape(
    m: Map<u64, u64>,
    entries: Seq<(u64, Seq<Stream>)>,
    policy: SurvivalPolicy,
)
    ensures
        forall|k: u64|
            has_key(settle_all(m, entries, policy).entries, k) ==> has_key(entries, k),
        keys_distinct(entries) ==> keys_distinct(settle_all(m, entries, policy).entries),
        forall|p: int|
            0 <= p < settle_all(m, entries, policy).entries.len() ==> entry_shrunk_from(
                entries,
                #[trigger] settle_all(m, entries, policy).entries[p],
            ),
    decreases entries.len(),
{
    if entries.len() > 0 {
        let out = settle_all(m, entries, policy);
        let first = settle_account(m, entries[0].0, entries[0].1, policy);
        let rest = settle_all(first.ledger, entries.drop_first(), policy);
        lemma_settle_account_kept(m, entries[0].0, entries[0].1, policy);
        lemma_settle_all_shape(first.ledger, entries.drop_first(), policy);
        let head_len: int = if first.kept.len() == 0 {
            0
        } else {
            1
        };
        assert forall|k: u64| has_key(out.entries, k) implies has_key(entries, k) by {
            let p = choose|p: int| 0 <= p < out.entries.len() && out.entries[p].0 == k;
            if p < head_len {
                assert(entries[0].0 == k);
            } else {
                assert(out.entries[p] == rest.entries[p - head_len]);
                assert(has_key(rest.entries, k));
                assert(has_key(entries.drop_first(), k));
                let q = choose|q: int|
                    0 <= q < entries.drop_first().len() && entries.drop_first()[q].0 == k;
                assert(entries[q + 1].0 == k);
            }
        }
        if keys_distinct(entries) {
            assert(keys_distinct(entries.drop_first())) by {
                assert forall|p: int, q: int|
                    0 <= p < q < entries.drop_first().len() implies entries.drop_first()[p].0
                    != entries.drop_first()[q].0 by {
                    assert(entries.drop_first()[p] == entries[p + 1]);
                    assert(entries.drop_first()[q] == entries[q + 1]);
                }
            }
            assert(keys_distinct(out.entries)) by {
                assert forall|p: int, q: int|
                    0 <= p < q < out.entries.len() implies out.entries[p].0
                    != out.entries[q].0 by {
                    if p < head_len {
                        assert(out.entries[p].0 == entries[0].0);
                        assert(out.entries[q] == rest.entries[q - head_len]);
                        assert(has_key(rest.entries, out.entries[q].0));
                        assert(has_key(entries.drop_first(), out.entries[q].0));
                        if out.entries[q].0 == entries[0].0 {
                            let w = choose|w: int|
                                0 <= w < entries.drop_first().len() && entries.drop_first()[w].0
                                    == entries[0].0;
                            assert(entries[w + 1].0 == entries[0].0);
                        }
                    } else {
                        assert(out.entries[p] == rest.entries[p - head_len]);
                        assert(out.entries[q] == rest.entries[q - head_len]);
                    }
                }
            }
        }
        assert forall|p: int| 0 <= p < out.entries.len() implies entry_shrunk_from(
            entries,
            out.entries[p],
        ) by {
            if p < head_len {
                assert(out.entries[p] == (entries[0].0, first.kept));
                assert(out.entries[p].0 == entries[0].0 && 1 <= out.entries[p].1.len()
                    <= entries[0].1.len() && (forall|k: int|
                    0 <= k < out.entries[p].1.len() ==> entries[0].1.contains(
                        #[trigger] out.entries[p].1[k],
                    )));
            } else {
                assert(out.entries[p] == rest.entries[p - head_len]);
                assert(entry_shrunk_from(entries.drop_first(), rest.entries[p - head_len]));
                let q = choose|q: int|
                    0 <= q < entries.drop_first().len() && rest.entries[p - head_len].0 == (
                    #[trigger] entries.drop_first()[q]).0 && 1 <= rest.entries[p
                        - head_len].1.len() <= entries.drop_first()[q].1.len() && (forall|k: int|
                        0 <= k < rest.entries[p - head_len].1.len()
                            ==> entries.drop_first()[q].1.contains(
                            #[trigger] rest.entries[p - head_len].1[k],
                        ));
                assert(entries[q + 1] == entries.drop_first()[q]);
                assert(out.entries[p].0 == entries[q + 1].0 && 1 <= out.entries[p].1.len()
                    <= entries[q + 1].1.len() && (forall|k: int|
                    0 <= k < out.entries[p].1.len() ==> entries[q + 1].1.contains(
                        #[trigger] out.entries[p].1[k],
                    )));
            }
        }
    }
}

} // verus!
