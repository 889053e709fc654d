//! The stream registry and the operations on it.
//!
//! `Pallet` holds the registry — account to ordered, capacity-bounded list
//! of streams — and the events the operations emitted, in order. Opening and
//! closing mutate the registry all-or-nothing; the per-tick settlement walks
//! it and settles every registered stream against the ledger.

use vstd::prelude::*;

use crate::keyed::has_key;
use crate::keyed::key_index;
use crate::keyed::keys_distinct;
use crate::keyed::lemma_key_index_first;
use crate::keyed::lemma_key_index_props;
use crate::keyed::lemma_value_of_push;
use crate::keyed::lemma_value_of_remove;
use crate::keyed::lemma_value_of_update;
use crate::keyed::value_of;
use crate::ledger::Ledger;
use crate::settlement::entry_shrunk_from;
use crate::settlement::lemma_settle_account_push;
use crate::settlement::lemma_settle_all_push;
use crate::settlement::lemma_settle_all_shape;
use crate::settlement::lemma_total_streams_push;
use crate::settlement::lemma_total_streams_take;
use crate::settlement::settle_account;
use crate::settlement::settle_all;
use crate::settlement::total_streams;
use crate::types::Config;
use crate::types::Error;
use crate::types::Event;
use crate::types::Stream;
use crate::types::TickReport;

verus! {

/// The registry entries as a sequence of (account, list of streams).
pub open spec fn entries_view(s: Seq<(u64, Vec<Stream>)>) -> Seq<(u64, Seq<Stream>)> {
    Seq::new(s.len(), |i: int| (s[i].0, s[i].1@))
}

/// The stream registry, its configuration, and the events emitted so far.
pub struct Pallet {
    /// Configuration constants of the deployment.
    pub config: Config,
    /// One entry per account with at least one open stream.
    pub streams: Vec<(u64, Vec<Stream>)>,
    /// Every event emitted since construction, oldest first.
    pub events: Vec<Event>,
}

/// The registry after a successful open: the stream appended to the
/// source's list, the entry created at the end where the source had none.
pub open spec fn open_effect(
    reg: Seq<(u64, Seq<Stream>)>,
    source: u64,
    target: u64,
    spend_rate: u64,
) -> Seq<(u64, Seq<Stream>)> {
    let s = Stream { target, spend_rate };
    if has_key(reg, source) {
        reg.update(key_index(reg, source), (source, reg[key_index(reg, source)].1.push(s)))
    } else {
        reg.push((source, seq![s]))
    }
}

/// The registry after a successful close of the source's stream at `index`:
/// the list loses that position, and the entry leaves the registry the
/// instant the list would become empty.
pub open spec fn close_effect(reg: Seq<(u64, Seq<Stream>)>, source: u64, index: int) -> Seq<
    (u64, Seq<Stream>),
> {
    let ki = key_index(reg, source);
    let shrunk = reg[ki].1.remove(index);
    if shrunk.len() == 0 {
        reg.remove(ki)
    } else {
        reg.update(ki, (source, shrunk))
    }
}

impl Pallet {
    /// The registry as a sequence of (account, list of streams).
    pub open spec fn reg(self) -> Seq<(u64, Seq<Stream>)> {
        entries_view(self.streams@)
    }

    /// The source's current list of streams; empty where it has no entry.
    pub open spec fn streams_of(self, account: u64) -> Seq<Stream> {
        value_of(self.reg(), account, Seq::empty())
    }

    /// The registry invariants: one entry per account; every list holds
    /// between one stream and `max_streams`; no stream pays its own source.
    pub open spec fn wf(self) -> bool {
        &&& keys_distinct(self.reg())
        &&& forall|i: int|
            0 <= i < self.reg().len() ==> 1 <= (#[trigger] self.reg()[i]).1.len()
                <= self.config.max_streams
        &&& forall|i: int, j: int|
            0 <= i < self.reg().len() && 0 <= j < self.reg()[i].1.len() ==> (
            #[trigger] self.reg()[i].1[j]).target != self.reg()[i].0
    }

    /// Whether an open of this stream is accepted on balances `m`, and with
    /// which error it is refused, checked in this order: a reflexive stream,
    /// a spend rate above the source's free balance, a full list.
    pub open spec fn open_check(
        self,
        source: u64,
        target: u64,
        spend_rate: u64,
        m: Map<u64, u64>,
    ) -> Result<(), Error> {
        if source == target {
            Err(Error::ReflexiveStream)
        } else if m[source] < spend_rate {
            Err(Error::InsufficientBalance)
        } else if self.streams_of(source).len() >= self.config.max_streams {
            Err(Error::StreamLimitReached)
        } else {
            Ok(())
        }
    }

    /// An empty registry under the given configuration.
    pub fn new(config: Config) -> (r: Pallet)
        ensures
            r.wf(),
            r.config == config,
            r.reg() == Seq::<(u64, Seq<Stream>)>::empty(),
            r.events@ == Seq::<Event>::empty(),
            forall|a: u64| r.streams_of(a) == Seq::<Stream>::empty(),
    {
        let r = Pallet { config, streams: Vec::new(), events: Vec::new() };
        proof {
            assert(r.reg() =~= Seq::<(u64, Seq<Stream>)>::empty());
        }
        r
    }

    /// Position of the account's registry entry, if it has one.
    fn find_entry(&self, account: u64) -> (r: Option<usize>)
        ensures
            match r {
                Some(i) => i < self.streams@.len() && self.reg()[i as int].0 == account && has_key(
                    self.reg(),
                    account,
                ) && key_index(self.reg(), account) == i,
                None => !has_key(self.reg(), account),
            },
    {
        let n = self.streams.len();
        let mut i: usize = 0;
        while i < n
            invariant
                i <= n,
                n == self.streams@.len(),
                forall|j: int| 0 <= j < i ==> self.reg()[j].0 != account,
            decreases n - i,
        {
            if self.streams[i].0 == account {
                proof {
                    lemma_key_index_first(self.reg(), account, i as int);
                }
                return Some(i);
            }
            i = i + 1;
        }
        None
    }

    /// How many accounts currently have at least one open stream.
    pub fn account_count(&self) -> (r: usize)
        ensures
            r == self.reg().len(),
    {
        self.streams.len()
    }

    /// The account's current streams, in insertion order. Callers needing a
    /// valid index for `close_stream` query this first.
    pub fn streams(&self, account: u64) -> (r: Vec<Stream>)
        ensures
            r@ == self.streams_of(account),
    {
        match self.find_entry(account) {
            None => Vec::new(),
            Some(i) => {
                proof {
                    lemma_key_index_props(self.reg(), account);
                }
                let n = self.streams[i].1.len();
                let mut out: Vec<Stream> = Vec::new();
                let mut j: usize = 0;
                while j < n
                    invariant
                        j <= n,
                        i < self.streams@.len(),
                        n == self.streams@[i as int].1@.len(),
                        out@ == self.streams@[i as int].1@.take(j as int),
                    decreases n - j,
                {
                    out.push(self.streams[i].1[j]);
                    proof {
                        assert(out@ =~= self.streams@[i as int].1@.take(j + 1));
                    }
                    j = j + 1;
                }
                proof {
                    assert(self.streams@[i as int].1@.take(n as int) =~= self.streams@[
                        i as int
                    ].1@);
                }
                out
            },
        }
    }

    /// All events emitted so far, oldest first.
    pub fn events(&self) -> (r: &Vec<Event>)
        ensures
            r@ == self.events@,
    {
        &self.events
    }

    /// The most recent event, if any was emitted yet.
    pub fn last_event(&self) -> (r: Option<Event>)
        ensures
            match r {
                Some(e) => self.events@.len() > 0 && e == self.events@.last(),
                None => self.events@.len() == 0,
            },
    {
        if self.events.len() == 0 {
            None
        } else {
            Some(self.events[self.events.len() - 1])
        }
    }

    /// Opens a stream: from the next tick on, `spend_rate` moves from
    /// `source` to `target` each tick until the stream is closed or
    /// exhausted. All-or-nothing: exactly when `open_check` accepts, the
    /// stream is appended to the source's list and `StreamOpened` is
    /// emitted; otherwise nothing changes and the check's error comes back.
    pub fn open_stream(&mut self, source: u64, target: u64, spend_rate: u64, ledger: &Ledger) -> (r:
        Result<(), Error>)
        requires
            old(self).wf(),
        ensures
            final(self).wf(),
            final(self).config == old(self).config,
            r == old(self).open_check(source, target, spend_rate, ledger@),
            r is Err ==> final(self).reg() == old(self).reg() && final(self).events@ == old(
                self,
            ).events@,
            r is Ok ==> final(self).reg() == open_effect(
                old(self).reg(),
                source,
                target,
                spend_rate,
            ) && final(self).events@ == old(self).events@.push(
                Event::StreamOpened(source, target, spend_rate),
            ) && final(self).streams_of(source) == old(self).streams_of(source).push(
                Stream { target, spend_rate },
            ) && (forall|a: u64|
                a != source ==> final(self).streams_of(a) == old(self).streams_of(a)),
    {
        let ghost reg0 = self.reg();
        if source == target {
            return Err(Error::ReflexiveStream);
        }
        if ledger.free_balance(source) < spend_rate {
            return Err(Error::InsufficientBalance);
        }
        let s = Stream { target, spend_rate };
        match self.find_entry(source) {
            Some(i) => {
                proof {
                    lemma_key_index_props(reg0, source);
                }
                if self.streams[i].1.len() >= self.config.max_streams as usize {
                    return Err(Error::StreamLimitReached);
                }
                self.streams[i].1.push(s);
                self.events.push(Event::StreamOpened(source, target, spend_rate));
                proof {
                    let regn = self.reg();
                    assert(regn =~~= reg0.update(i as int, (source, reg0[i as int].1.push(s))));
                    assert forall|k: u64|
                        final(self).streams_of(k) == (if k == source {
                            old(self).streams_of(source).push(s)
                        } else {
                            old(self).streams_of(k)
                        }) by {
                        lemma_value_of_update(
                            reg0,
                            source,
                            (source, reg0[i as int].1.push(s)).1,
                            k,
                            Seq::empty(),
                        );
                    }
                    assert(final(self).wf()) by {
                        assert(forall|p: int|
                            0 <= p < regn.len() && p != i ==> regn[p] == reg0[p]);
                        lemma_value_of_update(
                            reg0,
                            source,
                            reg0[i as int].1.push(s),
                            source,
                            Seq::empty(),
                        );
                        assert forall|p: int, q: int|
                            0 <= p < regn.len() && 0 <= q < regn[p].1.len() implies (
                        #[trigger] regn[p].1[q]).target != regn[p].0 by {
                            if p == i && q == regn[p].1.len() - 1 {
                            } else {
                                assert(regn[p].1[q] == reg0[p].1[q]);
                            }
                        }
                    }
                }
                Ok(())
            },
            None => {
                if self.config.max_streams == 0 {
                    return Err(Error::StreamLimitReached);
                }
                let mut lst: Vec<Stream> = Vec::new();
                lst.push(s);
                self.streams.push((source, lst));
                self.events.push(Event::StreamOpened(source, target, spend_rate));
                proof {
                    let regn = self.reg();
                    assert(lst@ =~= seq![s]);
                    assert(regn =~~= reg0.push((source, seq![s])));
                    assert forall|k: u64|
                        final(self).streams_of(k) == (if k == source {
                            old(self).streams_of(source).push(s)
                        } else {
                            old(self).streams_of(k)
                        }) by {
                        lemma_value_of_push(reg0, source, seq![s], k, Seq::empty());
                        if k == source {
                            assert(old(self).streams_of(source) =~= Seq::<Stream>::empty());
                            assert(seq![s] =~= old(self).streams_of(source).push(s));
                        }
                    }
                    assert(final(self).wf()) by {
                        lemma_value_of_push(reg0, source, seq![s], source, Seq::empty());
                        assert(forall|p: int| 0 <= p < reg0.len() ==> regn[p] == reg0[p]);
                        assert forall|p: int, q: int|
                            0 <= p < regn.len() && 0 <= q < regn[p].1.len() implies (
                        #[trigger] regn[p].1[q]).target != regn[p].0 by {
                            if p == reg0.len() {
                                assert(regn[p].1 =~= seq![s]);
                            } else {
                                assert(regn[p].1[q] == reg0[p].1[q]);
                            }
                        }
                    }
                }
                Ok(())
            },
        }
    }

    /// Closes the source's stream at `index`, counted per source from 0 in
    /// insertion order. Closing position `index` moves every later stream
    /// down by one, so callers re-query `streams` before reusing an index.
    /// Exactly when the index is a valid position, the stream is removed and
    /// `StreamClosed` carries its target and spend rate; otherwise nothing
    /// changes.
    pub fn close_stream(&mut self, source: u64, index: u32) -> (r: Result<(), Error>)
        requires
            old(self).wf(),
        ensures
            final(self).wf(),
            final(self).config == old(self).config,
            index >= old(self).streams_of(source).len() ==> r == Err::<(), Error>(
                Error::StreamNotFound,
            ) && final(self).reg() == old(self).reg() && final(self).events@ == old(self).events@,
            index < old(self).streams_of(source).len() ==> r == Ok::<(), Error>(()) && ({
                let removed = old(self).streams_of(source)[index as int];
                &&& final(self).events@ == old(self).events@.push(
                    Event::StreamClosed(source, removed.target, removed.spend_rate),
                )
                &&& final(self).streams_of(source) == old(self).streams_of(source).remove(
                    index as int,
                )
                &&& forall|a: u64| a != source ==> final(self).streams_of(a) == old(
                    self,
                ).streams_of(a)
                &&& final(self).reg() == close_effect(old(self).reg(), source, index as int)
                &&& forall|j: int|
                    index <= j < final(self).streams_of(source).len() ==> final(self).streams_of(
                        source,
                    )[j] == old(self).streams_of(source)[j + 1]
            }),
    {
        let ghost reg0 = self.reg();
        match self.find_entry(source) {
            None => Err(Error::StreamNotFound),
            Some(i) => {
                proof {
                    lemma_key_index_props(reg0, source);
                }
                let len = self.streams[i].1.len();
                if (index as usize) >= len {
                    return Err(Error::StreamNotFound);
                }
                let removed = self.streams[i].1.remove(index as usize);
                let now_empty = self.streams[i].1.len() == 0;
                if now_empty {
                    let _ = self.streams.remove(i);
                }
                self.events.push(Event::StreamClosed(source, removed.target, removed.spend_rate));
                proof {
                    let regn = self.reg();
                    let shrunk = reg0[i as int].1.remove(index as int);
                    if now_empty {
                        assert(regn =~~= reg0.remove(i as int));
                        assert forall|k: u64|
                            final(self).streams_of(k) == (if k == source {
                                Seq::<Stream>::empty()
                            } else {
                                old(self).streams_of(k)
                            }) by {
                            lemma_value_of_remove(reg0, source, k, Seq::empty());
                        }
                        assert(old(self).streams_of(source).remove(index as int) =~= Seq::<
                            Stream,
                        >::empty());
                        assert(final(self).wf()) by {
                            lemma_value_of_remove(reg0, source, source, Seq::empty());
                            assert(forall|p: int|
                                0 <= p < regn.len() ==> regn[p] == (if p < i {
                                    reg0[p]
                                } else {
                                    reg0[p + 1]
                                }));
                        }
                    } else {
                        assert(regn =~~= reg0.update(i as int, (source, shrunk)));
                        assert forall|k: u64|
                            final(self).streams_of(k) == (if k == source {
                                old(self).streams_of(source).remove(index as int)
                            } else {
                                old(self).streams_of(k)
                            }) by {
                            lemma_value_of_update(reg0, source, (source, shrunk).1, k, Seq::empty());
                        }
                        assert(final(self).wf()) by {
                            lemma_value_of_update(reg0, source, shrunk, source, Seq::empty());
                            assert(forall|p: int|
                                0 <= p < regn.len() && p != i ==> regn[p] == reg0[p]);
                            assert forall|p: int, q: int|
                                0 <= p < regn.len() && 0 <= q < regn[p].1.len() implies (
                            #[trigger] regn[p].1[q]).target != regn[p].0 by {
                                if p == i {
                                    let q0: int = if q < index {
                                        q
                                    } else {
                                        q + 1
                                    };
                                    assert(regn[p].1[q] == reg0[p].1[q0]);
                                } else {
                                    assert(regn[p].1[q] == reg0[p].1[q]);
                                }
                            }
                        }
                    }
                }
                Ok(())
            },
        }
    }

    /// Settles one tick: walks every account of the registry in registry
    /// order and, within an account, its streams in list order. A stream
    /// the source can no longer afford is retired and `StreamExhausted`
    /// emitted, without a transfer; any other stream attempts its transfer
    /// — `PaymentMade` where the ledger accepts, `PaymentFailed` where it
    /// refuses — and stays registered either way. The source's balance is
    /// read afresh before each stream, so earlier payments of the same tick
    /// count. An account whose list empties leaves the registry. The whole
    /// sweep equals `settle_all` on the registry and balances as they stood
    /// when the tick began, and the report carries its two counters.
    pub fn on_initialize(&mut self, ledger: &mut Ledger) -> (r: TickReport)
        requires
            old(self).wf(),
            old(ledger).wf(),
            total_streams(old(self).reg()) <= u32::MAX,
        ensures
            final(self).wf(),
            final(ledger).wf(),
            final(self).config == old(self).config,
            ({
                let out = settle_all(
                    old(ledger)@,
                    old(self).reg(),
                    old(self).config.survival_policy,
                );
                &&& final(ledger)@ == out.ledger
                &&& final(self).reg() == out.entries
                &&& final(self).events@ == old(self).events@ + out.events
                &&& r.exhausted_count == out.exhausted
                &&& r.transfer_count == out.transfers
            }),
    {
        let ghost m0 = ledger@;
        let ghost reg0 = self.reg();
        let policy = self.config.survival_policy;
        let mut kept_entries: Vec<(u64, Vec<Stream>)> = Vec::new();
        let mut exhausted_count: u32 = 0;
        let mut transfer_count: u32 = 0;
        let n = self.streams.len();
        proof {
            assert(reg0.take(0) =~= Seq::<(u64, Seq<Stream>)>::empty());
            assert(entries_view(kept_entries@) =~= Seq::<(u64, Seq<Stream>)>::empty());
            assert(self.events@ =~= old(self).events@ + settle_all(m0, reg0.take(0), policy).events);
        }
        let mut i: usize = 0;
        while i < n
            invariant
                i <= n,
                n == self.streams@.len(),
                self.streams@ == old(self).streams@,
                self.config == old(self).config,
                reg0 == entries_view(self.streams@),
                policy == old(self).config.survival_policy,
                total_streams(reg0) <= u32::MAX,
                ledger.wf(),
                ({
                    let pre = settle_all(m0, reg0.take(i as int), policy);
                    &&& ledger@ == pre.ledger
                    &&& entries_view(kept_entries@) == pre.entries
                    &&& self.events@ == old(self).events@ + pre.events
                    &&& exhausted_count == pre.exhausted
                    &&& transfer_count == pre.transfers
                    &&& exhausted_count + transfer_count == total_streams(reg0.take(i as int))
                }),
            decreases n - i,
        {
            let ghost pre = settle_all(m0, reg0.take(i as int), policy);
            let origin = self.streams[i].0;
            let ghost lst = reg0[i as int].1;
            let mlen = self.streams[i].1.len();
            let mut kept: Vec<Stream> = Vec::new();
            proof {
                assert(lst.take(0) =~= Seq::<Stream>::empty());
                assert(kept@ =~= settle_account(pre.ledger, origin, lst.take(0), policy).kept);
                assert(self.events@ =~= old(self).events@ + pre.events + settle_account(
                    pre.ledger,
                    origin,
                    lst.take(0),
                    policy,
                ).events);
                assert(reg0.take(i as int).push(reg0[i as int]) =~= reg0.take(i + 1));
                lemma_total_streams_push(reg0.take(i as int), reg0[i as int]);
                lemma_total_streams_take(reg0, i + 1);
            }
            let mut j: usize = 0;
            while j < mlen
                invariant
                    j <= mlen,
                    i < n,
                    n == self.streams@.len(),
                    self.streams@ == old(self).streams@,
                    self.config == old(self).config,
                    reg0 == entries_view(self.streams@),
                    policy == old(self).config.survival_policy,
                    origin == reg0[i as int].0,
                    lst == reg0[i as int].1,
                    mlen == lst.len(),
                    pre == settle_all(m0, reg0.take(i as int), policy),
                    total_streams(reg0.take(i as int)) + lst.len() <= total_streams(reg0),
                    total_streams(reg0) <= u32::MAX,
                    ledger.wf(),
                    ({
                        let acc = settle_account(pre.ledger, origin, lst.take(j as int), policy);
                        &&& ledger@ == acc.ledger
                        &&& kept@ == acc.kept
                        &&& self.events@ == old(self).events@ + pre.events + acc.events
                        &&& exhausted_count == pre.exhausted + acc.exhausted
                        &&& transfer_count == pre.transfers + acc.transfers
                        &&& exhausted_count + transfer_count == total_streams(
                            reg0.take(i as int),
                        ) + j
                    }),
                decreases mlen - j,
            {
                let ghost acc = settle_account(pre.ledger, origin, lst.take(j as int), policy);
                let s = self.streams[i].1[j];
                proof {
                    assert(s == lst[j as int]);
                    assert(lst.take(j as int).push(s) =~= lst.take(j + 1));
                    lemma_settle_account_push(pre.ledger, origin, lst.take(j as int), s, policy);
                }
                let bal = ledger.free_balance(origin);
                if bal < s.spend_rate {
                    self.events.push(Event::StreamExhausted(origin, s.target, s.spend_rate));
                    exhausted_count = exhausted_count + 1;
                } else {
                    match ledger.transfer(origin, s.target, s.spend_rate, policy) {
                        Ok(_) => {
                            self.events.push(Event::PaymentMade(origin, s.target, s.spend_rate));
                        },
                        Err(e) => {
                            self.events.push(
                                Event::PaymentFailed(origin, s.target, s.spend_rate, e),
                            );
                        },
                    }
                    kept.push(s);
                    transfer_count = transfer_count + 1;
                }
                proof {
                    let accn = settle_account(pre.ledger, origin, lst.take(j + 1), policy);
                    assert(kept@ =~= accn.kept);
                    assert(self.events@ =~= old(self).events@ + pre.events + accn.events);
                }
                j = j + 1;
            }
            proof {
                assert(lst.take(mlen as int) =~= lst);
            }
            if kept.len() > 0 {
                kept_entries.push((origin, kept));
            }
            proof {
                lemma_settle_all_push(m0, reg0.take(i as int), reg0[i as int], policy);
                let pren = settle_all(m0, reg0.take(i + 1), policy);
                assert(entries_view(kept_entries@) =~~= pren.entries);
                assert(self.events@ =~= old(self).events@ + pren.events);
            }
            i = i + 1;
        }
        proof {
            assert(reg0.take(n as int) =~= reg0);
        }
        self.streams = kept_entries;
        proof {
            let out = settle_all(m0, reg0, policy);
            assert(self.reg() == out.entries);
            assert(self.events@ =~= old(self).events@ + out.events);
            assert(self.wf()) by {
                lemma_settle_all_shape(m0, reg0, policy);
                let regn = self.reg();
                assert forall|p: int|
                    0 <= p < regn.len() implies 1 <= (#[trigger] regn[p]).1.len()
                    <= self.config.max_streams by {
                    assert(entry_shrunk_from(reg0, regn[p]));
                    let q = choose|q: int|
                        0 <= q < reg0.len() && regn[p].0 == (#[trigger] reg0[q]).0 && 1
                            <= regn[p].1.len() <= reg0[q].1.len() && (forall|k: int|
                            0 <= k < regn[p].1.len() ==> reg0[q].1.contains(
                                #[trigger] regn[p].1[k],
                            ));
                }
                assert forall|p: int, q: int|
                    0 <= p < regn.len() && 0 <= q < regn[p].1.len() implies (
                #[trigger] regn[p].1[q]).target != regn[p].0 by {
                    assert(entry_shrunk_from(reg0, regn[p]));
                    let w = choose|w: int|
                        0 <= w < reg0.len() && regn[p].0 == (#[trigger] reg0[w]).0 && 1
                            <= regn[p].1.len() <= reg0[w].1.len() && (forall|k: int|
                            0 <= k < regn[p].1.len() ==> reg0[w].1.contains(
                                #[trigger] regn[p].1[k],
                            ));
                    assert(reg0[w].1.contains(regn[p].1[q]));
                    let k0 = choose|k0: int|
                        0 <= k0 < reg0[w].1.len() && reg0[w].1[k0] == regn[p].1[q];
                    assert(old(self).reg()[w].1[k0].target != old(self).reg()[w].0);
                }
            }
        }
        TickReport { exhausted_count, transfer_count }
    }
}

} // verus!
