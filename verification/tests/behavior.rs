use stream_payments::Config;
use stream_payments::Error;
use stream_payments::Event;
use stream_payments::Ledger;
use stream_payments::Pallet;
use stream_payments::Stream;
use stream_payments::SurvivalPolicy;
use stream_payments::TransferError;

const A: u64 = 1;
const B: u64 = 2;
const C: u64 = 3;

fn pallet_with(max_streams: u32, policy: SurvivalPolicy) -> Pallet {
    Pallet::new(Config {
        max_streams,
        survival_policy: policy,
    })
}

fn allow_removal() -> SurvivalPolicy {
    SurvivalPolicy::AllowDestinationOrSourceToBeRemoved
}

fn stream(target: u64, spend_rate: u64) -> Stream {
    Stream { target, spend_rate }
}

#[test]
fn open_checks_balance_up_front() {
    let mut p = pallet_with(8, allow_removal());
    let mut ledger = Ledger::new();
    ledger.set_balance(A, 100);
    assert_eq!(
        p.open_stream(A, B, 101, &ledger),
        Err(Error::InsufficientBalance)
    );
    assert_eq!(p.streams(A), []);
    assert_eq!(p.events().len(), 0);
}

#[test]
fn open_with_zero_capacity_fails() {
    let mut p = pallet_with(0, allow_removal());
    let mut ledger = Ledger::new();
    ledger.set_balance(A, 100);
    assert_eq!(
        p.open_stream(A, B, 10, &ledger),
        Err(Error::StreamLimitReached)
    );
    assert_eq!(p.account_count(), 0);
}

#[test]
fn reflexive_open_never_mutates() {
    let mut p = pallet_with(8, allow_removal());
    let mut ledger = Ledger::new();
    ledger.set_balance(A, 1_000_000);
    assert_eq!(p.open_stream(A, A, 1, &ledger), Err(Error::ReflexiveStream));
    assert_eq!(p.open_stream(A, A, 0, &ledger), Err(Error::ReflexiveStream));
    assert_eq!(p.account_count(), 0);
    assert_eq!(p.events().len(), 0);
}

#[test]
fn duplicate_streams_are_legal() {
    let mut p = pallet_with(8, allow_removal());
    let mut ledger = Ledger::new();
    ledger.set_balance(A, 1000);
    assert!(p.open_stream(A, B, 7, &ledger).is_ok());
    assert!(p.open_stream(A, B, 7, &ledger).is_ok());
    assert_eq!(p.streams(A), [stream(B, 7), stream(B, 7)]);
}

#[test]
fn close_shifts_later_streams_down() {
    let mut p = pallet_with(8, allow_removal());
    let mut ledger = Ledger::new();
    ledger.set_balance(A, 1000);
    assert!(p.open_stream(A, B, 10, &ledger).is_ok());
    assert!(p.open_stream(A, C, 20, &ledger).is_ok());
    assert!(p.open_stream(A, 4, 30, &ledger).is_ok());
    assert!(p.close_stream(A, 1).is_ok());
    assert_eq!(last(&p), Event::StreamClosed(A, C, 20));
    assert_eq!(p.streams(A), [stream(B, 10), stream(4, 30)]);
}

#[test]
fn close_out_of_range_changes_nothing() {
    let mut p = pallet_with(8, allow_removal());
    let mut ledger = Ledger::new();
    ledger.set_balance(A, 1000);
    assert!(p.open_stream(A, B, 10, &ledger).is_ok());
    assert_eq!(p.close_stream(A, 1), Err(Error::StreamNotFound));
    assert_eq!(p.close_stream(A, 7), Err(Error::StreamNotFound));
    assert_eq!(p.streams(A), [stream(B, 10)]);
    assert_eq!(p.events().len(), 1);
}

#[test]
fn close_last_stream_removes_the_entry() {
    let mut p = pallet_with(8, allow_removal());
    let mut ledger = Ledger::new();
    ledger.set_balance(A, 1000);
    ledger.set_balance(B, 1000);
    assert!(p.open_stream(A, B, 10, &ledger).is_ok());
    assert!(p.open_stream(B, A, 10, &ledger).is_ok());
    assert!(p.close_stream(A, 0).is_ok());
    assert_eq!(p.account_count(), 1);
    assert_eq!(p.streams(B), [stream(A, 10)]);
}

#[test]
fn tick_pays_and_keeps_the_stream() {
    let mut p = pallet_with(8, allow_removal());
    let mut ledger = Ledger::new();
    ledger.set_balance(A, 1_000_000);
    ledger.set_balance(B, 1_000_000);
    assert!(p.open_stream(A, B, 1000, &ledger).is_ok());
    let report = p.on_initialize(&mut ledger);
    assert_eq!(ledger.free_balance(A), 999_000);
    assert_eq!(ledger.free_balance(B), 1_001_000);
    assert_eq!(last(&p), Event::PaymentMade(A, B, 1000));
    assert_eq!(p.streams(A), [stream(B, 1000)]);
    assert_eq!(report.transfer_count, 1);
    assert_eq!(report.exhausted_count, 0);
}

#[test]
fn tick_exhausts_without_a_transfer() {
    let mut p = pallet_with(8, allow_removal());
    let mut ledger = Ledger::new();
    ledger.set_balance(A, 400);
    ledger.set_balance(B, 50);
    assert!(p.open_stream(A, B, 400, &ledger).is_ok());
    ledger.set_balance(A, 399);
    let report = p.on_initialize(&mut ledger);
    assert_eq!(last(&p), Event::StreamExhausted(A, B, 400));
    assert_eq!(ledger.free_balance(A), 399);
    assert_eq!(ledger.free_balance(B), 50);
    assert_eq!(p.streams(A), []);
    assert_eq!(p.account_count(), 0);
    assert_eq!(report.exhausted_count, 1);
    assert_eq!(report.transfer_count, 0);
}

#[test]
fn tick_rechecks_balance_before_each_stream() {
    let mut p = pallet_with(8, allow_removal());
    let mut ledger = Ledger::new();
    ledger.set_balance(A, 1000);
    assert!(p.open_stream(A, B, 600, &ledger).is_ok());
    assert!(p.open_stream(A, C, 600, &ledger).is_ok());
    let report = p.on_initialize(&mut ledger);
    // The first stream pays and leaves 400, so the second exhausts.
    assert_eq!(ledger.free_balance(A), 400);
    assert_eq!(ledger.free_balance(B), 600);
    assert_eq!(ledger.free_balance(C), 0);
    assert_eq!(p.streams(A), [stream(B, 600)]);
    assert_eq!(last(&p), Event::StreamExhausted(A, C, 600));
    assert_eq!(report.transfer_count, 1);
    assert_eq!(report.exhausted_count, 1);
}

#[test]
fn tick_threads_balances_across_accounts() {
    let mut p = pallet_with(8, allow_removal());
    let mut ledger = Ledger::new();
    ledger.set_balance(A, 100);
    assert!(p.open_stream(A, B, 100, &ledger).is_ok());
    // B holds nothing yet; its stream is only affordable once A's payment
    // of this same tick has arrived.
    ledger.set_balance(B, 50);
    assert!(p.open_stream(B, C, 50, &ledger).is_ok());
    ledger.set_balance(B, 0);
    let report = p.on_initialize(&mut ledger);
    assert_eq!(ledger.free_balance(A), 0);
    assert_eq!(ledger.free_balance(B), 50);
    assert_eq!(ledger.free_balance(C), 50);
    assert_eq!(report.transfer_count, 2);
    assert_eq!(report.exhausted_count, 0);
}

#[test]
fn refused_payment_keeps_the_stream() {
    let mut p = pallet_with(8, SurvivalPolicy::RequireBothSurvive);
    let mut ledger = Ledger::new();
    ledger.set_balance(A, 1000);
    assert!(p.open_stream(A, B, 1000, &ledger).is_ok());
    let report = p.on_initialize(&mut ledger);
    assert_eq!(
        last(&p),
        Event::PaymentFailed(A, B, 1000, TransferError::WouldRemoveSource)
    );
    assert_eq!(ledger.free_balance(A), 1000);
    assert_eq!(ledger.free_balance(B), 0);
    assert_eq!(p.streams(A), [stream(B, 1000)]);
    assert_eq!(report.transfer_count, 1);
    assert_eq!(report.exhausted_count, 0);
}

#[test]
fn overflowing_payment_is_refused_and_kept() {
    let mut p = pallet_with(8, allow_removal());
    let mut ledger = Ledger::new();
    ledger.set_balance(A, 10);
    ledger.set_balance(B, u64::MAX);
    assert!(p.open_stream(A, B, 5, &ledger).is_ok());
    p.on_initialize(&mut ledger);
    assert_eq!(
        last(&p),
        Event::PaymentFailed(A, B, 5, TransferError::Overflow)
    );
    assert_eq!(ledger.free_balance(A), 10);
    assert_eq!(ledger.free_balance(B), u64::MAX);
    assert_eq!(p.streams(A), [stream(B, 5)]);
}

#[test]
fn full_drain_then_exhaustion() {
    let mut p = pallet_with(8, allow_removal());
    let mut ledger = Ledger::new();
    ledger.set_balance(A, 1_000_000);
    ledger.set_balance(B, 1_000_000);
    assert!(p.open_stream(A, B, 1_000_000, &ledger).is_ok());
    p.on_initialize(&mut ledger);
    assert_eq!(last(&p), Event::PaymentMade(A, B, 1_000_000));
    assert_eq!(ledger.free_balance(A), 0);
    p.on_initialize(&mut ledger);
    assert_eq!(last(&p), Event::StreamExhausted(A, B, 1_000_000));
    assert_eq!(p.streams(A), []);
    assert_eq!(p.account_count(), 0);
}

#[test]
fn tick_drops_only_the_emptied_account() {
    let mut p = pallet_with(8, allow_removal());
    let mut ledger = Ledger::new();
    ledger.set_balance(A, 5);
    ledger.set_balance(B, 1000);
    assert!(p.open_stream(A, C, 5, &ledger).is_ok());
    assert!(p.open_stream(B, C, 10, &ledger).is_ok());
    ledger.set_balance(A, 4);
    let report = p.on_initialize(&mut ledger);
    assert_eq!(p.streams(A), []);
    assert_eq!(p.streams(B), [stream(C, 10)]);
    assert_eq!(p.account_count(), 1);
    assert_eq!(ledger.free_balance(A), 4);
    assert_eq!(ledger.free_balance(B), 990);
    assert_eq!(ledger.free_balance(C), 10);
    assert_eq!(report.exhausted_count, 1);
    assert_eq!(report.transfer_count, 1);
}

#[test]
fn events_accumulate_in_order() {
    let mut p = pallet_with(8, allow_removal());
    let mut ledger = Ledger::new();
    ledger.set_balance(A, 1000);
    assert_eq!(p.last_event(), None);
    assert!(p.open_stream(A, B, 10, &ledger).is_ok());
    assert!(p.open_stream(A, C, 20, &ledger).is_ok());
    assert!(p.close_stream(A, 0).is_ok());
    assert_eq!(
        p.events().as_slice(),
        [
            Event::StreamOpened(A, B, 10),
            Event::StreamOpened(A, C, 20),
            Event::StreamClosed(A, B, 10),
        ]
    );
}

#[test]
fn ledger_transfer_moves_funds() {
    let mut ledger = Ledger::new();
    ledger.set_balance(A, 100);
    assert_eq!(ledger.transfer(A, B, 60, allow_removal()), Ok(()));
    assert_eq!(ledger.free_balance(A), 40);
    assert_eq!(ledger.free_balance(B), 60);
    assert_eq!(
        ledger.transfer(A, B, 41, allow_removal()),
        Err(TransferError::InsufficientFunds)
    );
    assert_eq!(ledger.free_balance(A), 40);
    assert_eq!(ledger.free_balance(B), 60);
    assert_eq!(ledger.transfer(A, B, 40, allow_removal()), Ok(()));
    assert_eq!(ledger.free_balance(A), 0);
    assert_eq!(ledger.free_balance(B), 100);
}

fn last(p: &Pallet) -> Event {
    p.last_event().unwrap()
}
