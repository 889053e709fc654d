use stream_payments::Config;
use stream_payments::Error;
use stream_payments::Event;
use stream_payments::Ledger;
use stream_payments::Pallet;
use stream_payments::Stream;
use stream_payments::SurvivalPolicy;

const A: u64 = 1;
const B: u64 = 2;
const INIT_BALANCE: u64 = 1_000_000;
const SPEND_RATE: u64 = INIT_BALANCE / 1000;
const MAX_STREAMS: u32 = 8;

fn new_pallet() -> Pallet {
    Pallet::new(Config {
        max_streams: MAX_STREAMS,
        survival_policy: SurvivalPolicy::AllowDestinationOrSourceToBeRemoved,
    })
}

fn new_ledger() -> Ledger {
    let mut ledger = Ledger::new();
    ledger.set_balance(A, INIT_BALANCE);
    ledger.set_balance(B, INIT_BALANCE);
    ledger
}

fn last_event(p: &Pallet) -> Event {
    p.last_event().unwrap()
}

#[test]
fn genesis_config() {
    let p = new_pallet();
    assert_eq!(p.account_count(), 0);
}

#[test]
fn open_stream() {
    let mut p = new_pallet();
    let ledger = new_ledger();
    assert!(p.open_stream(A, B, SPEND_RATE, &ledger).is_ok());
    assert_eq!(
        p.streams(A),
        [Stream {
            target: B,
            spend_rate: SPEND_RATE
        }]
    );
    assert_eq!(last_event(&p), Event::StreamOpened(A, B, SPEND_RATE));
}

#[test]
fn stream_limit_reached() {
    let mut p = new_pallet();
    let ledger = new_ledger();
    for _ in 0..MAX_STREAMS {
        assert!(p.open_stream(A, B, SPEND_RATE, &ledger).is_ok());
    }
    assert_eq!(
        p.open_stream(A, B, SPEND_RATE, &ledger),
        Err(Error::StreamLimitReached)
    );
    assert_eq!(p.streams(A).len(), MAX_STREAMS as usize);
}

#[test]
fn reflexive_stream() {
    let mut p = new_pallet();
    let ledger = new_ledger();
    assert_eq!(
        p.open_stream(A, A, SPEND_RATE, &ledger),
        Err(Error::ReflexiveStream)
    );
}

#[test]
fn close_stream() {
    let mut p = new_pallet();
    let ledger = new_ledger();
    assert!(p.open_stream(A, B, SPEND_RATE, &ledger).is_ok());
    assert!(p.close_stream(A, 0).is_ok());
    assert_eq!(p.streams(A), []);
    assert_eq!(last_event(&p), Event::StreamClosed(A, B, SPEND_RATE));
}

#[test]
fn stream_not_found() {
    let mut p = new_pallet();
    assert_eq!(p.close_stream(A, 0), Err(Error::StreamNotFound));
}

#[test]
fn payment_made() {
    let mut p = new_pallet();
    let mut ledger = new_ledger();
    assert!(p.open_stream(A, B, SPEND_RATE, &ledger).is_ok());

    // Tick the clock.
    p.on_initialize(&mut ledger);
    assert_eq!(last_event(&p), Event::PaymentMade(A, B, SPEND_RATE));
    assert_eq!(ledger.free_balance(A), INIT_BALANCE - SPEND_RATE);
    assert_eq!(ledger.free_balance(B), INIT_BALANCE + SPEND_RATE);

    // Add one more stream in the opposite direction.
    assert!(p.open_stream(B, A, SPEND_RATE * 10, &ledger).is_ok());
    p.on_initialize(&mut ledger);
    assert_eq!(
        ledger.free_balance(A),
        INIT_BALANCE - 2 * SPEND_RATE + 10 * SPEND_RATE
    );
    assert_eq!(
        ledger.free_balance(B),
        INIT_BALANCE + 2 * SPEND_RATE - 10 * SPEND_RATE
    );
}

#[test]
fn stream_exhausted() {
    let mut p = new_pallet();
    let mut ledger = new_ledger();
    // Transferring the whole funds A owns.
    assert!(p.open_stream(A, B, INIT_BALANCE, &ledger).is_ok());

    // Step two ticks - the second transfer should fail.
    p.on_initialize(&mut ledger);
    p.on_initialize(&mut ledger);
    assert_eq!(last_event(&p), Event::StreamExhausted(A, B, INIT_BALANCE));
    assert_eq!(ledger.free_balance(A), 0);
    assert_eq!(ledger.free_balance(B), 2 * INIT_BALANCE);

    // Check if the exhausted stream has been correctly removed.
    assert_eq!(p.streams(A), []);
}
