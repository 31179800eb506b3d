use backit::{Address, Amount, CallRegistry, Context, Price, RegistryError, StakeAdded};

const START: u64 = 1_000;

fn account(n: u8) -> Address {
    Address::account([n; 32])
}

fn amt(v: u128) -> Amount {
    Amount::from_u128(v)
}

fn ctx(caller: u8, block_time: u64, value: u128) -> Context {
    Context::new(account(caller), block_time, amt(value))
}

fn low(a: Amount) -> u128 {
    assert!(a.words[2..].iter().all(|w| *w == 0));
    a.words[0] as u128 | (a.words[1] as u128) << 64
}

const MAX: Amount = Amount { words: [u64::MAX; 8] };

fn open_call(registry: &mut CallRegistry, caller: u8, value: u128) -> u64 {
    registry
        .create_call(
            ctx(caller, START, value),
            START + 3600,
            "0xToken".to_string(),
            "pair_1".to_string(),
            "QmCID".to_string(),
        )
        .unwrap()
        .call_id
}

#[test]
fn test_create_call() {
    let mut registry = CallRegistry::init();
    let end_ts = START + 3600;
    registry
        .create_call(
            ctx(0, START, 100_000_000_000),
            end_ts,
            "0xTokenAddress".to_string(),
            "token_usdt".to_string(),
            "QmTestCID".to_string(),
        )
        .unwrap();

    assert_eq!(registry.get_next_call_id(), 1);
    assert_eq!(registry.get_total_stake_yes(0), amt(100_000_000_000));
    assert_eq!(registry.get_total_stake_no(0), amt(0));
    assert!(!registry.is_call_settled(0));
}

#[test]
fn test_stake_on_call() {
    let mut registry = CallRegistry::init();
    open_call(&mut registry, 0, 100_000_000_000);

    registry.stake_on_call(ctx(1, START, 50_000_000_000), 0, false).unwrap();

    assert_eq!(registry.get_total_stake_yes(0), amt(100_000_000_000));
    assert_eq!(registry.get_total_stake_no(0), amt(50_000_000_000));
}

#[test]
fn test_settle_call() {
    let mut registry = CallRegistry::init();
    open_call(&mut registry, 0, 100_000_000_000);

    registry.settle_call(0, true, Price::from_u128(1500)).unwrap();

    assert!(registry.is_call_settled(0));
    assert!(registry.get_outcome(0));
}

#[test]
fn create_call_announces_its_terms() {
    let mut registry = CallRegistry::init();
    open_call(&mut registry, 1, 5);
    let event = registry
        .create_call(ctx(3, START, 70), START + 60, "tok".to_string(), "pair".to_string(), "cid".to_string())
        .unwrap();
    assert_eq!(event.call_id, 1);
    assert_eq!(event.creator, account(3));
    assert_eq!(event.stake_amount, amt(70));
    assert_eq!(event.start_ts, START);
    assert_eq!(event.end_ts, START + 60);
    assert_eq!(event.token_address, "tok");
    assert_eq!(event.pair_id, "pair");
    assert_eq!(event.ipfs_cid, "cid");
}

#[test]
fn create_call_records_terms_and_creator_stake() {
    let mut registry = CallRegistry::init();
    let id = open_call(&mut registry, 7, 100);
    assert_eq!(id, 0);
    assert_eq!(registry.get_call_creator(0), Some(account(7)));
    assert_eq!(registry.get_end_ts(0), START + 3600);
    assert_eq!(registry.get_user_stake(0, account(7), true), amt(100));
    assert_eq!(registry.get_user_stake(0, account(7), false), amt(0));
    assert!(!registry.get_outcome(0));
}

#[test]
fn unknown_call_reads_as_defaults() {
    let registry = CallRegistry::init();
    assert_eq!(registry.get_call_creator(3), None);
    assert_eq!(registry.get_total_stake_yes(3), amt(0));
    assert_eq!(registry.get_total_stake_no(3), amt(0));
    assert_eq!(registry.get_end_ts(3), 0);
    assert!(!registry.is_call_settled(3));
    assert!(!registry.get_outcome(3));
    assert_eq!(registry.get_user_stake(3, account(1), true), amt(0));
    assert_eq!(registry.get_next_call_id(), 0);
}

#[test]
fn create_call_rejects_end_time_not_in_future() {
    let mut registry = CallRegistry::init();
    let r = registry.create_call(
        ctx(0, START, 100),
        START,
        "t".to_string(),
        "p".to_string(),
        "c".to_string(),
    );
    assert_eq!(r, Err(RegistryError::EndTimeNotInFuture));
    let r = registry.create_call(
        ctx(0, START, 100),
        START - 1,
        "t".to_string(),
        "p".to_string(),
        "c".to_string(),
    );
    assert_eq!(r, Err(RegistryError::EndTimeNotInFuture));
    assert_eq!(registry.get_next_call_id(), 0);
}

#[test]
fn create_call_rejects_zero_stake() {
    let mut registry = CallRegistry::init();
    let r = registry.create_call(
        ctx(0, START, 0),
        START + 1,
        "t".to_string(),
        "p".to_string(),
        "c".to_string(),
    );
    assert_eq!(r, Err(RegistryError::ZeroStake));
    assert_eq!(registry.get_next_call_id(), 0);
    assert_eq!(registry.get_call_creator(0), None);
}

#[test]
fn consecutive_creations_get_consecutive_ids() {
    let mut registry = CallRegistry::init();
    for expected in 0..5u64 {
        let before = registry.get_next_call_id();
        let id = open_call(&mut registry, expected as u8, 10);
        assert_eq!(id, before);
        assert_eq!(id, expected);
        assert_eq!(registry.get_next_call_id(), before + 1);
    }
}

#[test]
fn stake_totals_equal_sum_of_user_stakes() {
    let mut registry = CallRegistry::init();
    open_call(&mut registry, 0, 100);
    let stakes: [(u8, bool, u128); 6] =
        [(1, true, 5), (2, false, 7), (1, true, 11), (1, false, 3), (0, true, 2), (2, false, 1)];
    for (user, position, amount) in stakes {
        registry.stake_on_call(ctx(user, START + 10, amount), 0, position).unwrap();
    }
    let mut yes: u128 = 0;
    let mut no: u128 = 0;
    for user in 0..3u8 {
        yes += low(registry.get_user_stake(0, account(user), true));
        no += low(registry.get_user_stake(0, account(user), false));
    }
    assert_eq!(registry.get_total_stake_yes(0), amt(yes));
    assert_eq!(registry.get_total_stake_no(0), amt(no));
    assert_eq!(yes, 118);
    assert_eq!(no, 11);
    assert_eq!(registry.get_user_stake(0, account(0), true), amt(102));
    assert_eq!(registry.get_user_stake(0, account(1), true), amt(16));
    assert_eq!(registry.get_user_stake(0, account(2), false), amt(8));
}

#[test]
fn staking_window_is_strict() {
    let mut registry = CallRegistry::init();
    open_call(&mut registry, 0, 100);
    let end_ts = START + 3600;
    assert_eq!(registry.stake_on_call(ctx(1, end_ts + 1, 5), 0, true), Err(RegistryError::CallEnded));
    assert_eq!(registry.stake_on_call(ctx(1, end_ts, 5), 0, true), Err(RegistryError::CallEnded));
    assert_eq!(registry.get_total_stake_yes(0), amt(100));
    assert_eq!(
        registry.stake_on_call(ctx(1, end_ts - 1, 5), 0, true),
        Ok(StakeAdded { call_id: 0, staker: account(1), position: true, amount: amt(5) })
    );
    assert_eq!(registry.get_total_stake_yes(0), amt(105));
}

#[test]
fn stake_on_unknown_call_fails() {
    let mut registry = CallRegistry::init();
    assert_eq!(registry.stake_on_call(ctx(1, START, 5), 0, true), Err(RegistryError::CallNotFound));
}

#[test]
fn stake_of_zero_fails() {
    let mut registry = CallRegistry::init();
    open_call(&mut registry, 0, 100);
    assert_eq!(registry.stake_on_call(ctx(1, START, 0), 0, false), Err(RegistryError::ZeroStake));
    assert_eq!(registry.get_total_stake_no(0), amt(0));
}

#[test]
fn stake_on_settled_call_fails() {
    let mut registry = CallRegistry::init();
    open_call(&mut registry, 0, 100);
    registry.settle_call(0, false, Price::from_u128(1)).unwrap();
    assert_eq!(
        registry.stake_on_call(ctx(1, START, 5), 0, true),
        Err(RegistryError::AlreadySettled)
    );
}

#[test]
fn stake_overflow_fails_without_change() {
    let mut registry = CallRegistry::init();
    let mut almost = MAX;
    almost.words[0] -= 1;
    let opener = Context::new(account(0), START, almost);
    registry
        .create_call(opener, START + 10, "t".to_string(), "p".to_string(), "c".to_string())
        .unwrap();
    assert_eq!(
        registry.stake_on_call(ctx(1, START, 2), 0, true),
        Err(RegistryError::StakeOverflow)
    );
    assert_eq!(registry.get_total_stake_yes(0), almost);
    assert_eq!(registry.get_user_stake(0, account(1), true), amt(0));
    assert!(registry.stake_on_call(ctx(1, START, 1), 0, true).is_ok());
    assert_eq!(registry.get_total_stake_yes(0), MAX);
    assert_eq!(registry.get_user_stake(0, account(1), true), amt(1));
    let big = Context::new(account(1), START, MAX);
    assert!(registry.stake_on_call(big, 0, false).is_ok());
    assert_eq!(registry.get_total_stake_no(0), MAX);
}

#[test]
fn stake_beyond_u128_accumulates() {
    let mut registry = CallRegistry::init();
    open_call(&mut registry, 0, u128::MAX);
    registry.stake_on_call(ctx(0, START, u128::MAX), 0, true).unwrap();
    let total = registry.get_total_stake_yes(0);
    assert_eq!(total.words[0], u64::MAX - 1);
    assert_eq!(total.words[1], u64::MAX);
    assert_eq!(total.words[2], 1);
    assert_eq!(registry.get_user_stake(0, account(0), true), total);
}

#[test]
fn second_settlement_fails_and_keeps_first() {
    let mut registry = CallRegistry::init();
    open_call(&mut registry, 0, 100);
    registry.settle_call(0, true, Price::from_u128(1500)).unwrap();
    assert_eq!(registry.settle_call(0, false, Price::from_u128(9)), Err(RegistryError::AlreadySettled));
    assert!(registry.is_call_settled(0));
    assert!(registry.get_outcome(0));
}

#[test]
fn settle_unknown_call_fails() {
    let mut registry = CallRegistry::init();
    assert_eq!(registry.settle_call(4, true, Price::from_u128(1)), Err(RegistryError::CallNotFound));
}

#[test]
fn payout_of_follows_stakes() {
    let mut registry = CallRegistry::init();
    open_call(&mut registry, 0, 100);
    registry.stake_on_call(ctx(1, START, 50), 0, false).unwrap();
    registry.stake_on_call(ctx(2, START, 300), 0, true).unwrap();
    assert_eq!(registry.payout_of(0, account(0), true), Some(amt(112)));
    assert_eq!(registry.payout_of(0, account(2), true), Some(amt(337)));
    assert_eq!(registry.payout_of(0, account(1), true), Some(amt(0)));
    assert_eq!(registry.payout_of(0, account(1), false), Some(amt(450)));
    assert_eq!(registry.payout_of(1, account(0), true), Some(amt(0)));
}

#[test]
fn payout_of_without_opposing_stake_returns_stake() {
    let mut registry = CallRegistry::init();
    open_call(&mut registry, 0, 100);
    assert_eq!(registry.payout_of(0, account(0), true), Some(amt(100)));
}

#[test]
fn payout_of_with_empty_winning_side_is_zero() {
    let mut registry = CallRegistry::init();
    open_call(&mut registry, 0, 100);
    assert_eq!(registry.payout_of(0, account(0), false), Some(amt(0)));
    assert_eq!(registry.payout_of(0, account(5), false), Some(amt(0)));
}

#[test]
fn payout_of_overflow_is_none() {
    let mut registry = CallRegistry::init();
    let opener = Context::new(account(0), START, MAX);
    registry
        .create_call(opener, START + 10, "t".to_string(), "p".to_string(), "c".to_string())
        .unwrap();
    registry.stake_on_call(ctx(1, START, 2), 0, false).unwrap();
    assert_eq!(registry.payout_of(0, account(0), true), None);
    assert_eq!(registry.payout_of(0, account(1), false), None);
}
