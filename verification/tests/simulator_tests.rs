use burberry_template::address::Address;
use burberry_template::quoter::weth_address;
use burberry_template::simulator::{
    calculate_erc20_balance_changes, try_calculate_erc20_balance_changes, BalanceChanges,
    LogEntry, SimCall,
};
use burberry_template::uint::{I256, U256};

const TRANSFER: &str = "ddf252ad1be2c89b69c2b068fc378daa952ba7f163c4a11628f55a4df523b3ef";
const DEPOSIT: &str = "e1fffcc4923d04b559f4d29a8bfc6cda04eb5b0d3c460751c2402c5c5cc9109c";
const WITHDRAWAL: &str = "7fcf532c15f0a6db0bd6d0e038bea71d30d808c7d98cb3bf7268a95bf5081b65";

fn hash(hex: &str) -> [u8; 32] {
    let b: alloy::primitives::B256 = hex.parse().unwrap();
    b.0
}

fn a(n: u8) -> Address {
    Address::new([n; 20])
}

fn topic(addr: Address) -> [u8; 32] {
    let mut t = [0u8; 32];
    t[12..].copy_from_slice(&addr.bytes);
    t
}

fn amount(v: u64) -> Vec<u8> {
    alloy::primitives::U256::from(v).to_be_bytes::<32>().to_vec()
}

fn value(c: I256) -> alloy::primitives::I256 {
    alloy::primitives::I256::from_be_bytes(c.bytes)
}

fn transfer(token: Address, from: Address, to: Address, v: u64) -> LogEntry {
    LogEntry { address: token, topics: vec![hash(TRANSFER), topic(from), topic(to)], data: amount(v) }
}

fn change(b: &BalanceChanges, owner: Address, token: Address) -> Option<i64> {
    b.change_of(owner, token).map(|c| value(c).as_i64())
}

#[test]
fn transfers_move_balances() {
    let token = a(9);
    let call = SimCall {
        status: true,
        gas_used: 21_000,
        logs: vec![transfer(token, a(1), a(2), 100), transfer(token, a(2), a(3), 30)],
    };
    let b = calculate_erc20_balance_changes(&call);
    assert_eq!(change(&b, a(1), token), Some(-100));
    assert_eq!(change(&b, a(2), token), Some(70));
    assert_eq!(change(&b, a(3), token), Some(30));
    assert_eq!(change(&b, a(4), token), None);
    assert!(b.has_changes_for(a(2)));
    assert!(!b.has_changes_for(a(4)));
}

#[test]
fn failed_call_records_nothing() {
    let call = SimCall { status: false, gas_used: 0, logs: vec![transfer(a(9), a(1), a(2), 5)] };
    let b = calculate_erc20_balance_changes(&call);
    assert!(!b.has_changes_for(a(1)));
    assert!(!b.has_changes_for(a(2)));
}

#[test]
fn weth_deposit_and_withdrawal() {
    let weth = weth_address();
    let user = a(5);
    let call = SimCall {
        status: true,
        gas_used: 1,
        logs: vec![
            LogEntry { address: weth, topics: vec![hash(DEPOSIT), topic(user)], data: amount(7) },
            LogEntry { address: weth, topics: vec![hash(WITHDRAWAL), topic(user)], data: amount(3) },
            // a deposit event from another contract is ignored
            LogEntry { address: a(8), topics: vec![hash(DEPOSIT), topic(user)], data: amount(50) },
        ],
    };
    let b = calculate_erc20_balance_changes(&call);
    assert_eq!(change(&b, user, weth), Some(4));
    assert_eq!(change(&b, weth, weth), Some(-4));
    assert!(!b.has_changes_for(a(8)));
    assert_eq!(change(&b, user, a(8)), None);
}

#[test]
fn malformed_logs_are_ignored() {
    let token = a(9);
    let mut short = transfer(token, a(1), a(2), 1);
    short.data.truncate(31);
    let mut extra_topic = transfer(token, a(1), a(2), 1);
    extra_topic.topics.push([0u8; 32]);
    let mut wrong_hash = transfer(token, a(1), a(2), 1);
    wrong_hash.topics[0] = [0u8; 32];
    let call = SimCall { status: true, gas_used: 1, logs: vec![short, extra_topic, wrong_hash] };
    let b = calculate_erc20_balance_changes(&call);
    assert!(!b.has_changes_for(a(1)));
}

#[test]
fn huge_value_counts_negative() {
    let token = a(9);
    let mut log = transfer(token, a(1), a(2), 0);
    log.data = vec![0xff; 32];
    let call = SimCall { status: true, gas_used: 1, logs: vec![log] };
    let b = calculate_erc20_balance_changes(&call);
    assert_eq!(change(&b, a(1), token), Some(1));
    assert_eq!(change(&b, a(2), token), Some(-1));
}

#[test]
fn overflow_is_reported() {
    let token = a(9);
    let mut min = vec![0u8; 32];
    min[0] = 0x80;
    let mut log = transfer(token, a(1), a(2), 0);
    log.data = min;
    let call = SimCall { status: true, gas_used: 1, logs: vec![log] };
    assert!(try_calculate_erc20_balance_changes(&call).is_none());
    let ok = SimCall { status: true, gas_used: 1, logs: vec![transfer(token, a(1), a(2), 1)] };
    assert!(try_calculate_erc20_balance_changes(&ok).is_some());
}

#[test]
fn direct_update_and_raw_sign() {
    let mut b = BalanceChanges::new();
    let token = a(9);
    assert!(b.update_balance_changes(a(1), a(1), token, U256::from_be_bytes(amount(6).try_into().unwrap())));
    assert_eq!(change(&b, a(1), token), Some(0));
    let minus_one = I256::from_raw(U256::from_be_bytes([0xff; 32]));
    assert_eq!(value(minus_one).as_i64(), -1);
    assert_eq!(value(I256::zero()).as_i64(), 0);
}

#[test]
fn changes_sum_to_zero_in_each_token() {
    let (t1, t2) = (a(9), a(10));
    let call = SimCall {
        status: true,
        gas_used: 1,
        logs: vec![
            transfer(t1, a(1), a(2), 100),
            transfer(t2, a(2), a(3), 40),
            transfer(t1, a(2), a(3), 60),
            transfer(t2, a(3), a(1), 15),
        ],
    };
    let b = calculate_erc20_balance_changes(&call);
    for token in [t1, t2] {
        let total: i64 = [a(1), a(2), a(3)].iter().filter_map(|o| change(&b, *o, token)).sum();
        assert_eq!(total, 0);
    }
    assert_eq!(change(&b, a(2), t1), Some(40));
    assert_eq!(change(&b, a(1), t2), Some(15));
}

#[test]
fn log_order_does_not_change_balances() {
    let weth = weth_address();
    let (t1, t2) = (a(9), a(10));
    let logs = vec![
        transfer(t1, a(1), a(2), 100),
        LogEntry { address: weth, topics: vec![hash(DEPOSIT), topic(a(2))], data: amount(8) },
        transfer(t2, a(2), a(3), 40),
        transfer(t1, a(2), a(3), 60),
        // records no movement
        LogEntry { address: a(8), topics: vec![hash(WITHDRAWAL), topic(a(1))], data: amount(50) },
    ];
    let mut reversed = logs.clone();
    reversed.reverse();
    let forward = calculate_erc20_balance_changes(&SimCall { status: true, gas_used: 1, logs: logs.clone() });
    let backward = calculate_erc20_balance_changes(&SimCall { status: true, gas_used: 1, logs: reversed });
    let without_ignored =
        calculate_erc20_balance_changes(&SimCall { status: true, gas_used: 1, logs: logs[..4].to_vec() });
    for owner in [a(1), a(2), a(3), a(8), weth] {
        for token in [t1, t2, weth, a(8)] {
            assert_eq!(change(&forward, owner, token), change(&backward, owner, token));
            assert_eq!(change(&forward, owner, token), change(&without_ignored, owner, token));
        }
    }
    assert_eq!(change(&forward, a(2), t1), Some(40));
    assert_eq!(change(&forward, a(2), weth), Some(8));
    assert_eq!(change(&forward, weth, weth), Some(-8));
    assert_eq!(change(&forward, a(1), a(8)), None);
}
