use burberry_template::address::Address;
use burberry_template::block_state::BlockInfo;
use burberry_template::executor::{next_submission_step, set_nonce, EchoExecutor, SubmissionStep};
use burberry_template::flashbots::RelayPlan;
use burberry_template::simulator::{calculate_erc20_balance_changes, LogEntry, SimCall};
use burberry_template::strategy::{
    bundle_request, Action, Config, Event, Reaction, Strategy, StrategyError,
    DEFAULT_MAX_PRIORITY_FEE,
};

fn a(n: u8) -> Address {
    Address::new([n; 20])
}

fn config() -> Config {
    Config { contract_address: a(7), calldata: vec![1, 2, 3], max_priority_fee: DEFAULT_MAX_PRIORITY_FEE }
}

#[test]
fn block_event_builds_for_next_block() {
    let mut s = Strategy::new(config(), a(1));
    let header = BlockInfo::from_header_fields(10, 1000, 15_000_000, 30_000_000, Some(20_000_000_000));
    let next = s.on_block(header);
    assert_eq!(next.number, 11);
    assert_eq!(next.timestamp, 1012);
    assert_eq!(s.next_block().number, 11);

    let tx = s.simulation_request();
    assert_eq!(tx.from, Some(a(1)));
    assert_eq!(tx.to, Some(a(7)));
    assert_eq!(tx.input, vec![1, 2, 3]);
    assert_eq!(tx.nonce, None);

    let tx = s.finalize_tx(tx, 5, next, 70_000);
    assert_eq!(tx.nonce, Some(5));
    assert_eq!(tx.max_fee_per_gas, Some(21_000_000_000));
    assert_eq!(tx.max_priority_fee_per_gas, Some(21_000_000_000));
    assert_eq!(tx.gas_limit, Some(100_000));

    let bundle = bundle_request(tx, next);
    assert_eq!(bundle.block, 11);
}

#[test]
fn events_are_handled() {
    let mut s = Strategy::new(config(), a(1));
    let header = BlockInfo::from_header_fields(10, 1000, 15_000_000, 30_000_000, Some(20_000_000_000));
    match s.process_event(Event::Block(header)) {
        Reaction::BuildFor(next) => {
            assert_eq!(next.number, 11);
            assert_eq!(next.timestamp, 1012);
            assert_eq!(next.base_fee_per_gas, 20_000_000_000);
        }
        Reaction::Act(_) => panic!("a block is built for"),
    }
    assert_eq!(s.next_block().number, 11);
    match s.process_event(Event::Transaction([9u8; 32])) {
        Reaction::Act(Action::EchoTransaction(h)) => assert_eq!(h, [9u8; 32]),
        _ => panic!("a pending transaction is echoed"),
    }
    assert_eq!(s.next_block().number, 11);
}

#[test]
fn gas_limit_rounds_down() {
    let s = Strategy::new(config(), a(1));
    let next = s.next_block();
    let tx = s.finalize_tx(s.simulation_request(), 0, next, 10);
    assert_eq!(tx.gas_limit, Some(14));
    assert_eq!(tx.max_fee_per_gas, Some(1_000_000_000));
}

#[test]
fn simulation_without_contract_changes_is_refused() {
    let s = Strategy::new(config(), a(1));
    let mut topic1 = [0u8; 32];
    topic1[12..].copy_from_slice(&a(7).bytes);
    let mut topic2 = [0u8; 32];
    topic2[12..].copy_from_slice(&a(2).bytes);
    let transfer: alloy::primitives::B256 =
        "ddf252ad1be2c89b69c2b068fc378daa952ba7f163c4a11628f55a4df523b3ef".parse().unwrap();
    let log = LogEntry { address: a(9), topics: vec![transfer.0, topic1, topic2], data: vec![0u8; 32] };
    let with = SimCall { status: true, gas_used: 1, logs: vec![log] };
    assert_eq!(s.check_simulation(&calculate_erc20_balance_changes(&with)), Ok(()));
    let without = SimCall { status: true, gas_used: 1, logs: vec![] };
    assert_eq!(
        s.check_simulation(&calculate_erc20_balance_changes(&without)),
        Err(StrategyError::NoBalanceChanges)
    );
}

#[test]
fn submission_steps() {
    let s = Strategy::new(config(), a(1));
    let mut tx = s.simulation_request();
    let signers = vec![a(1)];
    assert!(matches!(next_submission_step(&tx, &signers), SubmissionStep::FetchNonce(x) if x == a(1)));
    assert!(matches!(next_submission_step(&tx, &vec![a(2)]), SubmissionStep::MissingSigner(x) if x == a(1)));
    tx = set_nonce(tx, 3);
    assert_eq!(tx.nonce, Some(3));
    assert!(matches!(next_submission_step(&tx, &signers), SubmissionStep::Sign(x) if x == a(1)));
    tx.from = None;
    assert!(matches!(next_submission_step(&tx, &signers), SubmissionStep::MissingSender));
    let _echo: EchoExecutor<u32> = EchoExecutor::new();
}

#[test]
fn relay_plans() {
    let plan = RelayPlan::new();
    assert_eq!(plan.len(), 0);
    let plan = plan.with_default_relays();
    assert_eq!(plan.len(), 15);
    assert_eq!(plan.get(0).url, "https://relay.flashbots.net");
    assert!(plan.get(0).signed);
    assert_eq!(plan.get(5).name, "https://eth-builder.com");
    assert!(!plan.get(5).signed);
    let plan = plan.with_relay("https://example.org");
    assert_eq!(plan.len(), 16);
    assert_eq!(plan.get(15).url, "https://example.org");
    assert!(plan.get(15).signed);
}
