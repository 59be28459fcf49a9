use burberry_template::block_state::{BlockInfo, BlockState};

fn block(number: u64, used: u64, limit: u64, base: u64) -> BlockInfo {
    BlockInfo::from_header_fields(number, 1_700_000_000, used, limit, Some(base))
}

#[test]
fn next_block_at_target_keeps_base_fee() {
    let b = block(100, 15_000_000, 30_000_000, 100_000_000_000);
    let n = b.get_next_block();
    assert_eq!(n.number, 101);
    assert_eq!(n.timestamp, 1_700_000_012);
    assert_eq!(n.base_fee_per_gas, 100_000_000_000);
    assert_eq!(n.gas_used, None);
    assert_eq!(n.gas_limit, None);
}

#[test]
fn full_block_raises_base_fee_by_an_eighth() {
    let n = block(1, 30_000_000, 30_000_000, 100_000_000_000).get_next_block();
    assert_eq!(n.base_fee_per_gas, 112_500_000_000);
}

#[test]
fn empty_block_lowers_base_fee_by_an_eighth() {
    let n = block(1, 0, 30_000_000, 100_000_000_000).get_next_block();
    assert_eq!(n.base_fee_per_gas, 87_500_000_000);
}

#[test]
fn small_increase_is_at_least_one() {
    let n = block(1, 15_000_001, 30_000_000, 7).get_next_block();
    assert_eq!(n.base_fee_per_gas, 8);
}

#[test]
fn increase_wraps_at_64_bits() {
    // target 1, usage 2^63 + 1, base 16: the raw increase is 2^64
    let n = block(1, (1u64 << 63) + 1, 2, 16).get_next_block();
    assert_eq!(n.base_fee_per_gas, 16);
}

#[test]
fn header_without_base_fee_counts_zero() {
    let b = BlockInfo::from_header_fields(5, 60, 10, 20, None);
    assert_eq!(b.base_fee_per_gas, 0);
    assert_eq!(b.gas_used, Some(10));
    assert_eq!(b.gas_limit, Some(20));
}

#[test]
fn default_state_expects_block_one() {
    let s = BlockState::new();
    let latest = s.get_latest_block();
    assert_eq!(latest.number, 0);
    let next = s.get_next_block();
    assert_eq!(next.number, 1);
    assert_eq!(next.timestamp, 12);
    assert_eq!(next.base_fee_per_gas, 0);
    let d = BlockState::default();
    assert_eq!(d.get_next_block().number, 1);
    let info = BlockInfo::default();
    assert_eq!(info.number, 0);
    assert_eq!(info.gas_used, None);
}

#[test]
fn update_keeps_next_block_derived() {
    let mut s = BlockState::new();
    let b = block(200, 30_000_000, 30_000_000, 8);
    s.update_block_info(b);
    assert_eq!(s.get_latest_block().number, 200);
    let next = s.get_next_block();
    assert_eq!(next.number, 201);
    assert_eq!(next.base_fee_per_gas, 9);
}

#[test]
fn next_base_fee_rises_with_gas_used_within_bounds() {
    let base_fee: u64 = 100_000_000_000;
    let gas_limit: u64 = 30_000_000;
    let mut previous = 0u64;
    for step in 0..=30u64 {
        let gas_used = step * 1_000_000;
        let block = BlockInfo::from_header_fields(1, 0, gas_used, gas_limit, Some(base_fee));
        assert!(block.can_get_next_block());
        let next = block.get_next_block().base_fee_per_gas;
        assert!(next >= previous);
        assert!(next >= base_fee - base_fee / 8);
        assert!(next <= base_fee + base_fee / 8);
        assert_eq!(next > base_fee, gas_used > gas_limit / 2);
        previous = next;
    }
    let full = BlockInfo::from_header_fields(1, 0, gas_limit, gas_limit, Some(base_fee));
    assert_eq!(full.get_next_block().base_fee_per_gas, 112_500_000_000);
    let empty = BlockInfo::from_header_fields(1, 0, 0, gas_limit, Some(base_fee));
    assert_eq!(empty.get_next_block().base_fee_per_gas, 87_500_000_000);
    // a tiny fee still rises by one above the target
    let tiny = BlockInfo::from_header_fields(1, 0, 16_000_000, gas_limit, Some(7));
    assert_eq!(tiny.get_next_block().base_fee_per_gas, 8);
}
