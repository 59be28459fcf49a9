use burberry_template::address::Address;
use burberry_template::calldata::{build_quote_calldata, build_quote_calldata_with_digest, TradeType};
use burberry_template::compute_routes::ComputeRoutes;
use burberry_template::path::encode_route_to_path;
use burberry_template::pool::{Pool, Route};
use burberry_template::quoter::{
    decode_quote_reply,
    pick_best_quote, pools_from_records, quote_single_calldata, weth_address, PoolRecord,
    QuoteError, UniswapV3Quoter,
};
use burberry_template::uint::U256;

const WETH_HEX: &str = "C02aaA39b223FE8D0A0e5C4F27eAD9083C756Cc2";
const USDC_HEX: &str = "A0b86991c6218b36c1d19D4a2e9Eb0cE3606eB48";
const TOKEN_C_HEX: &str = "0x1111111111111111111111111111111111111111";
const TOKEN_D_HEX: &str = "0x2222222222222222222222222222222222222222";

fn addr(hex: &str) -> Address {
    let a: alloy::primitives::Address = hex.parse().unwrap();
    Address::new(a.into_array())
}

fn pool_addr(n: u8) -> String {
    format!("0x{}", format!("{:02x}", n).repeat(20))
}

fn record(n: u8, fee: &str, t0: &str, t1: &str) -> PoolRecord {
    PoolRecord {
        id: pool_addr(n),
        fee_tier: fee.to_string(),
        token0: t0.to_string(),
        token1: t1.to_string(),
    }
}

/// USDC-WETH (500), USDC-C, C-WETH, C-D, USDC-WETH (3000).
fn fixture_records() -> Vec<PoolRecord> {
    vec![
        record(0xa0, "500", USDC_HEX, WETH_HEX),
        record(0xa1, "3000", USDC_HEX, TOKEN_C_HEX),
        record(0xa2, "3000", TOKEN_C_HEX, WETH_HEX),
        record(0xa3, "10000", TOKEN_C_HEX, TOKEN_D_HEX),
        record(0xa4, "3000", WETH_HEX, USDC_HEX),
    ]
}

fn fixture_pools() -> Vec<Pool> {
    pools_from_records(&fixture_records())
}

fn u256(v: u64) -> U256 {
    U256::from_be_bytes(alloy::primitives::U256::from(v).to_be_bytes::<32>())
}

#[test]
fn test_get_all_univ3_routes() {
    let quoter = UniswapV3Quoter::new(&fixture_records());
    let usdc = addr(USDC_HEX);
    let weth = addr(WETH_HEX);

    let routes = quoter.get_all_routes(usdc, weth, Some(2));
    assert!(!routes.is_empty(), "Should find at least one route");
    for route in routes {
        let token_in = route.token_in;
        let token_out = route.token_out;
        assert_eq!(token_in, usdc);
        assert_eq!(token_out, weth);
        let hop = route.pools.len();
        assert!(hop <= 2, "Hop count should be at most 2");
        if hop == 1 {
            assert!(route.pools[0].involves_token(token_in));
            assert!(route.pools[0].involves_token(token_out));
        } else if hop == 2 {
            assert!(route.pools[0].involves_token(token_in));
            assert!(route.pools[1].involves_token(token_out));
        } else {
            panic!("hop should be less than 3");
        }
    }
}

#[test]
fn test_precompute_tokens_to_weth_routes() {
    let quoter = UniswapV3Quoter::new_and_precompute_weth_routes(&fixture_records());
    let weth_address = weth_address();
    let usdc = addr(USDC_HEX);

    assert!(quoter.cached_token_count() > 0, "Should cache at least some routes");
    assert!(
        !quoter.has_cached_routes(weth_address),
        "WETH should not be in the cache"
    );
    assert!(quoter.has_cached_routes(usdc), "USDC should be in the cache");
}

#[test]
fn routes_come_in_search_order() {
    let pools = fixture_pools();
    let usdc = addr(USDC_HEX);
    let weth = addr(WETH_HEX);
    let mut search = ComputeRoutes::new(usdc, weth, pools.clone(), 2);
    search.compute_all_univ3_routes();
    let routes = search.get_routes();
    let fees: Vec<Vec<u32>> = routes
        .iter()
        .map(|r| r.pools.iter().map(|p| p.fee).collect())
        .collect();
    assert_eq!(fees, vec![vec![500], vec![3000, 3000], vec![3000]]);
    assert_eq!(routes[1].pools[0].address, pools[1].address);
    assert_eq!(routes[1].pools[1].address, pools[2].address);
}

#[test]
fn every_route_swaps_into_token_out() {
    let quoter = UniswapV3Quoter::new(&fixture_records());
    let usdc = addr(USDC_HEX);
    let d = addr(TOKEN_D_HEX);
    let routes = quoter.get_all_routes(d, usdc, Some(3));
    assert_eq!(routes.len(), 3);
    for route in routes {
        let mut held = route.token_in;
        for pool in route.pools.iter() {
            assert!(pool.involves_token(held));
            held = pool.get_token_out(held);
        }
        assert_eq!(held, usdc);
    }
}

#[test]
fn hop_limit_one_keeps_direct_pools() {
    let quoter = UniswapV3Quoter::new(&fixture_records());
    let routes = quoter.get_all_routes(addr(USDC_HEX), addr(WETH_HEX), Some(1));
    assert_eq!(routes.len(), 2);
    assert!(routes.iter().all(|r| r.pools.len() == 1));
}

#[test]
fn search_runs_twice_appends() {
    let mut search = ComputeRoutes::new(addr(USDC_HEX), addr(WETH_HEX), fixture_pools(), 2);
    search.compute_all_univ3_routes();
    search.compute_all_univ3_routes();
    assert_eq!(search.get_routes().len(), 6);
}

#[test]
fn no_route_to_unknown_token() {
    let quoter = UniswapV3Quoter::new(&fixture_records());
    let unknown = addr("0x3333333333333333333333333333333333333333");
    assert!(quoter.get_all_routes(addr(USDC_HEX), unknown, None).is_empty());
    assert_eq!(
        quoter.routes_for_quote(addr(USDC_HEX), unknown).err(),
        Some(QuoteError::NoRoute)
    );
}

#[test]
fn same_token_is_refused() {
    let quoter = UniswapV3Quoter::new(&fixture_records());
    assert_eq!(
        quoter.routes_for_quote(addr(USDC_HEX), addr(USDC_HEX)).err(),
        Some(QuoteError::SameToken)
    );
}

#[test]
fn cached_and_searched_routes_agree() {
    let plain = UniswapV3Quoter::new(&fixture_records());
    let cached = UniswapV3Quoter::new_and_precompute_weth_routes(&fixture_records());
    let a = plain.routes_for_quote(addr(USDC_HEX), addr(WETH_HEX)).unwrap();
    let b = cached.routes_for_quote(addr(USDC_HEX), addr(WETH_HEX)).unwrap();
    assert_eq!(a.len(), 3);
    assert_eq!(a.len(), b.len());
    for (x, y) in a.iter().zip(b.iter()) {
        assert_eq!(x.pools.len(), y.pools.len());
        for (p, q) in x.pools.iter().zip(y.pools.iter()) {
            assert_eq!(p.address, q.address);
        }
    }
    // C and D reach WETH; D only through C.
    assert!(cached.has_cached_routes(addr(TOKEN_C_HEX)));
    assert!(cached.has_cached_routes(addr(TOKEN_D_HEX)));
    assert_eq!(cached.cached_token_count(), 3);
}

#[test]
fn pools_from_records_dedups_and_skips_bad_rows() {
    let records = vec![
        record(0xa0, "500", USDC_HEX, WETH_HEX),
        record(0xa1, "not a fee", USDC_HEX, WETH_HEX),
        PoolRecord {
            id: "0x12".to_string(),
            fee_tier: "500".to_string(),
            token0: USDC_HEX.to_string(),
            token1: WETH_HEX.to_string(),
        },
        record(0xa0, "+3000", WETH_HEX, TOKEN_C_HEX),
        record(0xa2, "4294967296", USDC_HEX, WETH_HEX),
        record(0xa3, "100", "0xzz22222222222222222222222222222222222222", WETH_HEX),
    ];
    let pools = pools_from_records(&records);
    assert_eq!(pools.len(), 1);
    assert_eq!(pools[0].fee, 3000);
    assert_eq!(pools[0].token0, addr(WETH_HEX));
    assert_eq!(pools[0].token1, addr(TOKEN_C_HEX));
    assert_eq!(pools[0].address, Address::new([0xa0; 20]));
}

#[test]
fn pool_token_out_and_tokens() {
    let pools = fixture_pools();
    let p = pools[1];
    assert_eq!(p.tokens(), [addr(USDC_HEX), addr(TOKEN_C_HEX)]);
    assert_eq!(p.get_token_out(addr(USDC_HEX)), addr(TOKEN_C_HEX));
    assert_eq!(p.get_token_out(addr(TOKEN_C_HEX)), addr(USDC_HEX));
    // a token the pool does not trade: token0 comes out
    assert_eq!(p.get_token_out(addr(WETH_HEX)), addr(USDC_HEX));
    assert!(!p.involves_token(addr(WETH_HEX)));
}

#[test]
fn best_quote_is_last_maximum() {
    let amounts = vec![Some(u256(5)), None, Some(u256(9)), Some(u256(2)), Some(u256(9))];
    assert_eq!(pick_best_quote(&amounts), Some(4));
    let big = U256::from_be_bytes([0xff; 32]);
    let amounts = vec![Some(big), Some(u256(9))];
    assert_eq!(pick_best_quote(&amounts), Some(0));
    let none: Vec<Option<U256>> = vec![None, None];
    assert_eq!(pick_best_quote(&none), None);
    assert_eq!(pick_best_quote(&vec![]), None);
}

#[test]
fn path_encoding_exact_input_and_output() {
    let pools = fixture_pools();
    let usdc = addr(USDC_HEX);
    let weth = addr(WETH_HEX);
    let c = addr(TOKEN_C_HEX);
    let route = Route { token_in: usdc, token_out: weth, pools: vec![pools[1], pools[2]] };
    let fwd = encode_route_to_path(&route, false);
    let mut expected = Vec::new();
    expected.extend_from_slice(&usdc.bytes);
    expected.extend_from_slice(&[0x00, 0x0b, 0xb8]);
    expected.extend_from_slice(&c.bytes);
    expected.extend_from_slice(&[0x00, 0x0b, 0xb8]);
    expected.extend_from_slice(&weth.bytes);
    assert_eq!(fwd, expected);
    assert_eq!(fwd.len(), 23 * 2 + 20);

    let back = encode_route_to_path(&route, true);
    let mut expected = Vec::new();
    expected.extend_from_slice(&weth.bytes);
    expected.extend_from_slice(&[0x00, 0x0b, 0xb8]);
    expected.extend_from_slice(&c.bytes);
    expected.extend_from_slice(&[0x00, 0x0b, 0xb8]);
    expected.extend_from_slice(&usdc.bytes);
    assert_eq!(back, expected);
}

#[test]
fn path_of_empty_route_is_the_end_token() {
    let route = Route { token_in: addr(USDC_HEX), token_out: addr(WETH_HEX), pools: vec![] };
    assert_eq!(encode_route_to_path(&route, false), addr(WETH_HEX).bytes.to_vec());
    assert_eq!(encode_route_to_path(&route, true), addr(USDC_HEX).bytes.to_vec());
}

fn word(bytes: &[u8]) -> Vec<u8> {
    let mut w = vec![0u8; 32 - bytes.len()];
    w.extend_from_slice(bytes);
    w
}

#[test]
fn single_pool_calldata() {
    let pools = fixture_pools();
    let usdc = addr(USDC_HEX);
    let weth = addr(WETH_HEX);
    let amount = u256(1_000_000);
    let route = Route { token_in: usdc, token_out: weth, pools: vec![pools[0]] };
    let data = build_quote_calldata(amount, &route, TradeType::ExactInput, None);
    let mut expected = vec![0xf7, 0x72, 0x9d, 0x43];
    expected.extend(word(&usdc.bytes));
    expected.extend(word(&weth.bytes));
    expected.extend(word(&[0x00, 0x01, 0xf4]));
    expected.extend(word(&1_000_000u64.to_be_bytes()));
    expected.extend(word(&[]));
    assert_eq!(data, expected);

    let out = build_quote_calldata(amount, &route, TradeType::ExactOutput, None);
    assert_eq!(&out[..4], &[0x30, 0xd0, 0x7f, 0x21]);
    assert_eq!(&out[4..], &expected[4..]);

    let single = quote_single_calldata(usdc, amount, pools[0], None);
    assert_eq!(single, expected);
    assert_eq!(TradeType::default(), TradeType::ExactInput);
}

#[test]
fn multi_hop_calldata() {
    let pools = fixture_pools();
    let usdc = addr(USDC_HEX);
    let weth = addr(WETH_HEX);
    let route = Route { token_in: usdc, token_out: weth, pools: vec![pools[1], pools[2]] };
    let amount = u256(42);
    let data = build_quote_calldata(amount, &route, TradeType::ExactInput, None);
    let path = encode_route_to_path(&route, false);
    let mut expected = vec![0xcd, 0xca, 0x17, 0x53];
    expected.extend(word(&[0x40]));
    expected.extend(word(&[42]));
    expected.extend(word(&[path.len() as u8]));
    expected.extend(&path);
    expected.extend(vec![0u8; 96 - path.len()]);
    assert_eq!(data, expected);

    let out = build_quote_calldata(amount, &route, TradeType::ExactOutput, None);
    assert_eq!(&out[..4], &[0x2f, 0x80, 0xbb, 0x1d]);
    let back = encode_route_to_path(&route, true);
    assert_eq!(&out[4 + 96..4 + 96 + back.len()], &back[..]);
}

#[test]
fn quote_reply_is_its_first_word() {
    let mut reply = alloy::primitives::U256::from(123_456_789u64).to_be_bytes::<32>().to_vec();
    reply.extend_from_slice(&[0xffu8; 32]);
    let v = decode_quote_reply(&reply).unwrap();
    assert_eq!(alloy::primitives::U256::from_be_bytes(v.bytes), alloy::primitives::U256::from(123_456_789u64));
    assert_eq!(decode_quote_reply(&reply[..31].to_vec()).unwrap_err(), QuoteError::UndecodableReply);
    assert_eq!(decode_quote_reply(&vec![]).unwrap_err(), QuoteError::UndecodableReply);
}

#[test]
fn calldata_starts_with_the_digest() {
    let pools = fixture_pools();
    let usdc = addr(USDC_HEX);
    let weth = addr(WETH_HEX);
    let amount = u256(7);
    let single = Route { token_in: usdc, token_out: weth, pools: vec![pools[0]] };
    let mut digest = [0u8; 32];
    for (i, b) in digest.iter_mut().enumerate() {
        *b = 0xa0 + i as u8;
    }
    let data = build_quote_calldata_with_digest(&digest, amount, &single, TradeType::ExactInput, None);
    assert_eq!(&data[..4], &[0xa0, 0xa1, 0xa2, 0xa3]);
    let real = build_quote_calldata(amount, &single, TradeType::ExactInput, None);
    assert_eq!(&data[4..], &real[4..]);
    assert_eq!(data.len(), 4 + 5 * 32);

    let sig = alloy::primitives::keccak256("quoteExactOutput(bytes,uint256)".as_bytes());
    let multi = Route { token_in: usdc, token_out: weth, pools: vec![pools[1], pools[2]] };
    let with_digest = build_quote_calldata_with_digest(&sig.0, amount, &multi, TradeType::ExactOutput, None);
    assert_eq!(with_digest, build_quote_calldata(amount, &multi, TradeType::ExactOutput, None));
    assert_eq!(&with_digest[..4], &[0x2f, 0x80, 0xbb, 0x1d]);
}
