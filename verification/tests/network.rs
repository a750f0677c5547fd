use hassan::chain::{Account, ChainState};
use hassan::genesis::effective_min_difficulty;
use hassan::netaddr::{net_group, parse_host, parse_ip, IpAddr};
use hassan::text::{contains_text, parse_unsigned_text, starts_with, trim_text};
use hassan::{generate_keypair, genesis_block, genesis_hash, hash_to_address, test_address, TransparentTx};

#[test]
fn ipv4_parses_and_groups_by_its_first_two_octets() {
    match parse_ip(b"192.168.1.20") {
        Some(IpAddr::V4(o)) => {
            assert_eq!(o, vec![192, 168, 1, 20]);
            assert_eq!(net_group(&IpAddr::V4(o)), vec![192, 168]);
        }
        _ => panic!("expected an IPv4 address"),
    }
    assert!(parse_ip(b"256.1.1.1").is_none());
    assert!(parse_ip(b"1.2.3").is_none());
    assert!(parse_ip(b"").is_none());
}

#[test]
fn ipv6_parses_with_compression() {
    match parse_ip(b"2001:db8::1") {
        Some(IpAddr::V6(g)) => {
            assert_eq!(g, vec![0x2001, 0xdb8, 0, 0, 0, 0, 0, 1]);
            assert_eq!(net_group(&IpAddr::V6(g)), vec![0x20, 0x01, 0x0d, 0xb8]);
        }
        _ => panic!("expected an IPv6 address"),
    }
    assert!(parse_ip(b"1::2::3").is_none());
}

#[test]
fn host_part_is_taken_before_the_port() {
    match parse_host(b"10.0.0.7:8333") {
        Some(IpAddr::V4(o)) => assert_eq!(o, vec![10, 0, 0, 7]),
        _ => panic!("expected an IPv4 host"),
    }
    match parse_host(b"[::1]:8333") {
        Some(IpAddr::V6(g)) => assert_eq!(g, vec![0, 0, 0, 0, 0, 0, 0, 1]),
        _ => panic!("expected an IPv6 host"),
    }
    assert!(parse_host(b"example.org:80").is_none());
}

#[test]
fn text_helpers_trim_and_parse() {
    assert_eq!(trim_text("  hi there \n"), "hi there");
    assert!(starts_with("op:genesis", "op:"));
    assert!(!starts_with("op", "op:"));
    assert!(contains_text("protocol:genesis", "genesis"));
    assert_eq!(parse_unsigned_text("42", 100), Some(42));
    assert_eq!(parse_unsigned_text("420", 100), None);
    assert_eq!(parse_unsigned_text("4a", 100), None);
    assert_eq!(parse_unsigned_text("", 100), None);
}

#[test]
fn block_selection_of_no_transfers_is_empty() {
    let state = ChainState::new();
    assert!(state.select_valid_block_txs(&[]).is_empty());
}

#[test]
fn block_selection_keeps_only_transfers_that_replay() {
    let (sk, pk) = generate_keypair().unwrap();
    let from = hash_to_address(&pk);
    let mut state = ChainState::new();
    state.accounts.push((
        from.clone(),
        Account { balance: 1_000_000, nonce: 0, last_spend_blue: 0, code_hash: None, storage_root: hassan::hash::Hash::zero() },
    ));
    let mut good = TransparentTx::new(pk.clone(), test_address(1), 1000, 0, state.chain_id);
    good.sign(&sk).unwrap();
    let mut gap = TransparentTx::new(pk.clone(), test_address(1), 1000, 5, state.chain_id);
    gap.sign(&sk).unwrap();
    let mut unsigned = TransparentTx::new(pk, test_address(2), 1000, 1, state.chain_id);
    unsigned.signature = vec![0u8; 10];
    let picked = state.select_valid_block_txs(&[gap.clone(), good.clone(), unsigned]);
    assert_eq!(picked.len(), 1);
    assert_eq!(picked[0].nonce, 0);
    assert_eq!(picked[0].amount, 1000);
}

#[test]
fn fresh_chain_difficulty_is_the_era_floor() {
    let state = ChainState::new();
    let tips = state.tips.clone();
    assert_eq!(state.expected_difficulty(&tips), effective_min_difficulty());
    let g = genesis_block();
    assert_eq!(state.past_median_time(&genesis_hash()), g.timestamp);
    assert!(state.finality_point().is_none());
    assert!(!state.is_body_pruned(&genesis_hash()));
}
