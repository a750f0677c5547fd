use hassan::addrman::AddrMan;

#[test]
fn add_good_promote_and_select() {
    let mut am = AddrMan::new();
    assert!(am.add("203.0.113.1:8333", "seed"));
    assert!(am.add("198.51.100.2:8333", "seed"));
    assert!(!am.add("203.0.113.1:8333", "dup"));
    am.good("203.0.113.1:8333");
    let st = am.stats();
    assert!(st.tried >= 1);
    let sel = am.select(2, &[]);
    assert!(!sel.is_empty());
}

#[test]
fn feeler_pops_new() {
    let mut am = AddrMan::new();
    am.add("203.0.113.9:9000", "x");
    assert_eq!(am.select_feeler().as_deref(), Some("203.0.113.9:9000"));
}

#[test]
fn select_prefers_one_address_per_network_group() {
    let mut am = AddrMan::new();
    assert!(am.add("10.1.0.1:8333", "seed"));
    assert!(am.add("10.1.0.2:8333", "seed"));
    assert!(am.add("10.1.0.3:8333", "seed"));
    assert!(am.add("172.16.5.5:8333", "seed"));
    assert!(am.add("192.0.2.7:8333", "seed"));
    let sel = am.select(3, &[]);
    assert_eq!(sel.len(), 3);
    let groups: std::collections::BTreeSet<String> =
        sel.iter().map(|a| a.split('.').take(2).collect::<Vec<_>>().join(".")).collect();
    assert_eq!(groups.len(), 3, "three distinct /16 groups: {sel:?}");
    let all = am.select(10, &[]);
    assert_eq!(all.len(), 5);
    let some = am.select(10, &["172.16.5.5:8333".to_string()]);
    assert_eq!(some.len(), 4);
    assert!(!some.contains(&"172.16.5.5:8333".to_string()));
}

#[test]
fn select_keeps_tried_addresses_before_new_ones() {
    let mut am = AddrMan::new();
    assert!(am.add("10.1.0.1:8333", "seed"));
    assert!(am.add("10.1.0.2:8333", "seed"));
    assert!(am.add("172.16.5.5:8333", "seed"));
    am.good("10.1.0.1:8333");
    am.good("10.1.0.2:8333");
    let sel = am.select(3, &[]);
    assert_eq!(sel.len(), 3);
    let first_two: std::collections::BTreeSet<&str> = sel[..2].iter().map(|s| s.as_str()).collect();
    assert!(first_two.contains("10.1.0.1:8333") && first_two.contains("10.1.0.2:8333"), "{sel:?}");
    assert_eq!(sel[2], "172.16.5.5:8333");
}
