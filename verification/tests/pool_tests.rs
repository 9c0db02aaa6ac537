use call_relay::pool::CodePool;

fn universe(n: usize) -> Vec<String> {
    let mut v = Vec::new();
    for i in 0..n {
        v.push(i.to_string());
    }
    v
}

#[test]
fn claim_all_codes_then_none() {
    let mut pool = CodePool::from_universe(universe(5));
    let mut claimed = Vec::new();
    for _ in 0..5 {
        let code = pool.claim().expect("a code should be available");
        claimed.push(code);
    }
    assert_eq!(pool.len(), 0);
    assert!(pool.claim().is_none());
    claimed.sort();
    claimed.dedup();
    assert_eq!(claimed.len(), 5, "no two claims returned the same code");
}

#[test]
fn claim_on_empty_pool_is_none() {
    let mut pool = CodePool::empty();
    assert!(pool.claim().is_none());
}

#[test]
fn release_makes_code_claimable_again() {
    let mut pool = CodePool::from_universe(vec!["7".to_string()]);
    let code = pool.claim().expect("a code should be available");
    assert_eq!(code, "7");
    assert!(pool.claim().is_none());
    pool.release(code);
    assert_eq!(pool.claim().as_deref(), Some("7"));
}

#[test]
fn from_universe_drops_duplicates() {
    let mut pool = CodePool::from_universe(vec![
        "1".to_string(),
        "2".to_string(),
        "1".to_string(),
    ]);
    assert_eq!(pool.len(), 2);
    assert!(pool.contains_code(&"1".to_string()));
    assert!(pool.contains_code(&"2".to_string()));
    let a = pool.claim().unwrap();
    let b = pool.claim().unwrap();
    assert_ne!(a, b);
    assert!(pool.claim().is_none());
}
