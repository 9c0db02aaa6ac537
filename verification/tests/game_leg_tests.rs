use call_relay::game_leg::game_close;
use call_relay::game_leg::game_open;
use call_relay::game_leg::handshake_frames;
use call_relay::pool::CodePool;
use call_relay::registry::PairingRegistry;
use call_relay::relay::RelayMessage;

#[test]
fn handshake_sends_phone_number_then_code() {
    let frames = handshake_frames(&"+15550100".to_string(), &"42".to_string());
    assert_eq!(frames, vec!["+15550100".to_string(), "42".to_string()]);
}

#[test]
fn open_registers_and_close_returns_the_code() {
    let mut pool = CodePool::from_universe(vec!["11".to_string()]);
    let mut reg = PairingRegistry::empty();

    let (game_tx, game_rx) = async_channel::unbounded::<RelayMessage>();
    let code = game_open(&mut pool, &mut reg, game_tx).expect("one code is free");
    assert_eq!(code, "11");
    assert_eq!(pool.len(), 0);
    assert_eq!(reg.codes(), vec!["11".to_string()]);

    // The registered entry carries this leg's channel.
    let m = RelayMessage::Text("transcript".to_string());
    assert!(reg.forward_to_game(&code, m.clone()));
    assert_eq!(game_rx.try_recv().ok(), Some(m));

    // On disconnect the entry goes and the code reappears in the pool:
    // the next claim returns it (deterministic, it is the sole free code).
    game_close(&mut pool, &mut reg, &code);
    assert_eq!(reg.len(), 0);
    assert_eq!(pool.claim().as_deref(), Some("11"));
}

#[test]
fn open_on_exhausted_pool_refuses() {
    let mut pool = CodePool::empty();
    let mut reg = PairingRegistry::empty();
    let (game_tx, _game_rx) = async_channel::unbounded::<RelayMessage>();
    assert!(game_open(&mut pool, &mut reg, game_tx).is_none());
    assert_eq!(reg.len(), 0);
}

#[test]
fn close_twice_is_harmless() {
    let mut pool = CodePool::from_universe(vec!["2".to_string()]);
    let mut reg = PairingRegistry::empty();
    let (game_tx, _game_rx) = async_channel::unbounded::<RelayMessage>();
    let code = game_open(&mut pool, &mut reg, game_tx).unwrap();

    game_close(&mut pool, &mut reg, &code);
    game_close(&mut pool, &mut reg, &code);
    assert_eq!(pool.len(), 1);
    assert_eq!(reg.len(), 0);
}

#[test]
fn conservation_holds_across_open_and_close() {
    let universe: Vec<String> = (0..4).map(|i| i.to_string()).collect();
    let mut pool = CodePool::from_universe(universe.clone());
    let mut reg = PairingRegistry::empty();

    let (tx_a, _rx_a) = async_channel::unbounded::<RelayMessage>();
    let (tx_b, _rx_b) = async_channel::unbounded::<RelayMessage>();
    let a = game_open(&mut pool, &mut reg, tx_a).unwrap();
    let _b = game_open(&mut pool, &mut reg, tx_b).unwrap();
    assert_eq!(pool.len() + reg.len(), universe.len());

    game_close(&mut pool, &mut reg, &a);
    assert_eq!(pool.len() + reg.len(), universe.len());
}
