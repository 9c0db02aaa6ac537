use call_relay::bridge::RecognitionBridge;
use call_relay::bridge::scan_for_code;
use call_relay::registry::PairingRegistry;
use call_relay::relay::RelayMessage;

#[test]
fn spoken_code_completes_the_pairing() {
    let mut reg = PairingRegistry::empty();
    let (game_tx, _game_rx) = async_channel::unbounded::<RelayMessage>();
    reg.register("7".to_string(), game_tx);

    let mut bridge = RecognitionBridge::new();
    assert!(bridge.matched_code.is_none());

    let (rev_tx, rev_rx) = crossbeam_channel::unbounded::<RelayMessage>();
    bridge.on_response(&mut reg, Some(vec!["please join game 7".to_string()]), rev_tx);

    assert_eq!(bridge.matched_code.as_deref(), Some("7"));
    let m = RelayMessage::Text("patched".to_string());
    assert!(reg.forward_to_telephony(&"7".to_string(), m.clone()));
    assert_eq!(rev_rx.try_recv().ok(), Some(m));
}

#[test]
fn matched_bridge_forwards_every_alternative_in_order() {
    let mut reg = PairingRegistry::empty();
    let (game_tx, game_rx) = async_channel::unbounded::<RelayMessage>();
    reg.register("5".to_string(), game_tx);

    let mut bridge = RecognitionBridge::new();
    let (rev_a, _rx_a) = crossbeam_channel::unbounded::<RelayMessage>();
    bridge.on_response(&mut reg, Some(vec!["5".to_string()]), rev_a);
    assert_eq!(bridge.matched_code.as_deref(), Some("5"));

    let (rev_b, _rx_b) = crossbeam_channel::unbounded::<RelayMessage>();
    let delivered =
        bridge.on_response(&mut reg, Some(vec!["one".to_string(), "two".to_string()]), rev_b);
    assert_eq!(delivered, 2);
    // The match itself was not forwarded; only post-match alternatives are.
    assert_eq!(game_rx.try_recv().ok(), Some(RelayMessage::Text("one".to_string())));
    assert_eq!(game_rx.try_recv().ok(), Some(RelayMessage::Text("two".to_string())));
    assert!(game_rx.try_recv().is_err());
}

#[test]
fn unparseable_response_is_ignored() {
    let mut reg = PairingRegistry::empty();
    let (game_tx, _game_rx) = async_channel::unbounded::<RelayMessage>();
    reg.register("1".to_string(), game_tx);

    let mut bridge = RecognitionBridge::new();
    let (rev_tx, _rev_rx) = crossbeam_channel::unbounded::<RelayMessage>();
    bridge.on_response(&mut reg, None, rev_tx);
    assert!(bridge.matched_code.is_none());
}

#[test]
fn second_caller_cannot_steal_a_matched_code() {
    let mut reg = PairingRegistry::empty();
    let (game_tx, _game_rx) = async_channel::unbounded::<RelayMessage>();
    reg.register("9".to_string(), game_tx);

    let mut first = RecognitionBridge::new();
    let (rev_x, rx_x) = crossbeam_channel::unbounded::<RelayMessage>();
    first.on_response(&mut reg, Some(vec!["code 9".to_string()]), rev_x);
    assert_eq!(first.matched_code.as_deref(), Some("9"));

    let mut second = RecognitionBridge::new();
    let (rev_y, rx_y) = crossbeam_channel::unbounded::<RelayMessage>();
    second.on_response(&mut reg, Some(vec!["code 9".to_string()]), rev_y);
    assert!(second.matched_code.is_none(), "the attach failed, so no transition");

    let m = RelayMessage::Text("for the first caller".to_string());
    assert!(reg.forward_to_telephony(&"9".to_string(), m.clone()));
    assert_eq!(rx_x.try_recv().ok(), Some(m));
    assert!(rx_y.try_recv().is_err());
}

#[test]
fn last_match_in_iteration_order_wins() {
    let alternatives = vec!["call 12 or 34 now".to_string()];
    let codes = vec!["12".to_string(), "34".to_string()];
    assert_eq!(scan_for_code(&alternatives, &codes).as_deref(), Some("34"));

    // Across alternatives the later alternative's match wins too.
    let alternatives = vec!["say 12".to_string(), "say 34".to_string()];
    assert_eq!(scan_for_code(&alternatives, &codes).as_deref(), Some("34"));
}

#[test]
fn scan_without_match_finds_nothing() {
    let alternatives = vec!["no digits here".to_string()];
    let codes = vec!["12".to_string(), "34".to_string()];
    assert_eq!(scan_for_code(&alternatives, &codes), None);
    assert_eq!(scan_for_code(&Vec::new(), &codes), None);
    assert_eq!(scan_for_code(&alternatives, &Vec::new()), None);
}
