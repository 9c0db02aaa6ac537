use call_relay::registry::PairingRegistry;
use call_relay::relay::RelayMessage;

#[test]
fn attach_is_first_match_wins() {
    let mut reg = PairingRegistry::empty();
    let (game_tx, _game_rx) = async_channel::unbounded::<RelayMessage>();
    reg.register("42".to_string(), game_tx);

    let (x_tx, x_rx) = crossbeam_channel::unbounded::<RelayMessage>();
    let (y_tx, y_rx) = crossbeam_channel::unbounded::<RelayMessage>();

    assert!(reg.attach_telephony(&"42".to_string(), x_tx));
    assert!(!reg.attach_telephony(&"42".to_string(), y_tx));

    let m = RelayMessage::Text("hello caller".to_string());
    assert!(reg.forward_to_telephony(&"42".to_string(), m.clone()));
    assert_eq!(x_rx.try_recv().ok(), Some(m));
    assert!(x_rx.try_recv().is_err(), "no duplicate delivery");
    assert!(y_rx.try_recv().is_err(), "the second channel never receives");
}

#[test]
fn forward_to_game_preserves_send_order() {
    let mut reg = PairingRegistry::empty();
    let (game_tx, game_rx) = async_channel::unbounded::<RelayMessage>();
    reg.register("3".to_string(), game_tx);

    for text in ["first", "second", "third"] {
        assert!(reg.forward_to_game(&"3".to_string(), RelayMessage::Text(text.to_string())));
    }
    assert_eq!(game_rx.try_recv().ok(), Some(RelayMessage::Text("first".to_string())));
    assert_eq!(game_rx.try_recv().ok(), Some(RelayMessage::Text("second".to_string())));
    assert_eq!(game_rx.try_recv().ok(), Some(RelayMessage::Text("third".to_string())));
    assert!(game_rx.try_recv().is_err(), "nothing is delivered twice");
}

#[test]
fn forward_on_unknown_code_is_false() {
    let reg = PairingRegistry::empty();
    let m = RelayMessage::Text("x".to_string());
    assert!(!reg.forward_to_game(&"9".to_string(), m.clone()));
    assert!(!reg.forward_to_telephony(&"9".to_string(), m));
}

#[test]
fn forward_to_telephony_before_attach_is_false() {
    let mut reg = PairingRegistry::empty();
    let (game_tx, _game_rx) = async_channel::unbounded::<RelayMessage>();
    reg.register("8".to_string(), game_tx);
    assert!(!reg.forward_to_telephony(&"8".to_string(), RelayMessage::Text("x".to_string())));
}

#[test]
fn attach_on_unknown_code_is_false() {
    let mut reg = PairingRegistry::empty();
    let (tx, _rx) = crossbeam_channel::unbounded::<RelayMessage>();
    assert!(!reg.attach_telephony(&"1".to_string(), tx));
}

#[test]
fn remove_is_idempotent_and_codes_snapshots() {
    let mut reg = PairingRegistry::empty();
    let (a_tx, _a_rx) = async_channel::unbounded::<RelayMessage>();
    let (b_tx, _b_rx) = async_channel::unbounded::<RelayMessage>();
    reg.register("1".to_string(), a_tx);
    reg.register("2".to_string(), b_tx);
    assert_eq!(reg.codes(), vec!["1".to_string(), "2".to_string()]);

    reg.remove(&"1".to_string());
    assert_eq!(reg.codes(), vec!["2".to_string()]);
    reg.remove(&"1".to_string());
    assert_eq!(reg.codes(), vec!["2".to_string()]);
    assert_eq!(reg.len(), 1);
}
