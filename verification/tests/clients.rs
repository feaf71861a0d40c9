use puffin::clients::ClientsState;

#[test]
fn callback_hears_first_and_last_client() {
    let mut state = ClientsState::new();
    assert_eq!(state.replace_callback(true), (Some(false), false));
    assert_eq!(state.on_client_connected(), Some(true));
    assert_eq!(state.on_client_connected(), None);
    assert_eq!(state.num_clients(), 2);
    assert_eq!(state.on_clients_disconnected(0), None);
    assert_eq!(state.on_clients_disconnected(1), None);
    assert_eq!(state.on_clients_disconnected(1), Some(false));
}

#[test]
fn replacing_a_callback_does_not_tell_it_again() {
    let mut state = ClientsState::new();
    assert_eq!(state.on_client_connected(), None);
    assert_eq!(state.replace_callback(true), (Some(true), true));
    assert_eq!(state.replace_callback(true), (None, true));
    assert_eq!(state.replace_callback(false), (None, true));
    assert_eq!(state.on_clients_disconnected(1), None);
    assert_eq!(state.replace_callback(true), (Some(false), false));
}
