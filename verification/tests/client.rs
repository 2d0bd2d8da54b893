use chud::net::client::Client;

#[test]
fn client_test_new() {
    let client = Client::new(0);
    assert_eq!(client.chain_id(), 0);
}

#[test]
fn new_client_is_empty_and_not_bootstrapped() {
    let client = Client::new(7);
    assert_eq!(client.chain_id(), 7);
    assert!(!client.bootstrapped());
    assert_eq!(client.runtime.chain_count(), 0);
    assert_eq!(client.runtime.message_count(), 0);
}

#[test]
fn bootstraps_once_on_a_bootstrap_peer() {
    let mut client = Client::new(0);
    let peers = vec![String::from("/ip4/1.2.3.4/tcp/6224/ws"), String::from("/ip4/5.6.7.8/tcp/6224/ws")];
    assert!(!client.should_bootstrap(&String::from("/ip4/9.9.9.9/tcp/1/ws"), &peers));
    assert!(client.should_bootstrap(&String::from("/ip4/5.6.7.8/tcp/6224/ws"), &peers));
    client.mark_bootstrapped();
    assert!(client.bootstrapped());
    assert!(!client.should_bootstrap(&String::from("/ip4/5.6.7.8/tcp/6224/ws"), &peers));
}
