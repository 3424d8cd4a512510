use heladeria::client::{Client, LoadError};

fn orders(list: &[(&str, u32)]) -> Vec<(String, u32)> {
    list.iter().map(|(f, q)| (f.to_string(), *q)).collect()
}

#[test]
fn new_client_with_orders_waits_for_them() {
    let client = Client::new(orders(&[("Vanilla", 2), ("Chocolate", 1)]));
    assert!(!client.all_orders_received());
}

#[test]
fn new_client_without_orders_is_done() {
    let client = Client::new(Vec::new());
    assert!(client.all_orders_received());
}

#[test]
fn place_order_takes_the_last_listed_first() {
    let mut client = Client::new(orders(&[("Vanilla", 2), ("Chocolate", 1)]));
    assert_eq!(client.place_order(), Some(("Chocolate".to_string(), 1)));
    assert_eq!(client.place_order(), Some(("Vanilla".to_string(), 2)));
    assert_eq!(client.place_order(), None);
    // placing orders does not count as receiving them
    assert!(!client.all_orders_received());
}

#[test]
fn receiving_every_order_finishes_the_client() {
    let mut client = Client::new(orders(&[("Vanilla", 2), ("Chocolate", 1)]));
    client.order_received(("Chocolate".to_string(), 1));
    assert!(!client.all_orders_received());
    client.order_received(("Vanilla".to_string(), 2));
    assert!(client.all_orders_received());
}

#[test]
fn receiving_an_unknown_order_changes_nothing() {
    let mut client = Client::new(orders(&[("Vanilla", 2)]));
    client.order_received(("Vanilla".to_string(), 3));
    client.order_received(("Mint".to_string(), 2));
    assert!(!client.all_orders_received());
    client.order_received(("Vanilla".to_string(), 2));
    assert!(client.all_orders_received());
}

#[test]
fn repeated_orders_are_pending_once() {
    let mut client = Client::new(orders(&[("Vanilla", 2), ("Vanilla", 2)]));
    client.order_received(("Vanilla".to_string(), 2));
    assert!(client.all_orders_received());
}

#[test]
fn orders_from_yaml_reads_a_list_of_pairs() {
    let yaml = b"- [Vanilla, 2]\n- [Chocolate, 3]\n";
    let read = Client::orders_from_yaml(yaml).unwrap();
    assert_eq!(read, orders(&[("Vanilla", 2), ("Chocolate", 3)]));
}

#[test]
fn orders_from_yaml_reads_an_empty_list() {
    let read = Client::orders_from_yaml(b"[]").unwrap();
    assert!(read.is_empty());
}

#[test]
fn orders_from_yaml_refuses_other_text() {
    assert_eq!(Client::orders_from_yaml(b"- Vanilla\n"), Err(LoadError::InvalidYaml));
    assert_eq!(Client::orders_from_yaml(b"- [Vanilla, -2]\n"), Err(LoadError::InvalidYaml));
    assert_eq!(Client::orders_from_yaml(b"[unclosed"), Err(LoadError::InvalidYaml));
}

#[test]
fn load_error_message() {
    assert_eq!(LoadError::InvalidYaml.message(), "Unable to parse YAML");
}
