use heladeria::order::Order;
use heladeria::protocol::{
    completion_notice, completion_reply, connection_kind, maker_request, order_ack,
    parse_order_line, Admission, ConnectionKind, Server,
};

#[test]
fn first_lines_say_who_connects() {
    assert_eq!(connection_kind("CLIENTE\n"), ConnectionKind::Client);
    assert_eq!(connection_kind("  HELADERO \r\n"), ConnectionKind::IceCreamMaker);
    assert_eq!(connection_kind("cliente\n"), ConnectionKind::Unknown);
    assert_eq!(connection_kind("CLIENTE X\n"), ConnectionKind::Unknown);
    assert_eq!(connection_kind(""), ConnectionKind::Unknown);
}

#[test]
fn clients_get_ids_in_turn() {
    let mut server = Server::new();
    assert_eq!(server.next_client_id(), 1);
    assert_eq!(server.accept("CLIENTE\n"), Admission::Client(1));
    assert_eq!(server.accept("HELADERO\n"), Admission::IceCreamMaker);
    assert_eq!(server.accept("who?\n"), Admission::Unknown);
    assert_eq!(server.accept("CLIENTE\n"), Admission::Client(2));
    assert_eq!(server.next_client_id(), 3);
}

#[test]
fn order_lines_are_read() {
    let order: Order = parse_order_line("Vanilla 5\n", 4).unwrap();
    assert_eq!(order.flavor(), "Vanilla");
    assert_eq!(order.quantity(), 5);
    assert_eq!(order.client_id(), 4);
    let order = parse_order_line("  Mint\t+12  ", 2).unwrap();
    assert_eq!(order.flavor(), "Mint");
    assert_eq!(order.quantity(), 12);
}

#[test]
fn other_lines_are_not_orders() {
    assert!(parse_order_line("Vanilla\n", 1).is_none());
    assert!(parse_order_line("Vanilla five\n", 1).is_none());
    assert!(parse_order_line("Vanilla 5 extra\n", 1).is_none());
    assert!(parse_order_line("Vanilla -1\n", 1).is_none());
    assert!(parse_order_line("Vanilla 4294967296\n", 1).is_none());
    assert!(parse_order_line("\n", 1).is_none());
    assert!(parse_order_line("Vanilla +\n", 1).is_none());
}

#[test]
fn largest_quantity_is_read() {
    let order = parse_order_line("Vanilla 4294967295", 1).unwrap();
    assert_eq!(order.quantity(), u32::MAX);
}

#[test]
fn acks() {
    assert_eq!(order_ack(true), "Order processed successfully\n");
    assert_eq!(order_ack(false), "Failed to process order\n");
}

#[test]
fn makers_get_the_quantity() {
    let order = Order::new("Vanilla".to_string(), 15, 2);
    assert_eq!(maker_request(&order), "15\n");
}

#[test]
fn notice_and_reply() {
    let order = Order::new("Vanilla".to_string(), 5, 2);
    let notice = completion_notice(&order);
    assert_eq!(notice, "Vanilla,5");
    assert_eq!(completion_reply(&notice), Some("5,Vanilla\n".to_string()));
}

#[test]
fn replies_need_exactly_two_parts() {
    assert_eq!(completion_reply("a,b,c"), None);
    assert_eq!(completion_reply("abc"), None);
    assert_eq!(completion_reply(","), Some(",\n".to_string()));
    assert_eq!(completion_reply(""), None);
}

#[test]
fn order_line_round_trip() {
    let line = format!("{} {}", "Pistachio", 42);
    let order = parse_order_line(&line, 1).unwrap();
    assert_eq!(order.flavor(), "Pistachio");
    assert_eq!(order.quantity(), 42);
}

#[test]
fn unicode_white_space_separates_and_surrounds() {
    assert_eq!(connection_kind("\u{3000}CLIENTE\u{85}"), ConnectionKind::Client);
    assert_eq!(connection_kind("\u{a0}HELADERO\u{2028}"), ConnectionKind::IceCreamMaker);
    let order = parse_order_line("Mint\u{2003}3\u{202f}", 1).unwrap();
    assert_eq!(order.flavor(), "Mint");
    assert_eq!(order.quantity(), 3);
    // a zero width space is no white space
    assert!(parse_order_line("Mint\u{200b}3", 1).is_none());
}

#[test]
fn quantities_with_leading_zeros_and_plus() {
    assert_eq!(parse_order_line("Mint 007", 1).unwrap().quantity(), 7);
    assert_eq!(parse_order_line("Mint +0", 1).unwrap().quantity(), 0);
    assert!(parse_order_line("Mint -0", 1).is_none());
    assert!(parse_order_line("Mint ++1", 1).is_none());
}

#[test]
fn large_quantities_are_written_in_full() {
    let order = Order::new("Mint".to_string(), 4294967295, 1);
    assert_eq!(maker_request(&order), "4294967295\n");
    let order = Order::new("Mint".to_string(), 0, 1);
    assert_eq!(completion_notice(&order), "Mint,0");
}

#[test]
fn completions_are_addressed_to_the_ordering_client() {
    let order = parse_order_line("Vanilla 3\n", 7).unwrap();
    let msg = heladeria::protocol::completion_for(&order);
    assert_eq!(msg.id, 7);
    assert_eq!(msg.message, "Vanilla,3");
    assert_eq!(completion_reply(&msg.message), Some("3,Vanilla\n".to_string()));
}

#[test]
fn client_ids_over_a_run() {
    let mut server = Server::new();
    let lines = ["HELADERO\n", "CLIENTE\n", "x\n", "CLIENTE\n", "HELADERO\n", "CLIENTE\n"];
    let given: Vec<Admission> = lines.iter().map(|l| server.accept(l)).collect();
    assert_eq!(
        given,
        vec![
            Admission::IceCreamMaker,
            Admission::Client(1),
            Admission::Unknown,
            Admission::Client(2),
            Admission::IceCreamMaker,
            Admission::Client(3),
        ]
    );
    assert_eq!(server.next_client_id(), 4);
}
