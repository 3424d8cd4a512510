use heladeria::ice_cream::{IceCream, RequestFlavor};
use heladeria::worker::{IceCreamWorker, ProcessOrder};
use heladeria::order::Order;

#[test]
fn serves_while_stock_lasts() {
    let mut vanilla = IceCream::new(10);
    assert_eq!(vanilla.handle(RequestFlavor { quantity: 5 }), Ok(5));
    assert_eq!(vanilla.handle(RequestFlavor { quantity: 5 }), Ok(5));
    assert_eq!(vanilla.handle(RequestFlavor { quantity: 1 }), Err("Not enough ice cream"));
}

#[test]
fn refusal_keeps_the_stock() {
    let mut vanilla = IceCream::new(10);
    assert_eq!(vanilla.handle(RequestFlavor { quantity: 20 }), Err("Not enough ice cream"));
    assert_eq!(vanilla.handle(RequestFlavor { quantity: 10 }), Ok(10));
}

#[test]
fn zero_scoops_are_always_served() {
    let mut empty = IceCream::new(0);
    assert_eq!(empty.handle(RequestFlavor { quantity: 0 }), Ok(0));
    assert_eq!(empty.handle(RequestFlavor { quantity: 1 }), Err("Not enough ice cream"));
}

#[test]
fn stock_is_conserved_over_a_run() {
    let mut ice_cream = IceCream::new(12);
    let mut served = 0;
    for wanted in [5u32, 9, 4, 3, 1] {
        if let Ok(q) = ice_cream.handle(RequestFlavor { quantity: wanted }) {
            served += q;
        }
    }
    // 5 + 4 + 3 served, 0 left: a request for 1 more fails
    assert_eq!(served, 12);
    assert_eq!(ice_cream.handle(RequestFlavor { quantity: 1 }), Err("Not enough ice cream"));
}

#[test]
fn worker_keeps_its_number() {
    let worker = IceCreamWorker::new(3);
    assert_eq!(worker.id(), 3);
}

#[test]
fn processing_takes_a_second_per_scoop() {
    let job = ProcessOrder { order: Order::new("Vanilla".to_string(), 4, 1) };
    assert_eq!(job.duration_secs(), 4);
}

#[test]
fn order_getters() {
    let order = Order::new("Mint".to_string(), 7, 9);
    assert_eq!(order.flavor(), "Mint");
    assert_eq!(order.quantity(), 7);
    assert_eq!(order.client_id(), 9);
}
