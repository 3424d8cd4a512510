use heladeria::ice_cream::{IceCream, RequestFlavor};
use heladeria::ice_cream_shop::{
    initial_ice_creams, AddClient, AddIceCream, AddOrder, IceCreamShop, RemoveOrder,
    RequestIceCream, SendClientMessage,
};
use heladeria::order::Order;

/// A shop whose ice creams are held beside it, each known by its position.
struct Counter {
    shop: IceCreamShop<usize, u32>,
    stock: Vec<IceCream>,
}

impl Counter {
    fn new() -> Self {
        Counter { shop: IceCreamShop::new(), stock: Vec::new() }
    }

    fn add(&mut self, msg: AddIceCream) {
        self.stock.push(IceCream::new(msg.quantity));
        self.shop.add_ice_cream(msg.flavor, self.stock.len() - 1);
    }

    fn request(&mut self, flavor: &str, quantity: u32) -> Result<u32, &'static str> {
        let msg = RequestIceCream { flavor: flavor.to_string(), quantity };
        match self.shop.request_ice_cream(msg) {
            Ok((target, forward)) => {
                let target = *target;
                let reply = self.stock[target].handle(forward);
                IceCreamShop::<usize, u32>::settle_ice_cream_reply(Some(reply))
            }
            Err(answer) => Err(answer),
        }
    }
}

#[test]
fn ice_cream_shop_scenario() {
    let mut counter = Counter::new();
    counter.add(AddIceCream { flavor: "Vanilla".to_string(), quantity: 10 });
    assert_eq!(counter.request("Vanilla", 5), Ok(5));
    assert_eq!(counter.request("Chocolate", 5), Err("Flavor not found"));
    assert_eq!(counter.request("Vanilla", 20), Err("Ice cream flavor is out of stock"));
}

#[test]
fn stock_runs_out_across_requests() {
    let mut counter = Counter::new();
    for msg in initial_ice_creams() {
        counter.add(msg);
    }
    assert_eq!(counter.request("Chocolate", 15), Ok(15));
    assert_eq!(counter.request("Chocolate", 6), Err("Ice cream flavor is out of stock"));
    assert_eq!(counter.request("Chocolate", 5), Ok(5));
    assert_eq!(counter.request("Vanilla", 10), Ok(10));
    assert_eq!(counter.request("Vanilla", 1), Err("Ice cream flavor is out of stock"));
}

#[test]
fn initial_flavors() {
    let flavors = initial_ice_creams();
    assert_eq!(flavors.len(), 2);
    assert_eq!(flavors[0].flavor, "Vanilla");
    assert_eq!(flavors[0].quantity, 10);
    assert_eq!(flavors[1].flavor, "Chocolate");
    assert_eq!(flavors[1].quantity, 20);
}

#[test]
fn last_added_ice_cream_serves_the_flavor() {
    let mut shop: IceCreamShop<u32, u32> = IceCreamShop::new();
    shop.add_ice_cream("Vanilla".to_string(), 1);
    shop.add_ice_cream("Mint".to_string(), 2);
    shop.add_ice_cream("Vanilla".to_string(), 3);
    let route = shop.request_ice_cream(RequestIceCream { flavor: "Vanilla".to_string(), quantity: 4 });
    match route {
        Ok((target, forward)) => {
            assert_eq!(*target, 3);
            assert_eq!(forward.quantity, 4);
        }
        Err(_) => panic!("Vanilla is served"),
    }
    let route = shop.request_ice_cream(RequestIceCream { flavor: "Mint".to_string(), quantity: 1 });
    assert!(matches!(route, Ok((2, _))));
}

#[test]
fn request_to_an_empty_shop_is_not_found() {
    let shop: IceCreamShop<u32, u32> = IceCreamShop::new();
    let route = shop.request_ice_cream(RequestIceCream { flavor: "Vanilla".to_string(), quantity: 1 });
    assert!(matches!(route, Err("Flavor not found")));
}

#[test]
fn settle_replies() {
    type Shop = IceCreamShop<u32, u32>;
    assert_eq!(Shop::settle_ice_cream_reply(Some(Ok(3))), Ok(3));
    assert_eq!(
        Shop::settle_ice_cream_reply(Some(Err("Not enough ice cream"))),
        Err("Ice cream flavor is out of stock")
    );
    assert_eq!(
        Shop::settle_ice_cream_reply(None),
        Err("Error occurred while processing the request")
    );
}

#[test]
fn orders_leave_in_the_order_they_came() {
    let mut shop: IceCreamShop<u32, u32> = IceCreamShop::new();
    assert!(shop.remove_order(RemoveOrder).is_none());
    shop.add_order(AddOrder { order: Order::new("Vanilla".to_string(), 1, 7) });
    shop.add_order(AddOrder { order: Order::new("Mint".to_string(), 2, 8) });
    let first = shop.remove_order(RemoveOrder).unwrap();
    shop.add_order(AddOrder { order: Order::new("Chocolate".to_string(), 3, 9) });
    let second = shop.remove_order(RemoveOrder).unwrap();
    let third = shop.remove_order(RemoveOrder).unwrap();
    assert!(shop.remove_order(RemoveOrder).is_none());
    assert_eq!((first.flavor().as_str(), first.quantity(), first.client_id()), ("Vanilla", 1, 7));
    assert_eq!((second.flavor().as_str(), second.quantity(), second.client_id()), ("Mint", 2, 8));
    assert_eq!((third.flavor().as_str(), third.quantity(), third.client_id()), ("Chocolate", 3, 9));
}

#[test]
fn messages_go_to_the_client_added_last() {
    let mut shop: IceCreamShop<u32, &'static str> = IceCreamShop::new();
    shop.add_client(AddClient { id: 1, actor: "first" });
    shop.add_client(AddClient { id: 2, actor: "second" });
    shop.add_client(AddClient { id: 1, actor: "again" });
    match shop.send_client_message(SendClientMessage { id: 1, message: "5,Vanilla\n".to_string() }) {
        Some((target, forward)) => {
            assert_eq!(*target, "again");
            assert_eq!(forward.message, "5,Vanilla\n");
        }
        None => panic!("client 1 is known"),
    }
    assert!(matches!(
        shop.send_client_message(SendClientMessage { id: 2, message: String::new() }),
        Some((&"second", _))
    ));
    assert!(shop.send_client_message(SendClientMessage { id: 3, message: String::new() }).is_none());
}

#[test]
fn interleaved_adds_and_removes_are_first_in_first_out() {
    let mut shop: IceCreamShop<u32, u32> = IceCreamShop::new();
    let mut taken = Vec::new();
    shop.add_order(AddOrder { order: Order::new("a".to_string(), 1, 1) });
    taken.push(shop.remove_order(RemoveOrder).map(|o| o.quantity()));
    taken.push(shop.remove_order(RemoveOrder).map(|o| o.quantity()));
    shop.add_order(AddOrder { order: Order::new("b".to_string(), 2, 1) });
    shop.add_order(AddOrder { order: Order::new("c".to_string(), 3, 1) });
    taken.push(shop.remove_order(RemoveOrder).map(|o| o.quantity()));
    shop.add_order(AddOrder { order: Order::new("d".to_string(), 4, 1) });
    taken.push(shop.remove_order(RemoveOrder).map(|o| o.quantity()));
    taken.push(shop.remove_order(RemoveOrder).map(|o| o.quantity()));
    taken.push(shop.remove_order(RemoveOrder).map(|o| o.quantity()));
    assert_eq!(taken, vec![Some(1), None, Some(2), Some(3), Some(4), None]);
}

#[test]
fn flavor_not_found_until_added() {
    let mut shop: IceCreamShop<u32, u32> = IceCreamShop::new();
    let ask = |shop: &IceCreamShop<u32, u32>| {
        shop.request_ice_cream(RequestIceCream { flavor: "Mint".to_string(), quantity: 1 })
            .map(|(t, _)| *t)
    };
    assert_eq!(ask(&shop), Err("Flavor not found"));
    shop.add_ice_cream("Vanilla".to_string(), 1);
    shop.add_order(AddOrder { order: Order::new("Mint".to_string(), 1, 1) });
    assert_eq!(ask(&shop), Err("Flavor not found"));
    shop.add_ice_cream("Mint".to_string(), 2);
    assert_eq!(ask(&shop), Ok(2));
}

#[test]
fn re_adding_a_flavor_restocks_it() {
    let mut counter = Counter::new();
    counter.add(AddIceCream { flavor: "Vanilla".to_string(), quantity: 3 });
    counter.add(AddIceCream { flavor: "Mint".to_string(), quantity: 2 });
    assert_eq!(counter.request("Vanilla", 3), Ok(3));
    counter.add(AddIceCream { flavor: "Vanilla".to_string(), quantity: 5 });
    assert_eq!(counter.request("Vanilla", 5), Ok(5));
    assert_eq!(counter.request("Mint", 2), Ok(2));
}
