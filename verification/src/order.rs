use vstd::prelude::*;

verus! {

/// An order of `quantity` scoops of `flavor`, placed by the client `client_id`.
pub struct Order {
    flavor: String,
    quantity: u32,
    client_id: u32,
}

impl Order {
    /// The flavor as a sequence of characters.
    pub closed spec fn flavor_view(&self) -> Seq<char> {
        self.flavor@
    }

    /// The number of scoops ordered.
    pub closed spec fn quantity_view(&self) -> u32 {
        self.quantity
    }

    /// The client that placed the order.
    pub closed spec fn client_id_view(&self) -> u32 {
        self.client_id
    }

    pub fn new(flavor: String, quantity: u32, client_id: u32) -> (order: Self)
        ensures
            order.flavor_view() == flavor@,
            order.quantity_view() == quantity,
            order.client_id_view() == client_id,
    {
        Self { flavor, quantity, client_id }
    }

    pub fn flavor(&self) -> (flavor: &String)
        ensures
            flavor@ == self.flavor_view(),
    {
        &self.flavor
    }

    pub fn quantity(&self) -> (quantity: u32)
        ensures
            quantity == self.quantity_view(),
    {
        self.quantity
    }

    pub fn client_id(&self) -> (client_id: u32)
        ensures
            client_id == self.client_id_view(),
    {
        self.client_id
    }
}

} // verus!
