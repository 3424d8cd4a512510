//! One flavor's stock of ice cream, which serves requests for scoops while
//! it has enough of them.
use vstd::prelude::*;

verus! {

/// Whether a stock of `stock` scoops can serve a request for `wanted`.
pub open spec fn can_serve(stock: u32, wanted: u32) -> bool {
    wanted <= stock
}

/// The stock left after a request for `wanted` scoops from `stock`.
pub open spec fn stock_after(stock: u32, wanted: u32) -> u32 {
    if can_serve(stock, wanted) {
        (stock - wanted) as u32
    } else {
        stock
    }
}

/// The stock left after the requests `wanted`, served in order.
pub open spec fn stock_after_all(stock: u32, wanted: Seq<u32>) -> u32
    decreases wanted.len(),
{
    if wanted.len() == 0 {
        stock
    } else {
        stock_after_all(stock_after(stock, wanted[0]), wanted.drop_first())
    }
}

/// The scoops handed out by the requests `wanted`, served in order.
pub open spec fn served_all(stock: u32, wanted: Seq<u32>) -> nat
    decreases wanted.len(),
{
    if wanted.len() == 0 {
        0
    } else {
        (if can_serve(stock, wanted[0]) {
            wanted[0] as nat
        } else {
            0nat
        }) + served_all(stock_after(stock, wanted[0]), wanted.drop_first())
    }
}

/// What a flavor with `stock` scoops answers a request for `wanted`: the
/// scoops, where it has them; "Not enough ice cream" otherwise.
pub open spec fn served_reply(stock: u32, wanted: u32, reply: Result<u32, &'static str>) -> bool {
    if can_serve(stock, wanted) {
        reply == Ok::<u32, &'static str>(wanted)
    } else {
        reply matches Err(m) && m@ == "Not enough ice cream"@
    }
}

/// A request for `quantity` scoops of the flavor that receives it.
pub struct RequestFlavor {
    pub quantity: u32,
}

/// The stock of one flavor.
pub struct IceCream {
    quantity: u32,
}

impl IceCream {
    /// The scoops in stock.
    pub closed spec fn stock(&self) -> u32 {
        self.quantity
    }

    pub fn new(quantity: u32) -> (ice_cream: Self)
        ensures
            ice_cream.stock() == quantity,
    {
        Self { quantity }
    }

    /// Serves the request where the stock holds enough scoops, handing them
    /// out; refuses it otherwise and keeps the stock.
    pub fn handle(&mut self, msg: RequestFlavor) -> (served: Result<u32, &'static str>)
        ensures
            final(self).stock() == stock_after(old(self).stock(), msg.quantity),
            served_reply(old(self).stock(), msg.quantity, served),
            msg.quantity <= old(self).stock() ==> served == Ok::<u32, &'static str>(msg.quantity)
                && final(self).stock() == old(self).stock() - msg.quantity,
            msg.quantity > old(self).stock() ==> served is Err
                && final(self).stock() == old(self).stock(),
    {
        if self.quantity >= msg.quantity {
            self.quantity = self.quantity - msg.quantity;
            Ok(msg.quantity)
        } else {
            Err("Not enough ice cream")
        }
    }
}

/// Stock is conserved: over any run of requests, the scoops handed out and
/// the scoops left add up to the stock that the run started with.
pub proof fn lemma_stock_conserved(stock: u32, wanted: Seq<u32>)
    ensures
        served_all(stock, wanted) + stock_after_all(stock, wanted) == stock,
    decreases wanted.len(),
{
    if wanted.len() > 0 {
        lemma_stock_conserved(stock_after(stock, wanted[0]), wanted.drop_first());
    }
}

/// Stock never grows: after any run of requests no more is left than there
/// was before.
pub proof fn lemma_stock_never_grows(stock: u32, wanted: Seq<u32>)
    ensures
        stock_after_all(stock, wanted) <= stock,
{
    lemma_stock_conserved(stock, wanted);
}

/// A flavor serves a request exactly when the request is for no more scoops
/// than it holds, whatever the amount: then the answer is the scoops asked
/// for and the stock drops by them; otherwise the answer is a refusal and the
/// stock stays.
pub proof fn lemma_serves_exactly_what_it_holds(stock: u32, wanted: u32, reply: Result<u32, &'static str>)
    ensures
        can_serve(stock, wanted) <==> wanted <= stock,
        wanted <= stock ==> stock_after(stock, wanted) == stock - wanted,
        wanted > stock ==> stock_after(stock, wanted) == stock,
        served_reply(stock, wanted, reply) && wanted <= stock ==> reply == Ok::<u32, &'static str>(wanted),
        served_reply(stock, wanted, reply) && wanted > stock ==> reply is Err,
{
}

/// A flavor with stock `stock` can serve, in one request, all of it; and a
/// request for all of it leaves nothing.
pub proof fn lemma_whole_stock_is_served(stock: u32)
    ensures
        can_serve(stock, stock),
        stock_after(stock, stock) == 0,
{
}

} // verus!
