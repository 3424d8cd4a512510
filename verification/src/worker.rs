//! An ice cream worker, which takes one second per scoop of an order.
use vstd::prelude::*;

use crate::order::Order;

verus! {

/// A worker, known by its number.
pub struct IceCreamWorker {
    id: usize,
}

/// An order for a worker to prepare.
pub struct ProcessOrder {
    pub order: Order,
}

impl IceCreamWorker {
    /// The worker's number.
    pub closed spec fn number(&self) -> usize {
        self.id
    }

    pub fn new(id: usize) -> (worker: Self)
        ensures
            worker.number() == id,
    {
        IceCreamWorker { id }
    }

    /// The worker's number.
    pub fn id(&self) -> (id: usize)
        ensures
            id == self.number(),
    {
        self.id
    }
}

impl ProcessOrder {
    /// How long preparing the order takes, in seconds: one per scoop.
    pub fn duration_secs(&self) -> (secs: u64)
        ensures
            secs == self.order.quantity_view(),
    {
        self.order.quantity() as u64
    }
}

} // verus!
