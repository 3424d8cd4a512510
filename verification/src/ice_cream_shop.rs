//! The shop: which flavor is served by which ice cream, the queue of orders
//! waiting for an ice cream maker, and the clients that can be written to.
//!
//! The shop does not hold the ice creams and clients themselves but handles
//! to them, of the types `I` and `C`; it decides where each request goes, and
//! the caller delivers it.
use std::collections::HashMap;
use std::collections::VecDeque;
use vstd::prelude::*;

use crate::ice_cream::{IceCream, can_serve, served_all, served_reply, stock_after, stock_after_all, lemma_stock_conserved, RequestFlavor};
use crate::order::Order;

verus! {

/// A request for `quantity` scoops of `flavor`.
pub struct RequestIceCream {
    pub flavor: String,
    pub quantity: u32,
}

/// A new flavor with `quantity` scoops in stock.
pub struct AddIceCream {
    pub flavor: String,
    pub quantity: u32,
}

/// An order to queue for the ice cream makers.
pub struct AddOrder {
    pub order: Order,
}

/// A request for the next queued order.
pub struct RemoveOrder;

/// A client connection, `actor`, that messages for client `id` go to.
pub struct AddClient<C> {
    pub id: u32,
    pub actor: C,
}

/// A message for client `id`.
pub struct SendClientMessage {
    pub id: u32,
    pub message: String,
}

/// A message to write to a client's connection.
pub struct SendMessageToClient {
    pub message: String,
}

/// The flavors that the shop opens with: 10 scoops of Vanilla and 20 of
/// Chocolate.
pub fn initial_ice_creams() -> (flavors: Vec<AddIceCream>)
    ensures
        flavors@.len() == 2,
        flavors@[0].flavor@ == "Vanilla"@ && flavors@[0].quantity == 10,
        flavors@[1].flavor@ == "Chocolate"@ && flavors@[1].quantity == 20,
{
    let mut flavors: Vec<AddIceCream> = Vec::new();
    flavors.push(AddIceCream { flavor: String::from_str("Vanilla"), quantity: 10 });
    flavors.push(AddIceCream { flavor: String::from_str("Chocolate"), quantity: 20 });
    flavors
}

/// The entries of `s`, keyed by their flavor.
pub open spec fn keyed<I>(s: Seq<(String, I)>) -> Map<Seq<char>, I> {
    Map::new(
        |k: Seq<char>| exists|i: int| 0 <= i < s.len() && #[trigger] s[i].0@ == k,
        |k: Seq<char>| s[choose|i: int| 0 <= i < s.len() && #[trigger] s[i].0@ == k].1,
    )
}

/// No two entries of `s` have the same flavor.
pub open spec fn keys_distinct<I>(s: Seq<(String, I)>) -> bool {
    forall|i: int, j: int| 0 <= i < j < s.len() ==> #[trigger] s[i].0@ != #[trigger] s[j].0@
}

proof fn lemma_keyed_at<I>(s: Seq<(String, I)>, i: int)
    requires
        keys_distinct(s),
        0 <= i < s.len(),
    ensures
        keyed(s).contains_key(s[i].0@),
        keyed(s)[s[i].0@] == s[i].1,
{
    let k = s[i].0@;
    assert(keyed(s).dom().contains(k));
    let j = choose|j: int| 0 <= j < s.len() && #[trigger] s[j].0@ == k;
    if j < i {
        assert(s[j].0@ != s[i].0@);
    } else if i < j {
        assert(s[i].0@ != s[j].0@);
    }
}

proof fn lemma_keyed_push<I>(s: Seq<(String, I)>, f: String, v: I)
    requires
        keys_distinct(s),
        !keyed(s).contains_key(f@),
    ensures
        keys_distinct(s.push((f, v))),
        keyed(s.push((f, v))) == keyed(s).insert(f@, v),
{
    let t = s.push((f, v));
    assert forall|i: int, j: int| 0 <= i < j < t.len() implies #[trigger] t[i].0@ != #[trigger] t[j].0@ by {
        if j == s.len() {
            assert(t[i] == s[i]);
            if s[i].0@ == f@ {
                assert(keyed(s).dom().contains(f@));
            }
        } else {
            assert(t[i] == s[i] && t[j] == s[j]);
        }
    }
    assert forall|k: Seq<char>| #[trigger] keyed(t).contains_key(k) <==> keyed(s).insert(f@, v).contains_key(k) by {
        if keyed(s).contains_key(k) {
            let i = choose|i: int| 0 <= i < s.len() && #[trigger] s[i].0@ == k;
            assert(t[i].0@ == k);
        }
        if k == f@ {
            assert(t[s.len() as int].0@ == k);
        }
        if keyed(t).contains_key(k) && k != f@ {
            let i = choose|i: int| 0 <= i < t.len() && #[trigger] t[i].0@ == k;
            assert(i < s.len());
            assert(s[i].0@ == k);
        }
    }
    assert forall|k: Seq<char>| #[trigger] keyed(t).contains_key(k) implies keyed(t)[k] == keyed(s).insert(f@, v)[k] by {
        let i = choose|i: int| 0 <= i < t.len() && #[trigger] t[i].0@ == k;
        lemma_keyed_at(t, i);
        if i < s.len() {
            assert(t[i] == s[i]);
            lemma_keyed_at(s, i);
        }
    }
    assert(keyed(t) =~= keyed(s).insert(f@, v));
}

proof fn lemma_keyed_update<I>(s: Seq<(String, I)>, i: int, f: String, v: I)
    requires
        keys_distinct(s),
        0 <= i < s.len(),
        s[i].0@ == f@,
    ensures
        keys_distinct(s.update(i, (f, v))),
        keyed(s.update(i, (f, v))) == keyed(s).insert(f@, v),
{
    let t = s.update(i, (f, v));
    assert forall|a: int, b: int| 0 <= a < b < t.len() implies #[trigger] t[a].0@ != #[trigger] t[b].0@ by {
        assert(t[a].0@ == s[a].0@);
        assert(t[b].0@ == s[b].0@);
    }
    assert forall|k: Seq<char>| #[trigger] keyed(t).contains_key(k) <==> keyed(s).insert(f@, v).contains_key(k) by {
        if keyed(s).contains_key(k) {
            let j = choose|j: int| 0 <= j < s.len() && #[trigger] s[j].0@ == k;
            assert(t[j].0@ == k);
        }
        if k == f@ {
            assert(t[i].0@ == k);
        }
        if keyed(t).contains_key(k) {
            let j = choose|j: int| 0 <= j < t.len() && #[trigger] t[j].0@ == k;
            assert(s[j].0@ == k);
        }
    }
    assert forall|k: Seq<char>| #[trigger] keyed(t).contains_key(k) implies keyed(t)[k] == keyed(s).insert(f@, v)[k] by {
        let j = choose|j: int| 0 <= j < t.len() && #[trigger] t[j].0@ == k;
        lemma_keyed_at(t, j);
        if j != i {
            assert(t[j] == s[j]);
            lemma_keyed_at(s, j);
        }
    }
    assert(keyed(t) =~= keyed(s).insert(f@, v));
}

/// What the shop answers a request for ice cream with, given how the flavor
/// answered, `reply`, or `None` where the request did not reach the flavor.
pub open spec fn settled_reply(reply: Option<Result<u32, &'static str>>, answer: Result<u32, &'static str>) -> bool {
    match reply {
        Some(Ok(q)) => answer == Ok::<u32, &'static str>(q),
        Some(Err(_)) => answer matches Err(m) && m@ == "Ice cream flavor is out of stock"@,
        None => answer matches Err(m) && m@ == "Error occurred while processing the request"@,
    }
}

/// The shop, with handles of type `I` to the ice creams and of type `C` to
/// the clients.
pub struct IceCreamShop<I, C> {
    ice_creams: Vec<(String, I)>,
    orders: VecDeque<Order>,
    clients: HashMap<u32, C>,
}

impl<I, C> IceCreamShop<I, C> {
    /// Each flavor and the ice cream that serves it.
    pub closed spec fn flavors(&self) -> Map<Seq<char>, I> {
        keyed(self.ice_creams@)
    }

    /// The queued orders, the oldest first.
    pub closed spec fn queue(&self) -> Seq<Order> {
        self.orders@
    }

    /// Each client id and the connection of that client.
    pub closed spec fn client_map(&self) -> Map<u32, C> {
        self.clients@
    }

    #[verifier::type_invariant]
    spec fn one_entry_per_flavor(&self) -> bool {
        keys_distinct(self.ice_creams@)
    }

    /// A shop with no flavors, no orders and no clients.
    pub fn new() -> (shop: Self)
        ensures
            shop.flavors() == Map::<Seq<char>, I>::empty(),
            shop.queue() == Seq::<Order>::empty(),
            shop.client_map() == Map::<u32, C>::empty(),
    {
        let shop = IceCreamShop { ice_creams: Vec::new(), orders: VecDeque::new(), clients: HashMap::new() };
        assert(shop.flavors() =~= Map::<Seq<char>, I>::empty());
        shop
    }

    /// The position of `flavor` among the entries, if it has one.
    fn position(&self, flavor: &String) -> (found: Option<usize>)
        ensures
            match found {
                Some(i) => i < self.ice_creams@.len() && self.ice_creams@[i as int].0@ == flavor@,
                None => !self.flavors().contains_key(flavor@),
            },
    {
        let mut i: usize = 0;
        while i < self.ice_creams.len()
            invariant
                i <= self.ice_creams@.len(),
                forall|j: int| 0 <= j < i ==> #[trigger] self.ice_creams@[j].0@ != flavor@,
            decreases self.ice_creams@.len() - i,
        {
            if self.ice_creams[i].0 == *flavor {
                return Some(i);
            }
            i = i + 1;
        }
        None
    }

    /// Makes `ice_cream` the one that serves `flavor`, in place of any that
    /// served it before.
    pub fn add_ice_cream(&mut self, flavor: String, ice_cream: I)
        ensures
            final(self).flavors() == old(self).flavors().insert(flavor@, ice_cream),
            final(self).queue() == old(self).queue(),
            final(self).client_map() == old(self).client_map(),
    {
        proof {
            use_type_invariant(&*self);
        }
        let found = self.position(&flavor);
        let mut entries: Vec<(String, I)> = Vec::new();
        std::mem::swap(&mut entries, &mut self.ice_creams);
        let ghost before = entries@;
        match found {
            Some(i) => {
                proof {
                    lemma_keyed_update(before, i as int, flavor, ice_cream);
                }
                entries.set(i, (flavor, ice_cream));
            },
            None => {
                proof {
                    lemma_keyed_push(before, flavor, ice_cream);
                }
                entries.push((flavor, ice_cream));
            },
        }
        self.ice_creams = entries;
    }

    /// Where a request for ice cream goes: to the ice cream that serves its
    /// flavor, as a request for the same number of scoops; or, where no ice
    /// cream serves the flavor, nowhere, with the answer "Flavor not found".
    pub fn request_ice_cream(&self, msg: RequestIceCream) -> (route: Result<(&I, RequestFlavor), &'static str>)
        ensures
            self.flavors().contains_key(msg.flavor@) ==> (route matches Ok((target, forward))
                && *target == self.flavors()[msg.flavor@] && forward.quantity == msg.quantity),
            !self.flavors().contains_key(msg.flavor@) ==> (route matches Err(m) && m@
                == "Flavor not found"@),
    {
        proof {
            use_type_invariant(self);
        }
        match self.position(&msg.flavor) {
            Some(i) => {
                proof {
                    lemma_keyed_at(self.ice_creams@, i as int);
                }
                Ok((&self.ice_creams[i].1, RequestFlavor { quantity: msg.quantity }))
            },
            None => Err("Flavor not found"),
        }
    }

    /// The shop's answer to a request for ice cream, from the flavor's
    /// answer, `reply`, or `None` where the request did not reach the flavor.
    pub fn settle_ice_cream_reply(reply: Option<Result<u32, &'static str>>) -> (answer: Result<u32, &'static str>)
        ensures
            settled_reply(reply, answer),
            reply matches Some(Ok(q)) ==> answer == Ok::<u32, &'static str>(q),
            reply matches Some(Err(_)) ==> (answer matches Err(m) && m@
                == "Ice cream flavor is out of stock"@),
            reply is None ==> (answer matches Err(m) && m@
                == "Error occurred while processing the request"@),
    {
        match reply {
            Some(Ok(quantity)) => Ok(quantity),
            Some(Err(_)) => Err("Ice cream flavor is out of stock"),
            None => Err("Error occurred while processing the request"),
        }
    }

    /// Queues the order behind those already waiting.
    pub fn add_order(&mut self, msg: AddOrder)
        ensures
            final(self).queue() == queue_after_add(old(self).queue(), msg.order),
            final(self).queue() == old(self).queue().push(msg.order),
            final(self).flavors() == old(self).flavors(),
            final(self).client_map() == old(self).client_map(),
    {
        proof {
            use_type_invariant(&*self);
        }
        let mut orders: VecDeque<Order> = VecDeque::new();
        std::mem::swap(&mut orders, &mut self.orders);
        orders.push_back(msg.order);
        self.orders = orders;
    }

    /// Takes the oldest queued order, if any.
    pub fn remove_order(&mut self, msg: RemoveOrder) -> (order: Option<Order>)
        ensures
            (final(self).queue(), order) == queue_after_remove(old(self).queue()),
            old(self).queue().len() > 0 ==> order == Some(old(self).queue()[0])
                && final(self).queue() == old(self).queue().drop_first(),
            old(self).queue().len() == 0 ==> order is None
                && final(self).queue() == old(self).queue(),
            final(self).flavors() == old(self).flavors(),
            final(self).client_map() == old(self).client_map(),
    {
        proof {
            use_type_invariant(&*self);
        }
        let mut orders: VecDeque<Order> = VecDeque::new();
        std::mem::swap(&mut orders, &mut self.orders);
        let order = orders.pop_front();
        proof {
            if order is Some {
                assert(orders@ =~= old(self).orders@.drop_first());
            }
        }
        self.orders = orders;
        order
    }

    /// Makes `msg.actor` the connection that messages for client `msg.id`
    /// go to, in place of any before.
    pub fn add_client(&mut self, msg: AddClient<C>)
        ensures
            final(self).client_map() == old(self).client_map().insert(msg.id, msg.actor),
            final(self).flavors() == old(self).flavors(),
            final(self).queue() == old(self).queue(),
    {
        proof {
            use_type_invariant(&*self);
        }
        let mut clients: HashMap<u32, C> = HashMap::new();
        std::mem::swap(&mut clients, &mut self.clients);
        clients.insert(msg.id, msg.actor);
        self.clients = clients;
    }

    /// Where a message for a client goes: to that client's connection, as the
    /// same text; or nowhere, where the client is unknown.
    pub fn send_client_message(&self, msg: SendClientMessage) -> (route: Option<(&C, SendMessageToClient)>)
        ensures
            self.client_map().contains_key(msg.id) ==> (route matches Some((target, forward))
                && *target == self.client_map()[msg.id] && forward.message@ == msg.message@),
            !self.client_map().contains_key(msg.id) ==> route is None,
    {
        match self.clients.get(&msg.id) {
            Some(client) => Some((client, SendMessageToClient { message: msg.message })),
            None => None,
        }
    }
}

/// The queue after `order` is queued behind it.
pub open spec fn queue_after_add(queue: Seq<Order>, order: Order) -> Seq<Order> {
    queue.push(order)
}

/// The queue after its oldest order is taken, and the order taken; or, from
/// an empty queue, the queue as it is and nothing.
pub open spec fn queue_after_remove(queue: Seq<Order>) -> (Seq<Order>, Option<Order>) {
    if queue.len() == 0 {
        (queue, None)
    } else {
        (queue.drop_first(), Some(queue[0]))
    }
}

/// The queue after a run of calls, in order: `Some(o)` stands for
/// `add_order` of `o`, `None` for `remove_order`.
pub open spec fn queue_after_run(queue: Seq<Order>, run: Seq<Option<Order>>) -> Seq<Order>
    decreases run.len(),
{
    if run.len() == 0 {
        queue
    } else {
        match run[0] {
            Some(o) => queue_after_run(queue_after_add(queue, o), run.drop_first()),
            None => queue_after_run(queue_after_remove(queue).0, run.drop_first()),
        }
    }
}

/// The orders that the `remove_order` calls of a run take, in order.
pub open spec fn taken_in_run(queue: Seq<Order>, run: Seq<Option<Order>>) -> Seq<Order>
    decreases run.len(),
{
    if run.len() == 0 {
        Seq::empty()
    } else {
        match run[0] {
            Some(o) => taken_in_run(queue_after_add(queue, o), run.drop_first()),
            None => match queue_after_remove(queue).1 {
                Some(o) => seq![o] + taken_in_run(queue_after_remove(queue).0, run.drop_first()),
                None => taken_in_run(queue, run.drop_first()),
            },
        }
    }
}

/// The orders that the `add_order` calls of a run queue, in order.
pub open spec fn added_in_run(run: Seq<Option<Order>>) -> Seq<Order>
    decreases run.len(),
{
    if run.len() == 0 {
        Seq::empty()
    } else {
        match run[0] {
            Some(o) => seq![o] + added_in_run(run.drop_first()),
            None => added_in_run(run.drop_first()),
        }
    }
}

/// First in, first out, over any interleaving of `add_order` and
/// `remove_order`: the orders taken, followed by those still queued, are the
/// orders that were queued at the start followed by those added, in the
/// order they were added. So the `j`-th order taken is the `j`-th order ever
/// queued, each order is taken at most once and unchanged, and a
/// `remove_order` finds nothing exactly when every order queued before it has
/// been taken.
pub proof fn lemma_first_in_first_out(queue: Seq<Order>, run: Seq<Option<Order>>)
    ensures
        taken_in_run(queue, run) + queue_after_run(queue, run) == queue + added_in_run(run),
        taken_in_run(queue, run).len() <= (queue + added_in_run(run)).len(),
        forall|j: int|
            0 <= j < taken_in_run(queue, run).len() ==> #[trigger] taken_in_run(queue, run)[j] == (
            queue + added_in_run(run))[j],
        queue_after_run(queue, run).len() == 0 <==> taken_in_run(queue, run).len() == (queue
            + added_in_run(run)).len(),
{
    lemma_queue_run(queue, run);
    let all = taken_in_run(queue, run) + queue_after_run(queue, run);
    assert forall|j: int| 0 <= j < taken_in_run(queue, run).len() implies #[trigger] taken_in_run(
        queue,
        run,
    )[j] == (queue + added_in_run(run))[j] by {
        assert(all[j] == taken_in_run(queue, run)[j]);
    }
}

proof fn lemma_queue_run(queue: Seq<Order>, run: Seq<Option<Order>>)
    ensures
        taken_in_run(queue, run) + queue_after_run(queue, run) == queue + added_in_run(run),
    decreases run.len(),
{
    if run.len() > 0 {
        let rest = run.drop_first();
        match run[0] {
            Some(o) => {
                lemma_queue_run(queue_after_add(queue, o), rest);
                assert(queue_after_add(queue, o) + added_in_run(rest) =~= queue + (seq![o]
                    + added_in_run(rest)));
            },
            None => {
                if queue.len() == 0 {
                    lemma_queue_run(queue, rest);
                } else {
                    lemma_queue_run(queue.drop_first(), rest);
                    assert(seq![queue[0]] + taken_in_run(queue.drop_first(), rest)
                        + queue_after_run(queue.drop_first(), rest) =~= seq![queue[0]] + (
                    taken_in_run(queue.drop_first(), rest) + queue_after_run(
                        queue.drop_first(),
                        rest,
                    )));
                    assert(seq![queue[0]] + (queue.drop_first() + added_in_run(rest)) =~= queue
                        + added_in_run(rest));
                }
            },
        }
    }
}

/// The map built from the empty map by inserting the pairs `inserted`, in
/// order: the flavors after a run of `add_ice_cream` calls on a new shop, or
/// the clients after a run of `add_client` calls.
pub open spec fn map_after_inserts<K, V>(inserted: Seq<(K, V)>) -> Map<K, V>
    decreases inserted.len(),
{
    if inserted.len() == 0 {
        Map::empty()
    } else {
        map_after_inserts(inserted.drop_last()).insert(inserted.last().0, inserted.last().1)
    }
}

/// Some insert of `inserted` is for `key`.
pub open spec fn inserts_key<K, V>(inserted: Seq<(K, V)>, key: K) -> bool {
    exists|i: int| 0 <= i < inserted.len() && #[trigger] inserted[i].0 == key
}

/// `i` is the last insert of `inserted` for `key`.
pub open spec fn last_insert_for<K, V>(inserted: Seq<(K, V)>, key: K, i: int) -> bool {
    &&& 0 <= i < inserted.len()
    &&& inserted[i].0 == key
    &&& forall|j: int| i < j < inserted.len() ==> #[trigger] inserted[j].0 != key
}

proof fn lemma_map_after_inserts_keys<K, V>(inserted: Seq<(K, V)>, key: K)
    ensures
        map_after_inserts(inserted).contains_key(key) <==> inserts_key(inserted, key),
    decreases inserted.len(),
{
    if inserted.len() > 0 {
        let front = inserted.drop_last();
        lemma_map_after_inserts_keys(front, key);
        if inserts_key(front, key) {
            let i = choose|i: int| 0 <= i < front.len() && #[trigger] front[i].0 == key;
            assert(inserted[i].0 == key);
        }
        if inserts_key(inserted, key) && inserted.last().0 != key {
            let i = choose|i: int| 0 <= i < inserted.len() && #[trigger] inserted[i].0 == key;
            assert(front[i].0 == key);
        }
    }
}

proof fn lemma_map_after_inserts_value<K, V>(inserted: Seq<(K, V)>, key: K, i: int)
    requires
        last_insert_for(inserted, key, i),
    ensures
        map_after_inserts(inserted).contains_key(key),
        map_after_inserts(inserted)[key] == inserted[i].1,
    decreases inserted.len(),
{
    let n = inserted.len() - 1;
    if i < n {
        let front = inserted.drop_last();
        assert(inserted[n].0 != key);
        assert forall|j: int| i < j < front.len() implies #[trigger] front[j].0 != key by {
            assert(inserted[j].0 != key);
        }
        lemma_map_after_inserts_value(front, key, i);
    }
}

/// After a run of inserts into an empty map, a key is present exactly when
/// some insert was for it, and then it holds the value of the last insert
/// for it.
pub proof fn lemma_map_after_inserts<K, V>(inserted: Seq<(K, V)>, key: K, i: int)
    ensures
        map_after_inserts(inserted).contains_key(key) <==> inserts_key(inserted, key),
        last_insert_for(inserted, key, i) ==> map_after_inserts(inserted)[key] == inserted[i].1,
{
    lemma_map_after_inserts_keys(inserted, key);
    if last_insert_for(inserted, key, i) {
        lemma_map_after_inserts_value(inserted, key, i);
    }
}

/// The flavors a shop serves after a run of `add_ice_cream` calls from
/// `new`, with requests, orders and clients between them: a request for a
/// flavor is answered "Flavor not found" exactly when no call added that
/// flavor; otherwise it goes to the ice cream of the last call that added it.
pub proof fn lemma_flavor_history<I>(added: Seq<(Seq<char>, I)>, flavor: Seq<char>, i: int)
    ensures
        map_after_inserts(added).contains_key(flavor) <==> inserts_key(added, flavor),
        last_insert_for(added, flavor, i) ==> map_after_inserts(added)[flavor] == added[i].1,
{
    lemma_map_after_inserts(added, flavor, i);
}

/// The clients a shop knows after a run of `add_client` calls from `new`:
/// a message for an id goes nowhere exactly when no call registered that id;
/// otherwise it goes to the connection of the last call that registered it.
pub proof fn lemma_client_history<C>(added: Seq<(u32, C)>, id: u32, i: int)
    ensures
        map_after_inserts(added).contains_key(id) <==> inserts_key(added, id),
        last_insert_for(added, id, i) ==> map_after_inserts(added)[id] == added[i].1,
{
    lemma_map_after_inserts(added, id, i);
}

/// A request for a flavor goes to the ice cream last added for it, and adding
/// an ice cream for one flavor changes where no other flavor's requests go.
pub proof fn lemma_request_goes_to_last_added<I>(
    flavors: Map<Seq<char>, I>,
    flavor: Seq<char>,
    ice_cream: I,
    other: Seq<char>,
)
    ensures
        flavors.insert(flavor, ice_cream).contains_key(flavor),
        flavors.insert(flavor, ice_cream)[flavor] == ice_cream,
        other != flavor ==> (flavors.insert(flavor, ice_cream).contains_key(other)
            == flavors.contains_key(other)),
        other != flavor && flavors.contains_key(other) ==> flavors.insert(flavor, ice_cream)[other]
            == flavors[other],
{
}

/// A request for a flavor that the shop serves, once the flavor has
/// answered, is granted the scoops asked for exactly when the flavor's stock
/// holds them; otherwise it is refused as out of stock.
pub proof fn lemma_request_answer(
    stock: u32,
    wanted: u32,
    reply: Result<u32, &'static str>,
    answer: Result<u32, &'static str>,
)
    requires
        served_reply(stock, wanted, reply),
        settled_reply(Some(reply), answer),
    ensures
        can_serve(stock, wanted) ==> answer == Ok::<u32, &'static str>(wanted),
        !can_serve(stock, wanted) ==> (answer matches Err(m) && m@
            == "Ice cream flavor is out of stock"@),
{
}

/// The scoops granted by the shop's answers `answers`.
pub open spec fn granted_total(answers: Seq<Result<u32, &'static str>>) -> nat
    decreases answers.len(),
{
    if answers.len() == 0 {
        0
    } else {
        (match answers[0] {
            Ok(q) => q as nat,
            Err(_) => 0nat,
        }) + granted_total(answers.drop_first())
    }
}

/// Stock is conserved at the shop: when a flavor is added with `stock`
/// scoops and then asked, through the shop, for `wanted[0]`, `wanted[1]`,
/// ... scoops in turn (the flavor answering `replies`, the shop `answers`),
/// the scoops the shop grants are those the flavor serves, never more than
/// `stock`, and together with what is left they make up `stock`.
pub proof fn lemma_shop_stock_conserved(
    stock: u32,
    wanted: Seq<u32>,
    replies: Seq<Result<u32, &'static str>>,
    answers: Seq<Result<u32, &'static str>>,
)
    requires
        replies.len() == wanted.len(),
        answers.len() == wanted.len(),
        forall|i: int|
            0 <= i < wanted.len() ==> served_reply(
                stock_after_all(stock, wanted.take(i)),
                #[trigger] wanted[i],
                replies[i],
            ),
        forall|i: int| 0 <= i < wanted.len() ==> settled_reply(Some(#[trigger] replies[i]), answers[i]),
    ensures
        granted_total(answers) == served_all(stock, wanted),
        granted_total(answers) + stock_after_all(stock, wanted) == stock,
        granted_total(answers) <= stock,
    decreases wanted.len(),
{
    lemma_stock_conserved(stock, wanted);
    if wanted.len() > 0 {
        let next = stock_after(stock, wanted[0]);
        let rest = wanted.drop_first();
        assert(wanted.take(0) =~= Seq::<u32>::empty());
        assert(served_reply(stock, wanted[0], replies[0]));
        assert(settled_reply(Some(replies[0]), answers[0]));
        assert forall|i: int| 0 <= i < rest.len() implies served_reply(
            stock_after_all(next, rest.take(i)),
            #[trigger] rest[i],
            replies.drop_first()[i],
        ) by {
            assert(wanted.take(i + 1).drop_first() =~= rest.take(i));
            assert(wanted.take(i + 1)[0] == wanted[0]);
            assert(wanted[i + 1] == rest[i]);
            assert(served_reply(stock_after_all(stock, wanted.take(i + 1)), wanted[i + 1], replies[i + 1]));
        }
        assert forall|i: int| 0 <= i < rest.len() implies settled_reply(
            Some(#[trigger] replies.drop_first()[i]),
            answers.drop_first()[i],
        ) by {
            assert(settled_reply(Some(replies[i + 1]), answers[i + 1]));
        }
        lemma_shop_stock_conserved(next, rest, replies.drop_first(), answers.drop_first());
    }
}

/// Adding a flavor restocks it: where the shop's ice creams are the stocks
/// themselves, after `add_ice_cream` of a new ice cream with `quantity`
/// scoops for `flavor`, that flavor's stock is `quantity`, whatever it was
/// before, and every other flavor keeps its ice cream and stock.
pub proof fn lemma_add_ice_cream_restocks(
    flavors: Map<Seq<char>, IceCream>,
    flavor: Seq<char>,
    ice_cream: IceCream,
    quantity: u32,
    other: Seq<char>,
)
    requires
        ice_cream.stock() == quantity,
    ensures
        flavors.insert(flavor, ice_cream)[flavor].stock() == quantity,
        other != flavor ==> (flavors.insert(flavor, ice_cream).contains_key(other)
            == flavors.contains_key(other)),
        other != flavor && flavors.contains_key(other) ==> flavors.insert(flavor, ice_cream)[other].stock()
            == flavors[other].stock(),
{
}

/// Taking an order from a queue that holds any hands out its oldest order
/// and leaves the rest, in order; only an empty queue yields nothing.
pub proof fn lemma_remove_takes_the_oldest(queue: Seq<Order>)
    ensures
        queue.len() > 0 ==> queue_after_remove(queue).1 == Some(queue[0]),
        queue.len() > 0 ==> queue_after_remove(queue).0 == queue.subrange(1, queue.len() as int),
        queue_after_remove(queue).1 is None <==> queue.len() == 0,
        queue_after_remove(queue).1 is None ==> queue_after_remove(queue).0 == queue,
{
}

/// Queuing orders and then taking as many hands them all out, in the order
/// they were queued, and leaves the queue empty; a run that queues orders
/// before taking any never comes up empty-handed while something it queued
/// is still waiting.
pub proof fn lemma_every_queued_order_comes_out(added: Seq<Order>)
    ensures
        ({
            let run = added.map_values(|o: Order| Some(o)) + Seq::new(added.len(), |i: int| None::<Order>);
            &&& taken_in_run(Seq::empty(), run) == added
            &&& queue_after_run(Seq::empty(), run).len() == 0
        }),
{
    let run = added.map_values(|o: Order| Some(o)) + Seq::new(added.len(), |i: int| None::<Order>);
    lemma_adds_then_removes(Seq::empty(), added, added.len());
    assert(Seq::<Order>::empty() + added =~= added);
}

proof fn lemma_adds_then_removes(queue: Seq<Order>, added: Seq<Order>, removes: nat)
    requires
        removes == queue.len() + added.len(),
    ensures
        ({
            let run = added.map_values(|o: Order| Some(o)) + Seq::new(removes, |i: int| None::<Order>);
            &&& taken_in_run(queue, run) == queue + added
            &&& queue_after_run(queue, run).len() == 0
        }),
    decreases added.len() + removes,
{
    let run = added.map_values(|o: Order| Some(o)) + Seq::new(removes, |i: int| None::<Order>);
    if added.len() > 0 {
        let rest = added.drop_first();
        let rest_run = rest.map_values(|o: Order| Some(o)) + Seq::new(removes, |i: int| None::<Order>);
        assert(run[0] == Some(added[0]));
        assert(run.drop_first() =~= rest_run);
        lemma_adds_then_removes(queue.push(added[0]), rest, removes);
        assert(queue.push(added[0]) + rest =~= queue + added);
    } else if removes > 0 {
        assert(run[0] == None::<Order>);
        assert(run.drop_first() =~= added.map_values(|o: Order| Some(o)) + Seq::new((removes - 1) as nat, |i: int| None::<Order>));
        lemma_adds_then_removes(queue.drop_first(), added, (removes - 1) as nat);
        assert(seq![queue[0]] + (queue.drop_first() + added) =~= queue + added);
    } else {
        assert(run =~= Seq::<Option<Order>>::empty());
        assert(queue + added =~= Seq::<Order>::empty());
    }
}

} // verus!
