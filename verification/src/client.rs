//! A client's side of the shop: the orders it still has to place, and the
//! orders it has sent and not yet seen delivered.
use vstd::prelude::*;

verus! {

/// An order as a client lists it: a flavor and a number of scoops.
pub open spec fn entry_view(e: (String, u32)) -> (Seq<char>, u32) {
    (e.0@, e.1)
}

/// A list of orders, each taken by its view.
pub open spec fn entries_view(v: Seq<(String, u32)>) -> Seq<(Seq<char>, u32)> {
    v.map_values(|e: (String, u32)| entry_view(e))
}

/// Why a list of orders could not be loaded.
#[derive(Debug, PartialEq, Eq, Structural)]
pub enum LoadError {
    /// The text is not a YAML list of `[flavor, quantity]` pairs.
    InvalidYaml,
}

impl LoadError {
    /// The text that the error is reported with.
    pub fn message(&self) -> (m: &'static str)
        ensures
            m@ == "Unable to parse YAML"@,
    {
        match self {
            LoadError::InvalidYaml => "Unable to parse YAML",
        }
    }
}

#[verifier::external_type_specification]
#[verifier::external_body]
pub struct ExYamlError(serde_yaml::Error);

/// What `serde_yaml::from_slice` reads from the bytes `yaml` as a list of
/// `(String, u32)` pairs: `Some` of the pairs, or `None` where it reports an
/// error.
pub uninterp spec fn yaml_orders(yaml: Seq<u8>) -> Option<Seq<(Seq<char>, u32)>>;

/// The outcome of a YAML read, taken by its view.
pub open spec fn yaml_outcome(r: Result<Vec<(String, u32)>, serde_yaml::Error>) -> Option<
    Seq<(Seq<char>, u32)>,
> {
    match r {
        Ok(v) => Some(entries_view(v@)),
        Err(_) => None,
    }
}

/// `serde_yaml::from_slice::<Vec<(String, u32)>>`: the claim is that its
/// outcome depends on the bytes alone, and is named `yaml_orders`.
#[verifier::external_body]
fn yaml_order_list(yaml: &[u8]) -> (r: Result<Vec<(String, u32)>, serde_yaml::Error>)
    ensures
        yaml_outcome(r) == yaml_orders(yaml@),
{
    serde_yaml::from_slice(yaml)
}

/// A client of the shop.
pub struct Client {
    /// The orders still to be placed; the last one goes first.
    orders: Vec<(String, u32)>,
    /// The orders that have not been delivered yet, each once.
    sent_orders: Vec<(String, u32)>,
}

impl Client {
    /// The orders still to be placed, in the order they were listed.
    pub closed spec fn orders_view(&self) -> Seq<(Seq<char>, u32)> {
        entries_view(self.orders@)
    }

    /// The orders not yet delivered.
    pub closed spec fn pending(&self) -> Set<(Seq<char>, u32)> {
        entries_view(self.sent_orders@).to_set()
    }

    #[verifier::type_invariant]
    spec fn each_pending_once(&self) -> bool {
        entries_view(self.sent_orders@).no_duplicates()
    }

    /// The position of an entry of `v` equal to `e`, if there is one.
    fn holds_entry(v: &Vec<(String, u32)>, e: &(String, u32)) -> (found: Option<usize>)
        ensures
            match found {
                Some(i) => i < v@.len() && entry_view(v@[i as int]) == entry_view(*e),
                None => !entries_view(v@).contains(entry_view(*e)),
            },
    {
        let mut i: usize = 0;
        while i < v.len()
            invariant
                i <= v@.len(),
                forall|j: int| 0 <= j < i ==> entry_view(#[trigger] v@[j]) != entry_view(*e),
            decreases v@.len() - i,
        {
            if v[i].1 == e.1 && v[i].0 == e.0 {
                return Some(i);
            }
            i = i + 1;
        }
        proof {
            if entries_view(v@).contains(entry_view(*e)) {
                let j = choose|j: int|
                    0 <= j < entries_view(v@).len() && entries_view(v@)[j] == entry_view(*e);
                assert(entry_view(v@[j]) != entry_view(*e));
            }
        }
        None
    }

    /// A client that will place `orders`, the last one first, and waits for
    /// each distinct one of them to be delivered.
    pub fn new(orders: Vec<(String, u32)>) -> (client: Self)
        ensures
            client.orders_view() == entries_view(orders@),
            client.pending() == entries_view(orders@).to_set(),
    {
        let mut sent_orders: Vec<(String, u32)> = Vec::new();
        let mut i: usize = 0;
        while i < orders.len()
            invariant
                i <= orders@.len(),
                entries_view(sent_orders@).no_duplicates(),
                entries_view(sent_orders@).to_set() == entries_view(orders@.take(i as int)).to_set(),
            decreases orders@.len() - i,
        {
            let ghost before = entries_view(sent_orders@);
            let ghost e = entry_view(orders@[i as int]);
            let found = Self::holds_entry(&sent_orders, &orders[i]);
            if let Some(k) = found {
                assert(before[k as int] == e);
            } else {
                let copy = (orders[i].0.clone(), orders[i].1);
                sent_orders.push(copy);
                assert(entries_view(sent_orders@) =~= before.push(e));
                assert forall|a: int, b: int|
                    0 <= a < b < entries_view(sent_orders@).len() implies entries_view(
                    sent_orders@,
                )[a] != entries_view(sent_orders@)[b] by {
                    if b == before.len() {
                        assert(before.contains(before[a]));
                    }
                }
            }
            let ghost listed = entries_view(orders@.take(i as int));
            let ghost listed_next = entries_view(orders@.take(i + 1));
            let ghost now = entries_view(sent_orders@);
            assert(listed_next =~= listed.push(e));
            assert forall|x: (Seq<char>, u32)| listed_next.contains(x) implies now.contains(x) by {
                if x == e {
                    if !before.contains(e) {
                        assert(now[now.len() - 1] == e);
                    }
                } else {
                    let k = choose|k: int| 0 <= k < listed_next.len() && #[trigger] listed_next[k] == x;
                    assert(listed[k] == x);
                    assert(listed.to_set().contains(x));
                    let m = choose|m: int| 0 <= m < before.len() && #[trigger] before[m] == x;
                    assert(now[m] == x);
                }
            }
            assert forall|x: (Seq<char>, u32)| now.contains(x) implies listed_next.contains(x) by {
                let m = choose|m: int| 0 <= m < now.len() && #[trigger] now[m] == x;
                if m < before.len() {
                    assert(before[m] == x);
                    assert(before.to_set().contains(x));
                    let k = choose|k: int| 0 <= k < listed.len() && #[trigger] listed[k] == x;
                    assert(listed_next[k] == x);
                } else {
                    assert(x == e);
                    assert(listed_next[i as int] == e);
                }
            }
            assert(now.to_set() =~= listed_next.to_set());
            i = i + 1;
        }
        assert(orders@.take(orders@.len() as int) =~= orders@);
        Client { orders, sent_orders }
    }

    /// Takes the next order to place: the last one still listed.
    pub fn place_order(&mut self) -> (order: Option<(String, u32)>)
        ensures
            old(self).orders_view().len() == 0 ==> order is None && final(self).orders_view()
                == old(self).orders_view(),
            old(self).orders_view().len() > 0 ==> order is Some && entry_view(order->0) == old(
                self,
            ).orders_view().last() && final(self).orders_view() == old(
                self,
            ).orders_view().drop_last(),
            final(self).pending() == old(self).pending(),
    {
        proof {
            use_type_invariant(&*self);
        }
        let ghost before = self.orders@;
        let mut orders: Vec<(String, u32)> = Vec::new();
        std::mem::swap(&mut orders, &mut self.orders);
        let order = orders.pop();
        self.orders = orders;
        proof {
            if before.len() > 0 {
                assert(entries_view(self.orders@) =~= entries_view(before).drop_last());
            }
        }
        order
    }

    /// Notes that `order` was delivered: it is no longer pending.
    pub fn order_received(&mut self, order: (String, u32))
        ensures
            final(self).pending() == old(self).pending().remove(entry_view(order)),
            final(self).orders_view() == old(self).orders_view(),
    {
        proof {
            use_type_invariant(&*self);
        }
        let ghost before = entries_view(self.sent_orders@);
        let ghost e = entry_view(order);
        match Self::holds_entry(&self.sent_orders, &order) {
            Some(i) => {
                let mut sent: Vec<(String, u32)> = Vec::new();
                std::mem::swap(&mut sent, &mut self.sent_orders);
                sent.remove(i);
                let ghost after = entries_view(sent@);
                assert(after =~= before.remove(i as int));
                assert(after.no_duplicates()) by {
                    assert forall|a: int, b: int| 0 <= a < b < after.len() implies after[a]
                        != after[b] by {
                        let a2 = if a < i { a } else { a + 1 };
                        let b2 = if b < i { b } else { b + 1 };
                        assert(after[a] == before[a2]);
                        assert(after[b] == before[b2]);
                    }
                }
                assert(after.to_set() =~= before.to_set().remove(e)) by {
                    assert forall|x: (Seq<char>, u32)| after.contains(x) implies before.contains(x)
                        && x != e by {
                        let m = choose|m: int| 0 <= m < after.len() && after[m] == x;
                        let m2 = if m < i { m } else { m + 1 };
                        assert(before[m2] == x);
                        assert(m2 != i);
                        assert(before[i as int] == e);
                        assert(before[m2] != before[i as int]);
                    }
                    assert forall|x: (Seq<char>, u32)|
                        before.contains(x) && x != e implies after.contains(x) by {
                        let m = choose|m: int| 0 <= m < before.len() && before[m] == x;
                        assert(m != i);
                        if m < i {
                            assert(after[m] == x);
                        } else {
                            assert(after[m - 1] == x);
                        }
                    }
                }
                self.sent_orders = sent;
            },
            None => {
                assert(before.to_set() =~= before.to_set().remove(e));
            },
        }
    }

    /// Whether every order sent has been delivered.
    pub fn all_orders_received(&self) -> (done: bool)
        ensures
            done == (self.pending() =~= Set::empty()),
    {
        proof {
            let listed = entries_view(self.sent_orders@);
            if listed.len() > 0 {
                assert(listed.contains(listed[0]));
                assert(listed.to_set().contains(listed[0]));
                assert(!Set::<(Seq<char>, u32)>::empty().contains(listed[0]));
            } else {
                assert(listed.to_set() =~= Set::empty());
            }
        }
        self.sent_orders.len() == 0
    }

    /// The orders that `yaml` lists, as a YAML list of `[flavor, quantity]`
    /// pairs; `InvalidYaml` where `serde_yaml` refuses the text.
    pub fn orders_from_yaml(yaml: &[u8]) -> (orders: Result<Vec<(String, u32)>, LoadError>)
        ensures
            match orders {
                Ok(v) => yaml_orders(yaml@) == Some(entries_view(v@)),
                Err(e) => yaml_orders(yaml@) is None && e == LoadError::InvalidYaml,
            },
    {
        match yaml_order_list(yaml) {
            Ok(v) => Ok(v),
            Err(_) => Err(LoadError::InvalidYaml),
        }
    }
}

/// What is still pending of `pending` after the deliveries `received`, in
/// order, each noted by `order_received`.
pub open spec fn after_receipts(
    pending: Set<(Seq<char>, u32)>,
    received: Seq<(Seq<char>, u32)>,
) -> Set<(Seq<char>, u32)>
    decreases received.len(),
{
    if received.len() == 0 {
        pending
    } else {
        after_receipts(pending.remove(received[0]), received.drop_first())
    }
}

/// After a run of deliveries, an order is still pending exactly when it was
/// pending before and is not among those delivered.
pub proof fn lemma_after_receipts(pending: Set<(Seq<char>, u32)>, received: Seq<(Seq<char>, u32)>)
    ensures
        after_receipts(pending, received) == pending.difference(received.to_set()),
    decreases received.len(),
{
    if received.len() == 0 {
        assert(pending.difference(received.to_set()) =~= pending);
    } else {
        lemma_after_receipts(pending.remove(received[0]), received.drop_first());
        assert forall|x: (Seq<char>, u32)| #[trigger] received.contains(x) <==> (x == received[0]
            || received.drop_first().contains(x)) by {
            if received.contains(x) && x != received[0] {
                let i = choose|i: int| 0 <= i < received.len() && received[i] == x;
                assert(received.drop_first()[i - 1] == x);
            }
            if received.drop_first().contains(x) {
                let i = choose|i: int|
                    0 <= i < received.drop_first().len() && received.drop_first()[i] == x;
                assert(received[i + 1] == x);
            }
            if x == received[0] {
                assert(received[0] == x);
            }
        }
        assert(pending.remove(received[0]).difference(received.drop_first().to_set())
            =~= pending.difference(received.to_set()));
    }
}

/// A client is done exactly when its orders have all been delivered: from
/// the orders it was made with, delivering each of them, in any order and
/// with repeats or strangers among them, leaves nothing pending; and while
/// one of them has not been delivered, something is.
pub proof fn lemma_done_when_all_delivered(
    listed: Seq<(Seq<char>, u32)>,
    received: Seq<(Seq<char>, u32)>,
)
    ensures
        (after_receipts(listed.to_set(), received) =~= Set::empty()) <==> (forall|x: (
            Seq<char>,
            u32,
        )| listed.contains(x) ==> #[trigger] received.contains(x)),
{
    lemma_after_receipts(listed.to_set(), received);
    if !(forall|x: (Seq<char>, u32)| listed.contains(x) ==> #[trigger] received.contains(x)) {
        let x = choose|x: (Seq<char>, u32)| listed.contains(x) && !#[trigger] received.contains(x);
        assert(after_receipts(listed.to_set(), received).contains(x));
    }
}

/// A client made with no orders is done at once, and one made with some is
/// not.
pub proof fn lemma_new_client_done(listed: Seq<(Seq<char>, u32)>)
    ensures
        (listed.to_set() =~= Set::empty()) <==> listed.len() == 0,
{
    if listed.len() > 0 {
        assert(listed.contains(listed[0]));
        assert(listed.to_set().contains(listed[0]));
    } else {
        assert(listed.to_set() =~= Set::empty());
    }
}

} // verus!
