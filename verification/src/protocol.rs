//! The line protocol of the shop's server.
//!
//! A connection opens with a line that says who connects: `CLIENTE` for a
//! client, `HELADERO` for an ice cream maker. A client then sends orders, one
//! per line, as a flavor and a number of scoops, and is answered whether each
//! order was queued. The server hands each queued order to an ice cream maker
//! as the number of scoops on a line of its own; when the maker answers, the
//! client that placed the order is told `quantity,flavor` on a line.
use vstd::prelude::*;

use crate::ice_cream_shop::SendClientMessage;
use crate::order::Order;
use crate::text::{
    decimal, decimal_string, is_white_space, parse_u32, parsed_u32, pieces, split_on,
    split_whitespace, trim, trimmed, words, words_from, pending_word, str_equal,
    lemma_decimal_digits, lemma_parse_decimal, lemma_pieces_of_pair,
};

verus! {

/// Who opened a connection.
#[derive(Debug, PartialEq, Eq, Structural)]
pub enum ConnectionKind {
    Client,
    IceCreamMaker,
    Unknown,
}

/// Who a connection's first line says connects: the line without its
/// surrounding white space is `CLIENTE` for a client and `HELADERO` for an ice
/// cream maker.
pub open spec fn connection_kind_of(line: Seq<char>) -> ConnectionKind {
    if trimmed(line) == "CLIENTE"@ {
        ConnectionKind::Client
    } else if trimmed(line) == "HELADERO"@ {
        ConnectionKind::IceCreamMaker
    } else {
        ConnectionKind::Unknown
    }
}

/// Who the first line of a connection says connects.
pub fn connection_kind(line: &str) -> (kind: ConnectionKind)
    ensures
        kind == connection_kind_of(line@),
        (kind == ConnectionKind::Client) <==> trimmed(line@) == "CLIENTE"@,
        (kind == ConnectionKind::IceCreamMaker) <==> trimmed(line@) == "HELADERO"@,
{
    proof {
        reveal_strlit("CLIENTE");
        reveal_strlit("HELADERO");
        assert("CLIENTE"@.len() != "HELADERO"@.len());
    }
    let word = trim(line);
    if str_equal(word, "CLIENTE") {
        ConnectionKind::Client
    } else if str_equal(word, "HELADERO") {
        ConnectionKind::IceCreamMaker
    } else {
        ConnectionKind::Unknown
    }
}

/// What the server does with a new connection.
#[derive(Debug, PartialEq, Eq, Structural)]
pub enum Admission {
    /// Serve a client, under this id.
    Client(u32),
    /// Serve an ice cream maker.
    IceCreamMaker,
    /// Drop the connection.
    Unknown,
}

/// One connection accepted, with `next` the id that the next client gets:
/// the count after it, and what the server does with the connection. A
/// client gets `next` and the count moves on by one; an ice cream maker or an
/// unknown peer leaves the count as it is.
pub open spec fn accept_step(next: u32, line: Seq<char>) -> (u32, Admission) {
    match connection_kind_of(line) {
        ConnectionKind::Client => ((next + 1) as u32, Admission::Client(next)),
        ConnectionKind::IceCreamMaker => (next, Admission::IceCreamMaker),
        ConnectionKind::Unknown => (next, Admission::Unknown),
    }
}

/// A run of connections accepted in turn, opening with the lines `lines`:
/// the count after them, and what the server does with each.
pub open spec fn accept_run(next: u32, lines: Seq<Seq<char>>) -> (u32, Seq<Admission>)
    decreases lines.len(),
{
    if lines.len() == 0 {
        (next, Seq::empty())
    } else {
        let first = accept_step(next, lines[0]);
        let rest = accept_run(first.0, lines.drop_first());
        (rest.0, seq![first.1] + rest.1)
    }
}

/// How many of the lines `lines` open a client's connection.
pub open spec fn client_lines(lines: Seq<Seq<char>>) -> nat
    decreases lines.len(),
{
    if lines.len() == 0 {
        0
    } else {
        (if connection_kind_of(lines[0]) == ConnectionKind::Client {
            1nat
        } else {
            0nat
        }) + client_lines(lines.drop_first())
    }
}

/// The server's count of clients: the id that the next client gets.
pub struct Server {
    next_client_id: u32,
}

impl Server {
    /// The id that the next client gets.
    pub closed spec fn next_id(&self) -> u32 {
        self.next_client_id
    }

    /// A server that has admitted no client; the first gets id 1.
    pub fn new() -> (server: Self)
        ensures
            server.next_id() == 1,
    {
        Server { next_client_id: 1 }
    }

    /// The id that the next client gets.
    pub fn next_client_id(&self) -> (id: u32)
        ensures
            id == self.next_id(),
    {
        self.next_client_id
    }

    /// Accepts a connection by its first line: a client gets the next id,
    /// and the count moves on; an ice cream maker or an unknown peer leaves
    /// the count as it is.
    pub fn accept(&mut self, line: &str) -> (admission: Admission)
        requires
            connection_kind_of(line@) == ConnectionKind::Client ==> old(self).next_id() < u32::MAX,
        ensures
            (final(self).next_id(), admission) == accept_step(old(self).next_id(), line@),
            trimmed(line@) == "CLIENTE"@ ==> admission == Admission::Client(old(self).next_id())
                && final(self).next_id() == old(self).next_id() + 1,
            trimmed(line@) == "HELADERO"@ ==> admission == Admission::IceCreamMaker
                && final(self).next_id() == old(self).next_id(),
            trimmed(line@) != "CLIENTE"@ && trimmed(line@) != "HELADERO"@ ==> admission
                == Admission::Unknown && final(self).next_id() == old(self).next_id(),
    {
        match connection_kind(line) {
            ConnectionKind::Client => {
                let id = self.next_client_id;
                self.next_client_id = self.next_client_id + 1;
                Admission::Client(id)
            },
            ConnectionKind::IceCreamMaker => Admission::IceCreamMaker,
            ConnectionKind::Unknown => Admission::Unknown,
        }
    }
}

/// The flavor and number of scoops that an order line asks for: the line
/// holds exactly two words, and the second is a number that `u32::from_str`
/// reads.
pub open spec fn order_line_fields(line: Seq<char>) -> Option<(Seq<char>, u32)> {
    let w = words(line);
    if w.len() == 2 && parsed_u32(w[1]) is Some {
        Some((w[0], parsed_u32(w[1])->0))
    } else {
        None
    }
}

/// The order that a client's line places, for the client `client_id`; `None`
/// where the line is not an order, which the server then ignores.
pub fn parse_order_line(line: &str, client_id: u32) -> (order: Option<Order>)
    ensures
        match order_line_fields(line@) {
            Some((flavor, quantity)) => order matches Some(o) && o.flavor_view() == flavor
                && o.quantity_view() == quantity && o.client_id_view() == client_id,
            None => order is None,
        },
        order is Some <==> (words(line@).len() == 2 && parsed_u32(words(line@)[1]) is Some),
        order matches Some(o) ==> o.flavor_view() == words(line@)[0] && Some(o.quantity_view())
            == parsed_u32(words(line@)[1]) && o.client_id_view() == client_id,
{
    let parts = split_whitespace(line);
    proof {
        assert(parts@.len() == words(line@).len());
    }
    if parts.len() == 2 {
        proof {
            assert(parts@[0]@ == words(line@)[0]);
            assert(parts@[1]@ == words(line@)[1]);
        }
        match parse_u32(parts[1]) {
            Some(quantity) => Some(Order::new(String::from_str(parts[0]), quantity, client_id)),
            None => None,
        }
    } else {
        None
    }
}

/// What a client is told about an order line that the shop was sent.
pub fn order_ack(queued: bool) -> (ack: &'static str)
    ensures
        queued ==> ack@ == "Order processed successfully\n"@,
        !queued ==> ack@ == "Failed to process order\n"@,
{
    if queued {
        "Order processed successfully\n"
    } else {
        "Failed to process order\n"
    }
}

/// The line that hands an order to an ice cream maker: its number of scoops.
pub open spec fn maker_request_text(quantity: u32) -> Seq<char> {
    decimal(quantity as nat) + seq!['\n']
}

/// The notice that an order is done: `flavor,quantity`.
pub open spec fn notice_text(flavor: Seq<char>, quantity: u32) -> Seq<char> {
    flavor + seq![','] + decimal(quantity as nat)
}

/// What a client is told of a notice: where the notice has exactly two
/// comma-separated parts, those parts swapped, on a line.
pub open spec fn reply_text(notice: Seq<char>) -> Option<Seq<char>> {
    let p = pieces(notice, ',');
    if p.len() == 2 {
        Some(p[1] + seq![','] + p[0] + seq!['\n'])
    } else {
        None
    }
}

/// The line that hands `order` to an ice cream maker.
pub fn maker_request(order: &Order) -> (line: String)
    ensures
        line@ == maker_request_text(order.quantity_view()),
        line@ == decimal(order.quantity_view() as nat).push('\n'),
{
    let mut line = decimal_string(order.quantity());
    line.append("\n");
    proof {
        reveal_strlit("\n");
    }
    line
}

/// The notice that `order` is done, for the client that placed it.
pub fn completion_notice(order: &Order) -> (notice: String)
    ensures
        notice@ == notice_text(order.flavor_view(), order.quantity_view()),
{
    let mut notice = order.flavor().clone();
    notice.append(",");
    let quantity = decimal_string(order.quantity());
    notice.append(quantity.as_str());
    proof {
        reveal_strlit(",");
    }
    notice
}

/// The message that tells the shop `order` is done: the notice, addressed
/// to the client that placed the order.
pub fn completion_for(order: &Order) -> (msg: SendClientMessage)
    ensures
        msg.id == order.client_id_view(),
        msg.message@ == notice_text(order.flavor_view(), order.quantity_view()),
{
    SendClientMessage { id: order.client_id(), message: completion_notice(order) }
}

/// The line that a client is sent for a notice; `None` where the notice does
/// not have exactly two comma-separated parts, which the server then skips.
pub fn completion_reply(notice: &str) -> (line: Option<String>)
    ensures
        match reply_text(notice@) {
            Some(text) => line matches Some(l) && l@ == text,
            None => line is None,
        },
{
    let parts = split_on(notice, ',');
    proof {
        assert(parts@.len() == pieces(notice@, ',').len());
    }
    if parts.len() == 2 {
        proof {
            assert(parts@[0]@ == pieces(notice@, ',')[0]);
            assert(parts@[1]@ == pieces(notice@, ',')[1]);
            reveal_strlit(",");
            reveal_strlit("\n");
        }
        let mut line = String::from_str(parts[1]);
        line.append(",");
        line.append(parts[0]);
        line.append("\n");
        Some(line)
    } else {
        None
    }
}

// ---------------------------------------------------------------------
// Laws of the protocol.

/// A run of characters without white space only extends the current word.
proof fn lemma_words_without_space(s: Seq<char>, cur: Seq<char>)
    requires
        forall|i: int| 0 <= i < s.len() ==> !is_white_space(#[trigger] s[i]),
    ensures
        words_from(s, cur) == pending_word(cur + s),
    decreases s.len(),
{
    if s.len() == 0 {
        assert(cur + s =~= cur);
    } else {
        assert(!is_white_space(s[0]));
        assert forall|i: int| 0 <= i < s.drop_first().len() implies !is_white_space(
            #[trigger] s.drop_first()[i],
        ) by {
            assert(s.drop_first()[i] == s[i + 1]);
        }
        lemma_words_without_space(s.drop_first(), cur.push(s[0]));
        assert(cur.push(s[0]) + s.drop_first() =~= cur + s);
    }
}

proof fn lemma_words_of_pair_from(a: Seq<char>, b: Seq<char>, cur: Seq<char>)
    requires
        cur.len() + a.len() > 0,
        b.len() > 0,
        forall|i: int| 0 <= i < a.len() ==> !is_white_space(#[trigger] a[i]),
        forall|i: int| 0 <= i < b.len() ==> !is_white_space(#[trigger] b[i]),
    ensures
        words_from(a + seq![' '] + b, cur) == seq![cur + a, b],
    decreases a.len(),
{
    let s = a + seq![' '] + b;
    if a.len() == 0 {
        assert(s[0] == ' ');
        assert(is_white_space(' '));
        assert(s.drop_first() =~= b);
        lemma_words_without_space(b, Seq::empty());
        assert(Seq::<char>::empty() + b =~= b);
        assert(cur + a =~= cur);
        assert(pending_word(cur) + pending_word(b) =~= seq![cur + a, b]);
    } else {
        assert(s[0] == a[0]);
        assert(!is_white_space(a[0]));
        assert(s.drop_first() =~= a.drop_first() + seq![' '] + b);
        assert forall|i: int| 0 <= i < a.drop_first().len() implies !is_white_space(
            #[trigger] a.drop_first()[i],
        ) by {
            assert(a.drop_first()[i] == a[i + 1]);
        }
        lemma_words_of_pair_from(a.drop_first(), b, cur.push(a[0]));
        assert(cur.push(a[0]) + a.drop_first() =~= cur + a);
    }
}

/// A client's order line, written as its flavor, a space and its number of
/// scoops, is read back as that flavor and number, where the flavor is a
/// single word.
pub proof fn lemma_order_line_round_trip(flavor: Seq<char>, quantity: u32)
    requires
        flavor.len() > 0,
        forall|i: int| 0 <= i < flavor.len() ==> !is_white_space(#[trigger] flavor[i]),
    ensures
        order_line_fields(flavor + seq![' '] + decimal(quantity as nat)) == Some((flavor, quantity)),
{
    let d = decimal(quantity as nat);
    lemma_decimal_digits(quantity as nat);
    assert forall|i: int| 0 <= i < d.len() implies !is_white_space(#[trigger] d[i]) by {
        assert(crate::text::is_digit(d[i]));
    }
    lemma_words_of_pair_from(flavor, d, Seq::empty());
    assert(Seq::<char>::empty() + flavor =~= flavor);
    lemma_parse_decimal(quantity);
}

/// A client is told `quantity,flavor` of the notice that its order is done,
/// where the flavor holds no comma.
pub proof fn lemma_reply_to_notice(flavor: Seq<char>, quantity: u32)
    requires
        !flavor.contains(','),
    ensures
        reply_text(notice_text(flavor, quantity)) == Some(
            decimal(quantity as nat) + seq![','] + flavor + seq!['\n'],
        ),
{
    let d = decimal(quantity as nat);
    lemma_decimal_digits(quantity as nat);
    assert(!d.contains(',')) by {
        if d.contains(',') {
            let i = choose|i: int| 0 <= i < d.len() && d[i] == ',';
            assert(crate::text::is_digit(d[i]));
        }
    }
    lemma_pieces_of_pair(flavor, ',', d);
}

/// The line that hands an order to a maker is read back by `u32::from_str`,
/// once its line break is trimmed, as the order's number of scoops.
pub proof fn lemma_maker_request_round_trip(quantity: u32)
    ensures
        parsed_u32(trimmed(maker_request_text(quantity))) == Some(quantity),
{
    let d = decimal(quantity as nat);
    lemma_decimal_digits(quantity as nat);
    lemma_parse_decimal(quantity);
    let s = maker_request_text(quantity);
    assert(!is_white_space(d[0])) by {
        assert(crate::text::is_digit(d[0]));
    }
    assert(crate::text::trim_start(s) == s) by {
        assert(s[0] == d[0]);
    }
    assert(is_white_space(s.last()));
    assert(s.drop_last() =~= d);
    assert(!is_white_space(d.last())) by {
        assert(crate::text::is_digit(d[d.len() - 1]));
    }
    assert(crate::text::trim_end(d) == d);
}

proof fn lemma_client_lines_take(lines: Seq<Seq<char>>, i: int)
    requires
        0 <= i < lines.len(),
    ensures
        client_lines(lines.take(i + 1)) == client_lines(lines.take(i)) + (if connection_kind_of(
            lines[i],
        ) == ConnectionKind::Client {
            1nat
        } else {
            0nat
        }),
        client_lines(lines.take(i + 1)) <= client_lines(lines),
    decreases i,
{
    if i == 0 {
        assert(lines.take(1).drop_first() =~= Seq::<Seq<char>>::empty());
        assert(lines.take(0) =~= Seq::<Seq<char>>::empty());
        lemma_client_lines_bound(lines);
    } else {
        let rest = lines.drop_first();
        lemma_client_lines_take(rest, i - 1);
        assert(lines.take(i + 1).drop_first() =~= rest.take(i));
        assert(lines.take(i).drop_first() =~= rest.take(i - 1));
        assert(lines.take(i + 1)[0] == lines[0]);
        assert(lines.take(i)[0] == lines[0]);
        assert(rest[i - 1] == lines[i]);
    }
}

proof fn lemma_client_lines_bound(lines: Seq<Seq<char>>)
    ensures
        lines.len() > 0 ==> client_lines(lines.take(1)) <= client_lines(lines),
{
    if lines.len() > 0 {
        let one = lines.take(1);
        assert(one.drop_first() =~= Seq::<Seq<char>>::empty());
        assert(client_lines(one.drop_first()) == 0);
        assert(one[0] == lines[0]);
        assert(client_lines(one) == client_lines(one.drop_first()) + (if connection_kind_of(one[0])
            == ConnectionKind::Client {
            1nat
        } else {
            0nat
        }));
    }
}

/// Client ids over any run of connections: accepting connections in turn,
/// from a count of `next`, calls `accept` only where its `requires` holds as
/// long as the clients fit below `u32::MAX`; the client whose line comes
/// after `k` other clients' lines gets id `next + k`; makers and unknown
/// peers get no id and leave the count alone; and the count ends `next` plus
/// the number of clients. From `Server::new`, the `k`-th client gets id `k`.
pub proof fn lemma_accept_run(next: u32, lines: Seq<Seq<char>>)
    requires
        next + client_lines(lines) <= u32::MAX,
    ensures
        accept_run(next, lines).0 == next + client_lines(lines),
        accept_run(next, lines).1.len() == lines.len(),
        forall|i: int|
            0 <= i < lines.len() && connection_kind_of(#[trigger] lines[i])
                == ConnectionKind::Client ==> next + client_lines(lines.take(i)) < u32::MAX
                && accept_run(next, lines).1[i] == Admission::Client(
                (next + client_lines(lines.take(i))) as u32,
            ),
        forall|i: int|
            0 <= i < lines.len() && connection_kind_of(#[trigger] lines[i])
                == ConnectionKind::IceCreamMaker ==> accept_run(next, lines).1[i]
                == Admission::IceCreamMaker,
        forall|i: int|
            0 <= i < lines.len() && connection_kind_of(#[trigger] lines[i])
                == ConnectionKind::Unknown ==> accept_run(next, lines).1[i] == Admission::Unknown,
    decreases lines.len(),
{
    if lines.len() > 0 {
        let first = accept_step(next, lines[0]);
        let rest = lines.drop_first();
        lemma_accept_run(first.0, rest);
        let run = accept_run(next, lines);
        let rest_run = accept_run(first.0, rest);
        assert(run.1 == seq![first.1] + rest_run.1);
        assert forall|i: int|
            0 <= i < lines.len() && connection_kind_of(#[trigger] lines[i])
                == ConnectionKind::Client implies next + client_lines(lines.take(i)) < u32::MAX
            && run.1[i] == Admission::Client((next + client_lines(lines.take(i))) as u32) by {
            lemma_client_lines_take(lines, i);
            if i == 0 {
                assert(lines.take(0) =~= Seq::<Seq<char>>::empty());
            } else {
                assert(rest[i - 1] == lines[i]);
                assert(lines.take(i).drop_first() =~= rest.take(i - 1));
                assert(lines.take(i)[0] == lines[0]);
                assert(run.1[i] == rest_run.1[i - 1]);
            }
        }
        assert forall|i: int|
            0 <= i < lines.len() && connection_kind_of(#[trigger] lines[i])
                == ConnectionKind::IceCreamMaker implies run.1[i] == Admission::IceCreamMaker by {
            if i > 0 {
                assert(rest[i - 1] == lines[i]);
                assert(run.1[i] == rest_run.1[i - 1]);
            }
        }
        assert forall|i: int|
            0 <= i < lines.len() && connection_kind_of(#[trigger] lines[i])
                == ConnectionKind::Unknown implies run.1[i] == Admission::Unknown by {
            if i > 0 {
                assert(rest[i - 1] == lines[i]);
                assert(run.1[i] == rest_run.1[i - 1]);
            }
        }
    }
}

/// No two clients share an id: over any run of connections that fits, a
/// client whose line comes later gets a larger id.
pub proof fn lemma_client_ids_distinct(next: u32, lines: Seq<Seq<char>>, i: int, j: int)
    requires
        next + client_lines(lines) <= u32::MAX,
        0 <= i < j < lines.len(),
        connection_kind_of(lines[i]) == ConnectionKind::Client,
        connection_kind_of(lines[j]) == ConnectionKind::Client,
    ensures
        accept_run(next, lines).1[i] matches Admission::Client(a) && accept_run(next, lines).1[j] matches Admission::Client(b) && a < b,
{
    lemma_accept_run(next, lines);
    lemma_take_count_grows(lines, i, j);
    lemma_client_lines_take(lines, i);
}

proof fn lemma_take_count_grows(lines: Seq<Seq<char>>, i: int, j: int)
    requires
        0 <= i < j <= lines.len(),
    ensures
        client_lines(lines.take(i + 1)) <= client_lines(lines.take(j)),
    decreases j - i,
{
    if j > i + 1 {
        lemma_take_count_grows(lines, i, j - 1);
        lemma_client_lines_take(lines, j - 1);
    }
}

/// A completion reaches the client that placed the order, and only that
/// client: an order parsed from a line that client `client` sent carries
/// `client` as its client id; the message that `completion_for` makes of it
/// is addressed to `client`, so `send_client_message` hands it to `client`'s
/// connection and no other; and that client is told `quantity,flavor` on a
/// line, where the flavor holds no comma.
pub proof fn lemma_completion_reaches_its_client(
    line: Seq<char>,
    client: u32,
    order: Order,
    msg: SendClientMessage,
)
    requires
        order_line_fields(line) matches Some((flavor, quantity)) && order.flavor_view() == flavor
            && order.quantity_view() == quantity && order.client_id_view() == client,
        msg.id == order.client_id_view(),
        msg.message@ == notice_text(order.flavor_view(), order.quantity_view()),
        !order.flavor_view().contains(','),
    ensures
        msg.id == client,
        reply_text(msg.message@) == Some(
            decimal(order.quantity_view() as nat) + seq![','] + order.flavor_view() + seq!['\n'],
        ),
{
    lemma_reply_to_notice(order.flavor_view(), order.quantity_view());
}

// ---------------------------------------------------------------------
// What a first line, an order line and a maker's line are, in plain terms.

proof fn lemma_trim_start_spaces(p: Seq<char>, w: Seq<char>)
    requires
        forall|i: int| 0 <= i < p.len() ==> is_white_space(#[trigger] p[i]),
        w.len() > 0,
        !is_white_space(w[0]),
    ensures
        crate::text::trim_start(p + w) == w,
    decreases p.len(),
{
    if p.len() == 0 {
        assert(p + w =~= w);
    } else {
        assert((p + w)[0] == p[0]);
        assert((p + w).drop_first() =~= p.drop_first() + w);
        assert forall|i: int| 0 <= i < p.drop_first().len() implies is_white_space(
            #[trigger] p.drop_first()[i],
        ) by {
            assert(p.drop_first()[i] == p[i + 1]);
        }
        lemma_trim_start_spaces(p.drop_first(), w);
    }
}

proof fn lemma_trim_end_spaces(w: Seq<char>, s: Seq<char>)
    requires
        forall|i: int| 0 <= i < s.len() ==> is_white_space(#[trigger] s[i]),
        w.len() > 0,
        !is_white_space(w.last()),
    ensures
        crate::text::trim_end(w + s) == w,
    decreases s.len(),
{
    if s.len() == 0 {
        assert(w + s =~= w);
    } else {
        assert((w + s).last() == s.last());
        assert((w + s).drop_last() =~= w + s.drop_last());
        assert forall|i: int| 0 <= i < s.drop_last().len() implies is_white_space(
            #[trigger] s.drop_last()[i],
        ) by {
            assert(s.drop_last()[i] == s[i]);
        }
        lemma_trim_end_spaces(w, s.drop_last());
    }
}

/// `trimmed` takes off exactly the white space around a word.
pub proof fn lemma_trimmed_word(p: Seq<char>, w: Seq<char>, s: Seq<char>)
    requires
        forall|i: int| 0 <= i < p.len() ==> is_white_space(#[trigger] p[i]),
        forall|i: int| 0 <= i < s.len() ==> is_white_space(#[trigger] s[i]),
        w.len() > 0,
        !is_white_space(w[0]),
        !is_white_space(w.last()),
    ensures
        trimmed(p + w + s) == w,
{
    assert(p + w + s =~= p + (w + s));
    assert((w + s)[0] == w[0]);
    lemma_trim_start_spaces(p, w + s);
    lemma_trim_end_spaces(w, s);
}

/// A first line is a client's exactly when it reads `CLIENTE` once its
/// surrounding white space (spaces, tabs, `\r`, `\n`, any Unicode white
/// space) is taken off, and a maker's exactly when it reads `HELADERO`: so
/// `CLIENTE` and `HELADERO` with any white space around them, a CRLF line
/// end among it, are always a client and a maker.
pub proof fn lemma_first_line_kinds(p: Seq<char>, s: Seq<char>, line: Seq<char>)
    requires
        forall|i: int| 0 <= i < p.len() ==> is_white_space(#[trigger] p[i]),
        forall|i: int| 0 <= i < s.len() ==> is_white_space(#[trigger] s[i]),
    ensures
        connection_kind_of(p + "CLIENTE"@ + s) == ConnectionKind::Client,
        connection_kind_of(p + "HELADERO"@ + s) == ConnectionKind::IceCreamMaker,
        connection_kind_of(line) == ConnectionKind::Client <==> trimmed(line) == "CLIENTE"@,
        connection_kind_of(line) == ConnectionKind::IceCreamMaker <==> trimmed(line)
            == "HELADERO"@,
        accept_step(1, p + "CLIENTE"@ + s) == (2u32, Admission::Client(1)),
{
    reveal_strlit("CLIENTE");
    reveal_strlit("HELADERO");
    lemma_trimmed_word(p, "CLIENTE"@, s);
    lemma_trimmed_word(p, "HELADERO"@, s);
    assert("CLIENTE"@ != "HELADERO"@) by {
        assert("CLIENTE"@.len() != "HELADERO"@.len());
    }
}

proof fn lemma_words_after_word(a: Seq<char>, rest: Seq<char>, cur: Seq<char>)
    requires
        cur.len() + a.len() > 0,
        forall|i: int| 0 <= i < a.len() ==> !is_white_space(#[trigger] a[i]),
    ensures
        words_from(a + seq![' '] + rest, cur) == seq![cur + a] + words(rest),
    decreases a.len(),
{
    let s = a + seq![' '] + rest;
    if a.len() == 0 {
        assert(s[0] == ' ');
        assert(is_white_space(' '));
        assert(s.drop_first() =~= rest);
        assert(cur + a =~= cur);
    } else {
        assert(s[0] == a[0]);
        assert(!is_white_space(a[0]));
        assert(s.drop_first() =~= a.drop_first() + seq![' '] + rest);
        assert forall|i: int| 0 <= i < a.drop_first().len() implies !is_white_space(
            #[trigger] a.drop_first()[i],
        ) by {
            assert(a.drop_first()[i] == a[i + 1]);
        }
        lemma_words_after_word(a.drop_first(), rest, cur.push(a[0]));
        assert(cur.push(a[0]) + a.drop_first() =~= cur + a);
    }
}

/// An order line holds exactly two words, the second a number: a line of
/// any other number of words places no order. In particular a flavor of two
/// words followed by a number (`Chocolate amargo 2`) places none, and a
/// single-word flavor followed by a number places that flavor and number.
pub proof fn lemma_order_line_needs_two_words(line: Seq<char>, a: Seq<char>, b: Seq<char>, c: Seq<char>, quantity: u32)
    requires
        a.len() > 0 && b.len() > 0 && c.len() > 0,
        forall|i: int| 0 <= i < a.len() ==> !is_white_space(#[trigger] a[i]),
        forall|i: int| 0 <= i < b.len() ==> !is_white_space(#[trigger] b[i]),
        forall|i: int| 0 <= i < c.len() ==> !is_white_space(#[trigger] c[i]),
    ensures
        words(line).len() != 2 ==> order_line_fields(line) is None,
        order_line_fields(line) matches Some((flavor, q)) ==> words(line) == seq![flavor, words(line)[1]]
            && parsed_u32(words(line)[1]) == Some(q),
        order_line_fields(a + seq![' '] + b + seq![' '] + c) is None,
        order_line_fields(a + seq![' '] + decimal(quantity as nat)) == Some((a, quantity)),
{
    lemma_words_after_word(a, b + seq![' '] + c, Seq::empty());
    assert(a + seq![' '] + b + seq![' '] + c =~= a + seq![' '] + (b + seq![' '] + c));
    lemma_words_after_word(b, c, Seq::empty());
    lemma_words_without_space_pub(c);
    assert(Seq::<char>::empty() + a =~= a);
    assert(Seq::<char>::empty() + b =~= b);
    lemma_order_line_round_trip(a, quantity);
}

proof fn lemma_words_without_space_pub(c: Seq<char>)
    requires
        c.len() > 0,
        forall|i: int| 0 <= i < c.len() ==> !is_white_space(#[trigger] c[i]),
    ensures
        words(c) == seq![c],
{
    lemma_words_without_space(c, Seq::empty());
    assert(Seq::<char>::empty() + c =~= c);
}

/// The line that hands an order to a maker is the number of scoops in
/// decimal and exactly one line break, at its end, for every quantity: so a
/// maker that reads a line reads it whole, and reads the quantity back.
pub proof fn lemma_maker_request_is_one_line(quantity: u32)
    ensures
        maker_request_text(quantity).len() == decimal(quantity as nat).len() + 1,
        maker_request_text(quantity).last() == '\n',
        maker_request_text(quantity).drop_last() == decimal(quantity as nat),
        forall|i: int|
            0 <= i < maker_request_text(quantity).len() - 1 ==> #[trigger] maker_request_text(
                quantity,
            )[i] != '\n',
        parsed_u32(maker_request_text(quantity).drop_last()) == Some(quantity),
{
    lemma_decimal_digits(quantity as nat);
    lemma_parse_decimal(quantity);
    let d = decimal(quantity as nat);
    assert(maker_request_text(quantity).drop_last() =~= d);
    assert forall|i: int| 0 <= i < maker_request_text(quantity).len() - 1 implies #[trigger] maker_request_text(
        quantity,
    )[i] != '\n' by {
        assert(maker_request_text(quantity)[i] == d[i]);
        assert(crate::text::is_digit(d[i]));
    }
}

} // verus!
