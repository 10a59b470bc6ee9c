//! What the streaming client keeps and decides: its subscriptions, the
//! handler registered for each topic, whether it may trade, and the text of
//! each request that it sends. The socket itself, the timers and the
//! tasks stand outside; they act on what these functions return.
use crate::auth::{generate_ws_signature, signature_of};
use crate::utils::{clone_optional, is_infix_of};
use crate::json::{
    decimal, is_digit_char, json_string, lemma_decimal_injective, lemma_decimal_value,
    lemma_json_string_prefix, lemma_string_list_contains, lemma_string_list_injective, push_decimal,
    push_json_string, push_string_list, string_list,
};
use vstd::prelude::*;

verus! {

broadcast use vstd::string::group_string_axioms;

/// Address of the trade socket of the main network.
pub const MAINNET_WS_TRADE: &'static str = "wss://stream.bybit.com/v5/trade";

/// Address of the trade socket of the test network.
pub const TESTNET_WS_TRADE: &'static str = "wss://stream-testnet.bybit.com/v5/trade";

/// How far past the current timestamp an authentication request expires.
pub const AUTH_EXPIRY_DELAY: u64 = 10000;

/// Errors of the client.
#[derive(Debug, Clone, PartialEq)]
pub enum BybitError {
    /// The socket failed or is closed.
    WebSocket(String),
    /// Credentials are missing or were refused.
    Auth(String),
    /// A request could not be made or a reply not read.
    Parse(String),
}

/// The bookkeeping of a streaming client.
pub struct BybitWebSocket {
    url: String,
    api_key: Option<String>,
    api_secret: Option<String>,
    is_trade: bool,
    subscriptions: Vec<String>,
    handlers: Vec<(String, u64)>,
    connected: bool,
}

// ---------------------------------------------------------------------------
// The model
// ---------------------------------------------------------------------------

/// `pairs` without the entries for topic `k`.
pub open spec fn without_key(pairs: Seq<(Seq<char>, u64)>, k: Seq<char>) -> Seq<(Seq<char>, u64)>
    decreases pairs.len(),
{
    if pairs.len() == 0 {
        pairs
    } else if pairs.last().0 == k {
        without_key(pairs.drop_last(), k)
    } else {
        without_key(pairs.drop_last(), k).push(pairs.last())
    }
}

/// The handler that `pairs` holds for topic `k` (the latest entry wins).
pub open spec fn lookup(pairs: Seq<(Seq<char>, u64)>, k: Seq<char>) -> Option<u64>
    decreases pairs.len(),
{
    if pairs.len() == 0 {
        None
    } else if pairs.last().0 == k {
        Some(pairs.last().1)
    } else {
        lookup(pairs.drop_last(), k)
    }
}

/// The map from topic to handler that `pairs` stands for.
pub open spec fn as_map(pairs: Seq<(Seq<char>, u64)>) -> Map<Seq<char>, u64> {
    Map::new(|k: Seq<char>| lookup(pairs, k) is Some, |k: Seq<char>| lookup(pairs, k)->0)
}

/// Each of `topics` mapped to `handler`.
pub open spec fn topic_handlers(topics: Seq<Seq<char>>, handler: u64) -> Map<Seq<char>, u64> {
    Map::new(|k: Seq<char>| topics.contains(k), |k: Seq<char>| handler)
}

/// `subs` without the topics that occur in `topics`, in the same order.
pub open spec fn without_topics(subs: Seq<Seq<char>>, topics: Seq<Seq<char>>) -> Seq<Seq<char>>
    decreases subs.len(),
{
    if subs.len() == 0 {
        subs
    } else if topics.contains(subs.last()) {
        without_topics(subs.drop_last(), topics)
    } else {
        without_topics(subs.drop_last(), topics).push(subs.last())
    }
}

/// The text of a request with an identifier, an operation and string arguments.
pub open spec fn request_frame(req_id: Seq<char>, op: Seq<char>, args: Seq<Seq<char>>) -> Seq<
    char,
> {
    "{\"req_id\":"@ + json_string(req_id) + ",\"op\":"@ + json_string(op) + ",\"args\":["@
        + string_list(args) + "]}"@
}

/// The text of an authentication request.
pub open spec fn auth_frame(req_id: Seq<char>, api_key: Seq<char>, expires: u64, signature: Seq<
    char,
>) -> Seq<char> {
    "{\"req_id\":"@ + json_string(req_id) + ",\"op\":"@ + json_string("auth"@) + ",\"args\":["@
        + json_string(api_key) + ","@ + decimal(expires as nat) + ","@ + json_string(signature)
        + "]}"@
}

/// A socket at `url` may trade.
pub open spec fn is_trade_url(url: Seq<char>) -> bool {
    url == MAINNET_WS_TRADE@ || url == TESTNET_WS_TRADE@
}

pub proof fn lemma_lookup_without_key(pairs: Seq<(Seq<char>, u64)>, k: Seq<char>, k2: Seq<char>)
    ensures
        lookup(without_key(pairs, k), k2) == if k2 == k {
            None
        } else {
            lookup(pairs, k2)
        },
    decreases pairs.len(),
{
    if pairs.len() > 0 {
        lemma_lookup_without_key(pairs.drop_last(), k, k2);
        if pairs.last().0 != k {
            assert(without_key(pairs, k).drop_last() == without_key(pairs.drop_last(), k));
        }
    }
}

proof fn lemma_lookup_found(pairs: Seq<(Seq<char>, u64)>, k: Seq<char>)
    requires
        lookup(pairs, k) is Some,
    ensures
        exists|j: int| 0 <= j < pairs.len() && (#[trigger] pairs[j]).0 == k,
    decreases pairs.len(),
{
    if pairs.last().0 == k {
        assert(pairs[pairs.len() - 1].0 == k);
    } else {
        lemma_lookup_found(pairs.drop_last(), k);
        let j = choose|j: int| 0 <= j < pairs.len() - 1 && (#[trigger] pairs.drop_last()[j]).0 == k;
        assert(pairs[j] == pairs.drop_last()[j]);
    }
}

proof fn lemma_replace_entry(pairs: Seq<(Seq<char>, u64)>, k: Seq<char>, h: u64)
    ensures
        as_map(without_key(pairs, k).push((k, h))) == as_map(pairs).insert(k, h),
{
    let p = without_key(pairs, k).push((k, h));
    assert forall|k2: Seq<char>| #[trigger] lookup(p, k2) == (if k2 == k {
        Some(h)
    } else {
        lookup(pairs, k2)
    }) by {
        assert(p.drop_last() == without_key(pairs, k));
        lemma_lookup_without_key(pairs, k, k2);
    }
    assert(as_map(p) =~= as_map(pairs).insert(k, h));
}

proof fn lemma_drop_entry(pairs: Seq<(Seq<char>, u64)>, k: Seq<char>)
    ensures
        as_map(without_key(pairs, k)) == as_map(pairs).remove(k),
{
    assert forall|k2: Seq<char>| #[trigger] lookup(without_key(pairs, k), k2) == (if k2 == k {
        None
    } else {
        lookup(pairs, k2)
    }) by {
        lemma_lookup_without_key(pairs, k, k2);
    }
    assert(as_map(without_key(pairs, k)) =~= as_map(pairs).remove(k));
}


/// What happens to the connection of a client.
#[derive(Debug, Clone, Copy, PartialEq, Eq, Structural)]
pub enum ConnectionEvent {
    /// The handshake succeeded (`connection_opened`).
    Opened,
    /// The client closed the connection (`disconnect`).
    Closed,
    /// The server closed the connection or it broke (`connection_lost`).
    Lost,
    /// A call that leaves the connection as it is (subscribing, requests, ...).
    Other,
}

/// Whether a client is connected after `events`, starting from `start`.
pub open spec fn connected_after(start: bool, events: Seq<ConnectionEvent>) -> bool
    decreases events.len(),
{
    if events.len() == 0 {
        start
    } else {
        match events.last() {
            ConnectionEvent::Opened => true,
            ConnectionEvent::Closed => false,
            ConnectionEvent::Lost => false,
            ConnectionEvent::Other => connected_after(start, events.drop_last()),
        }
    }
}

/// The events `a` then `b` leave the connection as `b` does from where `a` left it.
pub proof fn lemma_connected_after_concat(start: bool, a: Seq<ConnectionEvent>, b: Seq<ConnectionEvent>)
    ensures
        connected_after(start, a + b) == connected_after(connected_after(start, a), b),
    decreases b.len(),
{
    if b.len() == 0 {
        assert(a + b =~= a);
    } else {
        lemma_connected_after_concat(start, a, b.drop_last());
        assert((a + b).drop_last() =~= a + b.drop_last());
        assert((a + b).last() == b.last());
    }
}

/// The connection was opened at step `i` of `events` and neither closed
/// nor lost at any later step.
pub open spec fn opened_at(events: Seq<ConnectionEvent>, i: int) -> bool {
    &&& 0 <= i < events.len()
    &&& events[i] == ConnectionEvent::Opened
    &&& forall|j: int|
        i < j < events.len() ==> #[trigger] events[j] != ConnectionEvent::Closed && events[j]
            != ConnectionEvent::Lost
}

proof fn lemma_opened_at_prefix(events: Seq<ConnectionEvent>, i: int)
    requires
        events.len() > 0,
        0 <= i < events.len() - 1,
        events.last() != ConnectionEvent::Closed,
        events.last() != ConnectionEvent::Lost,
    ensures
        opened_at(events, i) <==> opened_at(events.drop_last(), i),
{
    let rest = events.drop_last();
    assert(events[i] == rest[i]);
    if opened_at(events, i) {
        assert forall|j: int| i < j < rest.len() implies #[trigger] rest[j]
            != ConnectionEvent::Closed && rest[j] != ConnectionEvent::Lost by {
            assert(events[j] == rest[j]);
        }
    }
    if opened_at(rest, i) {
        assert forall|j: int| i < j < events.len() implies #[trigger] events[j]
            != ConnectionEvent::Closed && events[j] != ConnectionEvent::Lost by {
            if j < events.len() - 1 {
                assert(events[j] == rest[j]);
            } else {
                assert(events[j] == events.last());
            }
        }
    }
}

/// A client, which starts closed, is connected after a sequence of calls
/// exactly when one of them opened the connection and none after it closed
/// the connection or reported it lost.
pub proof fn lemma_connected_iff_opened_since(events: Seq<ConnectionEvent>)
    ensures
        connected_after(false, events) <==> exists|i: int| #[trigger] opened_at(events, i),
    decreases events.len(),
{
    if events.len() > 0 {
        let rest = events.drop_last();
        let n = events.len() - 1;
        lemma_connected_iff_opened_since(rest);
        assert(events[n] == events.last());
        if events.last() == ConnectionEvent::Opened {
            assert(opened_at(events, n));
        } else if events.last() == ConnectionEvent::Other {
            if connected_after(false, events) {
                let i = choose|i: int| #[trigger] opened_at(rest, i);
                lemma_opened_at_prefix(events, i);
                assert(opened_at(events, i));
            }
            if exists|i: int| #[trigger] opened_at(events, i) {
                let i = choose|i: int| #[trigger] opened_at(events, i);
                assert(i != n);
                lemma_opened_at_prefix(events, i);
                assert(opened_at(rest, i));
            }
        } else {
            if exists|i: int| #[trigger] opened_at(events, i) {
                let i = choose|i: int| #[trigger] opened_at(events, i);
                assert(i != n);
                assert(events[n] != ConnectionEvent::Closed && events[n] != ConnectionEvent::Lost);
            }
        }
    }
}


// ---------------------------------------------------------------------------
// Laws of the request texts
// ---------------------------------------------------------------------------

proof fn lemma_cancel_prefix(p: Seq<char>, x: Seq<char>, y: Seq<char>)
    requires
        p + x == p + y,
    ensures
        x == y,
{
    assert((p + x).skip(p.len() as int) =~= x);
    assert((p + y).skip(p.len() as int) =~= y);
}

proof fn lemma_cancel_suffix(x: Seq<char>, y: Seq<char>, q: Seq<char>)
    requires
        x + q == y + q,
    ensures
        x == y,
{
    assert((x + q).take(x.len() as int) =~= x);
    assert((y + q).take(y.len() as int) =~= y);
}

/// Digits followed by a comma: the digits end at the comma.
proof fn lemma_digits_before_comma(d1: Seq<char>, r1: Seq<char>, d2: Seq<char>, r2: Seq<char>)
    requires
        forall|i: int| 0 <= i < d1.len() ==> is_digit_char(#[trigger] d1[i]),
        forall|i: int| 0 <= i < d2.len() ==> is_digit_char(#[trigger] d2[i]),
        d1 + (seq![','] + r1) == d2 + (seq![','] + r2),
    ensures
        d1 == d2,
        r1 == r2,
{
    let t = d1 + (seq![','] + r1);
    if d1.len() < d2.len() {
        assert(t[d1.len() as int] == ',');
        assert((d2 + (seq![','] + r2))[d1.len() as int] == d2[d1.len() as int]);
        assert(is_digit_char(d2[d1.len() as int]));
    } else if d2.len() < d1.len() {
        assert((d2 + (seq![','] + r2))[d2.len() as int] == ',');
        assert(t[d2.len() as int] == d1[d2.len() as int]);
        assert(is_digit_char(d1[d2.len() as int]));
    } else {
        assert(t.take(d1.len() as int) =~= d1);
        assert((d2 + (seq![','] + r2)).take(d2.len() as int) =~= d2);
        lemma_cancel_prefix(d1, seq![','] + r1, seq![','] + r2);
        lemma_cancel_prefix(seq![','], r1, r2);
    }
}

/// A request text tells its identifier, its operation and its arguments:
/// two requests read the same only when all three are equal, so every
/// argument is sent, in order, whatever the operation.
pub proof fn lemma_request_frame_injective(
    id1: Seq<char>,
    op1: Seq<char>,
    args1: Seq<Seq<char>>,
    id2: Seq<char>,
    op2: Seq<char>,
    args2: Seq<Seq<char>>,
)
    requires
        request_frame(id1, op1, args1) == request_frame(id2, op2, args2),
    ensures
        id1 == id2,
        op1 == op2,
        args1 == args2,
{
    let l1 = "{\"req_id\":"@;
    let l2 = ",\"op\":"@;
    let l3 = ",\"args\":["@;
    let l4 = "]}"@;
    assert(request_frame(id1, op1, args1) =~= l1 + (json_string(id1) + (l2 + (json_string(op1) + (
    l3 + (string_list(args1) + l4))))));
    assert(request_frame(id2, op2, args2) =~= l1 + (json_string(id2) + (l2 + (json_string(op2) + (
    l3 + (string_list(args2) + l4))))));
    lemma_cancel_prefix(
        l1,
        json_string(id1) + (l2 + (json_string(op1) + (l3 + (string_list(args1) + l4)))),
        json_string(id2) + (l2 + (json_string(op2) + (l3 + (string_list(args2) + l4)))),
    );
    lemma_json_string_prefix(
        id1,
        l2 + (json_string(op1) + (l3 + (string_list(args1) + l4))),
        id2,
        l2 + (json_string(op2) + (l3 + (string_list(args2) + l4))),
    );
    lemma_cancel_prefix(
        l2,
        json_string(op1) + (l3 + (string_list(args1) + l4)),
        json_string(op2) + (l3 + (string_list(args2) + l4)),
    );
    lemma_json_string_prefix(
        op1,
        l3 + (string_list(args1) + l4),
        op2,
        l3 + (string_list(args2) + l4),
    );
    lemma_cancel_prefix(l3, string_list(args1) + l4, string_list(args2) + l4);
    lemma_cancel_suffix(string_list(args1), string_list(args2), l4);
    lemma_string_list_injective(args1, args2);
}

/// Every argument of a request stands in its text as a JSON string.
pub proof fn lemma_request_frame_carries_args(req_id: Seq<char>, op: Seq<char>, args: Seq<Seq<char>>, i: int)
    requires
        0 <= i < args.len(),
    ensures
        is_infix_of(json_string(args[i]), request_frame(req_id, op, args)),
{
    let p = "{\"req_id\":"@ + json_string(req_id) + ",\"op\":"@ + json_string(op) + ",\"args\":["@;
    let sl = string_list(args);
    let f = request_frame(req_id, op, args);
    let js = json_string(args[i]);
    assert(f =~= p + sl + "]}"@);
    lemma_string_list_contains(args, i);
    let k = choose|k: int| 0 <= k && k + js.len() <= sl.len() && #[trigger] sl.subrange(k, k + js.len()) == js;
    let k2 = p.len() + k;
    assert(f.subrange(k2, k2 + js.len()) =~= sl.subrange(k, k + js.len()));
}

/// The arguments of an authentication request after its API key: the
/// expiry, then the signature.
proof fn lemma_auth_args_tail_injective(e1: u64, sig1: Seq<char>, e2: u64, sig2: Seq<char>)
    requires
        ","@ + (decimal(e1 as nat) + (","@ + (json_string(sig1) + "]}"@))) == ","@ + (decimal(
            e2 as nat,
        ) + (","@ + (json_string(sig2) + "]}"@))),
    ensures
        e1 == e2,
        sig1 == sig2,
{
    reveal_strlit(",");
    let c = ","@;
    let l4 = "]}"@;
    assert(c =~= seq![',']);
    let d1 = decimal(e1 as nat);
    let d2 = decimal(e2 as nat);
    lemma_cancel_prefix(c, d1 + (c + (json_string(sig1) + l4)), d2 + (c + (json_string(sig2) + l4)));
    lemma_decimal_value(e1 as nat);
    lemma_decimal_value(e2 as nat);
    lemma_digits_before_comma(d1, json_string(sig1) + l4, d2, json_string(sig2) + l4);
    lemma_decimal_injective(e1 as nat, e2 as nat);
    lemma_cancel_suffix(json_string(sig1), json_string(sig2), l4);
    lemma_json_string_prefix(sig1, Seq::empty(), sig2, Seq::empty());
    assert(json_string(sig1) + Seq::<char>::empty() =~= json_string(sig1));
    assert(json_string(sig2) + Seq::<char>::empty() =~= json_string(sig2));
}

proof fn lemma_auth_frame_shape(req_id: Seq<char>, api_key: Seq<char>, expires: u64, signature: Seq<char>)
    ensures
        auth_frame(req_id, api_key, expires, signature) == "{\"req_id\":"@ + (json_string(req_id) + ((
        ",\"op\":"@ + json_string("auth"@) + ",\"args\":["@) + (json_string(api_key) + (","@ + (decimal(
            expires as nat,
        ) + (","@ + (json_string(signature) + "]}"@))))))),
{
    lemma_assoc_nine(
        "{\"req_id\":"@,
        json_string(req_id),
        ",\"op\":"@ + json_string("auth"@) + ",\"args\":["@,
        json_string(api_key),
        ","@,
        decimal(expires as nat),
        ","@,
        json_string(signature),
        "]}"@,
    );
}

proof fn lemma_assoc_nine(
    a: Seq<char>,
    b: Seq<char>,
    c: Seq<char>,
    d: Seq<char>,
    e: Seq<char>,
    f: Seq<char>,
    g: Seq<char>,
    h: Seq<char>,
    i: Seq<char>,
)
    ensures
        a + b + c + d + e + f + g + h + i == a + (b + (c + (d + (e + (f + (g + (h + i))))))),
{
    assert(a + b + c + d + e + f + g + h + i =~= a + (b + (c + (d + (e + (f + (g + (h + i))))))));
}

/// An authentication request tells its identifier, its API key, its expiry
/// and its signature: two requests read the same only when all four are equal.
pub proof fn lemma_auth_frame_injective(
    id1: Seq<char>,
    key1: Seq<char>,
    e1: u64,
    sig1: Seq<char>,
    id2: Seq<char>,
    key2: Seq<char>,
    e2: u64,
    sig2: Seq<char>,
)
    requires
        auth_frame(id1, key1, e1, sig1) == auth_frame(id2, key2, e2, sig2),
    ensures
        id1 == id2,
        key1 == key2,
        e1 == e2,
        sig1 == sig2,
{
    let l1 = "{\"req_id\":"@;
    let l2 = ",\"op\":"@ + json_string("auth"@) + ",\"args\":["@;
    let c = ","@;
    let l4 = "]}"@;
    let rest1 = c + (decimal(e1 as nat) + (c + (json_string(sig1) + l4)));
    let rest2 = c + (decimal(e2 as nat) + (c + (json_string(sig2) + l4)));
    let tail1 = json_string(key1) + rest1;
    let tail2 = json_string(key2) + rest2;
    lemma_auth_frame_shape(id1, key1, e1, sig1);
    lemma_auth_frame_shape(id2, key2, e2, sig2);
    lemma_cancel_prefix(l1, json_string(id1) + (l2 + tail1), json_string(id2) + (l2 + tail2));
    lemma_json_string_prefix(id1, l2 + tail1, id2, l2 + tail2);
    lemma_cancel_prefix(l2, tail1, tail2);
    lemma_json_string_prefix(key1, rest1, key2, rest2);
    lemma_auth_args_tail_injective(e1, sig1, e2, sig2);
}

/// The whole API key stands in an authentication request as a JSON string.
pub proof fn lemma_auth_frame_carries_key(req_id: Seq<char>, api_key: Seq<char>, expires: u64, signature: Seq<char>)
    ensures
        is_infix_of(json_string(api_key), auth_frame(req_id, api_key, expires, signature)),
        is_infix_of(json_string(signature), auth_frame(req_id, api_key, expires, signature)),
{
    let p = "{\"req_id\":"@ + json_string(req_id) + ",\"op\":"@ + json_string("auth"@) + ",\"args\":["@;
    let q = p + json_string(api_key) + ","@ + decimal(expires as nat) + ","@;
    let f = auth_frame(req_id, api_key, expires, signature);
    let jk = json_string(api_key);
    let js = json_string(signature);
    assert(f =~= p + jk + (","@ + decimal(expires as nat) + ","@ + js + "]}"@));
    let k = p.len() as int;
    assert(f.subrange(k, k + jk.len()) =~= jk);
    assert(f =~= q + js + "]}"@);
    let k2 = q.len() as int;
    assert(f.subrange(k2, k2 + js.len()) =~= js);
}

// ---------------------------------------------------------------------------
// Laws of subscribing and unsubscribing
// ---------------------------------------------------------------------------

proof fn lemma_without_topics_concat(a: Seq<Seq<char>>, b: Seq<Seq<char>>, topics: Seq<Seq<char>>)
    ensures
        without_topics(a + b, topics) == without_topics(a, topics) + without_topics(b, topics),
    decreases b.len(),
{
    if b.len() == 0 {
        assert(a + b =~= a);
        assert(without_topics(a, topics) + without_topics(b, topics) =~= without_topics(a, topics));
    } else {
        lemma_without_topics_concat(a, b.drop_last(), topics);
        assert((a + b).drop_last() =~= a + b.drop_last());
        assert((a + b).last() == b.last());
        if !topics.contains(b.last()) {
            assert(without_topics(a, topics) + without_topics(b.drop_last(), topics).push(b.last())
                =~= (without_topics(a, topics) + without_topics(b.drop_last(), topics)).push(
                b.last(),
            ));
        }
    }
}

/// Removing the topics keeps exactly the subscriptions that are not among them.
pub proof fn lemma_without_topics_contents(subs: Seq<Seq<char>>, topics: Seq<Seq<char>>, t: Seq<char>)
    ensures
        without_topics(subs, topics).contains(t) <==> (subs.contains(t) && !topics.contains(t)),
    decreases subs.len(),
{
    if subs.len() > 0 {
        let rest = subs.drop_last();
        lemma_without_topics_contents(rest, topics, t);
        let w = without_topics(rest, topics);
        if subs.contains(t) && !topics.contains(t) {
            let j = choose|j: int| 0 <= j < subs.len() && subs[j] == t;
            if j < subs.len() - 1 {
                assert(rest[j] == t);
            }
        }
        if rest.contains(t) {
            let j = choose|j: int| 0 <= j < rest.len() && rest[j] == t;
            assert(subs[j] == t);
        }
        if !topics.contains(subs.last()) {
            if w.push(subs.last()).contains(t) {
                let j = choose|j: int| 0 <= j < w.len() + 1 && w.push(subs.last())[j] == t;
                if j < w.len() {
                    assert(w[j] == t);
                }
            }
            if w.contains(t) {
                let j = choose|j: int| 0 <= j < w.len() && w[j] == t;
                assert(w.push(subs.last())[j] == t);
            }
            assert(w.push(subs.last())[w.len() as int] == subs.last());
        }
    }
}

proof fn lemma_without_topics_disjoint(subs: Seq<Seq<char>>, topics: Seq<Seq<char>>)
    requires
        forall|i: int| 0 <= i < subs.len() ==> !topics.contains(#[trigger] subs[i]),
    ensures
        without_topics(subs, topics) == subs,
    decreases subs.len(),
{
    if subs.len() > 0 {
        let rest = subs.drop_last();
        assert forall|i: int| 0 <= i < rest.len() implies !topics.contains(#[trigger] rest[i]) by {
            assert(rest[i] == subs[i]);
        }
        lemma_without_topics_disjoint(rest, topics);
        assert(subs.last() == subs[subs.len() - 1]);
        assert(rest.push(subs.last()) =~= subs);
    }
}

proof fn lemma_without_topics_covered(subs: Seq<Seq<char>>, topics: Seq<Seq<char>>)
    requires
        forall|i: int| 0 <= i < subs.len() ==> topics.contains(#[trigger] subs[i]),
    ensures
        without_topics(subs, topics) == Seq::<Seq<char>>::empty(),
    decreases subs.len(),
{
    if subs.len() > 0 {
        let rest = subs.drop_last();
        assert forall|i: int| 0 <= i < rest.len() implies topics.contains(#[trigger] rest[i]) by {
            assert(rest[i] == subs[i]);
        }
        lemma_without_topics_covered(rest, topics);
        assert(topics.contains(subs[subs.len() - 1]));
    }
}

/// Unsubscribing from topics right after subscribing to them leaves the
/// subscriptions and the handlers as unsubscribing from them alone would:
/// `unsubscribe(T)` undoes `subscribe(T, h)`.
pub proof fn lemma_unsubscribe_undoes_subscribe(
    subs: Seq<Seq<char>>,
    handlers: Map<Seq<char>, u64>,
    topics: Seq<Seq<char>>,
    handler: u64,
)
    ensures
        without_topics(subs + topics, topics) == without_topics(subs, topics),
        handlers.union_prefer_right(topic_handlers(topics, handler)).remove_keys(topics.to_set())
            == handlers.remove_keys(topics.to_set()),
{
    lemma_without_topics_concat(subs, topics, topics);
    assert forall|i: int| 0 <= i < topics.len() implies topics.contains(#[trigger] topics[i]) by {}
    lemma_without_topics_covered(topics, topics);
    assert(without_topics(subs, topics) + Seq::<Seq<char>>::empty() =~= without_topics(
        subs,
        topics,
    ));
    assert(handlers.union_prefer_right(topic_handlers(topics, handler)).remove_keys(
        topics.to_set(),
    ) =~= handlers.remove_keys(topics.to_set()));
}

/// Subscribing to topics that were neither subscribed nor handled and then
/// unsubscribing from them restores the client's subscriptions and handlers.
pub proof fn lemma_fresh_subscription_round_trip(
    subs: Seq<Seq<char>>,
    handlers: Map<Seq<char>, u64>,
    topics: Seq<Seq<char>>,
    handler: u64,
)
    requires
        forall|i: int| 0 <= i < subs.len() ==> !topics.contains(#[trigger] subs[i]),
        forall|t: Seq<char>| topics.contains(t) ==> !handlers.contains_key(t),
    ensures
        without_topics(subs + topics, topics) == subs,
        handlers.union_prefer_right(topic_handlers(topics, handler)).remove_keys(topics.to_set())
            == handlers,
{
    lemma_unsubscribe_undoes_subscribe(subs, handlers, topics, handler);
    lemma_without_topics_disjoint(subs, topics);
    assert(handlers.remove_keys(topics.to_set()) =~= handlers);
}

/// Unsubscribing twice from the same topics is unsubscribing once.
pub proof fn lemma_unsubscribe_idempotent(
    subs: Seq<Seq<char>>,
    handlers: Map<Seq<char>, u64>,
    topics: Seq<Seq<char>>,
)
    ensures
        without_topics(without_topics(subs, topics), topics) == without_topics(subs, topics),
        handlers.remove_keys(topics.to_set()).remove_keys(topics.to_set())
            == handlers.remove_keys(topics.to_set()),
{
    let w = without_topics(subs, topics);
    assert forall|i: int| 0 <= i < w.len() implies !topics.contains(#[trigger] w[i]) by {
        assert(w.contains(w[i]));
        lemma_without_topics_contents(subs, topics, w[i]);
    }
    lemma_without_topics_disjoint(w, topics);
    assert(handlers.remove_keys(topics.to_set()).remove_keys(topics.to_set())
        =~= handlers.remove_keys(topics.to_set()));
}

/// After subscribing, each of the topics is subscribed and handled by the
/// new handler; the other topics keep their handlers.
pub proof fn lemma_subscribe_registers(
    subs: Seq<Seq<char>>,
    handlers: Map<Seq<char>, u64>,
    topics: Seq<Seq<char>>,
    handler: u64,
    t: Seq<char>,
)
    ensures
        topics.contains(t) ==> (subs + topics).contains(t),
        topics.contains(t) ==> handlers.union_prefer_right(topic_handlers(topics, handler)).contains_key(t)
            && handlers.union_prefer_right(topic_handlers(topics, handler))[t] == handler,
        !topics.contains(t) ==> (handlers.union_prefer_right(topic_handlers(topics, handler)).contains_key(t)
            == handlers.contains_key(t)),
        !topics.contains(t) && handlers.contains_key(t) ==> handlers.union_prefer_right(
            topic_handlers(topics, handler),
        )[t] == handlers[t],
{
    if topics.contains(t) {
        let j = choose|j: int| 0 <= j < topics.len() && topics[j] == t;
        assert((subs + topics)[subs.len() + j] == t);
    }
}

/// After unsubscribing, none of the topics is subscribed or handled, and
/// every other subscription stays.
pub proof fn lemma_unsubscribe_removes(
    subs: Seq<Seq<char>>,
    handlers: Map<Seq<char>, u64>,
    topics: Seq<Seq<char>>,
    t: Seq<char>,
)
    ensures
        topics.contains(t) ==> !without_topics(subs, topics).contains(t) && !handlers.remove_keys(
            topics.to_set(),
        ).contains_key(t),
        !topics.contains(t) ==> (without_topics(subs, topics).contains(t) == subs.contains(t)),
{
    lemma_without_topics_contents(subs, topics, t);
}

// ---------------------------------------------------------------------------
// Helpers on the stored vectors
// ---------------------------------------------------------------------------

fn remove_entries(pairs: &Vec<(String, u64)>, k: &String) -> (r: Vec<(String, u64)>)
    ensures
        r.deep_view() == without_key(pairs.deep_view(), k@),
{
    let ghost s = pairs.deep_view();
    let mut r: Vec<(String, u64)> = Vec::new();
    let mut j: usize = 0;
    while j < pairs.len()
        invariant
            j <= pairs.len(),
            s == pairs.deep_view(),
            r.deep_view() == without_key(s.take(j as int), k@),
        decreases pairs.len() - j,
    {
        let ghost before = r.deep_view();
        assert(s.take(j + 1).drop_last() =~= s.take(j as int));
        assert(s.take(j + 1).last() == s[j as int]);
        assert(s[j as int] == pairs@[j as int].deep_view());
        if pairs[j].0 != *k {
            let entry = (pairs[j].0.clone(), pairs[j].1);
            r.push(entry);
            assert(r.deep_view() =~= before.push(s[j as int]));
        }
        j = j + 1;
    }
    assert(s.take(pairs.len() as int) =~= s);
    r
}

fn contains_topic(topics: &Vec<String>, t: &String) -> (b: bool)
    ensures
        b == topics.deep_view().contains(t@),
{
    let ghost v = topics.deep_view();
    let mut i: usize = 0;
    while i < topics.len()
        invariant
            i <= topics.len(),
            v == topics.deep_view(),
            forall|j: int| 0 <= j < i ==> v[j] != t@,
        decreases topics.len() - i,
    {
        assert(v[i as int] == topics@[i as int]@);
        if topics[i] == *t {
            return true;
        }
        i = i + 1;
    }
    false
}

fn clone_strings(v: &Vec<String>) -> (r: Vec<String>)
    ensures
        r.deep_view() == v.deep_view(),
{
    let mut r: Vec<String> = Vec::new();
    let mut i: usize = 0;
    while i < v.len()
        invariant
            i <= v.len(),
            r.deep_view() == v.deep_view().take(i as int),
        decreases v.len() - i,
    {
        let ghost before = r.deep_view();
        let t = v[i].clone();
        r.push(t);
        assert(v.deep_view()[i as int] == v@[i as int]@);
        assert(r.deep_view() =~= before.push(t@));
        assert(r.deep_view() =~= v.deep_view().take(i + 1));
        i = i + 1;
    }
    assert(v.deep_view().take(v.len() as int) =~= v.deep_view());
    r
}

fn same_text(a: &str, b: &str) -> (r: bool)
    ensures
        r == (a@ == b@),
{
    String::from_str(a) == String::from_str(b)
}


fn clone_pairs(v: &Vec<(String, u64)>) -> (r: Vec<(String, u64)>)
    ensures
        r.deep_view() == v.deep_view(),
{
    let mut r: Vec<(String, u64)> = Vec::new();
    let mut i: usize = 0;
    while i < v.len()
        invariant
            i <= v.len(),
            r.deep_view() == v.deep_view().take(i as int),
        decreases v.len() - i,
    {
        let ghost before = r.deep_view();
        let entry = (v[i].0.clone(), v[i].1);
        r.push(entry);
        assert(v.deep_view()[i as int] == v@[i as int].deep_view());
        assert(r.deep_view() =~= before.push(entry.deep_view()));
        assert(r.deep_view() =~= v.deep_view().take(i + 1));
        i = i + 1;
    }
    assert(v.deep_view().take(v.len() as int) =~= v.deep_view());
    r
}

/// `pairs` with `handler` registered for each of `topics`.
fn with_handlers(pairs: &Vec<(String, u64)>, topics: &Vec<String>, handler: u64) -> (r: Vec<
    (String, u64),
>)
    ensures
        as_map(r.deep_view()) == as_map(pairs.deep_view()).union_prefer_right(
            topic_handlers(topics.deep_view(), handler),
        ),
{
    let ghost base = as_map(pairs.deep_view());
    let ghost tv = topics.deep_view();
    let mut cur = clone_pairs(pairs);
    let mut i: usize = 0;
    assert(base.union_prefer_right(topic_handlers(tv.take(0), handler)) =~= base);
    while i < topics.len()
        invariant
            i <= topics.len(),
            tv == topics.deep_view(),
            as_map(cur.deep_view()) == base.union_prefer_right(
                topic_handlers(tv.take(i as int), handler),
            ),
        decreases topics.len() - i,
    {
        let ghost prev = cur.deep_view();
        let t = topics[i].clone();
        assert(tv[i as int] == topics@[i as int]@);
        let mut next = remove_entries(&cur, &t);
        next.push((t, handler));
        proof {
            assert(next.deep_view() =~= without_key(prev, t@).push((t@, handler)));
            lemma_replace_entry(prev, t@, handler);
            let before = tv.take(i as int);
            let after = tv.take(i + 1);
            assert forall|k: Seq<char>| after.contains(k) <==> (before.contains(k) || k == t@) by {
                if after.contains(k) {
                    let j = choose|j: int| 0 <= j < after.len() && after[j] == k;
                    if j < i {
                        assert(before[j] == k);
                    }
                }
                if before.contains(k) {
                    let j = choose|j: int| 0 <= j < before.len() && before[j] == k;
                    assert(after[j] == k);
                }
                if k == t@ {
                    assert(after[i as int] == k);
                }
            }
            assert(base.union_prefer_right(topic_handlers(after, handler)) =~= base.union_prefer_right(
                topic_handlers(before, handler),
            ).insert(t@, handler));
        }
        cur = next;
        i = i + 1;
    }
    assert(tv.take(topics.len() as int) =~= tv);
    cur
}

/// `pairs` with no handler for any of `topics`.
fn without_handlers(pairs: &Vec<(String, u64)>, topics: &Vec<String>) -> (r: Vec<(String, u64)>)
    ensures
        as_map(r.deep_view()) == as_map(pairs.deep_view()).remove_keys(
            topics.deep_view().to_set(),
        ),
{
    let ghost base = as_map(pairs.deep_view());
    let ghost tv = topics.deep_view();
    let mut cur = clone_pairs(pairs);
    let mut i: usize = 0;
    assert(base.remove_keys(tv.take(0).to_set()) =~= base);
    while i < topics.len()
        invariant
            i <= topics.len(),
            tv == topics.deep_view(),
            as_map(cur.deep_view()) == base.remove_keys(tv.take(i as int).to_set()),
        decreases topics.len() - i,
    {
        let ghost prev = cur.deep_view();
        assert(tv[i as int] == topics@[i as int]@);
        let next = remove_entries(&cur, &topics[i]);
        proof {
            lemma_drop_entry(prev, tv[i as int]);
            let before = tv.take(i as int);
            let after = tv.take(i + 1);
            assert forall|k: Seq<char>| after.contains(k) <==> (before.contains(k) || k == tv[i as int]) by {
                if after.contains(k) {
                    let j = choose|j: int| 0 <= j < after.len() && after[j] == k;
                    if j < i {
                        assert(before[j] == k);
                    }
                }
                if before.contains(k) {
                    let j = choose|j: int| 0 <= j < before.len() && before[j] == k;
                    assert(after[j] == k);
                }
                if k == tv[i as int] {
                    assert(after[i as int] == k);
                }
            }
            assert(base.remove_keys(after.to_set()) =~= base.remove_keys(before.to_set()).remove(
                tv[i as int],
            ));
        }
        cur = next;
        i = i + 1;
    }
    assert(tv.take(topics.len() as int) =~= tv);
    cur
}

/// `subs` followed by `topics`.
fn appended(subs: &Vec<String>, topics: &Vec<String>) -> (r: Vec<String>)
    ensures
        r.deep_view() == subs.deep_view() + topics.deep_view(),
{
    let mut r = clone_strings(subs);
    let ghost start = r.deep_view();
    let mut i: usize = 0;
    while i < topics.len()
        invariant
            i <= topics.len(),
            start == subs.deep_view(),
            r.deep_view() == start + topics.deep_view().take(i as int),
        decreases topics.len() - i,
    {
        let ghost before = r.deep_view();
        let t = topics[i].clone();
        r.push(t);
        assert(topics.deep_view()[i as int] == topics@[i as int]@);
        assert(r.deep_view() =~= before.push(t@));
        assert(r.deep_view() =~= start + topics.deep_view().take(i + 1));
        i = i + 1;
    }
    assert(topics.deep_view().take(topics.len() as int) =~= topics.deep_view());
    r
}

/// `subs` without any of `topics`.
fn retained(subs: &Vec<String>, topics: &Vec<String>) -> (r: Vec<String>)
    ensures
        r.deep_view() == without_topics(subs.deep_view(), topics.deep_view()),
{
    let ghost sv = subs.deep_view();
    let ghost tv = topics.deep_view();
    let mut r: Vec<String> = Vec::new();
    let mut i: usize = 0;
    while i < subs.len()
        invariant
            i <= subs.len(),
            sv == subs.deep_view(),
            tv == topics.deep_view(),
            r.deep_view() == without_topics(sv.take(i as int), tv),
        decreases subs.len() - i,
    {
        let ghost before = r.deep_view();
        assert(sv.take(i + 1).drop_last() =~= sv.take(i as int));
        assert(sv.take(i + 1).last() == sv[i as int]);
        assert(sv[i as int] == subs@[i as int]@);
        if !contains_topic(topics, &subs[i]) {
            let t = subs[i].clone();
            r.push(t);
            assert(r.deep_view() =~= before.push(t@));
        }
        i = i + 1;
    }
    assert(sv.take(subs.len() as int) =~= sv);
    r
}

/// A lower-case hexadecimal digit.
pub open spec fn is_lower_hex(c: char) -> bool {
    (48 <= c as u32 && c as u32 <= 57) || (97 <= c as u32 && c as u32 <= 102)
}

/// The text of a random (version 4, RFC 4122 variant) UUID in hyphenated
/// lower-case form: `xxxxxxxx-xxxx-4xxx-Yxxx-xxxxxxxxxxxx` with Y one of
/// `8`, `9`, `a`, `b`.
pub open spec fn is_uuid_v4_text(id: Seq<char>) -> bool {
    &&& id.len() == 36
    &&& forall|i: int|
        0 <= i < 36 ==> if i == 8 || i == 13 || i == 18 || i == 23 {
            #[trigger] id[i] == '-'
        } else {
            is_lower_hex(id[i])
        }
    &&& id[14] == '4'
    &&& (id[19] == '8' || id[19] == '9' || id[19] == 'a' || id[19] == 'b')
}

/// A fresh request identifier: `uuid::Uuid::new_v4().to_string()`.
/// Trusted: the identifier is random; stated is its form, the hyphenated
/// lower-case text of a version-4 UUID (`new_v4` sets the version nibble
/// to 4 and the variant bits to `10`; `Display` writes the hyphenated form).
#[verifier::external_body]
fn new_request_id() -> (id: String)
    ensures
        is_uuid_v4_text(id@),
{
    uuid::Uuid::new_v4().to_string()
}

// ---------------------------------------------------------------------------
// The client
// ---------------------------------------------------------------------------

impl BybitWebSocket {
    /// The socket address.
    pub closed spec fn url(&self) -> Seq<char> {
        self.url@
    }

    /// The API key, if any.
    pub closed spec fn api_key(&self) -> Option<Seq<char>> {
        self.api_key.deep_view()
    }

    /// The API secret, if any.
    pub closed spec fn api_secret(&self) -> Option<Seq<char>> {
        self.api_secret.deep_view()
    }

    /// Orders may be sent over this socket.
    pub closed spec fn trade_socket(&self) -> bool {
        self.is_trade
    }

    /// The subscribed topics, in the order of subscription.
    pub closed spec fn subscribed(&self) -> Seq<Seq<char>> {
        self.subscriptions.deep_view()
    }

    /// The handler registered for each topic.
    pub closed spec fn handlers(&self) -> Map<Seq<char>, u64> {
        as_map(self.handlers.deep_view())
    }

    /// The connection is open.
    pub closed spec fn connected(&self) -> bool {
        self.connected
    }

    /// A client for the public streams at `url`: no credentials, no trading.
    pub fn public(url: &str) -> (ws: Self)
        ensures
            ws.url() == url@,
            ws.api_key() is None,
            ws.api_secret() is None,
            !ws.trade_socket(),
            ws.subscribed() == Seq::<Seq<char>>::empty(),
            ws.handlers() == Map::<Seq<char>, u64>::empty(),
            !ws.connected(),
    {
        let ws = BybitWebSocket {
            url: String::from_str(url),
            api_key: None,
            api_secret: None,
            is_trade: false,
            subscriptions: Vec::new(),
            handlers: Vec::new(),
            connected: false,
        };
        assert(ws.subscriptions.deep_view() =~= Seq::<Seq<char>>::empty());
        assert(ws.handlers() =~= Map::<Seq<char>, u64>::empty());
        ws
    }

    /// A client for the private streams at `url`, with credentials; it may
    /// trade when `url` is one of the trade sockets.
    pub fn private(api_key: &str, api_secret: &str, url: &str) -> (ws: Self)
        ensures
            ws.url() == url@,
            ws.api_key() == Some(api_key@),
            ws.api_secret() == Some(api_secret@),
            ws.trade_socket() == is_trade_url(url@),
            ws.subscribed() == Seq::<Seq<char>>::empty(),
            ws.handlers() == Map::<Seq<char>, u64>::empty(),
            !ws.connected(),
    {
        let is_trade = same_text(url, MAINNET_WS_TRADE) || same_text(url, TESTNET_WS_TRADE);
        let ws = BybitWebSocket {
            url: String::from_str(url),
            api_key: Some(String::from_str(api_key)),
            api_secret: Some(String::from_str(api_secret)),
            is_trade,
            subscriptions: Vec::new(),
            handlers: Vec::new(),
            connected: false,
        };
        assert(ws.subscriptions.deep_view() =~= Seq::<Seq<char>>::empty());
        assert(ws.handlers() =~= Map::<Seq<char>, u64>::empty());
        ws
    }

    /// The subscribed topics, in the order of subscription.
    pub fn subscriptions(&self) -> (r: &Vec<String>)
        ensures
            r.deep_view() == self.subscribed(),
    {
        &self.subscriptions
    }

    /// The handler registered for `topic`, if any.
    pub fn topic_handler(&self, topic: &str) -> (r: Option<u64>)
        ensures
            r == (if self.handlers().contains_key(topic@) {
                Some(self.handlers()[topic@])
            } else {
                None
            }),
    {
        let ghost s = self.handlers.deep_view();
        let mut found: Option<u64> = None;
        let mut i: usize = 0;
        while i < self.handlers.len()
            invariant
                i <= self.handlers.len(),
                s == self.handlers.deep_view(),
                found == lookup(s.take(i as int), topic@),
            decreases self.handlers.len() - i,
        {
            assert(s.take(i + 1).drop_last() =~= s.take(i as int));
            assert(s.take(i + 1).last() == s[i as int]);
            assert(s[i as int] == self.handlers@[i as int].deep_view());
            if same_text(self.handlers[i].0.as_str(), topic) {
                found = Some(self.handlers[i].1);
            }
            i = i + 1;
        }
        assert(s.take(self.handlers.len() as int) =~= s);
        found
    }

    /// Whether some topic is handled by `handler`.
    pub fn handler_in_use(&self, handler: u64) -> (r: bool)
        ensures
            r == exists|k: Seq<char>|
                #[trigger] self.handlers().contains_key(k) && self.handlers()[k] == handler,
    {
        let ghost s = self.handlers.deep_view();
        let mut i: usize = 0;
        while i < self.handlers.len()
            invariant
                i <= self.handlers.len(),
                s == self.handlers.deep_view(),
                forall|j: int| 0 <= j < i ==> lookup(s, #[trigger] s[j].0) != Some(handler),
            decreases self.handlers.len() - i,
        {
            assert(s[i as int] == self.handlers@[i as int].deep_view());
            let found = self.topic_handler(self.handlers[i].0.as_str());
            if found == Some(handler) {
                assert(self.handlers().contains_key(s[i as int].0));
                return true;
            }
            i = i + 1;
        }
        proof {
            if exists|k: Seq<char>|
                #[trigger] self.handlers().contains_key(k) && self.handlers()[k] == handler {
                let k = choose|k: Seq<char>|
                    #[trigger] self.handlers().contains_key(k) && self.handlers()[k] == handler;
                lemma_lookup_found(s, k);
                let j = choose|j: int| 0 <= j < s.len() && (#[trigger] s[j]).0 == k;
                assert(lookup(s, s[j].0) != Some(handler));
            }
        }
        false
    }

    /// The socket address.
    pub fn socket_url(&self) -> (r: &String)
        ensures
            r@ == self.url(),
    {
        &self.url
    }

    /// The API secret, if any (it signs the authentication request).
    pub fn secret(&self) -> (r: Option<String>)
        ensures
            r.deep_view() == self.api_secret(),
    {
        clone_optional(&self.api_secret)
    }

    /// Records that the connection is open; says whether to authenticate
    /// (when an API key is set).
    pub fn connection_opened(&mut self) -> (authenticate: bool)
        ensures
            final(self).connected(),
            final(self).connected() == connected_after(
                old(self).connected(),
                seq![ConnectionEvent::Opened],
            ),
            authenticate == (old(self).api_key() is Some),
            final(self).url() == old(self).url(),
            final(self).api_key() == old(self).api_key(),
            final(self).api_secret() == old(self).api_secret(),
            final(self).trade_socket() == old(self).trade_socket(),
            final(self).subscribed() == old(self).subscribed(),
            final(self).handlers() == old(self).handlers(),
    {
        self.connected = true;
        self.api_key.is_some()
    }

    /// Whether the connection is open.
    pub fn is_connected(&self) -> (r: bool)
        ensures
            r == self.connected(),
    {
        self.connected
    }

    /// Records that the connection is closed.
    pub fn disconnect(&mut self) -> (r: Result<(), BybitError>)
        ensures
            r is Ok,
            !final(self).connected(),
            final(self).connected() == connected_after(
                old(self).connected(),
                seq![ConnectionEvent::Closed],
            ),
            final(self).url() == old(self).url(),
            final(self).api_key() == old(self).api_key(),
            final(self).api_secret() == old(self).api_secret(),
            final(self).trade_socket() == old(self).trade_socket(),
            final(self).subscribed() == old(self).subscribed(),
            final(self).handlers() == old(self).handlers(),
    {
        self.connected = false;
        Ok(())
    }

    /// Records that the server closed the connection or it broke.
    pub fn connection_lost(&mut self)
        ensures
            !final(self).connected(),
            final(self).connected() == connected_after(
                old(self).connected(),
                seq![ConnectionEvent::Lost],
            ),
            final(self).url() == old(self).url(),
            final(self).api_key() == old(self).api_key(),
            final(self).api_secret() == old(self).api_secret(),
            final(self).trade_socket() == old(self).trade_socket(),
            final(self).subscribed() == old(self).subscribed(),
            final(self).handlers() == old(self).handlers(),
    {
        self.connected = false;
    }

    /// Registers `handler` for each of `topics`, adds them to the
    /// subscriptions and gives the subscription request with identifier `req_id`.
    pub fn subscribe_with_id(&mut self, topics: &Vec<String>, handler: u64, req_id: &str) -> (frame:
        String)
        ensures
            final(self).handlers() == old(self).handlers().union_prefer_right(
                topic_handlers(topics.deep_view(), handler),
            ),
            final(self).subscribed() == old(self).subscribed() + topics.deep_view(),
            frame@ == request_frame(req_id@, "subscribe"@, topics.deep_view()),
            final(self).connected() == old(self).connected(),
            final(self).url() == old(self).url(),
            final(self).api_key() == old(self).api_key(),
            final(self).api_secret() == old(self).api_secret(),
            final(self).trade_socket() == old(self).trade_socket(),
    {
        self.handlers = with_handlers(&self.handlers, topics, handler);
        self.subscriptions = appended(&self.subscriptions, topics);
        request_text(req_id, "subscribe", topics)
    }

    /// `subscribe_with_id` with a fresh request identifier.
    pub fn subscribe(&mut self, topics: &Vec<String>, handler: u64) -> (frame: String)
        ensures
            final(self).handlers() == old(self).handlers().union_prefer_right(
                topic_handlers(topics.deep_view(), handler),
            ),
            final(self).subscribed() == old(self).subscribed() + topics.deep_view(),
            exists|id: Seq<char>|
                is_uuid_v4_text(id) && frame@ == #[trigger] request_frame(
                    id,
                    "subscribe"@,
                    topics.deep_view(),
                ),
            final(self).connected() == old(self).connected(),
            final(self).url() == old(self).url(),
            final(self).api_key() == old(self).api_key(),
            final(self).api_secret() == old(self).api_secret(),
            final(self).trade_socket() == old(self).trade_socket(),
    {
        let id = new_request_id();
        self.subscribe_with_id(topics, handler, id.as_str())
    }

    /// Drops the handlers of `topics`, removes every occurrence of them from
    /// the subscriptions and gives the unsubscription request with identifier `req_id`.
    pub fn unsubscribe_with_id(&mut self, topics: &Vec<String>, req_id: &str) -> (frame: String)
        ensures
            final(self).handlers() == old(self).handlers().remove_keys(
                topics.deep_view().to_set(),
            ),
            final(self).subscribed() == without_topics(old(self).subscribed(), topics.deep_view()),
            frame@ == request_frame(req_id@, "unsubscribe"@, topics.deep_view()),
            final(self).connected() == old(self).connected(),
            final(self).url() == old(self).url(),
            final(self).api_key() == old(self).api_key(),
            final(self).api_secret() == old(self).api_secret(),
            final(self).trade_socket() == old(self).trade_socket(),
    {
        self.handlers = without_handlers(&self.handlers, topics);
        self.subscriptions = retained(&self.subscriptions, topics);
        request_text(req_id, "unsubscribe", topics)
    }

    /// `unsubscribe_with_id` with a fresh request identifier.
    pub fn unsubscribe(&mut self, topics: &Vec<String>) -> (frame: String)
        ensures
            final(self).handlers() == old(self).handlers().remove_keys(
                topics.deep_view().to_set(),
            ),
            final(self).subscribed() == without_topics(old(self).subscribed(), topics.deep_view()),
            exists|id: Seq<char>|
                is_uuid_v4_text(id) && frame@ == #[trigger] request_frame(
                    id,
                    "unsubscribe"@,
                    topics.deep_view(),
                ),
            final(self).connected() == old(self).connected(),
            final(self).url() == old(self).url(),
            final(self).api_key() == old(self).api_key(),
            final(self).api_secret() == old(self).api_secret(),
            final(self).trade_socket() == old(self).trade_socket(),
    {
        let id = new_request_id();
        self.unsubscribe_with_id(topics, id.as_str())
    }

    /// Orders may only go over a trade socket.
    pub fn ensure_trade_socket(&self) -> (r: Result<(), BybitError>)
        ensures
            self.trade_socket() ==> r is Ok,
            !self.trade_socket() ==> (r matches Err(BybitError::Parse(m)) && m@
                == "can t execute a trade on a non trade socket"@),
    {
        if self.is_trade {
            Ok(())
        } else {
            Err(BybitError::Parse(String::from_str("can t execute a trade on a non trade socket")))
        }
    }

    /// The expiry of an authentication request made at timestamp `now`;
    /// an error when the API key or the API secret is missing.
    pub fn auth_expiry(&self, now: u64) -> (r: Result<u64, BybitError>)
        requires
            self.api_key() is Some && self.api_secret() is Some ==> now <= u64::MAX
                - AUTH_EXPIRY_DELAY,
        ensures
            self.api_key() is None ==> (r matches Err(BybitError::Auth(m)) && m@
                == "API key not set"@),
            self.api_key() is Some && self.api_secret() is None ==> (r matches Err(
                BybitError::Auth(m),
            ) && m@ == "API secret not set"@),
            self.api_key() is Some && self.api_secret() is Some ==> r == Ok::<u64, BybitError>(
                (now + AUTH_EXPIRY_DELAY) as u64,
            ),
    {
        if self.api_key.is_none() {
            return Err(BybitError::Auth(String::from_str("API key not set")));
        }
        if self.api_secret.is_none() {
            return Err(BybitError::Auth(String::from_str("API secret not set")));
        }
        Ok(now + AUTH_EXPIRY_DELAY)
    }

    /// The authentication request with identifier `req_id` that expires at
    /// `expires`, signed with the API secret; an error when the API key or
    /// the API secret is missing.
    pub fn auth_message_with_id(&self, req_id: &str, expires: u64) -> (r: Result<
        String,
        BybitError,
    >)
        ensures
            self.api_key() is None ==> (r matches Err(BybitError::Auth(m)) && m@
                == "API key not set"@),
            self.api_key() is Some && self.api_secret() is None ==> (r matches Err(
                BybitError::Auth(m),
            ) && m@ == "API secret not set"@),
            self.api_key() matches Some(key) ==> (self.api_secret() matches Some(secret) ==> (
            r matches Ok(frame) && frame@ == auth_frame(
                req_id@,
                key,
                expires,
                signature_of(secret, expires),
            ))),
    {
        match (&self.api_key, &self.api_secret) {
            (None, _) => Err(BybitError::Auth(String::from_str("API key not set"))),
            (Some(_), None) => Err(BybitError::Auth(String::from_str("API secret not set"))),
            (Some(key), Some(secret)) => {
                let signature = generate_ws_signature(secret.as_str(), expires);
                Ok(auth_request_text(req_id, key.as_str(), expires, signature.as_str()))
            },
        }
    }

    /// `auth_message_with_id` with a fresh request identifier.
    pub fn auth_message(&self, expires: u64) -> (r: Result<String, BybitError>)
        ensures
            self.api_key() is None ==> (r matches Err(BybitError::Auth(m)) && m@
                == "API key not set"@),
            self.api_key() is Some && self.api_secret() is None ==> (r matches Err(
                BybitError::Auth(m),
            ) && m@ == "API secret not set"@),
            self.api_key() matches Some(key) ==> (self.api_secret() matches Some(secret) ==> (
            r matches Ok(frame) && exists|id: Seq<char>|
                is_uuid_v4_text(id) && frame@ == #[trigger] auth_frame(
                    id,
                    key,
                    expires,
                    signature_of(secret, expires),
                ))),
    {
        let id = new_request_id();
        self.auth_message_with_id(id.as_str(), expires)
    }
}

/// The text of an authentication request with identifier `req_id`,
/// carrying the API key, the expiry and the signature.
pub fn auth_request_text(req_id: &str, api_key: &str, expires: u64, signature: &str) -> (r: String)
    ensures
        r@ == auth_frame(req_id@, api_key@, expires, signature@),
{
    let mut out = String::new();
    out.append("{\"req_id\":");
    push_json_string(&mut out, req_id);
    out.append(",\"op\":");
    push_json_string(&mut out, "auth");
    out.append(",\"args\":[");
    push_json_string(&mut out, api_key);
    out.append(",");
    push_decimal(&mut out, expires);
    out.append(",");
    push_json_string(&mut out, signature);
    out.append("]}");
    assert(out@ =~= auth_frame(req_id@, api_key@, expires, signature@));
    out
}

/// The text of a request with identifier `req_id`, operation `op` and string arguments `args`.
pub fn request_text(req_id: &str, op: &str, args: &Vec<String>) -> (r: String)
    ensures
        r@ == request_frame(req_id@, op@, args.deep_view()),
{
    let mut out = String::new();
    out.append("{\"req_id\":");
    push_json_string(&mut out, req_id);
    out.append(",\"op\":");
    push_json_string(&mut out, op);
    out.append(",\"args\":[");
    push_string_list(&mut out, args);
    out.append("]}");
    assert(out@ =~= request_frame(req_id@, op@, args.deep_view()));
    out
}

} // verus!
