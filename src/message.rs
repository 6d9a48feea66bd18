use vstd::prelude::*;
use vstd::slice::slice_subrange;
use crate::counter::{Counter, slots_ok};
use crate::decimal::{dec, dec_at, lemma_dec_canonical, parse_dec, push_dec};
use crate::node::Node;

verus! {

/// What travels between nodes: plain text, or a snapshot of replicated state.
#[derive(Clone, Debug, PartialEq, Eq)]
pub enum Message<State> {
    RAW(String),
    SYNC(State),
}

/// Why incoming bytes could not be read as a message.
#[derive(Clone, Copy, Debug, PartialEq, Eq, Structural)]
pub enum DecodeError {
    /// The bytes have the shape of neither kind of message.
    UnknownFormat,
    /// The bytes are framed as text, but the JSON string literal inside is invalid.
    BadText,
}

#[verifier::external_type_specification]
#[verifier::external_body]
pub struct ExJsonError(serde_json::Error);

/// The bytes that serde_json writes for a string: its JSON string literal.
pub uninterp spec fn json_string_of(s: Seq<char>) -> Seq<u8>;

/// The string that serde_json reads from bytes holding one JSON string
/// literal, if they hold one.
pub uninterp spec fn parsed_json_string(b: Seq<u8>) -> Option<Seq<char>>;

/// Relies on `serde_json::to_vec` on a `String`: it writes the JSON string
/// literal of the text into a `Vec`, which cannot fail for a string.
#[verifier::external_body]
fn json_string(s: &String) -> (r: Result<Vec<u8>, serde_json::Error>)
    ensures
        r is Ok,
        r is Ok ==> r->Ok_0@ == json_string_of(s@),
{
    serde_json::to_vec(s)
}

/// Relies on `serde_json::from_slice::<String>`: it reads one JSON string
/// literal, and on the bytes that `serde_json::to_vec` writes for a string it
/// gives that string back.
#[verifier::external_body]
fn parse_json_string(b: &[u8]) -> (r: Result<String, serde_json::Error>)
    ensures
        r is Ok <==> parsed_json_string(b@) is Some,
        r is Ok ==> parsed_json_string(b@) == Some(r->Ok_0@),
        forall|s: Seq<char>| #[trigger] json_string_of(s) == b@ ==> r is Ok && r->Ok_0@ == s,
{
    serde_json::from_slice::<String>(b)
}

/// `{"RAW":`
pub open spec fn raw_head() -> Seq<u8> {
    seq![123u8, 34u8, 82u8, 65u8, 87u8, 34u8, 58u8]
}

/// `{"SYNC":{"counts":[`
pub open spec fn sync_head() -> Seq<u8> {
    seq![
        123u8, 34u8, 83u8, 89u8, 78u8, 67u8, 34u8, 58u8, 123u8, 34u8, 99u8, 111u8, 117u8, 110u8,
        116u8, 115u8, 34u8, 58u8, 91u8,
    ]
}

/// `]}}`
pub open spec fn sync_tail() -> Seq<u8> {
    seq![93u8, 125u8, 125u8]
}

/// The wire form of a state snapshot.
pub open spec fn sync_bytes(c: Seq<u64>) -> Seq<u8> {
    sync_head() + dec(c[0] as nat) + seq![44u8] + dec(c[1] as nat) + seq![44u8] + dec(
        c[2] as nat,
    ) + sync_tail()
}

/// A message that can be sent: a snapshot has one slot per node.
pub open spec fn msg_ok(m: Message<Counter>) -> bool {
    m matches Message::SYNC(c) ==> c.wf()
}

/// The JSON wire form of a message: `{"RAW":<string literal>}` or
/// `{"SYNC":{"counts":[<n>,<n>,<n>]}}`.
pub open spec fn encoding(m: Message<Counter>) -> Seq<u8> {
    match m {
        Message::RAW(s) => raw_head() + json_string_of(s@) + seq![125u8],
        Message::SYNC(c) => sync_bytes(c@),
    }
}

/// The message text without one trailing newline, if it has one.
pub open spec fn body_of(b: Seq<u8>) -> Seq<u8> {
    if b.len() > 0 && b.last() == 10u8 {
        b.drop_last()
    } else {
        b
    }
}

/// The bytes are framed as a text message.
pub open spec fn raw_framed(b: Seq<u8>) -> bool {
    b.len() >= 8 && b.take(7) == raw_head() && b.last() == 125u8
}

/// The string literal inside a text frame.
pub open spec fn raw_inner(b: Seq<u8>) -> Seq<u8> {
    b.subrange(7, b.len() - 1)
}

/// The bytes are the wire form of some snapshot.
pub open spec fn sync_framed(b: Seq<u8>) -> bool {
    exists|c: Seq<u64>| slots_ok(c) && #[trigger] sync_bytes(c) == b
}

/// `m` is what the message text `b` reads as.
pub open spec fn decoded_as(b: Seq<u8>, m: Message<Counter>) -> bool {
    match m {
        Message::RAW(s) => raw_framed(b) && parsed_json_string(raw_inner(b)) == Some(s@),
        Message::SYNC(c) => c.wf() && b == sync_bytes(c@),
    }
}

/// Two messages carry the same content.
pub open spec fn same_message(a: Message<Counter>, b: Message<Counter>) -> bool {
    match (a, b) {
        (Message::RAW(x), Message::RAW(y)) => x@ == y@,
        (Message::SYNC(x), Message::SYNC(y)) => x@ == y@,
        _ => false,
    }
}

fn raw_head_vec() -> (r: Vec<u8>)
    ensures
        r@ == raw_head(),
{
    let r = vec![123u8, 34u8, 82u8, 65u8, 87u8, 34u8, 58u8];
    assert(r@ == raw_head());
    r
}

fn sync_head_vec() -> (r: Vec<u8>)
    ensures
        r@ == sync_head(),
{
    let r = vec![
        123u8, 34u8, 83u8, 89u8, 78u8, 67u8, 34u8, 58u8, 123u8, 34u8, 99u8, 111u8, 117u8, 110u8,
        116u8, 115u8, 34u8, 58u8, 91u8,
    ];
    assert(r@ == sync_head());
    r
}

fn sync_tail_vec() -> (r: Vec<u8>)
    ensures
        r@ == sync_tail(),
{
    let r = vec![93u8, 125u8, 125u8];
    assert(r@ == sync_tail());
    r
}

/// Whether `pat` stands in `b` at position `i`.
fn holds_at(b: &[u8], i: usize, pat: &Vec<u8>) -> (r: bool)
    requires
        i <= b@.len(),
    ensures
        r == (i + pat@.len() <= b@.len() && b@.subrange(i as int, i + pat@.len()) == pat@),
{
    if pat.len() > b.len() - i {
        return false;
    }
    let mut k: usize = 0;
    while k < pat.len()
        invariant
            i + pat@.len() <= b@.len(),
            b@.len() == b.len(),
            k <= pat@.len(),
            b@.subrange(i as int, i + k) == pat@.subrange(0, k as int),
        decreases pat@.len() - k,
    {
        if b[i + k] != pat[k] {
            assert(b@.subrange(i as int, i + pat@.len())[k as int] == b@[i + k]);
            return false;
        }
        assert(b@.subrange(i as int, i + k + 1) == b@.subrange(i as int, i + k).push(b@[i + k]));
        assert(pat@.subrange(0, k + 1) == pat@.subrange(0, k as int).push(pat@[k as int]));
        k = k + 1;
    }
    assert(pat@.subrange(0, pat@.len() as int) == pat@);
    true
}

/// The JSON wire form of a message.
pub fn encode(msg: &Message<Counter>) -> (r: Vec<u8>)
    requires
        msg_ok(*msg),
    ensures
        r@ == encoding(*msg),
{
    match msg {
        Message::RAW(s) => {
            let mut out = raw_head_vec();
            let mut text = match json_string(s) {
                Ok(t) => t,
                Err(_) => Vec::new(),
            };
            out.append(&mut text);
            out.push(125u8);
            out
        },
        Message::SYNC(c) => {
            let mut out = sync_head_vec();
            push_dec(&mut out, c.get(Node::ONE));
            out.push(44u8);
            push_dec(&mut out, c.get(Node::TWO));
            out.push(44u8);
            push_dec(&mut out, c.get(Node::THREE));
            let mut tail = sync_tail_vec();
            out.append(&mut tail);
            out
        },
    }
}

/// What goes on the wire for one message: its JSON form and a newline.
pub fn frame(msg: &Message<Counter>) -> (r: Vec<u8>)
    requires
        msg_ok(*msg),
    ensures
        r@ == encoding(*msg).push(10u8),
{
    let mut r = encode(msg);
    r.push(10u8);
    r
}

/// Reads a state snapshot from its wire form.
fn decode_sync(b: &[u8]) -> (r: Option<Counter>)
    ensures
        r matches Some(c) ==> c.wf() && b@ == sync_bytes(c@),
        r is None ==> !sync_framed(b@),
        forall|c: Seq<u64>| slots_ok(c) && #[trigger] sync_bytes(c) == b@ ==> r is Some && r->Some_0@ == c,
{
    let ghost bs = b@;
    let head = sync_head_vec();
    if !holds_at(b, 0, &head) {
        assert forall|c: Seq<u64>| slots_ok(c) implies #[trigger] sync_bytes(c) != bs by {
            if sync_bytes(c) == bs {
                assert(bs.subrange(0, 19) =~= sync_head());
            }
        }
        return None;
    }
    let (a0, i1) = match parse_dec(b, 19) {
        Some(p) => p,
        None => {
            proof {
                lemma_sync_witness(bs);
            }
            return None;
        },
    };
    if i1 >= b.len() || b[i1] != 44u8 {
        proof {
            lemma_sync_witness(bs);
        }
        return None;
    }
    let (a1, i2) = match parse_dec(b, i1 + 1) {
        Some(p) => p,
        None => {
            proof {
                lemma_sync_witness(bs);
            }
            return None;
        },
    };
    if i2 >= b.len() || b[i2] != 44u8 {
        proof {
            lemma_sync_witness(bs);
        }
        return None;
    }
    let (a2, i3) = match parse_dec(b, i2 + 1) {
        Some(p) => p,
        None => {
            proof {
                lemma_sync_witness(bs);
            }
            return None;
        },
    };
    let tail = sync_tail_vec();
    if !(holds_at(b, i3, &tail) && i3 + 3 == b.len()) {
        proof {
            lemma_sync_witness(bs);
        }
        return None;
    }
    let counts = vec![a0, a1, a2];
    let ghost cs = counts@;
    assert(bs =~= sync_bytes(cs)) by {
        assert(bs == bs.subrange(0, 19) + bs.subrange(19, i1 as int) + bs.subrange(i1 as int, i1 + 1)
            + bs.subrange(i1 + 1, i2 as int) + bs.subrange(i2 as int, i2 + 1) + bs.subrange(
            i2 + 1,
            i3 as int,
        ) + bs.subrange(i3 as int, bs.len() as int));
        assert(bs.subrange(i1 as int, i1 + 1) =~= seq![44u8]);
        assert(bs.subrange(i2 as int, i2 + 1) =~= seq![44u8]);
    }
    assert forall|c: Seq<u64>| slots_ok(c) && #[trigger] sync_bytes(c) == bs implies cs == c by {
        lemma_sync_parts(c);
        assert(cs =~= c);
    }
    Counter::from_counts(counts)
}

/// Reads a message from what one connection delivered: its JSON form,
/// optionally followed by one newline.
pub fn decode(b: &[u8]) -> (r: Result<Message<Counter>, DecodeError>)
    ensures
        r is Ok ==> msg_ok(r->Ok_0) && decoded_as(body_of(b@), r->Ok_0),
        r is Ok <==> (raw_framed(body_of(b@)) && parsed_json_string(raw_inner(body_of(b@))) is Some)
            || sync_framed(body_of(b@)),
        r == Err::<Message<Counter>, DecodeError>(DecodeError::BadText) <==> raw_framed(
            body_of(b@),
        ) && parsed_json_string(raw_inner(body_of(b@))) is None,
        forall|m: Message<Counter>|
            msg_ok(m) && (#[trigger] encoding(m) == b@ || encoding(m).push(10u8) == b@) ==> r is Ok
                && same_message(r->Ok_0, m),
        forall|c: Seq<u64>|
            slots_ok(c) && #[trigger] sync_bytes(c) == body_of(b@) ==> r is Ok && r->Ok_0 is SYNC
                && r->Ok_0->SYNC_0@ == c,
{
    let n = b.len();
    let end: usize = if n > 0 && b[n - 1] == 10u8 {
        n - 1
    } else {
        n
    };
    let body = slice_subrange(b, 0, end);
    let ghost bs = body@;
    assert(bs =~= body_of(b@));
    proof {
        lemma_encoding_body(b@);
    }
    let head = raw_head_vec();
    if end >= 8 && holds_at(body, 0, &head) && body[end - 1] == 125u8 {
        assert(bs.take(7) == bs.subrange(0, 7));
        assert(!sync_framed(bs)) by {
            if sync_framed(bs) {
                let c = choose|c: Seq<u64>| slots_ok(c) && #[trigger] sync_bytes(c) == bs;
                assert(bs[2] == sync_bytes(c)[2]);
            }
        }
        let inner = slice_subrange(body, 7, end - 1);
        assert(inner@ == raw_inner(bs));
        let parsed = parse_json_string(inner);
        assert(forall|c: Seq<u64>| slots_ok(c) ==> #[trigger] sync_bytes(c) != bs);
        assert forall|m: Message<Counter>|
            msg_ok(m) && (#[trigger] encoding(m) == b@ || encoding(m).push(10u8) == b@) implies parsed is Ok
            && m is RAW && parsed->Ok_0@ == m->RAW_0@ by {
            match m {
                Message::RAW(s) => {
                    assert(inner@ =~= json_string_of(s@));
                },
                Message::SYNC(c) => {
                    assert(slots_ok(c@) && sync_bytes(c@) == bs);
                },
            }
        }
        match parsed {
            Ok(t) => Ok(Message::RAW(t)),
            Err(_) => Err(DecodeError::BadText),
        }
    } else {
        assert(!raw_framed(bs)) by {
            if raw_framed(bs) {
                assert(bs.subrange(0, 7) == bs.take(7));
            }
        }
        let snapshot = decode_sync(body);
        assert forall|m: Message<Counter>|
            msg_ok(m) && (#[trigger] encoding(m) == b@ || encoding(m).push(10u8) == b@) implies snapshot is Some
            && m is SYNC && snapshot->Some_0@ == m->SYNC_0@ by {
            match m {
                Message::RAW(s) => {},
                Message::SYNC(c) => {
                    assert(slots_ok(c@) && sync_bytes(c@) == bs);
                },
            }
        }
        match snapshot {
            Some(c) => Ok(Message::SYNC(c)),
            None => Err(DecodeError::UnknownFormat),
        }
    }
}

/// The wire form of a message ends with `}`, so a trailing newline is the
/// only thing that `body_of` strips from a frame.
proof fn lemma_encoding_body(b: Seq<u8>)
    ensures
        forall|m: Message<Counter>|
            msg_ok(m) && (#[trigger] encoding(m) == b || encoding(m).push(10u8) == b) ==> body_of(b)
                == encoding(m) && (m matches Message::RAW(s) ==> raw_framed(b) || raw_framed(
                body_of(b),
            )),
{
    assert forall|m: Message<Counter>|
        msg_ok(m) && (#[trigger] encoding(m) == b || encoding(m).push(10u8) == b) implies body_of(b)
        == encoding(m) && (m matches Message::RAW(s) ==> raw_framed(b) || raw_framed(
        body_of(b),
    )) by {
        let e = encoding(m);
        assert(e.last() == 125u8);
        if e.push(10u8) == b {
            assert(b.drop_last() =~= e);
        }
        match m {
            Message::RAW(s) => {
                assert(e.take(7) =~= raw_head());
            },
            Message::SYNC(_) => {},
        }
    }
}

/// Each number of a snapshot's wire form stands where the parser looks for it.
proof fn lemma_sync_parts(c: Seq<u64>)
    requires
        slots_ok(c),
    ensures
        ({
            let b = sync_bytes(c);
            let p1 = 19 + dec(c[0] as nat).len() as int;
            let p2 = p1 + 1 + dec(c[1] as nat).len() as int;
            let p3 = p2 + 1 + dec(c[2] as nat).len() as int;
            &&& dec_at(b, 19, c[0] as nat)
            &&& b[p1] == 44u8
            &&& dec_at(b, p1 + 1, c[1] as nat)
            &&& b[p2] == 44u8
            &&& dec_at(b, p2 + 1, c[2] as nat)
            &&& b.len() == p3 + 3
            &&& b.subrange(p3, p3 + 3) == sync_tail()
            &&& b.subrange(0, 19) == sync_head()
        }),
{
    let b = sync_bytes(c);
    let d0 = dec(c[0] as nat);
    let d1 = dec(c[1] as nat);
    let d2 = dec(c[2] as nat);
    let p1 = 19 + d0.len() as int;
    let p2 = p1 + 1 + d1.len() as int;
    let p3 = p2 + 1 + d2.len() as int;
    lemma_dec_canonical(c[0] as nat);
    lemma_dec_canonical(c[1] as nat);
    lemma_dec_canonical(c[2] as nat);
    assert(b.subrange(0, 19) =~= sync_head());
    assert(b.subrange(19, p1) =~= d0);
    assert(b[p1] == 44u8);
    assert(b.subrange(p1 + 1, p2) =~= d1);
    assert(b[p2] == 44u8);
    assert(b.subrange(p2 + 1, p3) =~= d2);
    assert(b[p3] == 93u8);
    assert(b.subrange(p3, p3 + 3) =~= sync_tail());
}

/// A snapshot's wire form shows where each of its parts stands.
proof fn lemma_sync_witness(bs: Seq<u8>)
    ensures
        sync_framed(bs) ==> exists|c: Seq<u64>|
            slots_ok(c) && #[trigger] sync_bytes(c) == bs && ({
                let p1 = 19 + dec(c[0] as nat).len() as int;
                let p2 = p1 + 1 + dec(c[1] as nat).len() as int;
                let p3 = p2 + 1 + dec(c[2] as nat).len() as int;
                &&& dec_at(bs, 19, c[0] as nat)
                &&& bs[p1] == 44u8
                &&& dec_at(bs, p1 + 1, c[1] as nat)
                &&& bs[p2] == 44u8
                &&& dec_at(bs, p2 + 1, c[2] as nat)
                &&& bs.len() == p3 + 3
                &&& bs.subrange(p3, p3 + 3) == sync_tail()
                &&& bs.subrange(0, 19) == sync_head()
            }),
{
    if sync_framed(bs) {
        let c = choose|c: Seq<u64>| slots_ok(c) && #[trigger] sync_bytes(c) == bs;
        lemma_sync_parts(c);
    }
}

} // verus!
