//! Transports, and the queries and replies that they carry.
//!
//! All transports share the DNS wire format; only the way the bytes travel differs.

use vstd::prelude::*;
use vstd::string::StringExecFns;

use crate::duration::Duration;
use crate::probe::{counter_after, id_at, next_id, ProbeError, ProbeOutcome};
use crate::resolver::IpAddr;
use crate::text::{lower, lowered, same, text_of};
use crate::wire::{
    answer_texts, asks_for, be16, decode_reply, encode_query, header_allows, header_answers, optional_texts, query_wire,
    reply_fields, QueryError, Reply,
};

verus! {

broadcast use vstd::string::group_string_axioms;

/// The transport and the address of a single endpoint.
#[derive(Clone, Debug)]
pub enum Transport {
    /// Classic UDP on port 53.
    Udp { addr: IpAddr },
    /// DNS-over-TLS (RFC 7858) on port 853. `tls_name` is the name on the certificate.
    Dot { addr: IpAddr, tls_name: String },
    /// DNS-over-HTTPS (RFC 8484). The URL includes scheme, host and path.
    Doh { url: String },
}

/// The kind of a transport.
#[derive(Clone, Copy, Debug, PartialEq, Eq, Hash, Structural)]
pub enum TransportKind {
    Udp,
    Dot,
    Doh,
}

/// The record type of a question.
#[derive(Clone, Copy, Debug, PartialEq, Eq, Structural)]
pub struct RecordType {
    /// The number that stands for it on the wire.
    pub code: u16,
}

impl RecordType {
    /// The type of IPv4 address records.
    pub fn a() -> (r: RecordType)
        ensures
            r.code == 1,
    {
        RecordType { code: 1 }
    }
}

impl Transport {
    /// The kind of this transport.
    pub open spec fn spec_kind(self) -> TransportKind {
        match self {
            Transport::Udp { .. } => TransportKind::Udp,
            Transport::Dot { .. } => TransportKind::Dot,
            Transport::Doh { .. } => TransportKind::Doh,
        }
    }

    /// The kind of this transport.
    pub fn kind(&self) -> (r: TransportKind)
        ensures
            r == self.spec_kind(),
    {
        match self {
            Transport::Udp { .. } => TransportKind::Udp,
            Transport::Dot { .. } => TransportKind::Dot,
            Transport::Doh { .. } => TransportKind::Doh,
        }
    }

    /// A copy of the transport.
    pub fn duplicate(&self) -> (r: Transport)
        ensures
            r == *self,
    {
        match self {
            Transport::Udp { addr } => Transport::Udp { addr: addr.duplicate() },
            Transport::Dot { addr, tls_name } => Transport::Dot { addr: addr.duplicate(), tls_name: tls_name.clone() },
            Transport::Doh { url } => Transport::Doh { url: url.clone() },
        }
    }

    /// The short address: the IP address, followed by the certificate name in brackets for
    /// DNS-over-TLS; or the URL.
    pub open spec fn spec_display_addr(self) -> Seq<char> {
        match self {
            Transport::Udp { addr } => addr.text@,
            Transport::Dot { addr, tls_name } => addr.text@ + " ("@ + tls_name@ + ")"@,
            Transport::Doh { url } => url@,
        }
    }

    /// Short human-readable address: `1.1.1.1`, `1.1.1.1 (cloudflare-dns.com)`, or
    /// `https://cloudflare-dns.com/dns-query`.
    pub fn display_addr(&self) -> (r: String)
        ensures
            r@ == self.spec_display_addr(),
    {
        match self {
            Transport::Udp { addr } => addr.text.clone(),
            Transport::Dot { addr, tls_name } => {
                let mut r = addr.text.clone();
                r.append(" (");
                r.append(tls_name.as_str());
                r.append(")");
                r
            },
            Transport::Doh { url } => url.clone(),
        }
    }
}

/// The name of a transport kind in tables.
pub open spec fn kind_label(k: TransportKind) -> Seq<char> {
    match k {
        TransportKind::Udp => "UDP"@,
        TransportKind::Dot => "DoT"@,
        TransportKind::Doh => "DoH"@,
    }
}

/// The transport kind that a word names, whatever the case of its letters.
pub open spec fn kind_named(s: Seq<char>) -> Option<TransportKind> {
    let w = lower(s);
    if w == "udp"@ {
        Some(TransportKind::Udp)
    } else if w == "dot"@ || w == "tls"@ {
        Some(TransportKind::Dot)
    } else if w == "doh"@ || w == "https"@ {
        Some(TransportKind::Doh)
    } else {
        None
    }
}

impl TransportKind {
    /// The name of the kind.
    pub fn label(self) -> (r: &'static str)
        ensures
            r@ == kind_label(self),
    {
        match self {
            TransportKind::Udp => "UDP",
            TransportKind::Dot => "DoT",
            TransportKind::Doh => "DoH",
        }
    }

    /// The kind that a word names.
    pub fn parse(s: &str) -> (r: Option<TransportKind>)
        ensures
            r == kind_named(s@),
    {
        let w = crate::text::string_of(&lowered(s));
        if same(w.as_str(), "udp") {
            Some(TransportKind::Udp)
        } else if same(w.as_str(), "dot") || same(w.as_str(), "tls") {
            Some(TransportKind::Dot)
        } else if same(w.as_str(), "doh") || same(w.as_str(), "https") {
            Some(TransportKind::Doh)
        } else {
            None
        }
    }
}

/// Each kind is the one that its own label names.
pub proof fn law_label_names_kind(k: TransportKind)
    ensures
        kind_named(kind_label(k)) == Some(k),
{
    reveal_strlit("UDP");
    reveal_strlit("DoT");
    reveal_strlit("DoH");
    reveal_strlit("udp");
    reveal_strlit("dot");
    reveal_strlit("tls");
    reveal_strlit("doh");
    reveal_strlit("https");
    match k {
        TransportKind::Udp => {
            assert(lower("UDP"@) =~= "udp"@);
        },
        TransportKind::Dot => {
            assert(lower("DoT"@) =~= "dot"@);
            assert(lower("DoT"@)[0] != "udp"@[0]);
        },
        TransportKind::Doh => {
            assert(lower("DoH"@) =~= "doh"@);
            assert(lower("DoH"@)[0] != "udp"@[0]);
            assert(lower("DoH"@)[2] != "dot"@[2]);
            assert(lower("DoH"@)[0] != "tls"@[0]);
        },
    }
}

/// The error that a probe reports when its query cannot be encoded.
pub open spec fn query_error(e: (bool, Seq<char>), r: ProbeError) -> bool {
    if e.0 {
        r matches ProbeError::BadName(t) && t@ == e.1
    } else {
        r matches ProbeError::Encode(t) && t@ == e.1
    }
}

/// Build a query for `hostname` with the next transaction id and recursion desired: a header, and
/// one question.
///
/// A name that does not parse uses up no id.
pub fn build_query(hostname: &str, qtype: RecordType, counter: &mut u16) -> (r: Result<(u16, Vec<u8>), ProbeError>)
    ensures
        match query_wire(hostname@, qtype.code, id_at(*old(counter)), true) {
            Ok(bytes) => r matches Ok(p) && p.0 == id_at(*old(counter)) && p.1@ == bytes && *final(counter)
                == counter_after(*old(counter)),
            Err(e) => r matches Err(x) && query_error(e, x) && *final(counter) == (if e.0 {
                *old(counter)
            } else {
                counter_after(*old(counter))
            }),
        },
        r matches Ok(p) ==> p.0 != 0 && asks_for(p.1@, qtype.code, p.0, true) && be16(p.1@[0], p.1@[1]) == p.0,
{
    let mut after: u16 = *counter;
    let id: u16 = next_id(&mut after);
    match encode_query(hostname, qtype.code, id, true) {
        Ok(bytes) => {
            *counter = after;
            assert(bytes@[0] == bytes@.take(12)[0] && bytes@[1] == bytes@.take(12)[1]);
            Ok((id, bytes))
        },
        Err(QueryError::Name(e)) => Err(ProbeError::BadName(e)),
        Err(QueryError::Message(e)) => {
            *counter = after;
            Err(ProbeError::Encode(e))
        },
    }
}

/// `r` is what a reply comes to for the query with the id `expected_id`.
pub open spec fn is_outcome(r: Result<ProbeOutcome, ProbeError>, reply: Reply, expected_id: u16) -> bool {
    if reply.id != expected_id {
        r == Err::<ProbeOutcome, ProbeError>(ProbeError::IdMismatch { sent: expected_id, got: reply.id })
    } else {
        r matches Ok(o) && o.rtt@ == 0 && o.rcode == reply.rcode && o.answer_count == reply.answers@.len()
            && o.first_answer == (if reply.answers@.len() > 0 {
            reply.answers@[0]
        } else {
            None::<String>
        })
    }
}

/// What a reply comes to for the query with the id `expected_id`.
///
/// The round trip is for the caller to fill in. The first answer is left out where it has no text.
pub fn outcome_of(reply: Reply, expected_id: u16) -> (r: Result<ProbeOutcome, ProbeError>)
    ensures
        match r {
            Ok(o) => {
                &&& reply.id == expected_id
                &&& o.rtt@ == 0
                &&& o.rcode == reply.rcode
                &&& o.answer_count == reply.answers@.len()
                &&& o.first_answer == (if reply.answers@.len() > 0 {
                    reply.answers@[0]
                } else {
                    None::<String>
                })
            },
            Err(e) => reply.id != expected_id && e == (ProbeError::IdMismatch { sent: expected_id, got: reply.id }),
        },
        is_outcome(r, reply, expected_id),
{
    if reply.id != expected_id {
        return Err(ProbeError::IdMismatch { sent: expected_id, got: reply.id });
    }
    let first_answer = if reply.answers.len() > 0 {
        match &reply.answers[0] {
            Some(text) => Some(text.clone()),
            None => None,
        }
    } else {
        None
    };
    Ok(
        ProbeOutcome {
            rtt: Duration::zero(),
            rcode: reply.rcode,
            answer_count: reply.answers.len(),
            first_answer,
        },
    )
}

/// Read a reply to the query with the id `expected_id`.
///
/// The round trip is for the caller to fill in. The first answer is left out where it has no text.
pub fn decode_response(bytes: &[u8], expected_id: u16) -> (r: Result<ProbeOutcome, ProbeError>)
    ensures
        match reply_fields(bytes@) {
            Ok(f) => if f.0 == expected_id {
                r matches Ok(o) && o.rtt@ == 0 && o.rcode == f.1 && o.answer_count == f.2 && text_of(o.first_answer)
                    == (if f.2 > 0 {
                    answer_texts(bytes@)[0]
                } else {
                    None
                })
            } else {
                r == Err::<ProbeOutcome, ProbeError>(ProbeError::IdMismatch { sent: expected_id, got: f.0 })
            },
            Err(e) => r matches Err(ProbeError::Decode(t)) && t@ == e,
        },
        r matches Err(ProbeError::IdMismatch { sent, got }) ==> bytes@.len() >= 12 && be16(bytes@[0], bytes@[1])
            != expected_id,
        r matches Ok(o) ==> bytes@.len() >= 12 && be16(bytes@[0], bytes@[1]) == expected_id && header_answers(bytes@)
            == o.answer_count && header_allows(bytes@, o.rcode),
{
    match decode_reply(bytes) {
        Ok(reply) => {
            proof {
                let texts = optional_texts(reply.answers@);
                assert(texts.len() == reply.answers@.len());
                if reply.answers@.len() > 0 {
                    assert(texts[0] == text_of(reply.answers@[0]));
                }
            }
            outcome_of(reply, expected_id)
        },
        Err(e) => Err(ProbeError::Decode(e)),
    }
}

/// The frame that carries a message over a stream: its length in two bytes, then the message.
pub open spec fn framed(message: Seq<u8>) -> Seq<u8> {
    let n = message.len() % 65536;
    seq![(n / 256) as u8, (n % 256) as u8] + message
}

/// Put the length of a message in front of it.
pub fn frame(message: &Vec<u8>) -> (r: Vec<u8>)
    ensures
        r@ == framed(message@),
{
    let n: usize = message.len() % 65536;
    let mut r: Vec<u8> = Vec::new();
    r.push((n / 256) as u8);
    r.push((n % 256) as u8);
    let ghost head = r@;
    let mut i: usize = 0;
    assert(head + message@.take(0) == head);
    while i < message.len()
        invariant
            i <= message.len(),
            r@ == head + message@.take(i as int),
        decreases message.len() - i,
    {
        r.push(message[i]);
        assert(head + message@.take(i + 1) == (head + message@.take(i as int)).push(message@[i as int]));
        i = i + 1;
    }
    assert(message@.take(message.len() as int) == message@);
    assert(r@ =~= framed(message@));
    r
}

/// The length of the message that follows the two bytes of a frame.
pub fn frame_len(high: u8, low: u8) -> (r: usize)
    ensures
        r == be16(high, low),
{
    high as usize * 256 + low as usize
}

/// The two bytes in front of a message give its length, which is at most 65535.
pub proof fn law_frame_gives_length(message: Seq<u8>)
    requires
        message.len() < 65536,
    ensures
        framed(message).len() == message.len() + 2,
        be16(framed(message)[0], framed(message)[1]) == message.len(),
        framed(message).skip(2) == message,
{
    assert(framed(message).skip(2) =~= message);
}

/// A frame holds its message, however long, behind two bytes that give its length as far as they can.
pub proof fn law_frame_holds_message(message: Seq<u8>)
    ensures
        framed(message).skip(2) == message,
        be16(framed(message)[0], framed(message)[1]) == message.len() % 65536,
{
    assert(framed(message).skip(2) =~= message);
}

/// The address of a transport: the IP address alone over UDP, the IP address and then the name on the
/// certificate in brackets over TLS, and the URL over HTTPS.
pub proof fn law_address_is_shown(t: Transport)
    ensures
        ({
            let shown = t.spec_display_addr();
            match t {
                Transport::Udp { addr } => shown == addr.text@,
                Transport::Dot { addr, tls_name } => {
                    let n = addr.text@.len() as int;
                    &&& addr.text@.is_prefix_of(shown)
                    &&& shown.len() == n + tls_name@.len() + 3
                    &&& shown[n] == ' ' && shown[n + 1] == '(' && shown.last() == ')'
                    &&& shown.subrange(n + 2, n + 2 + tls_name@.len()) == tls_name@
                },
                Transport::Doh { url } => shown == url@,
            }
        }),
{
    reveal_strlit(" (");
    reveal_strlit(")");
    let shown = t.spec_display_addr();
    match t {
        Transport::Dot { addr, tls_name } => {
            let n = addr.text@.len() as int;
            assert(addr.text@ =~= shown.subrange(0, n));
            assert(shown.subrange(n + 2, n + 2 + tls_name@.len()) =~= tls_name@);
        },
        _ => {},
    }
}

/// A word names a kind by the kind's own name or by that of the protocol below it, in any case of its
/// letters; no other word names a kind.
pub proof fn law_words_name_kinds(s: Seq<char>)
    ensures
        kind_named(s) == Some(TransportKind::Udp) <==> lower(s) == "udp"@,
        kind_named(s) == Some(TransportKind::Dot) <==> lower(s) == "dot"@ || lower(s) == "tls"@,
        kind_named(s) == Some(TransportKind::Doh) <==> lower(s) == "doh"@ || lower(s) == "https"@,
        kind_named(s) is None <==> lower(s) != "udp"@ && lower(s) != "dot"@ && lower(s) != "tls"@ && lower(s) != "doh"@
            && lower(s) != "https"@,
{
    reveal_strlit("udp");
    reveal_strlit("dot");
    reveal_strlit("tls");
    reveal_strlit("doh");
    reveal_strlit("https");
    assert("udp"@[0] != "dot"@[0] && "udp"@[0] != "tls"@[0] && "udp"@[0] != "doh"@[0]);
    assert("dot"@[2] != "doh"@[2] && "tls"@[0] != "doh"@[0] && "dot"@[0] != "tls"@[0]);
}

/// A reply answers a query exactly where it carries the id of the query, and otherwise the error gives
/// both ids. Its code, the number of its answers and the first of them are handed on as they are,
/// whatever the id.
pub proof fn law_replies_answer_their_query(
    r: Result<ProbeOutcome, ProbeError>,
    reply: Reply,
    expected_id: u16,
)
    requires
        is_outcome(r, reply, expected_id),
    ensures
        r is Ok <==> reply.id == expected_id,
        r matches Err(e) ==> (e matches ProbeError::IdMismatch { sent, got } && sent == expected_id && got == reply.id),
        r matches Ok(o) ==> o.rcode == reply.rcode && o.answer_count == reply.answers@.len() && o.rtt@ == 0,
        r matches Ok(o) ==> (reply.answers@.len() == 0 ==> o.first_answer is None),
        r matches Ok(o) ==> (reply.answers@.len() > 0 ==> o.first_answer == reply.answers@.first()),
{
}

} // verus!
