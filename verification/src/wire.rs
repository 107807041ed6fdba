//! DNS messages on the wire, by way of `hickory_proto`.

use std::fmt::Write;
use std::str::FromStr;

use hickory_proto::op::{Message, MessageType, OpCode, Query, ResponseCode};
use hickory_proto::rr::{Name, RecordType};
use hickory_proto::serialize::binary::{BinDecodable, BinEncodable};
use vstd::prelude::*;

use crate::text::text_of;

verus! {

/// Why a query could not be encoded.
pub enum QueryError {
    /// The host does not parse as a domain name.
    Name(String),
    /// The message does not encode.
    Message(String),
}

/// What is read of a reply.
pub struct Reply {
    pub id: u16,
    /// The response code, with the extended bits where the reply carries them.
    pub rcode: u16,
    /// Each record of the answer section as text, where it has one.
    pub answers: Vec<Option<String>>,
}

/// The bytes of a standard query for `host`; or the text of the error, marked `true` where the
/// name is at fault and `false` where the encoding is.
pub uninterp spec fn query_wire(host: Seq<char>, qtype: u16, id: u16, recursion: bool) -> Result<
    Seq<u8>,
    (bool, Seq<char>),
>;

/// The id, the response code and the number of answers of the message in `bytes`; or the text of
/// the error.
pub uninterp spec fn reply_fields(bytes: Seq<u8>) -> Result<(u16, u16, nat), Seq<char>>;

/// The text of each answer of the message in `bytes`, where it has one.
pub uninterp spec fn answer_texts(bytes: Seq<u8>) -> Seq<Option<Seq<char>>>;

/// The name of a response code.
pub uninterp spec fn rcode_text(code: u16) -> Seq<char>;

/// The characters of each text, where there is one.
pub open spec fn optional_texts(v: Seq<Option<String>>) -> Seq<Option<Seq<char>>> {
    v.map_values(|s: Option<String>| text_of(s))
}

/// The number that two bytes write, the higher byte first.
pub open spec fn be16(high: u8, low: u8) -> int {
    high * 256 + low
}

/// The header of a standard query: the id, whether recursion is desired, and that there is one
/// question and no record.
pub open spec fn query_header(id: u16, recursion: bool) -> Seq<u8> {
    seq![
        (id / 256) as u8,
        (id % 256) as u8,
        if recursion {
            1u8
        } else {
            0u8
        },
        0,
        0,
        1,
        0,
        0,
        0,
        0,
        0,
        0,
    ]
}

/// What follows the name in a question: the type of the records, and the class IN.
pub open spec fn question_end(qtype: u16) -> Seq<u8> {
    seq![(qtype / 256) as u8, (qtype % 256) as u8, 0, 1]
}

/// The message is a header and a question, with a name of at least a byte in between.
pub open spec fn asks_for(bytes: Seq<u8>, qtype: u16, id: u16, recursion: bool) -> bool {
    &&& bytes.len() >= 17
    &&& bytes.take(12) == query_header(id, recursion)
    &&& bytes.skip(bytes.len() - 4) == question_end(qtype)
}

/// The number of answers that the header of a message gives.
pub open spec fn header_answers(bytes: Seq<u8>) -> int {
    be16(bytes[6], bytes[7])
}

/// The response code goes with the header of a message: its lowest four bits are those of the
/// header, and it has others, up to twelve in all, only where there are additional records.
pub open spec fn header_allows(bytes: Seq<u8>, rcode: u16) -> bool {
    &&& rcode < 4096
    &&& rcode % 16 == bytes[3] % 16
    &&& be16(bytes[10], bytes[11]) == 0 ==> rcode < 16
}

/// `Name::from_str` and `Message::to_bytes` of `hickory_proto`: the wire form of a standard query
/// with one question of class IN, or the error that either gives. The result depends on the
/// arguments alone. The message is a header of twelve bytes, the name, and the type and the class;
/// how the name is written, and which names are refused, is left to the name of the result.
#[verifier::external_body]
pub(crate) fn encode_query(host: &str, qtype: u16, id: u16, recursion: bool) -> (r: Result<Vec<u8>, QueryError>)
    ensures
        match r {
            Ok(bytes) => query_wire(host@, qtype, id, recursion) == Ok::<Seq<u8>, (bool, Seq<char>)>(bytes@)
                && asks_for(bytes@, qtype, id, recursion),
            Err(QueryError::Name(e)) => query_wire(host@, qtype, id, recursion) == Err::<Seq<u8>, (bool, Seq<char>)>(
                (true, e@),
            ),
            Err(QueryError::Message(e)) => query_wire(host@, qtype, id, recursion) == Err::<
                Seq<u8>,
                (bool, Seq<char>),
            >((false, e@)),
        },
{
    let name = Name::from_str(host).map_err(|e| QueryError::Name(e.to_string()))?;
    let mut msg = Message::new();
    msg.set_id(id)
        .set_message_type(MessageType::Query)
        .set_op_code(OpCode::Query)
        .set_recursion_desired(recursion)
        .add_query(Query::query(name, RecordType::from(qtype)));
    msg.to_bytes().map_err(|e| QueryError::Message(e.to_string()))
}

/// `Message::from_bytes` of `hickory_proto`, and the display of its records: the message that the
/// bytes hold, or the text of the error. The id, the response code, the answers and their texts,
/// and the error depend on the bytes alone. The message starts with a header of twelve bytes, which
/// holds the id, the number of answers and the lower bits of the response code; an extension record
/// holds the upper bits. Some records have no text: a pseudo-record, and an authorization with a
/// value that is not Unicode.
#[verifier::external_body]
pub(crate) fn decode_reply(bytes: &[u8]) -> (r: Result<Reply, String>)
    ensures
        match r {
            Ok(reply) => reply_fields(bytes@) == Ok::<(u16, u16, nat), Seq<char>>(
                (reply.id, reply.rcode, reply.answers@.len()),
            ) && optional_texts(reply.answers@) == answer_texts(bytes@) && bytes@.len() >= 12 && be16(
                bytes@[0],
                bytes@[1],
            ) == reply.id && header_answers(bytes@) == reply.answers@.len() && header_allows(bytes@, reply.rcode),
            Err(e) => reply_fields(bytes@) == Err::<(u16, u16, nat), Seq<char>>(e@),
        },
{
    let msg = Message::from_bytes(bytes).map_err(|e| e.to_string())?;
    let text = |a| {
        let mut s = String::new();
        write!(s, "{}", a).ok().map(|_| s)
    };
    Ok(
        Reply {
            id: msg.id(),
            rcode: u16::from(msg.response_code()),
            answers: msg.answers().iter().map(text).collect(),
        },
    )
}

/// The name that the debug format of `ResponseCode` of `hickory_proto` gives a response code. It
/// depends on the code alone.
#[verifier::external_body]
pub(crate) fn rcode_name(code: u16) -> (r: String)
    ensures
        r@ == rcode_text(code),
{
    let named: ResponseCode = code.into();
    format!("{:?}", named)
}

} // verus!
