//! Messages as the broker hands them over, and the JSON envelope that the
//! webhook receives for each.

use crate::base64::{decode, decoded, encode, encoded, lemma_encoded_is_ascii, lemma_round_trip};
use crate::text::{ascii_string, ascii_text, decimal, decimal_string, lemma_ascii_is_utf8};
use vstd::prelude::*;
use vstd::string::*;
use vstd::utf8::*;

verus! {

/// One record of a partition.
#[derive(Clone, Debug, PartialEq, Eq)]
pub struct Message {
    pub topic: String,
    pub partition: i32,
    pub offset: i64,
    pub key: Option<Vec<u8>>,
    pub payload: Vec<u8>,
    /// Milliseconds since the epoch, as the broker assigned them.
    pub timestamp: i64,
}

/// How the `message` field of an envelope holds the payload.
#[derive(Clone, Copy, Debug, PartialEq, Eq, Structural)]
pub enum Encoding {
    /// The payload is UTF-8 and stands there as text.
    Utf8,
    /// The payload is not UTF-8 and stands there in base64.
    Base64,
}

/// What is posted to the webhook for one message.
#[derive(Clone, Debug, PartialEq, Eq)]
pub struct WebhookEnvelope {
    pub message: String,
    pub encoding: Encoding,
    pub topic: String,
    pub partition: i32,
    pub offset: i64,
    pub timestamp: i64,
}

/// One header of the request.
#[derive(Clone, Debug, PartialEq, Eq)]
pub struct Header {
    pub name: String,
    pub value: String,
}

/// How a payload is held: as text where it is well-formed UTF-8, in base64
/// otherwise.
pub open spec fn encoding_of(payload: Seq<u8>) -> Encoding {
    if valid_utf8(payload) {
        Encoding::Utf8
    } else {
        Encoding::Base64
    }
}

/// The `message` field for a payload.
pub open spec fn message_text(payload: Seq<u8>) -> Seq<char> {
    if valid_utf8(payload) {
        decode_utf8(payload)
    } else {
        ascii_text(encoded(payload))
    }
}

/// The payload that a `message` field stands for under an encoding, `None`
/// where the field is said to be base64 and is not.
pub open spec fn payload_of(message: Seq<char>, encoding: Encoding) -> Option<Seq<u8>> {
    match encoding {
        Encoding::Utf8 => Some(encode_utf8(message)),
        Encoding::Base64 => decoded(encode_utf8(message)),
    }
}

/// Whatever the payload, the `message` field made for it stands for exactly
/// that payload.
pub proof fn lemma_payload_round_trip(payload: Seq<u8>)
    ensures
        payload_of(message_text(payload), encoding_of(payload)) == Some(payload),
{
    if valid_utf8(payload) {
        decode_utf8_encode_utf8(payload);
    } else {
        lemma_encoded_is_ascii(payload);
        lemma_ascii_is_utf8(encoded(payload));
        lemma_round_trip(payload);
    }
}

/// The JSON text that `serde_json::to_string` gives for a string: the
/// string in quotes, with its escapes.
pub uninterp spec fn json_string(s: Seq<char>) -> Seq<char>;

/// The error of `serde_json`, carried through and never read.
#[verifier::external_type_specification]
#[verifier::external_body]
pub struct ExJsonError(serde_json::Error);

/// `serde_json::to_string` on a string slice. It writes into memory and the
/// value is a plain string, so neither of the two failures that its
/// documentation names can occur; the text it gives depends on the string
/// alone.
#[verifier::external_body]
fn quote(s: &str) -> (r: Result<String, serde_json::Error>)
    ensures
        r is Ok,
        r matches Ok(text) ==> text@ == json_string(s@),
{
    serde_json::to_string(s)
}

/// The JSON text of a string.
pub fn quoted(s: &str) -> (text: String)
    ensures
        text@ == json_string(s@),
{
    match quote(s) {
        Ok(text) => text,
        // unreachable: the call does not fail on a string
        Err(_) => String::new(),
    }
}

/// The body of the request, made of the JSON texts of its two strings and
/// of its numbers. The `encoding` member stands first and only where the
/// payload is held in base64.
pub open spec fn body_of_parts(
    message_json: Seq<char>,
    encoding: Encoding,
    topic_json: Seq<char>,
    partition: int,
    offset: int,
    timestamp: int,
) -> Seq<char> {
    "{"@ + (if encoding is Base64 {
        "\"encoding\":\"base64\","@
    } else {
        Seq::<char>::empty()
    }) + "\"message\":"@ + message_json + ",\"topic\":"@ + topic_json + ",\"partition\":"@
        + ascii_text(decimal(partition)) + ",\"offset\":"@ + ascii_text(decimal(offset))
        + ",\"timestamp\":"@ + ascii_text(decimal(timestamp)) + "}"@
}

/// The body of the request for an envelope.
pub open spec fn body_text(
    message: Seq<char>,
    encoding: Encoding,
    topic: Seq<char>,
    partition: int,
    offset: int,
    timestamp: int,
) -> Seq<char> {
    body_of_parts(json_string(message), encoding, json_string(topic), partition, offset, timestamp)
}

/// Puts the body of a request together from the JSON texts of its two
/// strings and from its numbers.
pub fn assemble_body(
    message_json: &str,
    encoding: Encoding,
    topic_json: &str,
    partition: i32,
    offset: i64,
    timestamp: i64,
) -> (body: String)
    ensures
        body@ == body_of_parts(
            message_json@,
            encoding,
            topic_json@,
            partition as int,
            offset as int,
            timestamp as int,
        ),
{
    let mut body = String::from_str("{");
    match encoding {
        Encoding::Base64 => {
            body.append("\"encoding\":\"base64\",");
        },
        Encoding::Utf8 => {
            assert(body@ + Seq::<char>::empty() =~= body@);
        },
    }
    body.append("\"message\":");
    body.append(message_json);
    body.append(",\"topic\":");
    body.append(topic_json);
    body.append(",\"partition\":");
    body.append(decimal_string(partition as i64).as_str());
    body.append(",\"offset\":");
    body.append(decimal_string(offset).as_str());
    body.append(",\"timestamp\":");
    body.append(decimal_string(timestamp).as_str());
    body.append("}");
    body
}

impl WebhookEnvelope {
    /// The envelope for a message.
    pub fn from_message(message: &Message) -> (envelope: WebhookEnvelope)
        ensures
            envelope.message@ == message_text(message.payload@),
            envelope.encoding == encoding_of(message.payload@),
            envelope.topic@ == message.topic@,
            envelope.partition == message.partition,
            envelope.offset == message.offset,
            envelope.timestamp == message.timestamp,
            payload_of(envelope.message@, envelope.encoding) == Some(message.payload@),
    {
        proof {
            lemma_payload_round_trip(message.payload@);
        }
        let (text, encoding) = match core::str::from_utf8(message.payload.as_slice()) {
            Ok(s) => (s.to_owned(), Encoding::Utf8),
            Err(_) => {
                let symbols = encode(message.payload.as_slice());
                proof {
                    lemma_encoded_is_ascii(message.payload@);
                }
                (ascii_string(symbols.as_slice()), Encoding::Base64)
            },
        };
        WebhookEnvelope {
            message: text,
            encoding,
            topic: message.topic.clone(),
            partition: message.partition,
            offset: message.offset,
            timestamp: message.timestamp,
        }
    }

    /// The payload that the envelope stands for, `None` where its `message`
    /// field is said to be base64 and is not.
    pub fn payload(&self) -> (payload: Option<Vec<u8>>)
        ensures
            payload is Some <==> payload_of(self.message@, self.encoding) is Some,
            payload matches Some(bytes) ==> Some(bytes@) == payload_of(
                self.message@,
                self.encoding,
            ),
    {
        match self.encoding {
            Encoding::Utf8 => Some(self.message.as_str().as_bytes_vec()),
            Encoding::Base64 => decode(self.message.as_str().as_bytes()),
        }
    }

    /// The body of the request: the envelope as one JSON object.
    pub fn to_json(&self) -> (body: String)
        ensures
            body@ == body_text(
                self.message@,
                self.encoding,
                self.topic@,
                self.partition as int,
                self.offset as int,
                self.timestamp as int,
            ),
    {
        let message_json = quoted(self.message.as_str());
        let topic_json = quoted(self.topic.as_str());
        assemble_body(
            message_json.as_str(),
            self.encoding,
            topic_json.as_str(),
            self.partition,
            self.offset,
            self.timestamp,
        )
    }

    /// The headers of the request for the attempt with the given index:
    /// the content type, the topic that the message came from, and the
    /// index.
    pub fn headers(&self, attempt: u32) -> (headers: Vec<Header>)
        ensures
            headers@.len() == 3,
            headers@[0].name@ == "Content-Type"@,
            headers@[0].value@ == "application/json"@,
            headers@[1].name@ == "X-Source-Topic"@,
            headers@[1].value@ == self.topic@,
            headers@[2].name@ == "X-Attempt"@,
            headers@[2].value@ == ascii_text(decimal(attempt as int)),
    {
        let mut headers: Vec<Header> = Vec::new();
        headers.push(
            Header {
                name: String::from_str("Content-Type"),
                value: String::from_str("application/json"),
            },
        );
        headers.push(
            Header { name: String::from_str("X-Source-Topic"), value: self.topic.clone() },
        );
        headers.push(
            Header { name: String::from_str("X-Attempt"), value: decimal_string(attempt as i64) },
        );
        headers
    }
}

} // verus!
