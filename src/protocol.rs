//! Framing of the hub's command protocol: a message is a type byte, a
//! priority byte, a little-endian 32-bit id and UTF-8 text; on the wire it
//! travels after a 4-byte magic code and its little-endian 32-bit length.

use vstd::prelude::*;
use vstd::utf8::{decode_utf8, encode_utf8, valid_utf8};

use crate::bks::bytes::append_bytes;
use crate::bks::reader::utf8_text;

verus! {

/// What a message is.
#[derive(Clone, Copy, Debug, PartialEq, Eq, Structural)]
pub enum MessageType {
    Request,
    Response,
    Notification,
}

/// The byte that stands for each message type.
pub open spec fn type_code(t: MessageType) -> u8 {
    match t {
        MessageType::Request => 1,
        MessageType::Response => 2,
        MessageType::Notification => 3,
    }
}

impl MessageType {
    /// The byte that stands for this type.
    pub fn code(self) -> (r: u8)
        ensures
            r == type_code(self),
    {
        match self {
            MessageType::Request => 1,
            MessageType::Response => 2,
            MessageType::Notification => 3,
        }
    }

    /// The type that `value` stands for; any byte but 1, 2 and 3 is refused.
    pub fn try_from(value: u8) -> (r: Result<MessageType, ()>)
        ensures
            match r {
                Ok(t) => type_code(t) == value,
                Err(_) => value < 1 || value > 3,
            },
    {
        match value {
            1 => Ok(MessageType::Request),
            2 => Ok(MessageType::Response),
            3 => Ok(MessageType::Notification),
            _ => Err(()),
        }
    }
}

/// Why bytes do not decode as a message.
#[derive(Debug, Clone, Copy, PartialEq, Eq, Structural)]
pub enum FrameError {
    /// Fewer than the six bytes of the message header.
    TooShort,
    /// A type byte other than 1, 2 or 3.
    UnknownMessageType(u8),
    /// The text is not valid UTF-8.
    InvalidUtf8,
}

/// The little-endian bytes of `x`.
pub open spec fn le32(x: u32) -> Seq<u8> {
    seq![
        (x % 256) as u8,
        ((x / 256) % 256) as u8,
        ((x / 65536) % 256) as u8,
        (x / 16777216) as u8,
    ]
}

/// The number whose little-endian bytes are `b[0..4]`.
pub open spec fn le32_value(b: Seq<u8>) -> u32 {
    (b[0] + 256 * b[1] + 65536 * b[2] + 16777216 * b[3]) as u32
}

/// A message of the hub protocol.
#[derive(Debug)]
pub struct MessageWrapper {
    pub message_type: MessageType,
    pub priority: u8,
    pub message_id: u32,
    pub message: String,
}

/// The encoding of a message: type byte, priority, id, text.
pub open spec fn message_bytes(m: &MessageWrapper) -> Seq<u8> {
    seq![type_code(m.message_type), m.priority] + le32(m.message_id) + encode_utf8(m.message@)
}

fn push_le32(out: &mut Vec<u8>, x: u32)
    ensures
        final(out)@ == old(out)@ + le32(x),
{
    out.push((x % 256) as u8);
    out.push(((x / 256) % 256) as u8);
    out.push(((x / 65536) % 256) as u8);
    out.push((x / 16777216) as u8);
    assert(final(out)@ =~= old(out)@ + le32(x));
}

impl MessageWrapper {
    /// A message of priority 0.
    pub fn new(message_type: MessageType, message_id: u32, message: String) -> (r: MessageWrapper)
        ensures
            r.message_type == message_type,
            r.priority == 0,
            r.message_id == message_id,
            r.message@ == message@,
    {
        MessageWrapper { message_type, priority: 0, message_id, message }
    }

    /// The message's bytes: type, priority, little-endian id, UTF-8 text.
    pub fn serialize(&self) -> (r: Vec<u8>)
        requires
            encode_utf8(self.message@).len() + 6 <= usize::MAX,
        ensures
            r@ == message_bytes(self),
    {
        let mut result: Vec<u8> = Vec::new();
        result.push(self.message_type.code());
        result.push(self.priority);
        push_le32(&mut result, self.message_id);
        append_bytes(&mut result, self.message.as_str().as_bytes());
        assert(result@ =~= message_bytes(self));
        result
    }

    /// Decodes the bytes of a message.
    pub fn deserialize(data: &Vec<u8>) -> (r: Result<MessageWrapper, FrameError>)
        ensures
            data@.len() < 6 ==> r == Err::<MessageWrapper, FrameError>(FrameError::TooShort),
            data@.len() >= 6 && !(1 <= data@[0] <= 3) ==> r == Err::<MessageWrapper, FrameError>(
                FrameError::UnknownMessageType(data@[0]),
            ),
            data@.len() >= 6 && 1 <= data@[0] <= 3 && !valid_utf8(data@.skip(6)) ==> r == Err::<
                MessageWrapper,
                FrameError,
            >(FrameError::InvalidUtf8),
            data@.len() >= 6 && 1 <= data@[0] <= 3 && valid_utf8(data@.skip(6)) ==> r is Ok,
            r matches Ok(m) ==> {
                &&& data@.len() >= 6
                &&& type_code(m.message_type) == data@[0]
                &&& m.priority == data@[1]
                &&& m.message_id == le32_value(data@.subrange(2, 6))
                &&& valid_utf8(data@.skip(6))
                &&& m.message@ == decode_utf8(data@.skip(6))
            },
    {
        if data.len() < 6 {
            return Err(FrameError::TooShort);
        }
        let message_type = match MessageType::try_from(data[0]) {
            Ok(t) => t,
            Err(_) => return Err(FrameError::UnknownMessageType(data[0])),
        };
        let priority = data[1];
        let message_id: u32 = data[2] as u32 + 256 * (data[3] as u32) + 65536 * (data[4] as u32)
            + 16777216 * (data[5] as u32);
        let mut text: Vec<u8> = Vec::new();
        append_bytes(&mut text, vstd::slice::slice_subrange(data.as_slice(), 6, data.len()));
        assert(text@ =~= data@.skip(6));
        assert(data@.subrange(2, 6)[0] == data@[2]);
        match utf8_text(text) {
            Some(message) => Ok(MessageWrapper { message_type, priority, message_id, message }),
            None => Err(FrameError::InvalidUtf8),
        }
    }

    /// The message's text.
    pub fn message(&self) -> (r: &String)
        ensures
            r@ == self.message@,
    {
        &self.message
    }
}

/// `message` framed for the wire: the magic code, its length as a
/// little-endian 32-bit number, then the message.
pub fn create_prefixed_message(message: &Vec<u8>) -> (r: Vec<u8>)
    requires
        message@.len() <= u32::MAX,
        message@.len() + 8 <= usize::MAX,
    ensures
        r@ == seq![127u8, 54u8, 60u8, 162u8] + le32(message@.len() as u32) + message@,
{
    let mut result: Vec<u8> = Vec::new();
    result.push(127);
    result.push(54);
    result.push(60);
    result.push(162);
    push_le32(&mut result, message.len() as u32);
    append_bytes(&mut result, message.as_slice());
    assert(result@ =~= seq![127u8, 54u8, 60u8, 162u8] + le32(message@.len() as u32) + message@);
    result
}

/// The length of the message that follows a frame header: the
/// little-endian number in bytes 4 to 7 (the magic code before it is not
/// checked).
pub fn prefixed_message_len(header: &[u8]) -> (r: u32)
    requires
        header@.len() >= 8,
    ensures
        r == le32_value(header@.subrange(4, 8)),
{
    header[4] as u32 + 256 * (header[5] as u32) + 65536 * (header[6] as u32) + 16777216 * (
    header[7] as u32)
}

/// The bytes of a message decode back to it: they are long enough, open
/// with its type code, priority and id, and end with valid UTF-8 that
/// decodes to its text.
pub proof fn lemma_message_round_trip(m: MessageWrapper)
    ensures
        message_bytes(&m).len() >= 6,
        1 <= message_bytes(&m)[0] <= 3,
        message_bytes(&m)[0] == type_code(m.message_type),
        message_bytes(&m)[1] == m.priority,
        le32_value(message_bytes(&m).subrange(2, 6)) == m.message_id,
        valid_utf8(message_bytes(&m).skip(6)),
        decode_utf8(message_bytes(&m).skip(6)) == m.message@,
{
    let b = message_bytes(&m);
    let x = m.message_id;
    assert(b.skip(6) =~= encode_utf8(m.message@));
    assert(b.subrange(2, 6) =~= le32(x));
    assert(le32_value(le32(x)) == x) by {
        assert((x % 256) + 256 * ((x / 256) % 256) + 65536 * ((x / 65536) % 256) + 16777216 * (x
            / 16777216) == x) by (nonlinear_arith);
    }
    vstd::utf8::encode_utf8_valid_utf8(m.message@);
    vstd::utf8::encode_utf8_decode_utf8(m.message@);
}

} // verus!
