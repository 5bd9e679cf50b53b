//! Messages between the daemon and a phone: a length, most significant byte first, and
//! that many bytes.

use vstd::prelude::*;
use vstd::slice::*;
use vstd::string::*;

use crate::bytes::{
    append_bytes, be32, be_bytes, be_value, lemma_be_bytes_4, lemma_be_bytes_4_wraps,
    lemma_be_value_of_bytes, read_be32,
};
use crate::number::{decimal, decimal_of};

verus! {

/// A request to a phone.
pub const REQ: u8 = 0x10;

/// A request is withdrawn.
pub const CANCEL: u8 = 0x11;

/// Is the phone there?
pub const PING: u8 = 0x12;

/// The phone's answer to a request.
pub const RESP: u8 = 0x20;

/// The phone's answer to a ping.
pub const PONG: u8 = 0x22;

/// The longest body that is read from a phone.
pub const MAX_BODY: usize = 8192;

/// A body with its length before it.
pub open spec fn framed(body: Seq<u8>) -> Seq<u8> {
    be_bytes(body.len(), 4) + body
}

/// A body with its length before it.
pub fn frame(body: &[u8]) -> (framed_body: Vec<u8>)
    ensures
        framed_body@ == framed(body@),
{
    let length: u32 = (body.len() as u64 % 0x1_0000_0000) as u32;
    proof {
        lemma_be_bytes_4_wraps(body@.len());
    }
    let mut framed_body = be32(length);
    append_bytes(&mut framed_body, body);
    framed_body
}

/// The length that the first four bytes of a frame give to its body, where a body may be
/// that long; else what is wrong with it.
pub fn frame_length(header: &[u8]) -> (length: Result<usize, String>)
    requires
        header@.len() == 4,
    ensures
        length is Ok <==> 1 <= be_value(header@) <= MAX_BODY,
        length is Ok ==> length->Ok_0 == be_value(header@),
        length is Err ==> length->Err_0@ == "frame length "@ + decimal_of(be_value(header@)),
{
    assert(header@.subrange(0, 4) =~= header@);
    let length: u32 = read_be32(header, 0);
    if 1 <= length && length <= 8192 {
        Ok(length as usize)
    } else {
        let mut message = "frame length ".to_string();
        message.append(decimal(length as u128).as_str());
        Err(message)
    }
}

/// What a phone says.
#[derive(Debug, PartialEq, Eq)]
pub enum Message {
    /// An answer to the request with this number.
    Response(u32, Vec<u8>),
    /// An answer to a ping.
    Pong,
    /// Something else, or an answer that is too short.
    Other,
}

/// The number and the payload of an answer to a request.
pub fn decode_response(body: &[u8]) -> (response: Option<(u32, &[u8])>)
    ensures
        response is Some <==> body@.len() >= 5 && body@[0] == RESP,
        response is Some ==> {
            &&& (response->0).0 == be_value(body@.subrange(1, 5))
            &&& (response->0).1@ == body@.skip(5)
        },
{
    if body.len() >= 5 && body[0] == RESP {
        let payload = slice_subrange(body, 5, body.len());
        assert(payload@ =~= body@.skip(5));
        Some((read_be32(body, 1), payload))
    } else {
        None
    }
}

/// What the body of a frame says.
pub fn read_message(body: &[u8]) -> (message: Message)
    requires
        body@.len() > 0,
    ensures
        message is Response <==> body@[0] == RESP && body@.len() >= 5,
        message is Response ==> {
            &&& message->Response_0 == be_value(body@.subrange(1, 5))
            &&& message->Response_1@ == body@.skip(5)
        },
        message is Pong <==> body@[0] == PONG,
{
    match decode_response(body) {
        Some((number, payload)) => Message::Response(number, slice_to_vec(payload)),
        None => if body[0] == PONG {
            Message::Pong
        } else {
            Message::Other
        },
    }
}

/// A message with a request's number in it.
pub open spec fn numbered(kind: u8, number: u32, data: Seq<u8>) -> Seq<u8> {
    seq![kind] + be_bytes(number as nat, 4) + data
}

/// The message that asks a phone.
pub fn request_message(number: u32, data: &[u8]) -> (message: Vec<u8>)
    ensures
        message@ == numbered(REQ, number, data@),
{
    let mut message: Vec<u8> = vec![REQ];
    append_bytes(&mut message, be32(number).as_slice());
    append_bytes(&mut message, data);
    assert(message@ =~= numbered(REQ, number, data@));
    message
}

/// The message that withdraws a request.
pub fn cancel_message(number: u32) -> (message: Vec<u8>)
    ensures
        message@ == numbered(CANCEL, number, Seq::empty()),
{
    let mut message: Vec<u8> = vec![CANCEL];
    append_bytes(&mut message, be32(number).as_slice());
    assert(message@ =~= numbered(CANCEL, number, Seq::empty()));
    message
}

/// The message that asks whether the phone is there.
pub fn ping_message() -> (message: Vec<u8>)
    ensures
        message@ == seq![PING],
{
    let message: Vec<u8> = vec![PING];
    assert(message@ =~= seq![PING]);
    message
}

/// Whether bytes are a whole frame with the answer to a ping.
pub fn is_pong_frame(bytes: &[u8]) -> (found: bool)
    ensures
        found == (bytes@ == framed(seq![PONG])),
{
    proof {
        lemma_be_bytes_4(1);
    }
    if bytes.len() != 5 {
        return false;
    }
    let found = bytes[0] == 0 && bytes[1] == 0 && bytes[2] == 0 && bytes[3] == 1 && bytes[4] == PONG;
    proof {
        let pong = framed(seq![PONG]);
        assert(pong =~= seq![0u8, 0u8, 0u8, 1u8, PONG]);
        if found {
            assert(bytes@ =~= pong);
        } else {
            assert(bytes@ == pong ==> bytes@[0] == 0 && bytes@[1] == 0 && bytes@[2] == 0
                && bytes@[3] == 1 && bytes@[4] == PONG);
        }
    }
    found
}

/// A body that was framed is found again: the first four bytes give its length, and it is
/// what follows them.
pub proof fn law_frame_is_read_back(body: Seq<u8>)
    requires
        body.len() < 0x1_0000_0000,
    ensures
        framed(body).len() == 4 + body.len(),
        be_value(framed(body).take(4)) == body.len(),
        framed(body).skip(4) == body,
{
    lemma_be_value_of_bytes(body.len());
    assert(framed(body).take(4) =~= be_bytes(body.len(), 4));
    assert(framed(body).skip(4) =~= body);
}

/// What a message with a number in it holds is read back: its kind, the number, the data.
pub proof fn law_number_is_read_back(kind: u8, number: u32, data: Seq<u8>)
    ensures
        numbered(kind, number, data).len() == 5 + data.len(),
        numbered(kind, number, data)[0] == kind,
        be_value(numbered(kind, number, data).subrange(1, 5)) == number,
        numbered(kind, number, data).skip(5) == data,
{
    lemma_be_value_of_bytes(number as nat);
    let message = numbered(kind, number, data);
    assert(message.subrange(1, 5) =~= be_bytes(number as nat, 4));
    assert(message.skip(5) =~= data);
}

/// The bytes of a frame: its length in four, the greatest first, and its body behind them.
pub proof fn law_frames_are_laid_out(body: Seq<u8>, i: int)
    requires
        body.len() < 0x1_0000_0000,
        0 <= i < body.len(),
    ensures
        framed(body).len() == body.len() + 4,
        framed(body)[0] == body.len() / 0x100_0000,
        framed(body)[1] == body.len() / 0x1_0000 % 0x100,
        framed(body)[2] == body.len() / 0x100 % 0x100,
        framed(body)[3] == body.len() % 0x100,
        framed(body)[4 + i] == body[i],
{
    lemma_be_bytes_4(body.len());
}

/// The bytes of a message about a request: its kind, the request's number in four, the greatest
/// first, and what is asked. A request is a message of kind sixteen, and a withdrawn one of kind
/// seventeen; a ping is eighteen, and its answer thirty-four; the answer to a request is thirty-two.
/// A body has eight thousand one hundred and ninety-two bytes at most.
pub proof fn law_messages_are_laid_out(kind: u8, number: u32, data: Seq<u8>, i: int)
    requires
        0 <= i < data.len(),
    ensures
        numbered(kind, number, data).len() == data.len() + 5,
        numbered(kind, number, data)[0] == kind,
        numbered(kind, number, data)[1] == number as nat / 0x100_0000,
        numbered(kind, number, data)[2] == number as nat / 0x1_0000 % 0x100,
        numbered(kind, number, data)[3] == number as nat / 0x100 % 0x100,
        numbered(kind, number, data)[4] == number as nat % 0x100,
        numbered(kind, number, data)[5 + i] == data[i],
        REQ == 0x10,
        CANCEL == 0x11,
        PING == 0x12,
        RESP == 0x20,
        PONG == 0x22,
        MAX_BODY == 8192,
{
    lemma_be_bytes_4(number as nat);
}

} // verus!
