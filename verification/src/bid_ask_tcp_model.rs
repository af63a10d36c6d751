use vstd::prelude::*;
use vstd::utf8::{decode_utf8, decode_utf8_encode_utf8, encode_utf8, valid_utf8};
use crate::ascii::utf8_to_string;
use crate::bid_ask_data::{
    spec_deserialize, spec_serialize, BidAskDataTcpModel, BidAskView, SerializeError,
};

verus! {

/// One protocol message: a keep-alive request or reply, a price tick, or
/// a frame passed through unrecognized.
#[derive(Debug, Clone)]
pub enum BidAskTcpMessage {
    Ping,
    Pong,
    BidAsk(BidAskDataTcpModel),
    Skip(String),
}

/// The mathematical content of a protocol message.
#[verifier::ext_equal]
pub enum BidAskMessageView {
    Ping,
    Pong,
    BidAsk(BidAskView),
    Skip(Seq<char>),
}

impl View for BidAskTcpMessage {
    type V = BidAskMessageView;

    open spec fn view(&self) -> BidAskMessageView {
        match self {
            BidAskTcpMessage::Ping => BidAskMessageView::Ping,
            BidAskTcpMessage::Pong => BidAskMessageView::Pong,
            BidAskTcpMessage::BidAsk(d) => BidAskMessageView::BidAsk(d@),
            BidAskTcpMessage::Skip(s) => BidAskMessageView::Skip(s@),
        }
    }
}

/// No two adjacent bytes spell the end-of-frame marker: the frame
/// terminator is never embedded within frame content.
pub open spec fn marker_free_bytes(s: Seq<u8>) -> bool {
    forall|i: int| #![trigger s[i]] 0 <= i < s.len() - 1 ==> !(s[i] == 13 && s[i + 1] == 10)
}

impl BidAskMessageView {
    /// A message the wire can carry: pass-through text must not embed the
    /// end-of-frame marker, or the resulting frame would be ambiguous.
    pub open spec fn wf(self) -> bool {
        match self {
            BidAskMessageView::Ping => true,
            BidAskMessageView::Pong => true,
            BidAskMessageView::BidAsk(v) => v.wf(),
            BidAskMessageView::Skip(s) => marker_free_bytes(encode_utf8(s)),
        }
    }
}

pub open spec fn ping_bytes() -> Seq<u8> {
    seq![80u8, 73u8, 78u8, 71u8]
}

pub open spec fn pong_bytes() -> Seq<u8> {
    seq![80u8, 79u8, 78u8, 71u8]
}

/// The bytes a message serializes to.
pub open spec fn spec_message_bytes(v: BidAskMessageView) -> Seq<u8> {
    match v {
        BidAskMessageView::Ping => ping_bytes(),
        BidAskMessageView::Pong => pong_bytes(),
        BidAskMessageView::BidAsk(b) => spec_serialize(b),
        BidAskMessageView::Skip(s) => encode_utf8(s),
    }
}

/// How a frame is classified, in order: the exact keep-alive tokens; a
/// frame with the tick marker whose fields parse; any other UTF-8 frame,
/// passed through verbatim as text; a frame that is no UTF-8 text is
/// refused.
pub open spec fn spec_parse(src: Seq<u8>) -> Result<BidAskMessageView, SerializeError> {
    if src == ping_bytes() {
        Ok(BidAskMessageView::Ping)
    } else if src == pong_bytes() {
        Ok(BidAskMessageView::Pong)
    } else if src.len() > 0 && src[0] == 65 && spec_deserialize(src) is Ok {
        Ok(BidAskMessageView::BidAsk(spec_deserialize(src)->Ok_0))
    } else if valid_utf8(src) {
        Ok(BidAskMessageView::Skip(decode_utf8(src)))
    } else {
        Err(SerializeError::InvalidText)
    }
}

impl BidAskTcpMessage {
    /// True of the keep-alive request alone.
    pub fn is_ping(&self) -> (r: bool)
        ensures
            r == (self@ is Ping),
    {
        match self {
            BidAskTcpMessage::Ping => true,
            _ => false,
        }
    }

    /// True of the keep-alive reply alone.
    pub fn is_pong(&self) -> (r: bool)
        ensures
            r == (self@ is Pong),
    {
        match self {
            BidAskTcpMessage::Pong => true,
            _ => false,
        }
    }

    /// True of a price tick alone.
    pub fn is_bid_ask(&self) -> (r: bool)
        ensures
            r == (self@ is BidAsk),
    {
        match self {
            BidAskTcpMessage::Ping => false,
            BidAskTcpMessage::Pong => false,
            BidAskTcpMessage::BidAsk(_) => true,
            BidAskTcpMessage::Skip(_) => false,
        }
    }

    /// Classifies one frame. A tick-marked frame whose fields fail to
    /// parse is passed through as noise, never an error; only a frame
    /// that is no UTF-8 text is refused. The result is well formed, for
    /// pass-through text under the proviso that the frame content holds
    /// no embedded end-of-frame marker, as content handed over by the
    /// framing layer never does.
    pub fn parse(src: &[u8]) -> (r: Result<Self, SerializeError>)
        ensures
            r matches Ok(m) ==> (spec_parse(src@) matches Ok(v) && m@ =~= v),
            r matches Ok(m) ==> (!(m@ is Skip) ==> m@.wf()),
            r matches Ok(m) ==> (marker_free_bytes(src@) ==> m@.wf()),
            r matches Err(e) ==> spec_parse(src@) == Err::<BidAskMessageView, SerializeError>(e),
    {
        let n = src.len();
        if n == 4 {
            let b0 = *vstd::slice::slice_index_get(src, 0);
            let b1 = *vstd::slice::slice_index_get(src, 1);
            let b2 = *vstd::slice::slice_index_get(src, 2);
            let b3 = *vstd::slice::slice_index_get(src, 3);
            if b0 == 80 && b1 == 73 && b2 == 78 && b3 == 71 {
                assert(src@ =~= ping_bytes());
                return Ok(BidAskTcpMessage::Ping);
            }
            if b0 == 80 && b1 == 79 && b2 == 78 && b3 == 71 {
                assert(src@ =~= pong_bytes());
                return Ok(BidAskTcpMessage::Pong);
            }
        }
        assert(src@ != ping_bytes() && src@ != pong_bytes());
        if n > 0 && *vstd::slice::slice_index_get(src, 0) == 65 {
            match BidAskDataTcpModel::deserialize(src) {
                Ok(data) => {
                    return Ok(BidAskTcpMessage::BidAsk(data));
                },
                Err(_) => {},
            }
        }
        match utf8_to_string(src) {
            Some(text) => {
                proof {
                    decode_utf8_encode_utf8(src@);
                }
                Ok(BidAskTcpMessage::Skip(text))
            },
            None => Err(SerializeError::InvalidText),
        }
    }

    /// Appends the wire bytes of the message to `write_buffer`.
    pub fn serialize(&self, write_buffer: &mut Vec<u8>)
        requires
            self@.wf(),
        ensures
            final(write_buffer)@ == old(write_buffer)@ + spec_message_bytes(self@),
    {
        match self {
            BidAskTcpMessage::Ping => {
                write_buffer.push(80);
                write_buffer.push(73);
                write_buffer.push(78);
                write_buffer.push(71);
                assert(write_buffer@ =~= old(write_buffer)@ + ping_bytes());
            },
            BidAskTcpMessage::Pong => {
                write_buffer.push(80);
                write_buffer.push(79);
                write_buffer.push(78);
                write_buffer.push(71);
                assert(write_buffer@ =~= old(write_buffer)@ + pong_bytes());
            },
            BidAskTcpMessage::BidAsk(bid_ask) => {
                bid_ask.serialize(write_buffer);
            },
            BidAskTcpMessage::Skip(message) => {
                write_buffer.extend_from_slice(message.as_str().as_bytes());
            },
        }
    }
}

/// Law: a frame that bears the tick marker but whose fields do not parse
/// is classified as pass-through noise, never as an error.
pub proof fn lemma_malformed_tick_skipped(src: Seq<u8>)
    requires
        src.len() > 0,
        src[0] == 65,
        spec_deserialize(src) is Err,
        valid_utf8(src),
    ensures
        spec_parse(src) == Ok::<BidAskMessageView, SerializeError>(
            BidAskMessageView::Skip(decode_utf8(src)),
        ),
{
    assert(ping_bytes()[0] == 80 && pong_bytes()[0] == 80);
}

} // verus!
