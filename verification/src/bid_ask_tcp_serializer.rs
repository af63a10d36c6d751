use vstd::prelude::*;
use crate::bid_ask_data::SerializeError;
use crate::bid_ask_tcp_model::{
    marker_free_bytes, spec_message_bytes, spec_parse, BidAskMessageView, BidAskTcpMessage,
};

verus! {

/// The delimited-frame codec the transport layer drives: it appends the
/// end-of-frame marker on the way out and strips it on the way in. The
/// buffer that accumulates raw bytes up to the marker belongs to the
/// transport side, which hands one whole frame at a time to `deserialize`.
pub struct BidAskTcpSerializer {}

/// What decoding one delimited frame yields: the frame must end with the
/// two-byte end-of-frame marker; the bytes before it are classified as a
/// message.
pub open spec fn spec_deserialize_frame(src: Seq<u8>) -> Result<BidAskMessageView, SerializeError> {
    if !(src.len() >= 2 && src[src.len() - 2] == 13 && src[src.len() - 1] == 10) {
        Err(SerializeError::MissingEndMarker)
    } else {
        spec_parse(src.take(src.len() - 2))
    }
}

impl BidAskTcpSerializer {
    pub fn new() -> Self {
        BidAskTcpSerializer {  }
    }

    /// Appends the wire bytes of a message followed by the end-of-frame
    /// marker.
    pub fn serialize(&self, out: &mut Vec<u8>, contract: &BidAskTcpMessage)
        requires
            contract@.wf(),
        ensures
            final(out)@ == old(out)@ + spec_message_bytes(contract@) + seq![13u8, 10u8],
    {
        contract.serialize(out);
        out.push(13);
        out.push(10);
        assert(out@ =~= old(out)@ + spec_message_bytes(contract@) + seq![13u8, 10u8]);
    }

    /// The keep-alive request the transport sends on its own schedule.
    pub fn get_ping(&self) -> (r: BidAskTcpMessage)
        ensures
            r@ is Ping,
    {
        BidAskTcpMessage::Ping
    }

    /// Decodes one delimited frame: checks and strips the end-of-frame
    /// marker, then classifies the content. The result is well formed,
    /// for pass-through text under the proviso that the content before
    /// the marker does not itself embed the marker, as the transport
    /// yields each frame at the first marker it meets.
    pub fn deserialize(&self, src: &[u8]) -> (r: Result<BidAskTcpMessage, SerializeError>)
        ensures
            r matches Ok(m) ==> (spec_deserialize_frame(src@) matches Ok(v) && m@ =~= v),
            r matches Ok(m) ==> (!(m@ is Skip) ==> m@.wf()),
            r matches Ok(m) ==> (marker_free_bytes(src@.take(src@.len() - 2)) ==> m@.wf()),
            r matches Err(e) ==> spec_deserialize_frame(src@) == Err::<
                BidAskMessageView,
                SerializeError,
            >(e),
    {
        let n = src.len();
        if n < 2 {
            return Err(SerializeError::MissingEndMarker);
        }
        let cr = *vstd::slice::slice_index_get(src, n - 2);
        let lf = *vstd::slice::slice_index_get(src, n - 1);
        if !(cr == 13 && lf == 10) {
            return Err(SerializeError::MissingEndMarker);
        }
        let content = vstd::slice::slice_subrange(src, 0, n - 2);
        assert(content@ =~= src@.take(n - 2));
        BidAskTcpMessage::parse(content)
    }
}

impl Default for BidAskTcpSerializer {
    fn default() -> (r: Self)
        ensures
            r == (BidAskTcpSerializer {  }),
    {
        BidAskTcpSerializer::new()
    }
}

/// Hands the transport layer a fresh frame codec per connection.
pub struct TcpFeedSerializerFactory;

impl TcpFeedSerializerFactory {
    pub fn create_serializer(&self) -> BidAskTcpSerializer {
        BidAskTcpSerializer::new()
    }
}

} // verus!
