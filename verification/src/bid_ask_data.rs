use vstd::prelude::*;
use vstd::utf8::{
    decode_utf8, decode_utf8_encode_utf8, encode_utf8, encode_utf8_decode_utf8,
    encode_utf8_valid_utf8, is_ascii_chars, valid_utf8,
};
use crate::ascii::{ascii_seq, ascii_to_string, chars_of, str_bytes, utf8_to_string};
use crate::date_utils::{spec_parse_tcp_feed_date, wire_date_bytes, write_date, Timestamp};
use crate::float_text::is_float_token;

verus! {

/// Why a frame could not be decoded.
#[derive(Clone, Copy, Debug, PartialEq, Eq, Structural)]
pub enum SerializeError {
    /// The instrument field is missing, empty or not UTF-8 text.
    InvalidInstrumentId,
    /// The bid field is missing or not a numeric token.
    InvalidBid,
    /// The ask field is missing or not a numeric token.
    InvalidAsk,
    /// The volume field is missing or not a numeric token.
    InvalidVolume,
    /// The date field is missing or malformed.
    InvalidDate,
    /// A frame that is no recognized message is not UTF-8 text either.
    InvalidText,
    /// A delimited frame does not end with the end-of-frame marker.
    MissingEndMarker,
}

/// One price-tick observation, fields as they stand on the wire.
///
/// The prices and the volume are kept as their decimal wire text, so
/// encoding reproduces a decoded tick byte for byte.
#[derive(Debug, Clone)]
pub struct BidAskDataTcpModel {
    pub instrument_id: String,
    pub bid: String,
    pub ask: String,
    pub volume: String,
    pub timestamp: Timestamp,
}

/// The mathematical content of a tick record.
#[verifier::ext_equal]
pub struct BidAskView {
    pub instrument_id: Seq<char>,
    pub bid: Seq<char>,
    pub ask: Seq<char>,
    pub volume: Seq<char>,
    pub timestamp: Timestamp,
}

impl View for BidAskDataTcpModel {
    type V = BidAskView;

    open spec fn view(&self) -> BidAskView {
        BidAskView {
            instrument_id: self.instrument_id@,
            bid: self.bid@,
            ask: self.ask@,
            volume: self.volume@,
            timestamp: self.timestamp,
        }
    }
}

impl BidAskView {
    /// A tick that the wire layout can carry: a non-empty instrument name
    /// whose encoding holds no space byte (space is the field delimiter),
    /// numeric tokens for the prices and the volume, and a representable
    /// timestamp.
    pub open spec fn wf(self) -> bool {
        &&& self.instrument_id.len() > 0
        &&& forall|j: int|
            0 <= j < encode_utf8(self.instrument_id).len() ==> #[trigger] encode_utf8(
                self.instrument_id,
            )[j] != 32
        &&& is_ascii_chars(self.bid)
        &&& is_float_token(ascii_seq(self.bid))
        &&& is_ascii_chars(self.ask)
        &&& is_float_token(ascii_seq(self.ask))
        &&& is_ascii_chars(self.volume)
        &&& is_float_token(ascii_seq(self.volume))
        &&& self.timestamp.wf()
    }
}

/// The wire layout of a tick: space-separated fields in fixed order, a
/// leading message marker `A`, the bid prefixed `B`, the ask prefixed `A`.
pub open spec fn spec_serialize(v: BidAskView) -> Seq<u8> {
    seq![65u8, 32u8] + encode_utf8(v.instrument_id) + seq![32u8, 66u8] + ascii_seq(v.bid) + seq![
        32u8,
        65u8,
    ] + ascii_seq(v.ask) + seq![32u8] + ascii_seq(v.volume) + seq![32u8] + wire_date_bytes(
        v.timestamp,
    )
}

/// A frame split at every single space byte.
pub open spec fn split_on_space(s: Seq<u8>) -> Seq<Seq<u8>>
    decreases s.len(),
{
    if s.len() == 0 {
        seq![Seq::<u8>::empty()]
    } else if s.last() == 32 {
        split_on_space(s.drop_last()).push(Seq::<u8>::empty())
    } else {
        let t = split_on_space(s.drop_last());
        t.update(t.len() - 1, t.last().push(s.last()))
    }
}

proof fn lemma_split_len(s: Seq<u8>)
    ensures
        split_on_space(s).len() >= 1,
    decreases s.len(),
{
    if s.len() > 0 {
        lemma_split_len(s.drop_last());
    }
}

/// Splits a frame into its space-separated tokens.
fn split_tokens(src: &[u8]) -> (toks: Vec<Vec<u8>>)
    ensures
        toks@.len() == split_on_space(src@).len(),
        forall|i: int| 0 <= i < toks@.len() ==> #[trigger] toks@[i]@ == split_on_space(src@)[i],
{
    let n = src.len();
    let mut toks: Vec<Vec<u8>> = Vec::new();
    let mut cur: Vec<u8> = Vec::new();
    let mut i: usize = 0;
    assert(src@.take(0) =~= Seq::<u8>::empty());
    while i < n
        invariant
            0 <= i <= n == src@.len(),
            toks@.len() + 1 == split_on_space(src@.take(i as int)).len(),
            forall|j: int|
                0 <= j < toks@.len() ==> #[trigger] toks@[j]@ == split_on_space(
                    src@.take(i as int),
                )[j],
            cur@ == split_on_space(src@.take(i as int)).last(),
        decreases n - i,
    {
        proof {
            assert(src@.take(i + 1).drop_last() =~= src@.take(i as int));
            assert(src@.take(i + 1).last() == src@[i as int]);
            lemma_split_len(src@.take(i as int));
        }
        let c = *vstd::slice::slice_index_get(src, i);
        if c == 32 {
            toks.push(cur);
            cur = Vec::new();
        } else {
            cur.push(c);
        }
        i += 1;
    }
    proof {
        assert(src@.take(n as int) =~= src@);
        lemma_split_len(src@);
    }
    toks.push(cur);
    toks
}

/// No token of a split frame holds a space.
proof fn lemma_split_tokens_no_space(s: Seq<u8>)
    ensures
        forall|i: int, j: int|
            0 <= i < split_on_space(s).len() && 0 <= j < split_on_space(s)[i].len()
                ==> #[trigger] split_on_space(s)[i][j] != 32,
    decreases s.len(),
{
    if s.len() > 0 {
        lemma_split_tokens_no_space(s.drop_last());
        lemma_split_len(s.drop_last());
        let t = split_on_space(s.drop_last());
        let r = split_on_space(s);
        if s.last() == 32 {
            assert forall|i: int, j: int| 0 <= i < r.len() && 0 <= j < r[i].len() implies #[trigger] r[i][j]
                != 32 by {
                assert(r[i] == t[i]);
            }
        } else {
            assert forall|i: int, j: int| 0 <= i < r.len() && 0 <= j < r[i].len() implies #[trigger] r[i][j]
                != 32 by {
                if i < t.len() - 1 {
                    assert(r[i] == t[i]);
                } else {
                    assert(r[i] == t.last().push(s.last()));
                    if j < t.last().len() {
                        assert(r[i][j] == t[i][j]);
                    } else {
                        assert(r[i][j] == s.last());
                    }
                }
            }
        }
    }
}

/// The token with one leading byte `p` removed, if it starts with one.
pub open spec fn strip_prefix(s: Seq<u8>, p: u8) -> Seq<u8> {
    if s.len() > 0 && s[0] == p {
        s.skip(1)
    } else {
        s
    }
}

/// A token that names an instrument: non-empty UTF-8 text. A token never
/// holds a space, so no further shape is asked of it.
pub open spec fn instrument_token_ok(t: Seq<u8>) -> bool {
    t.len() > 0 && valid_utf8(t)
}

/// What decoding a tick frame yields. The frame splits at single spaces;
/// by fixed position, token 1 names the instrument, token 2 is the bid
/// with an optional `B` prefix, token 3 the ask with an optional `A`
/// prefix, token 4 the volume and token 5 the wire date; later tokens are
/// ignored. The first failure in that order is reported.
pub open spec fn spec_deserialize(src: Seq<u8>) -> Result<BidAskView, SerializeError> {
    let toks = split_on_space(src);
    if toks.len() < 2 {
        Err(SerializeError::InvalidInstrumentId)
    } else if toks.len() < 3 {
        Err(SerializeError::InvalidBid)
    } else if toks.len() < 4 {
        Err(SerializeError::InvalidAsk)
    } else if toks.len() < 5 {
        Err(SerializeError::InvalidVolume)
    } else if toks.len() < 6 {
        Err(SerializeError::InvalidDate)
    } else {
        let id = toks[1];
        let bid = strip_prefix(toks[2], 66);
        let ask = strip_prefix(toks[3], 65);
        let vol = toks[4];
        if !instrument_token_ok(id) {
            Err(SerializeError::InvalidInstrumentId)
        } else if !is_float_token(bid) {
            Err(SerializeError::InvalidBid)
        } else if !is_float_token(ask) {
            Err(SerializeError::InvalidAsk)
        } else if !is_float_token(vol) {
            Err(SerializeError::InvalidVolume)
        } else {
            match spec_parse_tcp_feed_date(toks[5]) {
                Err(_) => Err(SerializeError::InvalidDate),
                Ok(ts) => Ok(
                    BidAskView {
                        instrument_id: decode_utf8(id),
                        bid: chars_of(bid),
                        ask: chars_of(ask),
                        volume: chars_of(vol),
                        timestamp: ts,
                    },
                ),
            }
        }
    }
}

impl BidAskDataTcpModel {
    /// Appends the wire layout of the tick to `out`.
    #[verifier::rlimit(100)]
    #[verifier::spinoff_prover]
    pub fn serialize(&self, out: &mut Vec<u8>)
        requires
            self@.wf(),
        ensures
            final(out)@ == old(out)@ + spec_serialize(self@),
    {
        out.push(65);
        out.push(32);
        out.extend_from_slice(self.instrument_id.as_str().as_bytes());
        out.push(32);
        out.push(66);
        out.extend_from_slice(str_bytes(self.bid.as_str()));
        out.push(32);
        out.push(65);
        out.extend_from_slice(str_bytes(self.ask.as_str()));
        out.push(32);
        out.extend_from_slice(str_bytes(self.volume.as_str()));
        out.push(32);
        write_date(out, &self.timestamp);
        assert(out@ =~= old(out)@ + spec_serialize(self@));
    }

    /// Decodes a tick frame, reporting the first field that fails.
    pub fn deserialize(src: &[u8]) -> (r: Result<Self, SerializeError>)
        ensures
            r matches Ok(m) ==> (spec_deserialize(src@) matches Ok(v) && m@ =~= v && m@.wf()),
            r matches Err(e) ==> spec_deserialize(src@) == Err::<BidAskView, SerializeError>(e),
    {
        let toks = split_tokens(src);
        if toks.len() < 2 {
            return Err(SerializeError::InvalidInstrumentId);
        }
        if toks.len() < 3 {
            return Err(SerializeError::InvalidBid);
        }
        if toks.len() < 4 {
            return Err(SerializeError::InvalidAsk);
        }
        if toks.len() < 5 {
            return Err(SerializeError::InvalidVolume);
        }
        if toks.len() < 6 {
            return Err(SerializeError::InvalidDate);
        }
        let id = &toks[1];
        if id.len() == 0 {
            return Err(SerializeError::InvalidInstrumentId);
        }
        let instrument_id = match utf8_to_string(id.as_slice()) {
            None => {
                return Err(SerializeError::InvalidInstrumentId);
            },
            Some(s) => s,
        };
        let bid = strip_leading(&toks[2], 66);
        if !crate::float_text::check_float_token(bid) {
            return Err(SerializeError::InvalidBid);
        }
        let ask = strip_leading(&toks[3], 65);
        if !crate::float_text::check_float_token(ask) {
            return Err(SerializeError::InvalidAsk);
        }
        let vol = toks[4].as_slice();
        if !crate::float_text::check_float_token(vol) {
            return Err(SerializeError::InvalidVolume);
        }
        let timestamp = match crate::date_utils::parse_tcp_feed_date(toks[5].as_slice()) {
            Err(_) => {
                return Err(SerializeError::InvalidDate);
            },
            Ok(ts) => ts,
        };
        proof {
            lemma_split_tokens_no_space(src@);
            decode_utf8_encode_utf8(id@);
            assert(decode_utf8(id@).len() > 0);
            assert forall|j: int| 0 <= j < id@.len() implies #[trigger] id@[j] != 32 by {
                assert(id@ == split_on_space(src@)[1]);
                assert(split_on_space(src@)[1][j] != 32);
            }
            assert(encode_utf8(decode_utf8(id@)) == id@);
            crate::float_text::lemma_float_token_bytes(bid@);
            crate::float_text::lemma_float_token_bytes(ask@);
            crate::float_text::lemma_float_token_bytes(vol@);
            crate::ascii::lemma_bytes_chars_inverse(bid@);
            crate::ascii::lemma_bytes_chars_inverse(ask@);
            crate::ascii::lemma_bytes_chars_inverse(vol@);
        }
        let bid_s = ascii_to_string(bid);
        let ask_s = ascii_to_string(ask);
        let vol_s = ascii_to_string(vol);
        Ok(
            BidAskDataTcpModel {
                instrument_id,
                bid: bid_s,
                ask: ask_s,
                volume: vol_s,
                timestamp,
            },
        )
    }
}

/// Borrows a token with one leading byte `p` removed, if it starts with
/// one.
fn strip_leading<'a>(t: &'a Vec<u8>, p: u8) -> (r: &'a [u8])
    ensures
        r@ == strip_prefix(t@, p),
{
    if t.len() > 0 && *vstd::slice::slice_index_get(t.as_slice(), 0) == p {
        let r = vstd::slice::slice_subrange(t.as_slice(), 1, t.len());
        assert(r@ =~= strip_prefix(t@, p));
        r
    } else {
        t.as_slice()
    }
}

/// A frame without spaces splits into exactly itself.
proof fn lemma_split_single(a: Seq<u8>)
    requires
        forall|i: int| 0 <= i < a.len() ==> #[trigger] a[i] != 32,
    ensures
        split_on_space(a) == seq![a],
    decreases a.len(),
{
    if a.len() == 0 {
        assert(a =~= Seq::<u8>::empty());
        assert(split_on_space(a) =~= seq![a]);
    } else {
        lemma_split_single(a.drop_last());
        assert(a.drop_last().push(a.last()) =~= a);
        assert(split_on_space(a) =~= seq![a]);
    }
}

/// Splitting after a space-free head token peels that token off.
proof fn lemma_split_concat(a: Seq<u8>, rest: Seq<u8>)
    requires
        forall|i: int| 0 <= i < a.len() ==> #[trigger] a[i] != 32,
    ensures
        split_on_space(a + seq![32u8] + rest) == seq![a] + split_on_space(rest),
    decreases rest.len(),
{
    let s = a + seq![32u8] + rest;
    if rest.len() == 0 {
        assert(s.drop_last() =~= a);
        assert(s.last() == 32);
        lemma_split_single(a);
        assert(split_on_space(s) =~= seq![a] + split_on_space(rest));
    } else {
        lemma_split_concat(a, rest.drop_last());
        lemma_split_len(rest.drop_last());
        assert(s.drop_last() =~= a + seq![32u8] + rest.drop_last());
        assert(s.last() == rest.last());
        let td = split_on_space(a + seq![32u8] + rest.drop_last());
        let rd = split_on_space(rest.drop_last());
        if rest.last() == 32 {
            assert(split_on_space(s) == td.push(Seq::<u8>::empty()));
            assert(split_on_space(rest) == rd.push(Seq::<u8>::empty()));
            assert(td.push(Seq::<u8>::empty()) =~= seq![a] + rd.push(Seq::<u8>::empty()));
        } else {
            assert(split_on_space(s) == td.update(td.len() - 1, td.last().push(rest.last())));
            assert(split_on_space(rest) == rd.update(rd.len() - 1, rd.last().push(rest.last())));
            assert(td.last() == rd.last());
            assert(td.update(td.len() - 1, td.last().push(rest.last())) =~= seq![a] + rd.update(
                rd.len() - 1,
                rd.last().push(rest.last()),
            ));
        }
    }
}

/// Law: encoding a well-formed tick and decoding the frame again yields
/// the very same tick, for every tick whose timestamp has millisecond
/// granularity.
#[verifier::rlimit(100)]
#[verifier::spinoff_prover]
pub proof fn lemma_tick_round_trip(v: BidAskView)
    requires
        v.wf(),
        v.timestamp.microsecond % 1000 == 0,
    ensures
        spec_deserialize(spec_serialize(v)) matches Ok(r) && r =~= v,
{
    let s = spec_serialize(v);
    let id_b = encode_utf8(v.instrument_id);
    let bid_b = ascii_seq(v.bid);
    let ask_b = ascii_seq(v.ask);
    let vol_b = ascii_seq(v.volume);
    let date_b = wire_date_bytes(v.timestamp);
    crate::float_text::lemma_float_token_bytes(bid_b);
    crate::float_text::lemma_float_token_bytes(ask_b);
    crate::float_text::lemma_float_token_bytes(vol_b);
    crate::date_utils::lemma_wire_date_no_space(v.timestamp);
    crate::ascii::lemma_chars_bytes_inverse(v.bid);
    crate::ascii::lemma_chars_bytes_inverse(v.ask);
    crate::ascii::lemma_chars_bytes_inverse(v.volume);
    encode_utf8_valid_utf8(v.instrument_id);
    encode_utf8_decode_utf8(v.instrument_id);
    assert(id_b.len() > 0) by {
        if id_b.len() == 0 {
            assert(id_b =~= Seq::<u8>::empty());
            assert(decode_utf8(id_b) =~= Seq::<char>::empty());
        }
    }
    assert forall|i: int| 0 <= i < id_b.len() implies #[trigger] id_b[i] != 32 by {
        assert(encode_utf8(v.instrument_id)[i] != 32);
    }
    let t0 = seq![65u8];
    let t2 = seq![66u8] + bid_b;
    let t3 = seq![65u8] + ask_b;
    let r5 = date_b;
    let r4 = vol_b + seq![32u8] + r5;
    let r3 = t3 + seq![32u8] + r4;
    let r2 = t2 + seq![32u8] + r3;
    let r1 = id_b + seq![32u8] + r2;
    assert(s =~= t0 + seq![32u8] + r1);
    lemma_split_concat(t0, r1);
    lemma_split_concat(id_b, r2);
    assert forall|i: int| 0 <= i < t2.len() implies #[trigger] t2[i] != 32 by {
        if i > 0 {
            assert(t2[i] == bid_b[i - 1]);
        }
    }
    lemma_split_concat(t2, r3);
    assert forall|i: int| 0 <= i < t3.len() implies #[trigger] t3[i] != 32 by {
        if i > 0 {
            assert(t3[i] == ask_b[i - 1]);
        }
    }
    lemma_split_concat(t3, r4);
    lemma_split_concat(vol_b, r5);
    lemma_split_single(date_b);
    let toks = split_on_space(s);
    assert(toks =~= seq![t0, id_b, t2, t3, vol_b, date_b]);
    assert(strip_prefix(toks[2], 66) =~= bid_b);
    assert(strip_prefix(toks[3], 65) =~= ask_b);
    crate::date_utils::lemma_wire_date_round_trip(v.timestamp);
    assert(instrument_token_ok(id_b));
    assert(spec_deserialize(s) matches Ok(r) && r =~= v);
}

} // verus!
