use vstd::prelude::*;
use crate::marker::{classify_marker, marker_of, Marker};
use crate::utf8::{offset_model, utf8_first_invalid, utf8_validate};
use crate::value::{pairs_model, seq_model, value_model, Utf8String, Value, ValueModel};

verus! {

broadcast use vstd::string::group_string_axioms;

/// Classification of the underlying read failure behind a decode error.
#[derive(Debug, Clone, Copy, PartialEq, Eq, Structural)]
pub enum ReadErrorKind {
    /// The input ended before the bytes a marker calls for were available.
    UnexpectedEof,
    /// Any other failure of the byte source.
    Other,
}

/// All possible errors that can occur when deserializing a value: a
/// failure while reading the one-byte marker, or a failure while reading
/// any later byte (length prefixes, scalar payloads, string, binary or
/// extension bytes, or within recursive sub-decodes). Each carries the
/// classification of the underlying read failure.
#[derive(Debug, Clone, Copy, PartialEq, Eq, Structural)]
pub enum Error {
    /// Error while reading the marker byte.
    InvalidMarkerRead(ReadErrorKind),
    /// Error while reading data.
    InvalidDataRead(ReadErrorKind),
}

impl Error {
    /// The wording of each error phase.
    pub open spec fn spec_description(&self) -> Seq<char> {
        match *self {
            Error::InvalidMarkerRead(_) => "I/O error while reading marker byte"@,
            Error::InvalidDataRead(_) => "I/O error while reading non-marker bytes"@,
        }
    }

    /// A short description of the phase in which the error struck.
    pub fn description(&self) -> (r: String)
        ensures
            r@ == self.spec_description(),
    {
        match *self {
            Error::InvalidMarkerRead(_) => "I/O error while reading marker byte".to_string(),
            Error::InvalidDataRead(_) => "I/O error while reading non-marker bytes".to_string(),
        }
    }

    /// The classification an error carries, whichever phase it struck.
    pub open spec fn spec_kind(&self) -> ReadErrorKind {
        match *self {
            Error::InvalidMarkerRead(k) => k,
            Error::InvalidDataRead(k) => k,
        }
    }

    /// Returns the classification of the underlying read failure.
    pub fn kind(&self) -> (k: ReadErrorKind)
        ensures
            k == self.spec_kind(),
    {
        match *self {
            Error::InvalidMarkerRead(k) => k,
            Error::InvalidDataRead(k) => k,
        }
    }
}

/// Outcome of decoding at a position of the byte sequence, in the model:
/// a result with the position just after it, or a failure while reading a
/// marker byte, or a failure while reading any later byte.
#[verifier::ext_equal]
pub enum DecodeOutcome<T> {
    Found(T, int),
    MarkerFail,
    DataFail,
}

/// The `n` bytes of `s` starting at `pos`, or `None` when `s` is too short.
pub open spec fn take_bytes(s: Seq<u8>, pos: int, n: int) -> Option<Seq<u8>> {
    if 0 <= pos && 0 <= n && pos + n <= s.len() {
        Some(s.subrange(pos, pos + n))
    } else {
        None
    }
}

/// The unsigned integer the bytes spell in big-endian order.
pub open spec fn be_val(s: Seq<u8>) -> int
    decreases s.len(),
{
    if s.len() == 0 {
        0
    } else {
        be_val(s.drop_last()) * 256 + s.last()
    }
}

/// 256 to the power `k`: the number of values of a `k`-byte field.
pub open spec fn p256(k: nat) -> int
    decreases k,
{
    if k == 0 {
        1
    } else {
        256 * p256((k - 1) as nat)
    }
}

/// The two's-complement reading of a `k`-byte big-endian field whose
/// unsigned reading is `u`.
pub open spec fn sext(u: int, k: nat) -> int {
    if u < p256(k) / 2 {
        u
    } else {
        u - p256(k)
    }
}

pub proof fn lemma_p256_pos(k: nat)
    ensures
        p256(k) >= 1,
    decreases k,
{
    if k > 0 {
        lemma_p256_pos((k - 1) as nat);
    }
}

pub proof fn lemma_p256_le(j: nat, k: nat)
    requires
        j <= k,
    ensures
        p256(j) <= p256(k),
    decreases k,
{
    if j < k {
        lemma_p256_le(j, (k - 1) as nat);
        lemma_p256_pos((k - 1) as nat);
    }
}

/// An unsigned scalar of `k` trailing bytes, read at `p`.
pub open spec fn scalar_u_at(s: Seq<u8>, p: int, k: nat) -> DecodeOutcome<ValueModel> {
    match take_bytes(s, p, k as int) {
        Some(bs) => DecodeOutcome::Found(ValueModel::UnsignedInt(be_val(bs) as u64), p + k),
        None => DecodeOutcome::DataFail,
    }
}

/// A signed scalar of `k` trailing bytes, read at `p`.
pub open spec fn scalar_i_at(s: Seq<u8>, p: int, k: nat) -> DecodeOutcome<ValueModel> {
    match take_bytes(s, p, k as int) {
        Some(bs) => DecodeOutcome::Found(
            ValueModel::SignedInt(sext(be_val(bs), k) as i64),
            p + k,
        ),
        None => DecodeOutcome::DataFail,
    }
}

/// A 32-bit float payload read at `p`, kept as its bit pattern.
pub open spec fn float32_at(s: Seq<u8>, p: int) -> DecodeOutcome<ValueModel> {
    match take_bytes(s, p, 4) {
        Some(bs) => DecodeOutcome::Found(ValueModel::F32(be_val(bs) as u32), p + 4),
        None => DecodeOutcome::DataFail,
    }
}

/// A 64-bit float payload read at `p`, kept as its bit pattern.
pub open spec fn float64_at(s: Seq<u8>, p: int) -> DecodeOutcome<ValueModel> {
    match take_bytes(s, p, 8) {
        Some(bs) => DecodeOutcome::Found(ValueModel::F64(be_val(bs) as u64), p + 8),
        None => DecodeOutcome::DataFail,
    }
}

/// A text payload of `n` bytes read at `p`: the raw bytes together with
/// the offset of the first invalid UTF-8 sequence, if any. Malformed
/// UTF-8 is not an error.
pub open spec fn text_at(s: Seq<u8>, p: int, n: int) -> DecodeOutcome<ValueModel> {
    match take_bytes(s, p, n) {
        Some(bs) => DecodeOutcome::Found(ValueModel::Text(bs, utf8_first_invalid(bs)), p + n),
        None => DecodeOutcome::DataFail,
    }
}

/// A binary payload of `n` bytes read at `p`, verbatim.
pub open spec fn bin_at(s: Seq<u8>, p: int, n: int) -> DecodeOutcome<ValueModel> {
    match take_bytes(s, p, n) {
        Some(bs) => DecodeOutcome::Found(ValueModel::Binary(bs), p + n),
        None => DecodeOutcome::DataFail,
    }
}

/// An extension body read at `p`: one signed 8-bit type tag, then `n`
/// payload bytes verbatim.
pub open spec fn ext_at(s: Seq<u8>, p: int, n: int) -> DecodeOutcome<ValueModel> {
    match take_bytes(s, p, 1) {
        Some(t) => match take_bytes(s, p + 1, n) {
            Some(bs) => DecodeOutcome::Found(
                ValueModel::Ext(sext(t[0] as int, 1) as i8, bs),
                p + 1 + n,
            ),
            None => DecodeOutcome::DataFail,
        },
        None => DecodeOutcome::DataFail,
    }
}

/// A text payload whose byte length stands in a `w`-byte prefix at `p`.
pub open spec fn prefixed_text_at(s: Seq<u8>, p: int, w: nat) -> DecodeOutcome<ValueModel> {
    match take_bytes(s, p, w as int) {
        Some(l) => text_at(s, p + w, be_val(l)),
        None => DecodeOutcome::DataFail,
    }
}

/// A binary payload whose byte length stands in a `w`-byte prefix at `p`.
pub open spec fn prefixed_bin_at(s: Seq<u8>, p: int, w: nat) -> DecodeOutcome<ValueModel> {
    match take_bytes(s, p, w as int) {
        Some(l) => bin_at(s, p + w, be_val(l)),
        None => DecodeOutcome::DataFail,
    }
}

/// An extension body whose payload length stands in a `w`-byte prefix at `p`.
pub open spec fn prefixed_ext_at(s: Seq<u8>, p: int, w: nat) -> DecodeOutcome<ValueModel> {
    match take_bytes(s, p, w as int) {
        Some(l) => ext_at(s, p + w, be_val(l)),
        None => DecodeOutcome::DataFail,
    }
}

/// Wraps decoded array elements as an array value, passing failures on.
pub open spec fn wrap_arr(o: DecodeOutcome<Seq<ValueModel>>) -> DecodeOutcome<ValueModel> {
    match o {
        DecodeOutcome::Found(vs, e) => DecodeOutcome::Found(ValueModel::Array(vs), e),
        DecodeOutcome::MarkerFail => DecodeOutcome::MarkerFail,
        DecodeOutcome::DataFail => DecodeOutcome::DataFail,
    }
}

/// Wraps decoded map entries as a map value, passing failures on.
pub open spec fn wrap_map(o: DecodeOutcome<Seq<(ValueModel, ValueModel)>>) -> DecodeOutcome<
    ValueModel,
> {
    match o {
        DecodeOutcome::Found(ps, e) => DecodeOutcome::Found(ValueModel::Mapping(ps), e),
        DecodeOutcome::MarkerFail => DecodeOutcome::MarkerFail,
        DecodeOutcome::DataFail => DecodeOutcome::DataFail,
    }
}

/// What decoding one value of `s` at `pos` yields: one marker byte is
/// classified, then the trailing bytes the marker calls for are read,
/// recursing for array elements and map entries. The reserved marker
/// decodes to nil. A missing marker byte is a marker failure; any missing
/// later byte is a data failure; failures of nested values pass through
/// unchanged.
pub open spec fn spec_read_value(s: Seq<u8>, pos: int) -> DecodeOutcome<ValueModel>
    decreases s.len() - pos, 0int,
{
    if pos < 0 || pos >= s.len() {
        DecodeOutcome::MarkerFail
    } else {
        let p = pos + 1;
        match marker_of(s[pos]) {
            Marker::Null => DecodeOutcome::Found(ValueModel::Nil, p),
            Marker::Reserved => DecodeOutcome::Found(ValueModel::Nil, p),
            Marker::True => DecodeOutcome::Found(ValueModel::Boolean(true), p),
            Marker::False => DecodeOutcome::Found(ValueModel::Boolean(false), p),
            Marker::FixPos(v) => DecodeOutcome::Found(ValueModel::UnsignedInt(v as u64), p),
            Marker::FixNeg(v) => DecodeOutcome::Found(ValueModel::SignedInt(v as i64), p),
            Marker::U8 => scalar_u_at(s, p, 1),
            Marker::U16 => scalar_u_at(s, p, 2),
            Marker::U32 => scalar_u_at(s, p, 4),
            Marker::U64 => scalar_u_at(s, p, 8),
            Marker::I8 => scalar_i_at(s, p, 1),
            Marker::I16 => scalar_i_at(s, p, 2),
            Marker::I32 => scalar_i_at(s, p, 4),
            Marker::I64 => scalar_i_at(s, p, 8),
            Marker::F32 => float32_at(s, p),
            Marker::F64 => float64_at(s, p),
            Marker::FixStr(n) => text_at(s, p, n as int),
            Marker::Str8 => prefixed_text_at(s, p, 1),
            Marker::Str16 => prefixed_text_at(s, p, 2),
            Marker::Str32 => prefixed_text_at(s, p, 4),
            Marker::Bin8 => prefixed_bin_at(s, p, 1),
            Marker::Bin16 => prefixed_bin_at(s, p, 2),
            Marker::Bin32 => prefixed_bin_at(s, p, 4),
            Marker::FixArray(n) => arr_at(s, p, n as int),
            Marker::Array16 => prefixed_arr_at(s, p, 2),
            Marker::Array32 => prefixed_arr_at(s, p, 4),
            Marker::FixMap(n) => map_at(s, p, n as int),
            Marker::Map16 => prefixed_map_at(s, p, 2),
            Marker::Map32 => prefixed_map_at(s, p, 4),
            Marker::FixExt1 => ext_at(s, p, 1),
            Marker::FixExt2 => ext_at(s, p, 2),
            Marker::FixExt4 => ext_at(s, p, 4),
            Marker::FixExt8 => ext_at(s, p, 8),
            Marker::FixExt16 => ext_at(s, p, 16),
            Marker::Ext8 => prefixed_ext_at(s, p, 1),
            Marker::Ext16 => prefixed_ext_at(s, p, 2),
            Marker::Ext32 => prefixed_ext_at(s, p, 4),
        }
    }
}

/// An array of `n` recursively decoded elements at `p`.
pub open spec fn arr_at(s: Seq<u8>, p: int, n: int) -> DecodeOutcome<ValueModel>
    decreases s.len() - p, 2int,
{
    wrap_arr(spec_read_values(s, p, n))
}

/// An array whose element count stands in a `w`-byte prefix at `p`.
pub open spec fn prefixed_arr_at(s: Seq<u8>, p: int, w: nat) -> DecodeOutcome<ValueModel>
    decreases s.len() - p, 2int,
{
    match take_bytes(s, p, w as int) {
        Some(l) => wrap_arr(spec_read_values(s, p + w, be_val(l))),
        None => DecodeOutcome::DataFail,
    }
}

/// A map of `n` recursively decoded key/value entries at `p`.
pub open spec fn map_at(s: Seq<u8>, p: int, n: int) -> DecodeOutcome<ValueModel>
    decreases s.len() - p, 2int,
{
    wrap_map(spec_read_pairs(s, p, n))
}

/// A map whose pair count stands in a `w`-byte prefix at `p`.
pub open spec fn prefixed_map_at(s: Seq<u8>, p: int, w: nat) -> DecodeOutcome<ValueModel>
    decreases s.len() - p, 2int,
{
    match take_bytes(s, p, w as int) {
        Some(l) => wrap_map(spec_read_pairs(s, p + w, be_val(l))),
        None => DecodeOutcome::DataFail,
    }
}

/// What decoding `n` array elements in sequence from `pos` yields: each
/// element is one recursively decoded value, order preserved.
pub open spec fn spec_read_values(s: Seq<u8>, pos: int, n: int) -> DecodeOutcome<Seq<ValueModel>>
    decreases s.len() - pos, 1int,
{
    if n <= 0 {
        DecodeOutcome::Found(Seq::empty(), pos)
    } else {
        match spec_read_value(s, pos) {
            DecodeOutcome::Found(v, p2) => if pos < p2 && p2 <= s.len() {
                match spec_read_values(s, p2, n - 1) {
                    DecodeOutcome::Found(vs, e) => DecodeOutcome::Found(seq![v] + vs, e),
                    DecodeOutcome::MarkerFail => DecodeOutcome::MarkerFail,
                    DecodeOutcome::DataFail => DecodeOutcome::DataFail,
                }
            } else {
                DecodeOutcome::DataFail
            },
            DecodeOutcome::MarkerFail => DecodeOutcome::MarkerFail,
            DecodeOutcome::DataFail => DecodeOutcome::DataFail,
        }
    }
}

/// What decoding `n` map entries in sequence from `pos` yields: for each
/// entry the key is decoded in full before its value, order preserved and
/// duplicate keys kept.
pub open spec fn spec_read_pairs(s: Seq<u8>, pos: int, n: int) -> DecodeOutcome<
    Seq<(ValueModel, ValueModel)>,
>
    decreases s.len() - pos, 1int,
{
    if n <= 0 {
        DecodeOutcome::Found(Seq::empty(), pos)
    } else {
        match spec_read_value(s, pos) {
            DecodeOutcome::Found(k, p2) => if pos < p2 && p2 <= s.len() {
                match spec_read_value(s, p2) {
                    DecodeOutcome::Found(v, p3) => if p2 < p3 && p3 <= s.len() {
                        match spec_read_pairs(s, p3, n - 1) {
                            DecodeOutcome::Found(ps, e) => DecodeOutcome::Found(
                                seq![(k, v)] + ps,
                                e,
                            ),
                            DecodeOutcome::MarkerFail => DecodeOutcome::MarkerFail,
                            DecodeOutcome::DataFail => DecodeOutcome::DataFail,
                        }
                    } else {
                        DecodeOutcome::DataFail
                    },
                    DecodeOutcome::MarkerFail => DecodeOutcome::MarkerFail,
                    DecodeOutcome::DataFail => DecodeOutcome::DataFail,
                }
            } else {
                DecodeOutcome::DataFail
            },
            DecodeOutcome::MarkerFail => DecodeOutcome::MarkerFail,
            DecodeOutcome::DataFail => DecodeOutcome::DataFail,
        }
    }
}

/// How a decoded value must relate to a modelled outcome: the value and
/// end position of the model when it finds one, and otherwise exactly the
/// error of the phase in which the bytes ran out.
pub open spec fn value_outcome_rel(o: DecodeOutcome<ValueModel>, r: Result<(Value, usize), Error>)
    -> bool {
    match o {
        DecodeOutcome::Found(m, e) => match r {
            Ok(p) => value_model(p.0) == m && p.1 == e,
            Err(_) => false,
        },
        DecodeOutcome::MarkerFail => match r {
            Ok(_) => false,
            Err(er) => er == Error::InvalidMarkerRead(ReadErrorKind::UnexpectedEof),
        },
        DecodeOutcome::DataFail => match r {
            Ok(_) => false,
            Err(er) => er == Error::InvalidDataRead(ReadErrorKind::UnexpectedEof),
        },
    }
}

/// What the decoder must return for input `s` at `pos`.
pub open spec fn decode_rel(s: Seq<u8>, pos: int, r: Result<(Value, usize), Error>) -> bool {
    value_outcome_rel(spec_read_value(s, pos), r)
}

/// As `decode_rel`, for a run of array elements.
pub open spec fn values_rel(s: Seq<u8>, pos: int, n: int, r: Result<(Vec<Value>, usize), Error>)
    -> bool {
    match spec_read_values(s, pos, n) {
        DecodeOutcome::Found(ms, e) => match r {
            Ok(p) => seq_model(p.0@) == ms && p.1 == e,
            Err(_) => false,
        },
        DecodeOutcome::MarkerFail => match r {
            Ok(_) => false,
            Err(er) => er == Error::InvalidMarkerRead(ReadErrorKind::UnexpectedEof),
        },
        DecodeOutcome::DataFail => match r {
            Ok(_) => false,
            Err(er) => er == Error::InvalidDataRead(ReadErrorKind::UnexpectedEof),
        },
    }
}

/// As `decode_rel`, for a run of map entries.
pub open spec fn pairs_rel(
    s: Seq<u8>,
    pos: int,
    n: int,
    r: Result<(Vec<(Value, Value)>, usize), Error>,
) -> bool {
    match spec_read_pairs(s, pos, n) {
        DecodeOutcome::Found(ms, e) => match r {
            Ok(p) => pairs_model(p.0@) == ms && p.1 == e,
            Err(_) => false,
        },
        DecodeOutcome::MarkerFail => match r {
            Ok(_) => false,
            Err(er) => er == Error::InvalidMarkerRead(ReadErrorKind::UnexpectedEof),
        },
        DecodeOutcome::DataFail => match r {
            Ok(_) => false,
            Err(er) => er == Error::InvalidDataRead(ReadErrorKind::UnexpectedEof),
        },
    }
}

/// A run of elements already read, then the rest of the run.
pub open spec fn vals_then(
    prefix: Seq<ValueModel>,
    rest: DecodeOutcome<Seq<ValueModel>>,
) -> DecodeOutcome<Seq<ValueModel>> {
    match rest {
        DecodeOutcome::Found(vs, e) => DecodeOutcome::Found(prefix + vs, e),
        DecodeOutcome::MarkerFail => DecodeOutcome::MarkerFail,
        DecodeOutcome::DataFail => DecodeOutcome::DataFail,
    }
}

/// A run of entries already read, then the rest of the run.
pub open spec fn pairs_then(
    prefix: Seq<(ValueModel, ValueModel)>,
    rest: DecodeOutcome<Seq<(ValueModel, ValueModel)>>,
) -> DecodeOutcome<Seq<(ValueModel, ValueModel)>> {
    match rest {
        DecodeOutcome::Found(ps, e) => DecodeOutcome::Found(prefix + ps, e),
        DecodeOutcome::MarkerFail => DecodeOutcome::MarkerFail,
        DecodeOutcome::DataFail => DecodeOutcome::DataFail,
    }
}

/// Reads a `width`-byte big-endian unsigned field at `pos`.
pub fn read_be(buf: &[u8], pos: usize, width: usize) -> (r: Result<(u64, usize), Error>)
    requires
        pos <= buf@.len(),
        1 <= width <= 8,
    ensures
        match r {
            Ok(p) => pos + width <= buf@.len() && p.0 == be_val(
                buf@.subrange(pos as int, pos + width),
            ) && p.0 < p256(width as nat) && p.1 == pos + width,
            Err(e) => pos + width > buf@.len() && e == Error::InvalidDataRead(
                ReadErrorKind::UnexpectedEof,
            ),
        },
{
    if buf.len() - pos < width {
        return Err(Error::InvalidDataRead(ReadErrorKind::UnexpectedEof));
    }
    let mut acc: u64 = 0;
    let mut i: usize = 0;
    proof {
        assert(buf@.subrange(pos as int, pos as int).len() == 0);
    }
    while i < width
        invariant
            pos + width <= buf@.len(),
            buf@.len() <= usize::MAX,
            i <= width,
            width <= 8,
            acc == be_val(buf@.subrange(pos as int, pos as int + i as int)),
            acc < p256(i as nat),
        decreases width - i,
    {
        let b = buf[pos + i];
        proof {
            lemma_p256_le((i + 1) as nat, 8);
            reveal_with_fuel(p256, 9);
            assert(p256(8) == 0x10000000000000000);
            assert(p256((i + 1) as nat) == 256 * p256(i as nat));
            assert(acc as int * 256 + b < p256((i + 1) as nat));
            let t = buf@.subrange(pos as int, pos as int + i as int + 1);
            assert(t.drop_last() =~= buf@.subrange(pos as int, pos as int + i as int));
            assert(t.last() == buf@[pos as int + i as int]);
            assert(be_val(t) == be_val(t.drop_last()) * 256 + t.last());
        }
        acc = acc * 256 + (b as u64);
        i = i + 1;
    }
    Ok((acc, pos + width))
}

/// The two's-complement value of a `width`-byte big-endian unsigned read.
fn to_signed(n: u64, width: usize) -> (r: i64)
    requires
        width == 1 || width == 2 || width == 4 || width == 8,
        n < p256(width as nat),
    ensures
        r == sext(n as int, width as nat),
{
    proof {
        reveal_with_fuel(p256, 9);
    }
    if width == 1 {
        if n < 0x80 {
            n as i64
        } else {
            (n as i64) - 0x100
        }
    } else if width == 2 {
        if n < 0x8000 {
            n as i64
        } else {
            (n as i64) - 0x10000
        }
    } else if width == 4 {
        if n < 0x8000_0000 {
            n as i64
        } else {
            (n as i64) - 0x1_0000_0000
        }
    } else {
        if n < 0x8000_0000_0000_0000 {
            n as i64
        } else {
            ((n - 0x8000_0000_0000_0000) as i64) + (-0x7fff_ffff_ffff_ffff - 1)
        }
    }
}

/// Reads `len` bytes verbatim at `pos`: a binary payload. A zero-length
/// read is valid and yields an empty payload.
pub fn read_bin_data(buf: &[u8], pos: usize, len: usize) -> (r: Result<(Vec<u8>, usize), Error>)
    requires
        pos <= buf@.len(),
    ensures
        match r {
            Ok(p) => pos + len <= buf@.len() && p.0@ == buf@.subrange(pos as int, pos + len)
                && p.1 == pos + len,
            Err(e) => pos + len > buf@.len() && e == Error::InvalidDataRead(
                ReadErrorKind::UnexpectedEof,
            ),
        },
{
    if buf.len() - pos < len {
        return Err(Error::InvalidDataRead(ReadErrorKind::UnexpectedEof));
    }
    let mut out: Vec<u8> = Vec::new();
    let mut i: usize = 0;
    proof {
        assert(out@ =~= buf@.subrange(pos as int, pos as int));
    }
    while i < len
        invariant
            pos + len <= buf@.len(),
            buf@.len() <= usize::MAX,
            i <= len,
            out@ == buf@.subrange(pos as int, pos as int + i as int),
        decreases len - i,
    {
        let b = buf[pos + i];
        out.push(b);
        proof {
            assert(buf@.subrange(pos as int, pos as int + i as int + 1) =~= buf@.subrange(
                pos as int,
                pos as int + i as int,
            ).push(buf@[pos as int + i as int]));
        }
        i = i + 1;
    }
    Ok((out, pos + len))
}

/// Reads a string payload of `len` bytes at `pos`: the bytes verbatim,
/// with UTF-8 validation attempted over the whole payload. On validation
/// failure the bytes are kept unmodified beside the offset of the first
/// invalid sequence, and the read still succeeds.
pub fn read_str_data(buf: &[u8], pos: usize, len: usize) -> (r: Result<(Utf8String, usize), Error>)
    requires
        pos <= buf@.len(),
    ensures
        match r {
            Ok(p) => pos + len <= buf@.len() && p.0.bytes@ == buf@.subrange(pos as int, pos + len)
                && offset_model(p.0.invalid_at) == utf8_first_invalid(p.0.bytes@) && p.1 == pos
                + len,
            Err(e) => pos + len > buf@.len() && e == Error::InvalidDataRead(
                ReadErrorKind::UnexpectedEof,
            ),
        },
{
    let (bytes, end) = match read_bin_data(buf, pos, len) {
        Ok(x) => x,
        Err(e) => {
            return Err(e);
        },
    };
    let invalid_at = utf8_validate(bytes.as_slice());
    Ok((Utf8String { bytes, invalid_at }, end))
}

/// Reads an extension body at `pos`: one signed 8-bit type tag, then
/// `len` payload bytes verbatim.
pub fn read_ext_body(buf: &[u8], pos: usize, len: usize) -> (r: Result<
    ((i8, Vec<u8>), usize),
    Error,
>)
    requires
        pos <= buf@.len(),
    ensures
        match r {
            Ok(p) => pos + 1 + len <= buf@.len() && (p.0).0 == sext(buf@[pos as int] as int, 1)
                && (p.0).1@ == buf@.subrange(pos + 1, pos + 1 + len) && p.1 == pos + 1 + len,
            Err(e) => pos + 1 + len > buf@.len() && e == Error::InvalidDataRead(
                ReadErrorKind::UnexpectedEof,
            ),
        },
{
    if buf.len() - pos < 1 {
        return Err(Error::InvalidDataRead(ReadErrorKind::UnexpectedEof));
    }
    let tb = buf[pos];
    let ty: i8 = if tb < 0x80 {
        tb as i8
    } else {
        (((tb as i16) - 0x100) as i8)
    };
    proof {
        reveal_with_fuel(p256, 2);
    }
    let (bytes, end) = match read_bin_data(buf, pos + 1, len) {
        Ok(x) => x,
        Err(e) => {
            return Err(e);
        },
    };
    Ok(((ty, bytes), end))
}

/// Reads `len` array elements in sequence at `pos`, each one recursively
/// decoded value, preserving order. A count of zero yields an empty array.
pub fn read_array_data(buf: &[u8], pos: usize, len: u64) -> (r: Result<(Vec<Value>, usize), Error>)
    requires
        pos <= buf@.len(),
    ensures
        values_rel(buf@, pos as int, len as int, r),
        r matches Ok(p) ==> pos <= p.1 <= buf@.len(),
    decreases buf@.len() - pos, 3int,
{
    let mut out: Vec<Value> = Vec::new();
    let mut cur: usize = pos;
    let mut i: u64 = 0;
    proof {
        match spec_read_values(buf@, pos as int, len as int) {
            DecodeOutcome::Found(vs, e) => {
                assert(seq_model(out@) + vs =~= vs);
            },
            _ => {},
        }
    }
    while i < len
        invariant
            pos <= cur <= buf@.len(),
            i <= len,
            out@.len() == i,
            spec_read_values(buf@, pos as int, len as int) == vals_then(
                seq_model(out@),
                spec_read_values(buf@, cur as int, len as int - i as int),
            ),
        decreases len - i,
    {
        let ghost prev = out@;
        let ghost prev_cur = cur as int;
        let ghost rem = len as int - i as int;
        match read_value(buf, cur) {
            Err(e) => {
                return Err(e);
            },
            Ok((v, c2)) => {
                proof {
                    let s = buf@;
                    let m = value_model(v);
                    let tail = spec_read_values(s, c2 as int, rem - 1);
                    assert(spec_read_values(s, prev_cur, rem) == vals_then(seq![m], tail));
                    match tail {
                        DecodeOutcome::Found(vs2, e2) => {
                            assert(seq_model(prev) + (seq![m] + vs2) =~= seq_model(prev).push(m)
                                + vs2);
                        },
                        _ => {},
                    }
                }
                out.push(v);
                cur = c2;
                i = i + 1;
                proof {
                    assert(seq_model(out@) =~= seq_model(prev).push(value_model(v)));
                }
            },
        }
    }
    proof {
        match spec_read_values(buf@, cur as int, 0) {
            DecodeOutcome::Found(vs, e) => {
                assert(seq_model(out@) + vs =~= seq_model(out@));
            },
            _ => {},
        }
    }
    Ok((out, cur))
}

/// Reads `len` map entries in sequence at `pos`, for each entry the key
/// fully decoded before its value, preserving order and keeping duplicate
/// keys. A pair-count of zero yields an empty map.
pub fn read_map_data(buf: &[u8], pos: usize, len: u64) -> (r: Result<
    (Vec<(Value, Value)>, usize),
    Error,
>)
    requires
        pos <= buf@.len(),
    ensures
        pairs_rel(buf@, pos as int, len as int, r),
        r matches Ok(p) ==> pos <= p.1 <= buf@.len(),
    decreases buf@.len() - pos, 3int,
{
    let mut out: Vec<(Value, Value)> = Vec::new();
    let mut cur: usize = pos;
    let mut i: u64 = 0;
    proof {
        match spec_read_pairs(buf@, pos as int, len as int) {
            DecodeOutcome::Found(ps, e) => {
                assert(pairs_model(out@) + ps =~= ps);
            },
            _ => {},
        }
    }
    while i < len
        invariant
            pos <= cur <= buf@.len(),
            i <= len,
            out@.len() == i,
            spec_read_pairs(buf@, pos as int, len as int) == pairs_then(
                pairs_model(out@),
                spec_read_pairs(buf@, cur as int, len as int - i as int),
            ),
        decreases len - i,
    {
        let ghost prev = out@;
        let ghost prev_cur = cur as int;
        let ghost rem = len as int - i as int;
        match read_value(buf, cur) {
            Err(e) => {
                return Err(e);
            },
            Ok((k, c2)) => {
                match read_value(buf, c2) {
                    Err(e) => {
                        return Err(e);
                    },
                    Ok((v, c3)) => {
                        proof {
                            let s = buf@;
                            let mp = (value_model(k), value_model(v));
                            let tail = spec_read_pairs(s, c3 as int, rem - 1);
                            assert(spec_read_pairs(s, prev_cur, rem) == pairs_then(
                                seq![mp],
                                tail,
                            ));
                            match tail {
                                DecodeOutcome::Found(ps2, e2) => {
                                    assert(pairs_model(prev) + (seq![mp] + ps2) =~= pairs_model(
                                        prev,
                                    ).push(mp) + ps2);
                                },
                                _ => {},
                            }
                        }
                        out.push((k, v));
                        cur = c3;
                        i = i + 1;
                        proof {
                            assert(pairs_model(out@) =~= pairs_model(prev).push(
                                (value_model(k), value_model(v)),
                            ));
                        }
                    },
                }
            },
        }
    }
    proof {
        match spec_read_pairs(buf@, cur as int, 0) {
            DecodeOutcome::Found(ps, e) => {
                assert(pairs_model(out@) + ps =~= pairs_model(out@));
            },
            _ => {},
        }
    }
    Ok((out, cur))
}

/// One unsigned scalar arm: `width` payload bytes as an unsigned value.
fn read_uint_value(buf: &[u8], p: usize, width: usize) -> (r: Result<(Value, usize), Error>)
    requires
        p <= buf@.len(),
        1 <= width <= 8,
    ensures
        value_outcome_rel(scalar_u_at(buf@, p as int, width as nat), r),
        r matches Ok(q) ==> p <= q.1 <= buf@.len(),
{
    match read_be(buf, p, width) {
        Ok((n, p2)) => Ok((Value::UnsignedInt(n), p2)),
        Err(e) => Err(e),
    }
}

/// One signed scalar arm: `width` payload bytes in two's complement.
fn read_sint_value(buf: &[u8], p: usize, width: usize) -> (r: Result<(Value, usize), Error>)
    requires
        p <= buf@.len(),
        width == 1 || width == 2 || width == 4 || width == 8,
    ensures
        value_outcome_rel(scalar_i_at(buf@, p as int, width as nat), r),
        r matches Ok(q) ==> p <= q.1 <= buf@.len(),
{
    match read_be(buf, p, width) {
        Ok((n, p2)) => {
            let v = to_signed(n, width);
            proof {
                lemma_p256_le(width as nat, 8);
                reveal_with_fuel(p256, 9);
            }
            Ok((Value::SignedInt(v), p2))
        },
        Err(e) => Err(e),
    }
}

/// The 32-bit float arm: four payload bytes kept as a bit pattern.
fn read_f32_value(buf: &[u8], p: usize) -> (r: Result<(Value, usize), Error>)
    requires
        p <= buf@.len(),
    ensures
        value_outcome_rel(float32_at(buf@, p as int), r),
        r matches Ok(q) ==> p <= q.1 <= buf@.len(),
{
    match read_be(buf, p, 4) {
        Ok((n, p2)) => Ok((Value::F32(n as u32), p2)),
        Err(e) => Err(e),
    }
}

/// The 64-bit float arm: eight payload bytes kept as a bit pattern.
fn read_f64_value(buf: &[u8], p: usize) -> (r: Result<(Value, usize), Error>)
    requires
        p <= buf@.len(),
    ensures
        value_outcome_rel(float64_at(buf@, p as int), r),
        r matches Ok(q) ==> p <= q.1 <= buf@.len(),
{
    match read_be(buf, p, 8) {
        Ok((n, p2)) => Ok((Value::F64(n), p2)),
        Err(e) => Err(e),
    }
}

/// One text arm with the byte length already known.
fn read_text_value(buf: &[u8], p: usize, len: usize) -> (r: Result<(Value, usize), Error>)
    requires
        p <= buf@.len(),
    ensures
        value_outcome_rel(text_at(buf@, p as int, len as int), r),
        r matches Ok(q) ==> p <= q.1 <= buf@.len(),
{
    match read_str_data(buf, p, len) {
        Ok((s0, p2)) => Ok((Value::Text(s0), p2)),
        Err(e) => Err(e),
    }
}

/// One text arm whose byte length stands in a `width`-byte prefix.
fn read_prefixed_text_value(buf: &[u8], p: usize, width: usize) -> (r: Result<
    (Value, usize),
    Error,
>)
    requires
        p <= buf@.len(),
        1 <= width <= 8,
    ensures
        value_outcome_rel(prefixed_text_at(buf@, p as int, width as nat), r),
        r matches Ok(q) ==> p <= q.1 <= buf@.len(),
{
    match read_be(buf, p, width) {
        Ok((n, p2)) => {
            if n > (buf.len() - p2) as u64 {
                return Err(Error::InvalidDataRead(ReadErrorKind::UnexpectedEof));
            }
            read_text_value(buf, p2, n as usize)
        },
        Err(e) => Err(e),
    }
}

/// One binary arm with the byte length already known.
fn read_bin_value(buf: &[u8], p: usize, len: usize) -> (r: Result<(Value, usize), Error>)
    requires
        p <= buf@.len(),
    ensures
        value_outcome_rel(bin_at(buf@, p as int, len as int), r),
        r matches Ok(q) ==> p <= q.1 <= buf@.len(),
{
    match read_bin_data(buf, p, len) {
        Ok((b, p2)) => Ok((Value::Binary(b), p2)),
        Err(e) => Err(e),
    }
}

/// One binary arm whose byte length stands in a `width`-byte prefix.
fn read_prefixed_bin_value(buf: &[u8], p: usize, width: usize) -> (r: Result<
    (Value, usize),
    Error,
>)
    requires
        p <= buf@.len(),
        1 <= width <= 8,
    ensures
        value_outcome_rel(prefixed_bin_at(buf@, p as int, width as nat), r),
        r matches Ok(q) ==> p <= q.1 <= buf@.len(),
{
    match read_be(buf, p, width) {
        Ok((n, p2)) => {
            if n > (buf.len() - p2) as u64 {
                return Err(Error::InvalidDataRead(ReadErrorKind::UnexpectedEof));
            }
            read_bin_value(buf, p2, n as usize)
        },
        Err(e) => Err(e),
    }
}

/// One extension arm with the payload length already known.
fn read_ext_value(buf: &[u8], p: usize, len: usize) -> (r: Result<(Value, usize), Error>)
    requires
        p <= buf@.len(),
    ensures
        value_outcome_rel(ext_at(buf@, p as int, len as int), r),
        r matches Ok(q) ==> p <= q.1 <= buf@.len(),
{
    match read_ext_body(buf, p, len) {
        Ok(((ty, b), p2)) => Ok((Value::Ext(ty, b), p2)),
        Err(e) => Err(e),
    }
}

/// One extension arm whose payload length stands in a `width`-byte prefix.
fn read_prefixed_ext_value(buf: &[u8], p: usize, width: usize) -> (r: Result<
    (Value, usize),
    Error,
>)
    requires
        p <= buf@.len(),
        1 <= width <= 8,
    ensures
        value_outcome_rel(prefixed_ext_at(buf@, p as int, width as nat), r),
        r matches Ok(q) ==> p <= q.1 <= buf@.len(),
{
    match read_be(buf, p, width) {
        Ok((n, p2)) => {
            if n > (buf.len() - p2) as u64 {
                return Err(Error::InvalidDataRead(ReadErrorKind::UnexpectedEof));
            }
            read_ext_value(buf, p2, n as usize)
        },
        Err(e) => Err(e),
    }
}

/// One array arm with the element count already known.
fn read_array_value(buf: &[u8], p: usize, n: u64) -> (r: Result<(Value, usize), Error>)
    requires
        p <= buf@.len(),
    ensures
        value_outcome_rel(arr_at(buf@, p as int, n as int), r),
        r matches Ok(q) ==> p <= q.1 <= buf@.len(),
    decreases buf@.len() - p, 4int,
{
    match read_array_data(buf, p, n) {
        Ok((vs, p2)) => Ok((Value::Array(vs), p2)),
        Err(e) => Err(e),
    }
}

/// One array arm whose element count stands in a `width`-byte prefix.
fn read_prefixed_array_value(buf: &[u8], p: usize, width: usize) -> (r: Result<
    (Value, usize),
    Error,
>)
    requires
        p <= buf@.len(),
        1 <= width <= 8,
    ensures
        value_outcome_rel(prefixed_arr_at(buf@, p as int, width as nat), r),
        r matches Ok(q) ==> p <= q.1 <= buf@.len(),
    decreases buf@.len() - p, 4int,
{
    match read_be(buf, p, width) {
        Ok((n, p2)) => match read_array_data(buf, p2, n) {
            Ok((vs, p3)) => Ok((Value::Array(vs), p3)),
            Err(e) => Err(e),
        },
        Err(e) => Err(e),
    }
}

/// One map arm with the pair count already known.
fn read_map_value(buf: &[u8], p: usize, n: u64) -> (r: Result<(Value, usize), Error>)
    requires
        p <= buf@.len(),
    ensures
        value_outcome_rel(map_at(buf@, p as int, n as int), r),
        r matches Ok(q) ==> p <= q.1 <= buf@.len(),
    decreases buf@.len() - p, 4int,
{
    match read_map_data(buf, p, n) {
        Ok((ps, p2)) => Ok((Value::Mapping(ps), p2)),
        Err(e) => Err(e),
    }
}

/// One map arm whose pair count stands in a `width`-byte prefix.
fn read_prefixed_map_value(buf: &[u8], p: usize, width: usize) -> (r: Result<
    (Value, usize),
    Error,
>)
    requires
        p <= buf@.len(),
        1 <= width <= 8,
    ensures
        value_outcome_rel(prefixed_map_at(buf@, p as int, width as nat), r),
        r matches Ok(q) ==> p <= q.1 <= buf@.len(),
    decreases buf@.len() - p, 4int,
{
    match read_be(buf, p, width) {
        Ok((n, p2)) => match read_map_data(buf, p2, n) {
            Ok((ps, p3)) => Ok((Value::Mapping(ps), p3)),
            Err(e) => Err(e),
        },
        Err(e) => Err(e),
    }
}

/// Attempts to interpret the bytes of `buf` from `pos` on as one value.
///
/// Reads one marker byte, then exactly the trailing bytes that marker
/// calls for, recursing for array elements and map entries; the returned
/// position is just past the bytes the value occupied. A missing marker
/// byte yields `Error::InvalidMarkerRead`; any later missing byte yields
/// `Error::InvalidDataRead`; no partial value is ever returned. Malformed
/// UTF-8 in a string payload is not an error. The reserved marker decodes
/// to nil and consumes exactly one byte.
pub fn read_value(buf: &[u8], pos: usize) -> (r: Result<(Value, usize), Error>)
    requires
        pos <= buf@.len(),
    ensures
        decode_rel(buf@, pos as int, r),
        r matches Ok(p) ==> pos < p.1 <= buf@.len(),
    decreases buf@.len() - pos, 0int,
{
    if pos >= buf.len() {
        return Err(Error::InvalidMarkerRead(ReadErrorKind::UnexpectedEof));
    }
    let m = classify_marker(buf[pos]);
    let p = pos + 1;
    match m {
        Marker::Null => Ok((Value::Nil, p)),
        Marker::Reserved => Ok((Value::Nil, p)),
        Marker::True => Ok((Value::Boolean(true), p)),
        Marker::False => Ok((Value::Boolean(false), p)),
        Marker::FixPos(v) => Ok((Value::UnsignedInt(v as u64), p)),
        Marker::FixNeg(v) => Ok((Value::SignedInt(v as i64), p)),
        Marker::U8 => read_uint_value(buf, p, 1),
        Marker::U16 => read_uint_value(buf, p, 2),
        Marker::U32 => read_uint_value(buf, p, 4),
        Marker::U64 => read_uint_value(buf, p, 8),
        Marker::I8 => read_sint_value(buf, p, 1),
        Marker::I16 => read_sint_value(buf, p, 2),
        Marker::I32 => read_sint_value(buf, p, 4),
        Marker::I64 => read_sint_value(buf, p, 8),
        Marker::F32 => read_f32_value(buf, p),
        Marker::F64 => read_f64_value(buf, p),
        Marker::FixStr(n) => read_text_value(buf, p, n as usize),
        Marker::Str8 => read_prefixed_text_value(buf, p, 1),
        Marker::Str16 => read_prefixed_text_value(buf, p, 2),
        Marker::Str32 => read_prefixed_text_value(buf, p, 4),
        Marker::Bin8 => read_prefixed_bin_value(buf, p, 1),
        Marker::Bin16 => read_prefixed_bin_value(buf, p, 2),
        Marker::Bin32 => read_prefixed_bin_value(buf, p, 4),
        Marker::FixArray(n) => read_array_value(buf, p, n as u64),
        Marker::Array16 => read_prefixed_array_value(buf, p, 2),
        Marker::Array32 => read_prefixed_array_value(buf, p, 4),
        Marker::FixMap(n) => read_map_value(buf, p, n as u64),
        Marker::Map16 => read_prefixed_map_value(buf, p, 2),
        Marker::Map32 => read_prefixed_map_value(buf, p, 4),
        Marker::FixExt1 => read_ext_value(buf, p, 1),
        Marker::FixExt2 => read_ext_value(buf, p, 2),
        Marker::FixExt4 => read_ext_value(buf, p, 4),
        Marker::FixExt8 => read_ext_value(buf, p, 8),
        Marker::FixExt16 => read_ext_value(buf, p, 16),
        Marker::Ext8 => read_prefixed_ext_value(buf, p, 1),
        Marker::Ext16 => read_prefixed_ext_value(buf, p, 2),
        Marker::Ext32 => read_prefixed_ext_value(buf, p, 4),
    }
}

} // verus!
