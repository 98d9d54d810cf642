use vstd::prelude::*;
use vstd::arithmetic::div_mod::lemma_fundamental_div_mod;
use crate::decode::{
    be_val, lemma_p256_le, p256, spec_read_pairs, spec_read_value, spec_read_values, take_bytes,
    DecodeOutcome,
};
use crate::marker::{marker_of, Marker};
use crate::utf8::utf8_first_invalid;
use crate::value::ValueModel;

verus! {

broadcast use vstd::seq::axiom_seq_index_decreases, vstd::seq::axiom_seq_subrange_decreases;

/// The `k` big-endian bytes that spell `n`.
pub open spec fn be_bytes(n: int, k: nat) -> Seq<u8>
    decreases k,
{
    if k == 0 {
        Seq::empty()
    } else {
        be_bytes(n / 256, (k - 1) as nat).push((n % 256) as u8)
    }
}

pub proof fn lemma_be_bytes_len(n: int, k: nat)
    ensures
        be_bytes(n, k).len() == k,
    decreases k,
{
    if k > 0 {
        lemma_be_bytes_len(n / 256, (k - 1) as nat);
    }
}

pub proof fn lemma_be_bytes_val(n: int, k: nat)
    requires
        0 <= n < p256(k),
    ensures
        be_bytes(n, k).len() == k,
        be_val(be_bytes(n, k)) == n,
    decreases k,
{
    if k > 0 {
        assert(p256(k) == 256 * p256((k - 1) as nat));
        assert(n / 256 < p256((k - 1) as nat)) by (nonlinear_arith)
            requires
                0 <= n,
                n < 256 * p256((k - 1) as nat),
        ;
        lemma_be_bytes_val(n / 256, (k - 1) as nat);
        let t = be_bytes(n, k);
        assert(t.drop_last() =~= be_bytes(n / 256, (k - 1) as nat));
        assert(t.last() == (n % 256) as u8);
        lemma_fundamental_div_mod(n, 256);
    }
}

/// A negative value shifted into the unsigned range of a `k`-byte field:
/// its two's-complement representative.
pub open spec fn wrap(i: int, k: nat) -> int {
    if i >= 0 {
        i
    } else {
        i + p256(k)
    }
}

/// The wire byte of a signed 8-bit extension type tag.
pub open spec fn sbyte_of(t: i8) -> u8 {
    if t >= 0 {
        t as u8
    } else {
        (t + 256) as u8
    }
}

/// The header of a string payload of `n` bytes: the shortest marker that
/// admits the length, with the length inline or in a big-endian prefix.
pub open spec fn str_header(n: int) -> Seq<u8> {
    if n < 32 {
        seq![(0xa0 + n) as u8]
    } else if n < 0x100 {
        seq![0xd9u8] + be_bytes(n, 1)
    } else if n < 0x10000 {
        seq![0xdau8] + be_bytes(n, 2)
    } else {
        seq![0xdbu8] + be_bytes(n, 4)
    }
}

/// The header of a binary payload of `n` bytes.
pub open spec fn bin_header(n: int) -> Seq<u8> {
    if n < 0x100 {
        seq![0xc4u8] + be_bytes(n, 1)
    } else if n < 0x10000 {
        seq![0xc5u8] + be_bytes(n, 2)
    } else {
        seq![0xc6u8] + be_bytes(n, 4)
    }
}

/// The header of an array of `n` elements.
pub open spec fn arr_header(n: int) -> Seq<u8> {
    if n < 16 {
        seq![(0x90 + n) as u8]
    } else if n < 0x10000 {
        seq![0xdcu8] + be_bytes(n, 2)
    } else {
        seq![0xddu8] + be_bytes(n, 4)
    }
}

/// The header of a map of `n` key/value entries.
pub open spec fn map_header(n: int) -> Seq<u8> {
    if n < 16 {
        seq![(0x80 + n) as u8]
    } else if n < 0x10000 {
        seq![0xdeu8] + be_bytes(n, 2)
    } else {
        seq![0xdfu8] + be_bytes(n, 4)
    }
}

/// The header of an extension body whose payload is `n` bytes: a fixed
/// marker for the lengths one, two, four, eight and sixteen, else a
/// length-prefixed one.
pub open spec fn ext_header(n: int) -> Seq<u8> {
    if n == 1 {
        seq![0xd4u8]
    } else if n == 2 {
        seq![0xd5u8]
    } else if n == 4 {
        seq![0xd6u8]
    } else if n == 8 {
        seq![0xd7u8]
    } else if n == 16 {
        seq![0xd8u8]
    } else if n < 0x100 {
        seq![0xc7u8] + be_bytes(n, 1)
    } else if n < 0x10000 {
        seq![0xc8u8] + be_bytes(n, 2)
    } else {
        seq![0xc9u8] + be_bytes(n, 4)
    }
}

/// A value the decoder's variants can hold: every string, binary and
/// extension payload and every array and map count fits a 32-bit length,
/// and each text value's invalid offset is exactly where UTF-8 validation
/// first fails on its bytes.
pub open spec fn encodable(v: ValueModel) -> bool
    decreases v,
{
    match v {
        ValueModel::Nil => true,
        ValueModel::Boolean(_) => true,
        ValueModel::UnsignedInt(_) => true,
        ValueModel::SignedInt(_) => true,
        ValueModel::F32(_) => true,
        ValueModel::F64(_) => true,
        ValueModel::Text(bs, inv) => bs.len() < 0x1_0000_0000 && inv == utf8_first_invalid(bs),
        ValueModel::Binary(bs) => bs.len() < 0x1_0000_0000,
        ValueModel::Array(vs) => vs.len() < 0x1_0000_0000 && all_elems_encodable(vs),
        ValueModel::Mapping(ps) => ps.len() < 0x1_0000_0000 && all_entries_encodable(ps),
        ValueModel::Ext(_, bs) => bs.len() < 0x1_0000_0000,
    }
}

/// Every element of a run of array elements is encodable.
pub open spec fn all_elems_encodable(vs: Seq<ValueModel>) -> bool
    decreases vs,
{
    forall|i: int| 0 <= i < vs.len() ==> encodable(#[trigger] vs[i])
}

/// Both halves of a map entry are encodable.
pub open spec fn entry_encodable(p: (ValueModel, ValueModel)) -> bool
    decreases p,
{
    encodable(p.0) && encodable(p.1)
}

/// Every key and every value of a run of map entries is encodable.
pub open spec fn all_entries_encodable(ps: Seq<(ValueModel, ValueModel)>) -> bool
    decreases ps,
{
    forall|i: int| 0 <= i < ps.len() ==> entry_encodable(#[trigger] ps[i])
}

proof fn lemma_elems_cons(v: ValueModel, vs: Seq<ValueModel>)
    requires
        encodable(v),
        all_elems_encodable(vs),
    ensures
        all_elems_encodable(seq![v] + vs),
{
    assert forall|i: int| 0 <= i < (seq![v] + vs).len() implies encodable(
        #[trigger] (seq![v] + vs)[i],
    ) by {
        if i == 0 {
            assert((seq![v] + vs)[0] == v);
        } else {
            assert((seq![v] + vs)[i] == vs[i - 1]);
        }
    }
}

proof fn lemma_entries_cons(k: ValueModel, v: ValueModel, ps: Seq<(ValueModel, ValueModel)>)
    requires
        encodable(k),
        encodable(v),
        all_entries_encodable(ps),
    ensures
        all_entries_encodable(seq![(k, v)] + ps),
{
    assert forall|i: int| 0 <= i < (seq![(k, v)] + ps).len() implies entry_encodable(
        #[trigger] (seq![(k, v)] + ps)[i],
    ) by {
        if i == 0 {
            assert((seq![(k, v)] + ps)[0] == (k, v));
            assert(entry_encodable((k, v)));
        } else {
            assert((seq![(k, v)] + ps)[i] == ps[i - 1]);
            assert(entry_encodable(ps[i - 1]));
        }
    }
}

proof fn lemma_elems_drop_first(vs: Seq<ValueModel>)
    requires
        vs.len() > 0,
        all_elems_encodable(vs),
    ensures
        encodable(vs.first()),
        all_elems_encodable(vs.drop_first()),
{
    assert(encodable(vs[0]));
    assert forall|i: int| 0 <= i < vs.drop_first().len() implies encodable(
        #[trigger] vs.drop_first()[i],
    ) by {
        assert(vs.drop_first()[i] == vs[i + 1]);
    }
}

proof fn lemma_entries_drop_first(ps: Seq<(ValueModel, ValueModel)>)
    requires
        ps.len() > 0,
        all_entries_encodable(ps),
    ensures
        encodable(ps.first().0),
        encodable(ps.first().1),
        all_entries_encodable(ps.drop_first()),
{
    assert(entry_encodable(ps[0]));
    assert forall|i: int| 0 <= i < ps.drop_first().len() implies entry_encodable(
        #[trigger] ps.drop_first()[i],
    ) by {
        assert(ps.drop_first()[i] == ps[i + 1]);
        assert(entry_encodable(ps[i + 1]));
    }
}

/// One conformant encoding of a value: for each variant the shortest
/// marker that admits it, all multi-byte fields big-endian, array
/// elements and map entries in order with each key before its value.
pub open spec fn spec_encode(v: ValueModel) -> Seq<u8>
    decreases v, 1int,
{
    match v {
        ValueModel::Nil => seq![0xc0u8],
        ValueModel::Boolean(b) => if b {
            seq![0xc3u8]
        } else {
            seq![0xc2u8]
        },
        ValueModel::UnsignedInt(n) => if n < 0x80 {
            seq![n as u8]
        } else if n < 0x100 {
            seq![0xccu8] + be_bytes(n as int, 1)
        } else if n < 0x10000 {
            seq![0xcdu8] + be_bytes(n as int, 2)
        } else if n < 0x1_0000_0000 {
            seq![0xceu8] + be_bytes(n as int, 4)
        } else {
            seq![0xcfu8] + be_bytes(n as int, 8)
        },
        ValueModel::SignedInt(i) => if -32 <= i && i < 0 {
            seq![(i + 256) as u8]
        } else if -0x80 <= i && i < 0x80 {
            seq![0xd0u8] + be_bytes(wrap(i as int, 1), 1)
        } else if -0x8000 <= i && i < 0x8000 {
            seq![0xd1u8] + be_bytes(wrap(i as int, 2), 2)
        } else if -0x8000_0000 <= i && i < 0x8000_0000 {
            seq![0xd2u8] + be_bytes(wrap(i as int, 4), 4)
        } else {
            seq![0xd3u8] + be_bytes(wrap(i as int, 8), 8)
        },
        ValueModel::F32(bits) => seq![0xcau8] + be_bytes(bits as int, 4),
        ValueModel::F64(bits) => seq![0xcbu8] + be_bytes(bits as int, 8),
        ValueModel::Text(bs, _) => str_header(bs.len() as int) + bs,
        ValueModel::Binary(bs) => bin_header(bs.len() as int) + bs,
        ValueModel::Array(vs) => arr_header(vs.len() as int) + encode_elems(vs),
        ValueModel::Mapping(ps) => map_header(ps.len() as int) + encode_entries(ps),
        ValueModel::Ext(t, bs) => ext_header(bs.len() as int) + seq![sbyte_of(t)] + bs,
    }
}

/// The encodings of a run of array elements, in order.
pub open spec fn encode_elems(vs: Seq<ValueModel>) -> Seq<u8>
    decreases vs, 0int,
{
    if vs.len() == 0 {
        Seq::empty()
    } else {
        spec_encode(vs.first()) + encode_elems(vs.drop_first())
    }
}

/// The encodings of a run of map entries, in order, each key before its
/// value.
pub open spec fn encode_entries(ps: Seq<(ValueModel, ValueModel)>) -> Seq<u8>
    decreases ps, 0int,
{
    if ps.len() == 0 {
        Seq::empty()
    } else {
        spec_encode(ps.first().0) + spec_encode(ps.first().1) + encode_entries(ps.drop_first())
    }
}

/// Every encoding holds at least its marker byte.
pub proof fn lemma_encode_len_pos(v: ValueModel)
    ensures
        spec_encode(v).len() >= 1,
{
}

/// Splitting a known subrange of `s` at a concatenation boundary.
proof fn lemma_subrange_concat(s: Seq<u8>, pos: int, a: Seq<u8>, b: Seq<u8>)
    requires
        0 <= pos,
        pos + a.len() + b.len() <= s.len(),
        s.subrange(pos, pos + a.len() + b.len()) == a + b,
    ensures
        s.subrange(pos, pos + a.len()) == a,
        s.subrange(pos + a.len(), pos + a.len() + b.len()) == b,
{
    let whole = s.subrange(pos, pos + a.len() + b.len());
    assert forall|j: int| 0 <= j < a.len() implies s.subrange(pos, pos + a.len())[j] == a[j] by {
        assert(whole[j] == (a + b)[j]);
    }
    assert forall|j: int|
        0 <= j < b.len() implies s.subrange(pos + a.len(), pos + a.len() + b.len())[j] == b[j] by {
        assert(whole[a.len() + j] == (a + b)[a.len() + j]);
    }
    assert(s.subrange(pos, pos + a.len()) =~= a);
    assert(s.subrange(pos + a.len(), pos + a.len() + b.len()) =~= b);
}

/// A known subrange that starts with one marker byte.
proof fn lemma_first_byte(s: Seq<u8>, pos: int, b: u8, rest: Seq<u8>)
    requires
        0 <= pos,
        pos + 1 + rest.len() <= s.len(),
        s.subrange(pos, pos + 1 + rest.len()) == seq![b] + rest,
    ensures
        s[pos] == b,
        s.subrange(pos + 1, pos + 1 + rest.len()) == rest,
{
    lemma_subrange_concat(s, pos, seq![b], rest);
    assert(s.subrange(pos, pos + 1)[0] == b);
}

/// Decoding the scalar encoding `[marker] + be_bytes(u, k)` laid at `pos`.
proof fn lemma_rt_scalar(s: Seq<u8>, pos: int, mb: u8, u: int, k: nat)
    requires
        0 <= pos,
        0 <= u < p256(k),
        1 <= k <= 8,
        pos + 1 + k <= s.len(),
        s.subrange(pos, pos + 1 + k as int) == seq![mb] + be_bytes(u, k),
    ensures
        s[pos] == mb,
        take_bytes(s, pos + 1, k as int) == Some(be_bytes(u, k)),
        be_val(be_bytes(u, k)) == u,
{
    lemma_be_bytes_val(u, k);
    lemma_first_byte(s, pos, mb, be_bytes(u, k));
}

/// Round trip of one value laid at `pos` of a larger buffer: decoding
/// finds exactly that value and stops exactly past its encoding.
#[verifier::rlimit(100)]
pub proof fn lemma_decode_encoded_at(v: ValueModel, s: Seq<u8>, pos: int)
    requires
        encodable(v),
        0 <= pos,
        pos + spec_encode(v).len() <= s.len(),
        s.subrange(pos, pos + spec_encode(v).len()) == spec_encode(v),
    ensures
        spec_read_value(s, pos) == DecodeOutcome::Found(v, pos + spec_encode(v).len()),
    decreases v, 1int,
{
    lemma_p256_le(1, 8);
    lemma_p256_le(2, 8);
    lemma_p256_le(4, 8);
    reveal_with_fuel(p256, 9);
    assert(p256(8) == 0x10000000000000000);
    match v {
        ValueModel::Nil => {
            lemma_first_byte(s, pos, 0xc0, Seq::empty());
        },
        ValueModel::Boolean(b) => {
            if b {
                lemma_first_byte(s, pos, 0xc3, Seq::empty());
            } else {
                lemma_first_byte(s, pos, 0xc2, Seq::empty());
            }
        },
        ValueModel::UnsignedInt(n) => {
            if n < 0x80 {
                lemma_first_byte(s, pos, n as u8, Seq::empty());
            } else if n < 0x100 {
                lemma_be_bytes_len(n as int, 1);
                lemma_rt_scalar(s, pos, 0xcc, n as int, 1);
            } else if n < 0x10000 {
                lemma_be_bytes_len(n as int, 2);
                lemma_rt_scalar(s, pos, 0xcd, n as int, 2);
            } else if n < 0x1_0000_0000 {
                lemma_be_bytes_len(n as int, 4);
                lemma_rt_scalar(s, pos, 0xce, n as int, 4);
            } else {
                lemma_be_bytes_len(n as int, 8);
                lemma_rt_scalar(s, pos, 0xcf, n as int, 8);
            }
        },
        ValueModel::SignedInt(i) => {
            if -32 <= i && i < 0 {
                lemma_first_byte(s, pos, (i + 256) as u8, Seq::empty());
            } else if -0x80 <= i && i < 0x80 {
                lemma_be_bytes_len(wrap(i as int, 1), 1);
                lemma_rt_scalar(s, pos, 0xd0, wrap(i as int, 1), 1);
            } else if -0x8000 <= i && i < 0x8000 {
                lemma_be_bytes_len(wrap(i as int, 2), 2);
                lemma_rt_scalar(s, pos, 0xd1, wrap(i as int, 2), 2);
            } else if -0x8000_0000 <= i && i < 0x8000_0000 {
                lemma_be_bytes_len(wrap(i as int, 4), 4);
                lemma_rt_scalar(s, pos, 0xd2, wrap(i as int, 4), 4);
            } else {
                lemma_be_bytes_len(wrap(i as int, 8), 8);
                lemma_rt_scalar(s, pos, 0xd3, wrap(i as int, 8), 8);
            }
        },
        ValueModel::F32(bits) => {
            lemma_be_bytes_len(bits as int, 4);
            lemma_rt_scalar(s, pos, 0xca, bits as int, 4);
        },
        ValueModel::F64(bits) => {
            lemma_be_bytes_len(bits as int, 8);
            lemma_rt_scalar(s, pos, 0xcb, bits as int, 8);
        },
        ValueModel::Text(bs, inv) => {
            lemma_rt_payload(s, pos, str_header(bs.len() as int), bs);
            let n = bs.len() as int;
            if n < 32 {
                lemma_first_byte(s, pos, (0xa0 + n) as u8, bs);
            } else if n < 0x100 {
                lemma_be_bytes_len(n, 1);
                lemma_rt_prefixed(s, pos, 0xd9, n, 1, bs);
            } else if n < 0x10000 {
                lemma_be_bytes_len(n, 2);
                lemma_rt_prefixed(s, pos, 0xda, n, 2, bs);
            } else {
                lemma_be_bytes_len(n, 4);
                lemma_rt_prefixed(s, pos, 0xdb, n, 4, bs);
            }
        },
        ValueModel::Binary(bs) => {
            lemma_rt_payload(s, pos, bin_header(bs.len() as int), bs);
            let n = bs.len() as int;
            if n < 0x100 {
                lemma_be_bytes_len(n, 1);
                lemma_rt_prefixed(s, pos, 0xc4, n, 1, bs);
            } else if n < 0x10000 {
                lemma_be_bytes_len(n, 2);
                lemma_rt_prefixed(s, pos, 0xc5, n, 2, bs);
            } else {
                lemma_be_bytes_len(n, 4);
                lemma_rt_prefixed(s, pos, 0xc6, n, 4, bs);
            }
        },
        ValueModel::Array(vs) => {
            let body = encode_elems(vs);
            lemma_rt_payload(s, pos, arr_header(vs.len() as int), body);
            let n = vs.len() as int;
            if n < 16 {
                lemma_first_byte(s, pos, (0x90 + n) as u8, body);
                lemma_decode_encoded_elems(vs, s, pos + 1);
            } else if n < 0x10000 {
                lemma_be_bytes_len(n, 2);
                lemma_rt_prefixed(s, pos, 0xdc, n, 2, body);
                lemma_decode_encoded_elems(vs, s, pos + 3);
            } else {
                lemma_be_bytes_len(n, 4);
                lemma_rt_prefixed(s, pos, 0xdd, n, 4, body);
                lemma_decode_encoded_elems(vs, s, pos + 5);
            }
        },
        ValueModel::Mapping(ps) => {
            let body = encode_entries(ps);
            lemma_rt_payload(s, pos, map_header(ps.len() as int), body);
            let n = ps.len() as int;
            if n < 16 {
                lemma_first_byte(s, pos, (0x80 + n) as u8, body);
                lemma_decode_encoded_entries(ps, s, pos + 1);
            } else if n < 0x10000 {
                lemma_be_bytes_len(n, 2);
                lemma_rt_prefixed(s, pos, 0xde, n, 2, body);
                lemma_decode_encoded_entries(ps, s, pos + 3);
            } else {
                lemma_be_bytes_len(n, 4);
                lemma_rt_prefixed(s, pos, 0xdf, n, 4, body);
                lemma_decode_encoded_entries(ps, s, pos + 5);
            }
        },
        ValueModel::Ext(t, bs) => {
            let n = bs.len() as int;
            assert(spec_encode(v) =~= ext_header(n) + (seq![sbyte_of(t)] + bs));
            lemma_subrange_concat(s, pos, ext_header(n), seq![sbyte_of(t)] + bs);
            let hl = ext_header(n).len();
            assert(s.subrange(pos, pos + hl)[0] == s[pos]);
            lemma_first_byte(s, pos + hl, sbyte_of(t), bs);
            if n == 1 || n == 2 || n == 4 || n == 8 || n == 16 {
            } else if n < 0x100 {
                lemma_be_bytes_len(n, 1);
                lemma_rt_scalar_prefix(s, pos, 0xc7, n, 1);
            } else if n < 0x10000 {
                lemma_be_bytes_len(n, 2);
                lemma_rt_scalar_prefix(s, pos, 0xc8, n, 2);
            } else {
                lemma_be_bytes_len(n, 4);
                lemma_rt_scalar_prefix(s, pos, 0xc9, n, 4);
            }
        },
    }
}

/// A known subrange `header + payload` split at the header boundary.
proof fn lemma_rt_payload(s: Seq<u8>, pos: int, header: Seq<u8>, payload: Seq<u8>)
    requires
        0 <= pos,
        pos + header.len() + payload.len() <= s.len(),
        s.subrange(pos, pos + header.len() + payload.len()) == header + payload,
    ensures
        s.subrange(pos, pos + header.len()) == header,
        s.subrange(pos + header.len(), pos + header.len() + payload.len()) == payload,
{
    lemma_subrange_concat(s, pos, header, payload);
}

/// A known subrange `[marker] + be_bytes(n, w) + payload`: the marker
/// byte, the decoded length prefix, and the payload's place.
proof fn lemma_rt_prefixed(s: Seq<u8>, pos: int, mb: u8, n: int, w: nat, payload: Seq<u8>)
    requires
        0 <= pos,
        0 <= n < p256(w),
        1 <= w <= 8,
        pos + 1 + w + payload.len() <= s.len(),
        s.subrange(pos, pos + 1 + w + payload.len()) == (seq![mb] + be_bytes(n, w)) + payload,
    ensures
        s[pos] == mb,
        take_bytes(s, pos + 1, w as int) == Some(be_bytes(n, w)),
        be_val(be_bytes(n, w)) == n,
        s.subrange(pos + 1 + w, pos + 1 + w + payload.len()) == payload,
{
    lemma_be_bytes_val(n, w);
    lemma_subrange_concat(s, pos, seq![mb] + be_bytes(n, w), payload);
    lemma_rt_scalar(s, pos, mb, n, w);
}

/// As `lemma_rt_prefixed`, for a prefix whose payload lies further on.
proof fn lemma_rt_scalar_prefix(s: Seq<u8>, pos: int, mb: u8, n: int, w: nat)
    requires
        0 <= pos,
        0 <= n < p256(w),
        1 <= w <= 8,
        pos + 1 + w <= s.len(),
        s.subrange(pos, pos + 1 + w as int) == seq![mb] + be_bytes(n, w),
    ensures
        s[pos] == mb,
        take_bytes(s, pos + 1, w as int) == Some(be_bytes(n, w)),
        be_val(be_bytes(n, w)) == n,
{
    lemma_rt_scalar(s, pos, mb, n, w);
}

/// Round trip of a run of array elements laid at `pos`.
proof fn lemma_decode_encoded_elems(vs: Seq<ValueModel>, s: Seq<u8>, pos: int)
    requires
        all_elems_encodable(vs),
        0 <= pos,
        pos + encode_elems(vs).len() <= s.len(),
        s.subrange(pos, pos + encode_elems(vs).len()) == encode_elems(vs),
    ensures
        spec_read_values(s, pos, vs.len() as int) == DecodeOutcome::Found(
            vs,
            pos + encode_elems(vs).len(),
        ),
    decreases vs, 0int,
{
    if vs.len() == 0 {
        assert(spec_read_values(s, pos, 0) == DecodeOutcome::Found(Seq::<ValueModel>::empty(), pos));
        assert(vs =~= Seq::<ValueModel>::empty());
    } else {
        lemma_elems_drop_first(vs);
        let e0 = spec_encode(vs.first());
        let rest = encode_elems(vs.drop_first());
        lemma_encode_len_pos(vs.first());
        lemma_subrange_concat(s, pos, e0, rest);
        lemma_decode_encoded_at(vs.first(), s, pos);
        lemma_decode_encoded_elems(vs.drop_first(), s, pos + e0.len());
        assert(seq![vs.first()] + vs.drop_first() =~= vs);
    }
}

/// Round trip of a run of map entries laid at `pos`.
proof fn lemma_decode_encoded_entries(ps: Seq<(ValueModel, ValueModel)>, s: Seq<u8>, pos: int)
    requires
        all_entries_encodable(ps),
        0 <= pos,
        pos + encode_entries(ps).len() <= s.len(),
        s.subrange(pos, pos + encode_entries(ps).len()) == encode_entries(ps),
    ensures
        spec_read_pairs(s, pos, ps.len() as int) == DecodeOutcome::Found(
            ps,
            pos + encode_entries(ps).len(),
        ),
    decreases ps, 0int,
{
    if ps.len() == 0 {
        assert(spec_read_pairs(s, pos, 0) == DecodeOutcome::Found(
            Seq::<(ValueModel, ValueModel)>::empty(),
            pos,
        ));
        assert(ps =~= Seq::<(ValueModel, ValueModel)>::empty());
    } else {
        lemma_entries_drop_first(ps);
        let ek = spec_encode(ps.first().0);
        let ev = spec_encode(ps.first().1);
        let rest = encode_entries(ps.drop_first());
        lemma_encode_len_pos(ps.first().0);
        lemma_encode_len_pos(ps.first().1);
        assert(encode_entries(ps) =~= ek + (ev + rest));
        lemma_subrange_concat(s, pos, ek, ev + rest);
        lemma_subrange_concat(s, pos + ek.len(), ev, rest);
        lemma_decode_encoded_at(ps.first().0, s, pos);
        lemma_decode_encoded_at(ps.first().1, s, pos + ek.len());
        lemma_decode_encoded_entries(ps.drop_first(), s, pos + ek.len() + ev.len());
        assert(seq![ps.first()] + ps.drop_first() =~= ps);
    }
}

/// Round trip: for every value the decoder's variants can hold, decoding
/// the conformant encoding of that value reproduces an equal value —
/// text values with invalid UTF-8 included, whose raw bytes and first
/// invalid offset come back identical — and consumes the whole encoding.
pub proof fn lemma_round_trip(v: ValueModel)
    requires
        encodable(v),
    ensures
        spec_read_value(spec_encode(v), 0) == DecodeOutcome::Found(v, spec_encode(v).len() as int),
{
    let s = spec_encode(v);
    assert(s.subrange(0, s.len() as int) =~= s);
    lemma_decode_encoded_at(v, s, 0);
}

/// The unsigned reading of a byte field fits the field's width.
pub proof fn lemma_be_val_bound(s: Seq<u8>)
    ensures
        0 <= be_val(s) < p256(s.len()),
    decreases s.len(),
{
    if s.len() > 0 {
        lemma_be_val_bound(s.drop_last());
        assert(p256(s.len()) == 256 * p256((s.len() - 1) as nat));
    }
}

/// Everything the decoder finds is a value its variants can hold: every
/// payload length and every container count fits 32 bits, and each text
/// value's invalid offset is exactly where UTF-8 validation first fails
/// on its bytes. Decoder results therefore always satisfy the round-trip
/// law's hypothesis.
pub proof fn lemma_decoded_encodable(s: Seq<u8>, pos: int)
    ensures
        (match spec_read_value(s, pos) {
            DecodeOutcome::Found(v, _) => encodable(v),
            _ => true,
        }),
    decreases s.len() - pos, 2int,
{
    reveal_with_fuel(p256, 5);
    if 0 <= pos && pos < s.len() {
        let p = pos + 1;
        match marker_of(s[pos]) {
            Marker::Str8 => {
                lemma_prefix_bound(s, p, 1);
            },
            Marker::Str16 => {
                lemma_prefix_bound(s, p, 2);
            },
            Marker::Str32 => {
                lemma_prefix_bound(s, p, 4);
            },
            Marker::Bin8 => {
                lemma_prefix_bound(s, p, 1);
            },
            Marker::Bin16 => {
                lemma_prefix_bound(s, p, 2);
            },
            Marker::Bin32 => {
                lemma_prefix_bound(s, p, 4);
            },
            Marker::Ext8 => {
                lemma_prefix_bound(s, p, 1);
            },
            Marker::Ext16 => {
                lemma_prefix_bound(s, p, 2);
            },
            Marker::Ext32 => {
                lemma_prefix_bound(s, p, 4);
            },
            Marker::FixArray(n) => {
                lemma_decoded_values_encodable(s, p, n as int);
            },
            Marker::Array16 => {
                match take_bytes(s, p, 2) {
                    Some(l) => {
                        lemma_be_val_bound(l);
                        lemma_decoded_values_encodable(s, p + 2, be_val(l));
                    },
                    None => {},
                }
            },
            Marker::Array32 => {
                match take_bytes(s, p, 4) {
                    Some(l) => {
                        lemma_be_val_bound(l);
                        lemma_decoded_values_encodable(s, p + 4, be_val(l));
                    },
                    None => {},
                }
            },
            Marker::FixMap(n) => {
                lemma_decoded_pairs_encodable(s, p, n as int);
            },
            Marker::Map16 => {
                match take_bytes(s, p, 2) {
                    Some(l) => {
                        lemma_be_val_bound(l);
                        lemma_decoded_pairs_encodable(s, p + 2, be_val(l));
                    },
                    None => {},
                }
            },
            Marker::Map32 => {
                match take_bytes(s, p, 4) {
                    Some(l) => {
                        lemma_be_val_bound(l);
                        lemma_decoded_pairs_encodable(s, p + 4, be_val(l));
                    },
                    None => {},
                }
            },
            _ => {},
        }
    }
}

/// A length read from a `w`-byte prefix at `p` fits 32 bits when `w`
/// does.
proof fn lemma_prefix_bound(s: Seq<u8>, p: int, w: nat)
    requires
        1 <= w <= 4,
    ensures
        (match take_bytes(s, p, w as int) {
            Some(l) => 0 <= be_val(l) < 0x1_0000_0000,
            None => true,
        }),
{
    reveal_with_fuel(p256, 5);
    lemma_p256_le(w, 4);
    match take_bytes(s, p, w as int) {
        Some(l) => {
            lemma_be_val_bound(l);
        },
        None => {},
    }
}

/// As `lemma_decoded_encodable`, for a run of array elements; the run
/// holds exactly the asked-for count.
proof fn lemma_decoded_values_encodable(s: Seq<u8>, pos: int, n: int)
    ensures
        (match spec_read_values(s, pos, n) {
            DecodeOutcome::Found(vs, _) => vs.len() == (if n <= 0 {
                0
            } else {
                n
            }) && all_elems_encodable(vs),
            _ => true,
        }),
    decreases s.len() - pos, 3int,
{
    if n > 0 {
        lemma_decoded_encodable(s, pos);
        match spec_read_value(s, pos) {
            DecodeOutcome::Found(v, p2) => {
                if pos < p2 && p2 <= s.len() {
                    lemma_decoded_values_encodable(s, p2, n - 1);
                    match spec_read_values(s, p2, n - 1) {
                        DecodeOutcome::Found(vs, e2) => {
                            assert(spec_read_values(s, pos, n) == DecodeOutcome::Found(
                                seq![v] + vs,
                                e2,
                            ));
                            lemma_elems_cons(v, vs);
                        },
                        _ => {},
                    }
                }
            },
            _ => {},
        }
    }
}

/// As `lemma_decoded_encodable`, for a run of map entries; the run holds
/// exactly the asked-for count.
proof fn lemma_decoded_pairs_encodable(s: Seq<u8>, pos: int, n: int)
    ensures
        (match spec_read_pairs(s, pos, n) {
            DecodeOutcome::Found(ps, _) => ps.len() == (if n <= 0 {
                0
            } else {
                n
            }) && all_entries_encodable(ps),
            _ => true,
        }),
    decreases s.len() - pos, 3int,
{
    if n > 0 {
        lemma_decoded_encodable(s, pos);
        match spec_read_value(s, pos) {
            DecodeOutcome::Found(k, p2) => {
                if pos < p2 && p2 <= s.len() {
                    lemma_decoded_encodable(s, p2);
                    match spec_read_value(s, p2) {
                        DecodeOutcome::Found(v, p3) => {
                            if p2 < p3 && p3 <= s.len() {
                                lemma_decoded_pairs_encodable(s, p3, n - 1);
                                match spec_read_pairs(s, p3, n - 1) {
                                    DecodeOutcome::Found(ps, e2) => {
                                        assert(spec_read_pairs(s, pos, n) == DecodeOutcome::Found(
                                            seq![(k, v)] + ps,
                                            e2,
                                        ));
                                        lemma_entries_cons(k, v, ps);
                                    },
                                    _ => {},
                                }
                            }
                        },
                        _ => {},
                    }
                }
            },
            _ => {},
        }
    }
}

/// Every single-byte encoding `0x00..=0x7f` decodes to exactly that
/// non-negative integer, consuming exactly the one marker byte.
pub proof fn lemma_fixpos_decodes(s: Seq<u8>, pos: int)
    requires
        0 <= pos < s.len(),
        s[pos] <= 0x7f,
    ensures
        spec_read_value(s, pos) == DecodeOutcome::Found(
            ValueModel::UnsignedInt(s[pos] as u64),
            pos + 1,
        ),
{
}

/// Every single-byte encoding `0xe0..=0xff` decodes to exactly that
/// negative integer, which lies in `-32..=-1`, consuming one byte.
pub proof fn lemma_fixneg_decodes(s: Seq<u8>, pos: int)
    requires
        0 <= pos < s.len(),
        0xe0 <= s[pos],
    ensures
        spec_read_value(s, pos) == DecodeOutcome::Found(
            ValueModel::SignedInt((s[pos] - 256) as i64),
            pos + 1,
        ),
        -32 <= s[pos] - 256 <= -1,
{
}

/// The reserved marker byte decodes to nil and consumes exactly one byte.
pub proof fn lemma_reserved_decodes(s: Seq<u8>, pos: int)
    requires
        0 <= pos < s.len(),
        s[pos] == 0xc1,
    ensures
        spec_read_value(s, pos) == DecodeOutcome::Found(ValueModel::Nil, pos + 1),
{
}

/// The number of trailing bytes that must directly follow marker byte
/// `b` before any recursion: the payload width of a fixed-width scalar,
/// the inline byte length of a short string, the prefix width of a
/// length-prefixed encoding, and the type byte plus payload of a fixed
/// extension. `None` for self-contained markers and for containers,
/// whose trailing bytes are needed only by their nested values.
pub open spec fn fixed_need(b: u8) -> Option<int> {
    match marker_of(b) {
        Marker::U8 => Some(1),
        Marker::I8 => Some(1),
        Marker::U16 => Some(2),
        Marker::I16 => Some(2),
        Marker::U32 => Some(4),
        Marker::I32 => Some(4),
        Marker::F32 => Some(4),
        Marker::U64 => Some(8),
        Marker::I64 => Some(8),
        Marker::F64 => Some(8),
        Marker::FixStr(n) => Some(n as int),
        Marker::Str8 => Some(1),
        Marker::Str16 => Some(2),
        Marker::Str32 => Some(4),
        Marker::Bin8 => Some(1),
        Marker::Bin16 => Some(2),
        Marker::Bin32 => Some(4),
        Marker::Ext8 => Some(1),
        Marker::Ext16 => Some(2),
        Marker::Ext32 => Some(4),
        Marker::FixExt1 => Some(2),
        Marker::FixExt2 => Some(3),
        Marker::FixExt4 => Some(5),
        Marker::FixExt8 => Some(9),
        Marker::FixExt16 => Some(17),
        _ => None,
    }
}

/// Truncation: a marker that directly requires `n` trailing bytes,
/// followed by fewer than `n` available bytes, yields a data-read
/// failure — never a partial value. (A truncated container instead fails
/// inside a nested value, whose missing marker byte is a marker-read
/// failure.)
pub proof fn lemma_truncated_fails(s: Seq<u8>, pos: int, n: int)
    requires
        0 <= pos < s.len(),
        fixed_need(s[pos]) == Some(n),
        s.len() - pos - 1 < n,
    ensures
        spec_read_value(s, pos) == DecodeOutcome::<ValueModel>::DataFail,
{
}

/// For a length-prefixed marker byte, the width of its length prefix and
/// the bytes its payload needs beside the read length: none for strings
/// and binary, one type byte for extensions.
pub open spec fn prefixed_form(b: u8) -> Option<(nat, int)> {
    match marker_of(b) {
        Marker::Str8 => Some((1, 0)),
        Marker::Str16 => Some((2, 0)),
        Marker::Str32 => Some((4, 0)),
        Marker::Bin8 => Some((1, 0)),
        Marker::Bin16 => Some((2, 0)),
        Marker::Bin32 => Some((4, 0)),
        Marker::Ext8 => Some((1, 1)),
        Marker::Ext16 => Some((2, 1)),
        Marker::Ext32 => Some((4, 1)),
        _ => None,
    }
}

/// Truncation after a length prefix: when the prefix is present but
/// promises more payload bytes than remain, decoding yields a data-read
/// failure too — again never a partial value.
pub proof fn lemma_truncated_payload_fails(s: Seq<u8>, pos: int, w: nat, extra: int)
    requires
        0 <= pos < s.len(),
        prefixed_form(s[pos]) == Some((w, extra)),
        pos + 1 + w <= s.len(),
        be_val(s.subrange(pos + 1, pos + 1 + w)) + extra > s.len() - pos - 1 - w,
    ensures
        spec_read_value(s, pos) == DecodeOutcome::<ValueModel>::DataFail,
{
}

} // verus!
