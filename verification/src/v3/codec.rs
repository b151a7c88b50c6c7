//! MQTT v3.1.1 wire primitives: the Remaining Length varint (§2.2.3), the
//! length-prefixed string and binary fields (§1.5.3) and the fixed header.

use vstd::prelude::*;
use vstd::string::StringSliceAdditionalSpecFns;

verus! {

/// The largest Remaining Length MQTT allows (§2.2.3): four 7-bit groups.
pub const MAX_REMAINING_LENGTH: usize = 268_435_455;

/// The largest length of a string or binary field (§1.5.3).
pub const MAX_FIELD_LENGTH: usize = 65535;

/// The Remaining Length encoding of `n`: seven bits per byte, least
/// significant group first, the high bit set on every byte but the last.
pub open spec fn spec_varint(n: nat) -> Seq<u8>
    decreases n,
{
    if n < 128 {
        seq![n as u8]
    } else {
        seq![(n % 128 + 128) as u8] + spec_varint(n / 128)
    }
}

/// The result of reading a Remaining Length from the front of a buffer.
#[derive(Clone, Copy, Debug, PartialEq, Eq, Structural)]
pub enum RemainingLength {
    /// The buffer ends before the length does; more bytes are needed.
    Incomplete,
    /// Four bytes all carry the continuation bit: no legal length starts so.
    Malformed,
    /// A length of `value`, encoded in the first `consumed` bytes.
    Complete { value: usize, consumed: usize },
}

/// Reading a Remaining Length whose first byte is `bytes[0]` and which has
/// already consumed `depth` bytes before it.
pub open spec fn spec_decode_at(bytes: Seq<u8>, depth: nat) -> RemainingLength
    decreases 4 - depth, bytes.len(),
{
    if depth >= 4 {
        RemainingLength::Malformed
    } else if bytes.len() == 0 {
        RemainingLength::Incomplete
    } else if bytes[0] < 128 {
        RemainingLength::Complete { value: bytes[0] as usize, consumed: 1 }
    } else {
        match spec_decode_at(bytes.subrange(1, bytes.len() as int), depth + 1) {
            RemainingLength::Complete { value, consumed } => RemainingLength::Complete {
                value: ((bytes[0] - 128) + 128 * value) as usize,
                consumed: (consumed + 1) as usize,
            },
            other => other,
        }
    }
}

/// Reading a Remaining Length from the front of `bytes` (§2.2.3): at most
/// four bytes are looked at.
pub open spec fn spec_decode_remaining_length(bytes: Seq<u8>) -> RemainingLength {
    spec_decode_at(bytes, 0)
}

/// The bound on a value read at `depth`: `128` to the power `4 - depth`.
pub open spec fn depth_cap(depth: nat) -> nat {
    if depth == 0 {
        268435456
    } else if depth == 1 {
        2097152
    } else if depth == 2 {
        16384
    } else {
        128
    }
}

/// A length read at `depth` fits in the bytes left to it.
proof fn lemma_decode_at_bounds(bytes: Seq<u8>, depth: nat)
    requires
        depth < 4,
    ensures
        spec_decode_at(bytes, depth) matches RemainingLength::Complete { value, consumed } ==> {
            &&& value < depth_cap(depth)
            &&& 1 <= consumed <= 4 - depth
            &&& consumed <= bytes.len()
        },
    decreases 4 - depth,
{
    if bytes.len() > 0 && bytes[0] >= 128 && depth + 1 < 4 {
        let rest = bytes.subrange(1, bytes.len() as int);
        lemma_decode_at_bounds(rest, depth + 1);
        if let RemainingLength::Complete { value, consumed } = spec_decode_at(rest, depth + 1) {
            assert(depth_cap(depth) == 128 * depth_cap(depth + 1));
            let v = (bytes[0] - 128) + 128 * value;
            assert(v < depth_cap(depth));
            assert(v < 268435456);
            assert((v as usize) as int == v);
            assert(spec_decode_at(bytes, depth) == (RemainingLength::Complete {
                value: v as usize,
                consumed: (consumed + 1) as usize,
            }));
            assert(((consumed + 1) as usize) as int == consumed + 1);
            assert(1 <= consumed + 1 <= 4 - depth);
            assert(consumed + 1 <= bytes.len());
            assert((v as usize) < depth_cap(depth));
        } else {
            assert(!(spec_decode_at(bytes, depth) is Complete));
        }
    } else if bytes.len() > 0 && bytes[0] >= 128 {
        assert(spec_decode_at(bytes.subrange(1, bytes.len() as int), depth + 1)
            == RemainingLength::Malformed);
    }
}

/// The number the bytes of a Remaining Length stand for: the low seven
/// bits of each byte, least significant group first.
pub open spec fn varint_value(e: Seq<u8>) -> nat
    decreases e.len(),
{
    if e.len() == 0 {
        0
    } else {
        (e[0] % 128) as nat + 128 * varint_value(e.skip(1))
    }
}

/// The shape of an encoding: every byte but the last has its high bit set,
/// the last has it clear, the low seven bits give back `n`, and a last
/// byte after others is not zero.
proof fn lemma_varint_shape(n: nat)
    ensures
        spec_varint(n).len() >= 1,
        forall|i: int| 0 <= i < spec_varint(n).len() - 1 ==> spec_varint(n)[i] >= 128,
        spec_varint(n).last() < 128,
        varint_value(spec_varint(n)) == n,
        spec_varint(n).len() > 1 ==> spec_varint(n).last() != 0,
    decreases n,
{
    let e = spec_varint(n);
    if n < 128 {
        assert(e.skip(1) =~= Seq::<u8>::empty());
        assert(varint_value(Seq::<u8>::empty()) == 0);
        assert(e[0] == n);
        assert(varint_value(e) == (e[0] % 128) as nat + 128 * varint_value(e.skip(1)));
    } else {
        let rest = spec_varint(n / 128);
        lemma_varint_shape(n / 128);
        let b: u8 = (n % 128 + 128) as u8;
        assert(e == seq![b] + rest);
        assert(e.skip(1) =~= rest);
        assert(b % 128 == n % 128);
        assert(e[0] == b);
        assert(varint_value(e) == (e[0] % 128) as nat + 128 * varint_value(e.skip(1)));
        assert(n % 128 + 128 * (n / 128) == n);
        assert(e.last() == rest.last());
        assert forall|i: int| 0 <= i < e.len() - 1 implies e[i] >= 128 by {
            if i > 0 {
                assert(e[i] == rest[i - 1]);
            }
        }
        if rest.len() == 1 {
            assert(rest.last() == (n / 128) as u8);
        }
    }
}

/// An encoding of a value below `depth_cap(depth)` takes at most
/// `4 - depth` bytes.
proof fn lemma_varint_len(n: nat, depth: nat)
    requires
        depth < 4,
        n < depth_cap(depth),
    ensures
        spec_varint(n).len() <= 4 - depth,
    decreases n,
{
    if n >= 128 {
        assert(depth < 3);
        lemma_varint_len(n / 128, depth + 1);
    }
}

/// The byte form of every legal Remaining Length: one to four bytes; every
/// byte but the last carries the continuation bit (is at least 128) and
/// the last does not; the seven-bit groups, least significant first, add
/// up to the length; and the encoding is minimal, its last byte non-zero
/// when there is more than one.
pub proof fn lemma_remaining_length_bytes(n: nat)
    requires
        n <= MAX_REMAINING_LENGTH,
    ensures
        1 <= spec_varint(n).len() <= 4,
        forall|i: int| 0 <= i < spec_varint(n).len() - 1 ==> spec_varint(n)[i] >= 128,
        spec_varint(n).last() < 128,
        varint_value(spec_varint(n)) == n,
        spec_varint(n).len() > 1 ==> spec_varint(n).last() != 0,
{
    lemma_varint_shape(n);
    lemma_varint_len(n, 0);
}

/// The two-byte big-endian length prefix followed by the bytes (§1.5.3).
pub open spec fn spec_length_prefixed(b: Seq<u8>) -> Seq<u8> {
    seq![(b.len() / 256) as u8, (b.len() % 256) as u8] + b
}

/// The encoding of a UTF-8 string field: its bytes, length-prefixed.
pub open spec fn spec_encode_str(s: Seq<char>) -> Seq<u8> {
    spec_length_prefixed(vstd::utf8::encode_utf8(s))
}

/// A packet: the first header byte `type << 4 | flags`, the Remaining
/// Length, then the body.
pub open spec fn spec_packet(ptype: u8, flags: u8, body: Seq<u8>) -> Seq<u8> {
    seq![(ptype * 16 + flags) as u8] + spec_varint(body.len() as nat) + body
}

/// Append the Remaining Length encoding of `len` to `buf`.
pub fn encode_remaining_length(buf: &mut Vec<u8>, len: usize)
    requires
        len <= MAX_REMAINING_LENGTH,
    ensures
        final(buf)@ == old(buf)@ + spec_varint(len as nat),
{
    let ghost start = old(buf)@;
    let ghost orig = len as nat;
    let mut rest = len;
    loop
        invariant_except_break
            start + spec_varint(orig) == buf@ + spec_varint(rest as nat),
        ensures
            buf@ == start + spec_varint(orig),
        decreases rest,
    {
        let low = (rest % 128) as u8;
        let next = rest / 128;
        if next > 0 {
            let byte: u8 = low + 128;
            buf.push(byte);
            assert(spec_varint(rest as nat) =~= seq![byte] + spec_varint(next as nat));
            assert(buf@ + spec_varint(next as nat) =~= (buf@.drop_last() + seq![byte])
                + spec_varint(next as nat));
            rest = next;
        } else {
            let ghost before = buf@;
            buf.push(low);
            assert(spec_varint(rest as nat) =~= seq![low]);
            assert(buf@ =~= before + seq![low]);
            break ;
        }
    }
}

/// Read a Remaining Length from the front of `bytes` (§2.2.3). Never looks
/// past the fourth byte: four bytes that all carry the continuation bit are
/// `Malformed`.
pub fn decode_remaining_length(bytes: &[u8]) -> (r: RemainingLength)
    ensures
        r == spec_decode_remaining_length(bytes@),
{
    decode_at(bytes, 0)
}

fn decode_at(bytes: &[u8], depth: u8) -> (r: RemainingLength)
    requires
        depth <= 4,
    ensures
        r == spec_decode_at(bytes@, depth as nat),
    decreases 4 - depth,
{
    if depth >= 4 {
        return RemainingLength::Malformed;
    }
    if bytes.len() == 0 {
        return RemainingLength::Incomplete;
    }
    let b = bytes[0];
    if b < 128 {
        return RemainingLength::Complete { value: b as usize, consumed: 1 };
    }
    let rest = &bytes[1..bytes.len()];
    assert(rest@ =~= bytes@.subrange(1, bytes@.len() as int));
    let inner = decode_at(rest, depth + 1);
    match inner {
        RemainingLength::Complete { value, consumed } => {
            proof {
                if depth + 1 < 4 {
                    lemma_decode_at_bounds(rest@, (depth + 1) as nat);
                }
                assert(value < depth_cap((depth + 1) as nat));
            }
            RemainingLength::Complete {
                value: (b - 128) as usize + 128 * value,
                consumed: consumed + 1,
            }
        },
        other => other,
    }
}

/// Remaining Length round trip: for every legal length `n`, its encoding
/// takes one to four bytes, and reading a Remaining Length from the front of
/// any buffer that starts with that encoding gives `n` back and consumes
/// exactly the encoding, whatever follows it.
pub proof fn lemma_remaining_length_roundtrip(n: nat, rest: Seq<u8>)
    requires
        n <= MAX_REMAINING_LENGTH,
    ensures
        1 <= spec_varint(n).len() <= 4,
        spec_decode_remaining_length(spec_varint(n) + rest) == (RemainingLength::Complete {
            value: n as usize,
            consumed: spec_varint(n).len() as usize,
        }),
{
    lemma_varint_decode_at(n, rest, 0);
}

proof fn lemma_varint_decode_at(n: nat, rest: Seq<u8>, depth: nat)
    requires
        depth < 4,
        n < depth_cap(depth),
    ensures
        1 <= spec_varint(n).len() <= 4 - depth,
        spec_decode_at(spec_varint(n) + rest, depth) == (RemainingLength::Complete {
            value: n as usize,
            consumed: spec_varint(n).len() as usize,
        }),
    decreases n,
{
    let e = spec_varint(n) + rest;
    if n < 128 {
        assert(e[0] == n as u8);
    } else {
        let q = n / 128;
        assert(q < depth_cap(depth + 1));
        lemma_varint_decode_at(q, rest, depth + 1);
        assert(e.subrange(1, e.len() as int) =~= spec_varint(q) + rest);
        assert(e[0] == (n % 128 + 128) as u8);
        assert((n % 128) + 128 * q == n);
    }
}

/// Distinct legal lengths have distinct encodings.
pub proof fn lemma_remaining_length_injective(m: nat, n: nat)
    requires
        m <= MAX_REMAINING_LENGTH,
        n <= MAX_REMAINING_LENGTH,
        spec_varint(m) == spec_varint(n),
    ensures
        m == n,
{
    lemma_remaining_length_roundtrip(m, Seq::<u8>::empty());
    lemma_remaining_length_roundtrip(n, Seq::<u8>::empty());
}

/// Append a length-prefixed binary field (§1.5.3) to `buf`.
pub fn encode_bytes(buf: &mut Vec<u8>, b: &[u8])
    requires
        b@.len() <= MAX_FIELD_LENGTH,
    ensures
        final(buf)@ == old(buf)@ + spec_length_prefixed(b@),
{
    let n = b.len();
    buf.push((n / 256) as u8);
    buf.push((n % 256) as u8);
    let ghost mid = buf@;
    let mut i: usize = 0;
    while i < n
        invariant
            n == b@.len(),
            0 <= i <= n,
            buf@ == mid + b@.subrange(0, i as int),
        decreases n - i,
    {
        buf.push(b[i]);
        assert(b@.subrange(0, i + 1) =~= b@.subrange(0, i as int).push(b@[i as int]));
        i = i + 1;
    }
    assert(b@.subrange(0, n as int) =~= b@);
    assert(old(buf)@ + spec_length_prefixed(b@) =~= mid + b@);
}

/// Append a length-prefixed UTF-8 string field (§1.5.3) to `buf`.
pub fn encode_string(buf: &mut Vec<u8>, s: &str)
    requires
        s.spec_bytes().len() <= MAX_FIELD_LENGTH,
    ensures
        final(buf)@ == old(buf)@ + spec_encode_str(s@),
{
    encode_bytes(buf, s.as_bytes());
}

/// A packet with fixed header `ptype << 4 | flags`, the Remaining Length of
/// `body`, then `body`.
pub fn packet_with_header(ptype: u8, flags: u8, body: &[u8]) -> (r: Vec<u8>)
    requires
        ptype < 16,
        flags < 16,
        body@.len() <= MAX_REMAINING_LENGTH,
    ensures
        r@ == spec_packet(ptype, flags, body@),
{
    let mut out: Vec<u8> = Vec::new();
    out.push(ptype * 16 + flags);
    encode_remaining_length(&mut out, body.len());
    let ghost mid = out@;
    let mut i: usize = 0;
    while i < body.len()
        invariant
            0 <= i <= body@.len(),
            out@ == mid + body@.subrange(0, i as int),
        decreases body@.len() - i,
    {
        out.push(body[i]);
        assert(body@.subrange(0, i + 1) =~= body@.subrange(0, i as int).push(body@[i as int]));
        i = i + 1;
    }
    assert(body@.subrange(0, body@.len() as int) =~= body@);
    out
}

} // verus!
