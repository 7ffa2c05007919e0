//! Bit-level codec for CAN frame payloads: extraction and insertion of an
//! arbitrary-width bit field at an arbitrary DBC-notation bit position, in
//! either byte order, plus two's-complement sign extension.

use vstd::prelude::*;
use vstd::arithmetic::power2::pow2;
use vstd::arithmetic::power2::lemma_pow2_unfold;
use vstd::arithmetic::power2::lemma_pow2_adds;
use vstd::arithmetic::power2::lemma_pow2_pos;
use vstd::arithmetic::power2::lemma2_to64;
use vstd::arithmetic::power2::lemma2_to64_rest;
use vstd::arithmetic::div_mod::lemma_mod_breakdown;
use vstd::arithmetic::div_mod::lemma_div_denominator;
use vstd::bits::lemma_u64_pow2_no_overflow;
use vstd::bits::lemma_u64_shl_is_mul;

verus! {

/// Byte order of a signal within a CAN frame, in DBC terminology.
#[derive(Debug, Clone, Copy, PartialEq, Eq, Structural)]
pub enum ByteOrder {
    /// Big endian ("Motorola" in DBC terminology).
    Motorola,
    /// Little endian ("Intel" in DBC terminology).
    Intel,
}

impl Default for ByteOrder {
    /// DBC signals default to little-endian ("Intel") byte order.
    fn default() -> (r: Self)
        ensures
            r == ByteOrder::Intel,
    {
        ByteOrder::Intel
    }
}

/// `pow2(k)` equals the exec shift `1u64 << k` for shifts below the width.
pub proof fn lemma_pow2_shl(k: u64)
    requires
        k < 64,
    ensures
        pow2(k as nat) == (1u64 << k) as nat,
        pow2(k as nat) <= u64::MAX,
{
    lemma_u64_pow2_no_overflow(k as nat);
    lemma_u64_shl_is_mul(1u64, k);
}

/// Bit `k` (counting from the least-significant end) of the natural number `x`.
pub open spec fn bit_of(x: nat, k: nat) -> nat {
    (x / pow2(k)) % 2
}

/// Bit `p` of a payload under the flat little-endian numbering: bit `p % 8`
/// (least-significant first) of byte `p / 8`; positions past the end of the
/// payload read as zero.
pub open spec fn payload_bit(data: Seq<u8>, p: nat) -> nat {
    if p < 8 * data.len() {
        bit_of(data[p as int / 8] as nat, p % 8)
    } else {
        0
    }
}

/// The unsigned integer formed by concatenating `len` payload bits starting
/// at flat position `start`, least-significant extracted bit at result bit 0.
pub open spec fn field_value(data: Seq<u8>, start: nat, len: nat) -> nat
    decreases len,
{
    if len == 0 {
        0
    } else {
        payload_bit(data, start) + 2 * field_value(data, start + 1, (len - 1) as nat)
    }
}

/// The flat bit position at which a field with DBC start bit `start_bit`
/// begins. For little-endian signals the DBC start bit is already the flat
/// position; for big-endian ("Motorola") signals the bit number is reversed
/// within its byte.
pub open spec fn flat_start_bit(start_bit: u8, order: ByteOrder) -> nat {
    match order {
        ByteOrder::Intel => start_bit as nat,
        ByteOrder::Motorola => (8 * ((start_bit as nat) / 8) + 7 - ((start_bit as nat) % 8)) as nat,
    }
}

/// A field value is bounded by two to the power of its width.
pub proof fn lemma_field_value_bound(data: Seq<u8>, start: nat, len: nat)
    ensures
        field_value(data, start, len) < pow2(len),
    decreases len,
{
    if len == 0 {
        lemma2_to64();
    } else {
        lemma_field_value_bound(data, start + 1, (len - 1) as nat);
        lemma_pow2_unfold(len);
    }
}

/// A field that starts past the end of the payload is zero.
pub proof fn lemma_field_value_zero(data: Seq<u8>, start: nat, len: nat)
    requires
        start >= 8 * data.len(),
    ensures
        field_value(data, start, len) == 0,
    decreases len,
{
    if len > 0 {
        lemma_field_value_zero(data, start + 1, (len - 1) as nat);
    }
}

/// Splitting a field: the low `a` bits and the following `b` bits combine
/// positionally.
pub proof fn lemma_field_value_split(data: Seq<u8>, start: nat, a: nat, b: nat)
    ensures
        field_value(data, start, a + b) == field_value(data, start, a) + pow2(a) * field_value(
            data,
            (start + a) as nat,
            b,
        ),
    decreases a,
{
    if a == 0 {
        lemma2_to64();
    } else {
        lemma_field_value_split(data, start + 1, (a - 1) as nat, b);
        lemma_pow2_unfold(a);
        let x = field_value(data, start + 1, (a - 1) as nat);
        let y = field_value(data, (start + a) as nat, b);
        let p = pow2((a - 1) as nat);
        assert(2 * (x + p * y) == 2 * x + (2 * p) * y) by (nonlinear_arith);
    }
}

/// A field contained in a single byte is a shifted, masked read of that byte.
pub proof fn lemma_field_value_in_byte(data: Seq<u8>, b_idx: nat, c: nat, t: nat)
    requires
        b_idx < data.len(),
        c < 8,
        c + t <= 8,
    ensures
        field_value(data, 8 * b_idx + c, t) == ((data[b_idx as int] as nat) / pow2(c)) % pow2(t),
    decreases t,
{
    let byte = data[b_idx as int] as nat;
    if t == 0 {
        lemma2_to64();
    } else {
        let p = 8 * b_idx + c;
        assert(p < 8 * data.len() && p / 8 == b_idx && p % 8 == c) by (nonlinear_arith)
            requires
                c < 8,
                b_idx < data.len(),
                p == 8 * b_idx + c,
        ;
        assert(payload_bit(data, p) == (byte / pow2(c)) % 2);
        if t == 1 {
            lemma2_to64();
            assert(field_value(data, p + 1, 0) == 0);
            assert(field_value(data, p, 1) == payload_bit(data, p));
        } else {
            lemma_field_value_in_byte(data, b_idx, c + 1, (t - 1) as nat);
            lemma_pow2_unfold(c + 1);
            lemma_pow2_pos(c);
            // byte / 2^(c+1) == (byte / 2^c) / 2
            lemma_div_denominator(byte as int, pow2(c) as int, 2);
            lemma_pow2_unfold(t);
            lemma_pow2_pos((t - 1) as nat);
            // x % 2^t == 2 * ((x / 2) % 2^(t-1)) + x % 2
            lemma_mod_breakdown((byte / pow2(c)) as int, 2, pow2((t - 1) as nat) as int);
        }
    }
}

/// Convert a DBC-notation Motorola bit position to a byte index and a flat
/// (LSB-first) bit index within that byte: the bit numbering is reversed
/// within each byte, so DBC bit 0 names the most significant bit of byte 0
/// and DBC bit 7 its least significant.
pub fn dbc_motorola_to_position(dbc_bit: usize) -> (r: (usize, usize))
    ensures
        r.0 == dbc_bit / 8,
        r.1 == 7 - (dbc_bit % 8),
{
    let byte: usize = dbc_bit / 8;
    let bit_in_byte: usize = 7 - (dbc_bit % 8);
    (byte, bit_in_byte)
}

/// Whether an extraction or insertion request addresses the payload at all:
/// the payload is non-empty, the width is between 1 and 64 bits, and the
/// byte holding the field's DBC start bit exists. A field may still run off
/// the end of the payload; the bits that do are read as zero and are not
/// written.
pub open spec fn field_in_range(data: Seq<u8>, start_bit: u8, bit_length: u8) -> bool {
    data.len() > 0 && 1 <= bit_length <= 64 && (start_bit as nat) / 8 < data.len()
}

/// Extract `bit_length` bits beginning at DBC bit position `start_bit` from
/// a CAN payload, walking forward through increasing flat bit positions and
/// packing the bits into the result at increasing significance.
pub fn extract_bits(data: &[u8], start_bit: u8, bit_length: u8, byte_order: ByteOrder) -> (r:
    Option<u64>)
    ensures
        r is Some <==> field_in_range(data@, start_bit, bit_length),
        r is Some ==> r->Some_0 == field_value(
            data@,
            flat_start_bit(start_bit, byte_order),
            bit_length as nat,
        ) && r->Some_0 < pow2(bit_length as nat),
{
    if data.len() == 0 || bit_length == 0 || bit_length > 64 {
        return None;
    }
    let (byte_idx, bit_idx) = match byte_order {
        ByteOrder::Intel => ((start_bit / 8) as usize, (start_bit % 8) as usize),
        ByteOrder::Motorola => dbc_motorola_to_position(start_bit as usize),
    };
    if byte_idx >= data.len() {
        return None;
    }
    let ghost fs: nat = flat_start_bit(start_bit, byte_order);
    let ghost total: nat = bit_length as nat;
    assert(8 * byte_idx + bit_idx == fs);

    let mut result: u64 = 0;
    let mut bits_remaining: usize = bit_length as usize;
    let mut current_byte: usize = byte_idx;
    let mut current_bit: usize = bit_idx;

    proof {
        lemma2_to64();
    }
    while bits_remaining > 0 && current_byte < data.len()
        invariant
            current_bit < 8,
            total == bit_length as nat,
            bits_remaining <= total <= 64,
            8 * current_byte + current_bit == fs + (total - bits_remaining),
            result == field_value(data@, fs, (total - bits_remaining) as nat),
            result < pow2((total - bits_remaining) as nat),
        decreases bits_remaining,
    {
        let ghost consumed: nat = (total - bits_remaining) as nat;
        let bits_to_read: usize = if bits_remaining < 8 - current_bit {
            bits_remaining
        } else {
            8 - current_bit
        };
        proof {
            let t = bits_to_read;
            let c = current_bit;
            assert((((1u32 << t) - 1) as u32) << c <= 0xff && (1u32 << t) >= 1) by (bit_vector)
                requires
                    1 <= t <= 8,
                    c < 8,
                    c + t <= 8,
            ;
        }
        let mask: u8 = (((1u32 << bits_to_read) - 1) << current_bit) as u8;
        let byte: u8 = data[current_byte];
        let bits: u64 = ((byte & mask) >> current_bit) as u64;
        let shift: usize = (bit_length as usize) - bits_remaining;
        proof {
            let t = bits_to_read;
            let c = current_bit;
            let m = mask;
            assert(((byte & m) >> c) as u64 == ((byte as u64) / (1u64 << (c as u64))) % (1u64 << (
            t as u64))) by (bit_vector)
                requires
                    1 <= t <= 8,
                    c < 8,
                    c + t <= 8,
                    m == ((((1u32 << (t as u32)) - 1) as u32) << (c as u32)) as u8,
            ;
            lemma_pow2_shl(c as u64);
            lemma_pow2_shl(t as u64);
            lemma_field_value_in_byte(data@, current_byte as nat, c as nat, t as nat);
            assert(bits == field_value(data@, fs + consumed, t as nat));
            lemma_field_value_bound(data@, fs + consumed, t as nat);
            // merging the chunk into the accumulator adds it at the right weight
            let sh = shift;
            lemma_pow2_shl(sh as u64);
            assert(shift == consumed && shift + t <= 64);
            lemma_pow2_adds(sh as nat, t as nat);
            lemma_pow2_pos(sh as nat);
            lemma_pow2_pos(t as nat);
            assert(pow2((sh + t) as nat) <= pow2(64)) by {
                if sh + t < 64 {
                    vstd::arithmetic::power2::lemma_pow2_strictly_increases((sh + t) as nat, 64);
                }
            }
            lemma2_to64();
            lemma2_to64_rest();
            assert(bits * pow2(sh as nat) <= u64::MAX) by (nonlinear_arith)
                requires
                    bits < pow2(t as nat),
                    pow2(sh as nat) * pow2(t as nat) == pow2((sh + t) as nat),
                    pow2((sh + t) as nat) <= 0x1_0000_0000_0000_0000,
                    pow2(sh as nat) > 0,
            ;
            lemma_u64_shl_is_mul(bits, sh as u64);
            assert((result | (bits << (sh as u64))) as int == result + (bits << (sh as u64)))
                by (bit_vector)
                requires
                    sh < 64,
                    sh + t <= 64,
                    1 <= t,
                    result < (1u64 << (sh as u64)),
                    bits < (1u64 << (t as u64)),
                ;
            lemma_field_value_split(data@, fs, consumed, t as nat);
            assert((bits << (sh as u64)) as int == bits * pow2(consumed));
            assert(field_value(data@, fs, consumed + t as nat) == result + pow2(consumed)
                * field_value(data@, fs + consumed, t as nat));
            assert(pow2(consumed) * field_value(data@, fs + consumed, t as nat) == bits * pow2(
                consumed,
            ));
            assert((result | (bits << (sh as u64))) as int == field_value(
                data@,
                fs,
                consumed + t as nat,
            ));
        }
        result = result | (bits << (shift as u64));
        bits_remaining = bits_remaining - bits_to_read;
        current_bit = current_bit + bits_to_read;
        if current_bit >= 8 {
            current_bit = 0;
            current_byte = current_byte + 1;
        }
        proof {
            lemma_field_value_bound(data@, fs, (total - bits_remaining) as nat);
        }
    }
    if bits_remaining > 0 {
        proof {
            // the walk ran off the end of the payload; the missing bits are zero
            let consumed: nat = (total - bits_remaining) as nat;
            lemma_field_value_zero(data@, fs + consumed, bits_remaining as nat);
            lemma_field_value_split(data@, fs, consumed, bits_remaining as nat);
            lemma_field_value_bound(data@, fs, total);
        }
    } else {
        proof {
            lemma_field_value_bound(data@, fs, total);
        }
    }
    Some(result)
}

/// Byte `b` with bit `j` (LSB-first) forced to `bit`, all other bits kept.
pub open spec fn set_bit_in_byte(b: u8, j: u8, bit: bool) -> u8 {
    if bit {
        b | (1u8 << j)
    } else {
        b & !(1u8 << j)
    }
}

/// The payload with flat bit position `p` forced to `bit`; positions past
/// the end of the payload are left alone.
pub open spec fn set_payload_bit(data: Seq<u8>, p: nat, bit: bool) -> Seq<u8> {
    if p < 8 * data.len() {
        data.update(p as int / 8, set_bit_in_byte(data[p as int / 8], (p % 8) as u8, bit))
    } else {
        data
    }
}

/// The payload after writing the low `len` bits of `value` at flat bit
/// positions `start..start+len`, least-significant bit first; bits that fall
/// past the end of the payload are dropped and every other bit is kept.
pub open spec fn insert_field(data: Seq<u8>, value: u64, start: nat, len: nat) -> Seq<u8>
    decreases len,
{
    if len == 0 {
        data
    } else {
        insert_field(
            set_payload_bit(data, start, value % 2 == 1),
            value / 2,
            start + 1,
            (len - 1) as nat,
        )
    }
}

/// Bit `k` of a byte, numerically and as a shift-and-mask read, agree.
pub proof fn lemma_u8_bit(x: u8, k: u8)
    requires
        k < 8,
    ensures
        bit_of(x as nat, k as nat) == ((x >> k) & 1) as nat,
{
    vstd::bits::lemma_u8_shr_is_div(x, k);
    let y = x >> k;
    assert(y & 1 == y % 2) by (bit_vector);
}

/// Bit `k` of a 64-bit word, numerically and as a shift-and-mask read, agree.
pub proof fn lemma_u64_bit(x: u64, k: u64)
    requires
        k < 64,
    ensures
        bit_of(x as nat, k as nat) == ((x >> k) & 1) as nat,
{
    vstd::bits::lemma_u64_shr_is_div(x, k);
    let y = x >> k;
    assert(y & 1 == y % 2) by (bit_vector);
}

/// Forcing bit `j` of a byte changes that bit and no other.
pub proof fn lemma_set_bit_in_byte(b: u8, j: u8, k: u8, v: bool)
    requires
        j < 8,
        k < 8,
    ensures
        k == j ==> bit_of(set_bit_in_byte(b, j, v) as nat, k as nat) == (if v {
            1nat
        } else {
            0nat
        }),
        k != j ==> bit_of(set_bit_in_byte(b, j, v) as nat, k as nat) == bit_of(b as nat, k as nat),
{
    lemma_u8_bit(b, k);
    lemma_u8_bit(set_bit_in_byte(b, j, v), k);
    if v {
        assert(((b | (1u8 << j)) >> k) & 1 == (if k == j {
            1u8
        } else {
            (b >> k) & 1
        })) by (bit_vector)
            requires
                j < 8,
                k < 8,
        ;
    } else {
        assert(((b & !(1u8 << j)) >> k) & 1 == (if k == j {
            0u8
        } else {
            (b >> k) & 1
        })) by (bit_vector)
            requires
                j < 8,
                k < 8,
        ;
    }
}

/// Forcing one payload bit changes that bit and no other, and keeps the length.
pub proof fn lemma_set_payload_bit(data: Seq<u8>, p0: nat, v: bool, p: nat)
    ensures
        set_payload_bit(data, p0, v).len() == data.len(),
        p == p0 && p0 < 8 * data.len() ==> payload_bit(set_payload_bit(data, p0, v), p) == (if v {
            1nat
        } else {
            0nat
        }),
        p != p0 || p0 >= 8 * data.len() ==> payload_bit(set_payload_bit(data, p0, v), p)
            == payload_bit(data, p),
{
    if p0 < 8 * data.len() {
        let b0 = p0 as int / 8;
        let j0 = (p0 % 8) as u8;
        vstd::arithmetic::div_mod::lemma_fundamental_div_mod(p0 as int, 8);
        if p < 8 * data.len() {
            let b = p as int / 8;
            let k = (p % 8) as u8;
            vstd::arithmetic::div_mod::lemma_fundamental_div_mod(p as int, 8);
            if b == b0 {
                lemma_set_bit_in_byte(data[b0], j0, k, v);
            }
        }
    }
}

/// What every bit of the payload reads after a field is written: positions
/// inside the written range (and inside the payload) hold the value's bits,
/// every other position is untouched.
pub proof fn lemma_insert_field_bits(data: Seq<u8>, value: u64, start: nat, len: nat, p: nat)
    ensures
        insert_field(data, value, start, len).len() == data.len(),
        start <= p < start + len && p < 8 * data.len() ==> payload_bit(
            insert_field(data, value, start, len),
            p,
        ) == bit_of(value as nat, (p - start) as nat),
        !(start <= p < start + len) ==> payload_bit(insert_field(data, value, start, len), p)
            == payload_bit(data, p),
    decreases len,
{
    if len > 0 {
        let d1 = set_payload_bit(data, start, value % 2 == 1);
        lemma_set_payload_bit(data, start, value % 2 == 1, p);
        lemma_set_payload_bit(data, start, value % 2 == 1, start);
        lemma_insert_field_bits(d1, value / 2, start + 1, (len - 1) as nat, p);
        lemma2_to64();
        if start + 1 <= p < start + len && p < 8 * data.len() {
            // bit (p - start - 1) of value/2 is bit (p - start) of value
            let k = (p - start - 1) as nat;
            lemma_pow2_unfold(k + 1);
            lemma_pow2_pos(k);
            lemma_div_denominator(value as int, 2, pow2(k) as int);
            assert(bit_of((value / 2) as nat, k) == bit_of(value as nat, k + 1));
        }
        if p == start && p < 8 * data.len() {
            assert(pow2(0) == 1);
            assert((value as nat) / 1 == value as nat) by (nonlinear_arith);
            assert(bit_of(value as nat, 0) == (value as nat) % 2);
        }
    }
}

/// Two payloads of equal length whose bits all agree are equal.
pub proof fn lemma_payload_ext(d1: Seq<u8>, d2: Seq<u8>)
    requires
        d1.len() == d2.len(),
        forall|p: nat| p < 8 * d1.len() ==> payload_bit(d1, p) == payload_bit(d2, p),
    ensures
        d1 =~= d2,
{
    assert forall|i: int| 0 <= i < d1.len() implies d1[i] == d2[i] by {
        let a = d1[i];
        let b = d2[i];
        assert forall|k: u8| k < 8 implies bit_of(a as nat, k as nat) == bit_of(
            b as nat,
            k as nat,
        ) by {
            let p = (8 * i + k) as nat;
            assert(p < 8 * d1.len() && p as int / 8 == i && p % 8 == k as nat) by (nonlinear_arith)
                requires
                    k < 8,
                    0 <= i < d1.len(),
                    p == (8 * i + k) as nat,
            ;
            assert(payload_bit(d1, p) == payload_bit(d2, p));
        }
        assert forall|k: u8| k < 8 implies ((a >> k) & 1) == ((b >> k) & 1) by {
            lemma_u8_bit(a, k);
            lemma_u8_bit(b, k);
        }
        assert(a == b) by (bit_vector)
            requires
                (a >> 0) & 1 == (b >> 0) & 1,
                (a >> 1) & 1 == (b >> 1) & 1,
                (a >> 2) & 1 == (b >> 2) & 1,
                (a >> 3) & 1 == (b >> 3) & 1,
                (a >> 4) & 1 == (b >> 4) & 1,
                (a >> 5) & 1 == (b >> 5) & 1,
                (a >> 6) & 1 == (b >> 6) & 1,
                (a >> 7) & 1 == (b >> 7) & 1,
        ;
    }
}

/// One byte of the payload after a masked write, bit for bit: bits
/// `c..c+t` of the new byte come from bits `vs..vs+t` of `value`, the rest
/// keep their old reading.
proof fn lemma_insert_byte_update(
    oldb: u8,
    newb: u8,
    chunk: u8,
    cm: u8,
    m: u64,
    value: u64,
    c: u8,
    t: u8,
    vs: u64,
    k: u8,
)
    requires
        c < 8,
        1 <= t,
        c + t <= 8,
        k < 8,
        vs < 64,
        vs + t <= 64,
        m == (((1u64 << (t as u64)) - 1) as u64) << vs,
        chunk == ((value & m) >> vs) as u8,
        cm == !(((((1u32 << (t as u32)) - 1) as u32) << (c as u32)) as u8),
        newb == (oldb & cm) | (chunk << c),
    ensures
        c <= k < c + t ==> ((newb >> k) & 1) as u64 == (value >> ((vs + k - c) as u64)) & 1,
        !(c <= k < c + t) ==> (newb >> k) & 1 == (oldb >> k) & 1,
{
    assert((c <= k < c + t ==> ((((oldb & cm) | (chunk << c)) >> k) & 1) as u64 == (value >> ((vs
        + k - c) as u64)) & 1) && (!(c <= k < c + t) ==> (((oldb & cm) | (chunk << c)) >> k) & 1
        == (oldb >> k) & 1)) by (bit_vector)
        requires
            c < 8,
            1 <= t,
            c + t <= 8,
            k < 8,
            vs < 64,
            vs + t <= 64,
            m == (((1u64 << (t as u64)) - 1) as u64) << vs,
            chunk == ((value & m) >> vs) as u8,
            cm == !(((((1u32 << (t as u32)) - 1) as u32) << (c as u32)) as u8),
    ;
}

/// Write `bit_length` bits of `value` into a CAN payload at DBC bit
/// position `start_bit`, the exact inverse position computation of
/// [`extract_bits`]. Returns `false` (and writes nothing) when the request
/// is out of range; on success only the targeted bit range changes.
pub fn insert_bits(
    data: &mut [u8],
    value: u64,
    start_bit: u8,
    bit_length: u8,
    byte_order: ByteOrder,
) -> (r: bool)
    ensures
        r == field_in_range(old(data)@, start_bit, bit_length),
        !r ==> final(data)@ == old(data)@,
        r ==> final(data)@ =~= insert_field(
            old(data)@,
            value,
            flat_start_bit(start_bit, byte_order),
            bit_length as nat,
        ),
{
    if data.len() == 0 || bit_length == 0 || bit_length > 64 {
        return false;
    }
    let (byte_idx, bit_idx) = match byte_order {
        ByteOrder::Intel => ((start_bit / 8) as usize, (start_bit % 8) as usize),
        ByteOrder::Motorola => dbc_motorola_to_position(start_bit as usize),
    };
    if byte_idx >= data.len() {
        return false;
    }
    let ghost fs: nat = flat_start_bit(start_bit, byte_order);
    let ghost total: nat = bit_length as nat;
    let ghost orig: Seq<u8> = data@;
    assert(8 * byte_idx + bit_idx == fs);

    let mut bits_remaining: usize = bit_length as usize;
    let mut current_byte: usize = byte_idx;
    let mut current_bit: usize = bit_idx;
    let mut value_shift: usize = 0;

    while bits_remaining > 0 && current_byte < data.len()
        invariant
            current_bit < 8,
            total == bit_length as nat,
            bits_remaining <= total <= 64,
            data@.len() == orig.len(),
            value_shift == total - bits_remaining,
            8 * current_byte + current_bit == fs + (total - bits_remaining),
            forall|p: nat|
                fs <= p < fs + (total - bits_remaining) && p < 8 * orig.len() ==> payload_bit(
                    data@,
                    p,
                ) == bit_of(value as nat, (p - fs) as nat),
            forall|p: nat|
                !(fs <= p < fs + (total - bits_remaining)) ==> payload_bit(data@, p)
                    == payload_bit(orig, p),
        decreases bits_remaining,
    {
        let ghost written: nat = (total - bits_remaining) as nat;
        let ghost pre: Seq<u8> = data@;
        let bits_to_write: usize = if bits_remaining < 8 - current_bit {
            bits_remaining
        } else {
            8 - current_bit
        };
        proof {
            let t = bits_to_write;
            let c = current_bit;
            assert((((1u32 << t) - 1) as u32) << c <= 0xff && (1u32 << t) >= 1 && (1u64 << t)
                >= 1) by (bit_vector)
                requires
                    1 <= t <= 8,
                    c < 8,
                    c + t <= 8,
            ;
        }
        let mask: u64 = ((1u64 << bits_to_write) - 1) << value_shift;
        let chunk: u8 = ((value & mask) >> value_shift) as u8;
        proof {
            let t = bits_to_write;
            let vs = value_shift;
            let m = mask;
            assert(((value & m) >> vs) <= 0xff) by (bit_vector)
                requires
                    1 <= t <= 8,
                    vs < 64,
                    m == (((1u64 << (t as u64)) - 1) as u64) << (vs as u64),
            ;
        }
        let clear_mask: u8 = !((((1u32 << bits_to_write) - 1) << current_bit) as u8);
        let oldb: u8 = data[current_byte];
        let newb: u8 = (oldb & clear_mask) | (chunk << current_bit);
        data[current_byte] = newb;
        proof {
            let t = bits_to_write;
            let c = current_bit;
            let vs = value_shift;
            assert(data@ == pre.update(current_byte as int, newb));
            assert forall|p: nat|
                fs <= p < fs + (written + t) && p < 8 * orig.len() implies payload_bit(
                data@,
                p,
            ) == bit_of(value as nat, (p - fs) as nat) by {
                vstd::arithmetic::div_mod::lemma_fundamental_div_mod(p as int, 8);
                let b = p as int / 8;
                let k = (p % 8) as u8;
                if b == current_byte {
                    lemma_insert_byte_update(
                        oldb,
                        newb,
                        chunk,
                        clear_mask,
                        mask,
                        value,
                        c as u8,
                        t as u8,
                        vs as u64,
                        k,
                    );
                    lemma_u8_bit(newb, k);
                    if c <= k < c + t {
                        // p is in the chunk written this iteration
                        assert(p - fs == vs + k - c);
                        lemma_u64_bit(value, (vs + k as u64 - c as u64) as u64);
                    } else {
                        // p was written by an earlier iteration of this byte
                        lemma_u8_bit(oldb, k);
                        assert(payload_bit(pre, p) == bit_of(oldb as nat, k as nat));
                        assert(fs <= p < fs + written);
                    }
                } else {
                    assert(payload_bit(data@, p) == payload_bit(pre, p));
                    assert(fs <= p < fs + written);
                }
            }
            assert forall|p: nat| !(fs <= p < fs + (written + t)) implies payload_bit(data@, p)
                == payload_bit(orig, p) by {
                if p < 8 * orig.len() {
                    vstd::arithmetic::div_mod::lemma_fundamental_div_mod(p as int, 8);
                    let b = p as int / 8;
                    let k = (p % 8) as u8;
                    if b == current_byte {
                        lemma_insert_byte_update(
                            oldb,
                            newb,
                            chunk,
                            clear_mask,
                            mask,
                            value,
                            c as u8,
                            t as u8,
                            vs as u64,
                            k,
                        );
                        lemma_u8_bit(newb, k);
                        lemma_u8_bit(oldb, k);
                        assert(!(c <= k < c + t));
                        assert(payload_bit(pre, p) == bit_of(oldb as nat, k as nat));
                    } else {
                        assert(payload_bit(data@, p) == payload_bit(pre, p));
                    }
                }
            }
        }
        bits_remaining = bits_remaining - bits_to_write;
        value_shift = value_shift + bits_to_write;
        current_bit = current_bit + bits_to_write;
        if current_bit >= 8 {
            current_bit = 0;
            current_byte = current_byte + 1;
        }
    }
    proof {
        let written: nat = (total - bits_remaining) as nat;
        let target = insert_field(orig, value, fs, total);
        assert forall|p: nat| p < 8 * data@.len() implies payload_bit(data@, p) == payload_bit(
            target,
            p,
        ) by {
            lemma_insert_field_bits(orig, value, fs, total, p);
            if fs <= p < fs + total {
                if p < fs + written {
                } else {
                    // the walk stopped at the end of the payload, so the
                    // unwritten tail of the field lies wholly past it
                    assert(bits_remaining > 0 && current_byte >= data@.len());
                    assert(p >= fs + written && fs + written == 8 * current_byte + current_bit);
                }
            }
        }
        lemma_insert_field_bits(orig, value, fs, total, 0);
        lemma_payload_ext(data@, insert_field(orig, value, fs, total));
    }
    true
}

/// A stretch of payload bits that spell out the bits of `v` reads back as
/// `v` reduced to the width of the stretch.
proof fn lemma_field_reads_value(d: Seq<u8>, v: u64, s: nat, n: nat)
    requires
        s + n <= 8 * d.len(),
        forall|k: nat| k < n ==> payload_bit(d, (s + k) as nat) == bit_of(v as nat, k),
    ensures
        field_value(d, s, n) == (v as nat) % pow2(n),
    decreases n,
{
    lemma2_to64();
    if n == 0 {
    } else {
        assert(payload_bit(d, s) == bit_of(v as nat, 0)) by {
            assert(payload_bit(d, (s + 0) as nat) == bit_of(v as nat, 0));
        }
        assert(bit_of(v as nat, 0) == (v as nat) % 2);
        assert forall|k: nat| k < (n - 1) as nat implies payload_bit(d, ((s + 1) + k) as nat)
            == #[trigger] bit_of((v / 2) as nat, k) by {
            assert(payload_bit(d, (s + (k + 1)) as nat) == bit_of(v as nat, k + 1));
            lemma_pow2_unfold(k + 1);
            lemma_pow2_pos(k);
            lemma_div_denominator(v as int, 2, pow2(k) as int);
        }
        lemma_field_reads_value(d, v / 2, s + 1, (n - 1) as nat);
        lemma_pow2_pos((n - 1) as nat);
        lemma_mod_breakdown(v as int, 2, pow2((n - 1) as nat) as int);
        lemma_pow2_unfold(n);
    }
}

/// Round trip of the codec: writing a field with [`insert_bits`] and
/// reading it back with [`extract_bits`], at the same position, width and
/// byte order, recovers the low `bit_length` bits of the written value —
/// for every payload and both byte orders, whenever the whole field lies
/// inside the payload.
pub proof fn lemma_insert_extract_roundtrip(
    data: Seq<u8>,
    value: u64,
    start_bit: u8,
    bit_length: u8,
    order: ByteOrder,
)
    requires
        field_in_range(data, start_bit, bit_length),
        flat_start_bit(start_bit, order) + bit_length <= 8 * data.len(),
    ensures
        field_value(
            insert_field(data, value, flat_start_bit(start_bit, order), bit_length as nat),
            flat_start_bit(start_bit, order),
            bit_length as nat,
        ) == (value as nat) % pow2(bit_length as nat),
{
    let fs = flat_start_bit(start_bit, order);
    let n = bit_length as nat;
    let d2 = insert_field(data, value, fs, n);
    lemma_insert_field_bits(data, value, fs, n, 0);
    assert forall|k: nat| k < n implies payload_bit(d2, (fs + k) as nat) == bit_of(
        value as nat,
        k,
    ) by {
        lemma_insert_field_bits(data, value, fs, n, (fs + k) as nat);
    }
    lemma_field_reads_value(d2, value, fs, n);
}

/// The result of two's-complement sign extension, bit for bit: if the top
/// bit of the `len`-bit field is set, all higher bits are filled with ones.
pub open spec fn sign_extend_spec(value: u64, len: u8) -> u64 {
    if len >= 64 {
        value
    } else if (value >> ((len - 1) as u64)) & 1 == 1 {
        value | (u64::MAX << (len as u64))
    } else {
        value
    }
}

/// Sign-extend the low `bit_length` bits of `value` to the full 64-bit width.
///
/// For a value that fits in `bit_length` bits the result, read as a 64-bit
/// two's-complement word, denotes the signed interpretation of the field:
/// values below `2^(bit_length-1)` are unchanged, values at or above it are
/// lifted to `value + 2^64 - 2^bit_length`.
pub fn sign_extend(value: u64, bit_length: u8) -> (r: u64)
    requires
        bit_length >= 1,
    ensures
        r == sign_extend_spec(value, bit_length),
        bit_length >= 64 ==> r == value,
        bit_length < 64 && value < pow2((bit_length - 1) as nat) ==> r == value,
        bit_length < 64 && pow2((bit_length - 1) as nat) <= value < pow2(bit_length as nat)
            ==> r as int == value + 0x1_0000_0000_0000_0000 - pow2(bit_length as nat),
{
    if bit_length >= 64 {
        return value;
    }
    let sign_bit: u64 = 1u64 << ((bit_length - 1) as u64);
    proof {
        lemma_pow2_shl((bit_length - 1) as u64);
        if bit_length < 64 {
            lemma_pow2_shl(bit_length as u64);
            let p: u64 = 1u64 << (bit_length as u64);
            let ph: u64 = 1u64 << ((bit_length - 1) as u64);
            assert(value < ph ==> (value >> ((bit_length - 1) as u64)) & 1 == 0) by (bit_vector)
                requires
                    1 <= bit_length < 64,
                    p == 1u64 << (bit_length as u64),
                    ph == 1u64 << ((bit_length - 1) as u64),
            ;
            assert(ph <= value < p ==> (value >> ((bit_length - 1) as u64)) & 1 == 1)
                by (bit_vector)
                requires
                    1 <= bit_length < 64,
                    p == 1u64 << (bit_length as u64),
                    ph == 1u64 << ((bit_length - 1) as u64),
            ;
            assert(value < p ==> (value | (u64::MAX << (bit_length as u64))) == value
                + 0x1_0000_0000_0000_0000 - p || (value >> ((bit_length - 1) as u64)) & 1 == 0)
                by (bit_vector)
                requires
                    1 <= bit_length < 64,
                    p == 1u64 << (bit_length as u64),
            ;
        }
    }
    if value & sign_bit != 0 {
        proof {
            let sb = sign_bit;
            assert(value & sb != 0 ==> (value >> ((bit_length - 1) as u64)) & 1 == 1)
                by (bit_vector)
                requires
                    1 <= bit_length < 64,
                    sb == 1u64 << ((bit_length - 1) as u64),
            ;
        }
        proof {
            assert(1u64 << (bit_length as u64) >= 1) by (bit_vector)
                requires
                    bit_length < 64,
            ;
        }
        let mask: u64 = !((1u64 << (bit_length as u64)) - 1);
        proof {
            let m = mask;
            assert(m == u64::MAX << (bit_length as u64)) by (bit_vector)
                requires
                    bit_length < 64,
                    m == !(((1u64 << (bit_length as u64)) - 1) as u64),
            ;
        }
        value | mask
    } else {
        proof {
            let sb = sign_bit;
            assert(value & sb == 0 ==> (value >> ((bit_length - 1) as u64)) & 1 == 0)
                by (bit_vector)
                requires
                    1 <= bit_length < 64,
                    sb == 1u64 << ((bit_length - 1) as u64),
            ;
        }
        value
    }
}

} // verus!
