use vstd::prelude::*;
use vstd::string::*;
use vstd::endian::{Endian, endianness};
use crate::scan_type::{ScanType, CompareType, spec_size, spec_is_float};
use crate::text::{spec_trim, spec_parse_int, decimal_string, trim, parse_int, format_i64};

verus! {

/// The order in which the bytes of a multi-byte integer are stored.
#[derive(Debug, Clone, Copy, PartialEq, Eq, Structural)]
pub enum ByteOrder {
    Little,
    Big,
}

/// `256^n`.
pub open spec fn pow256(n: nat) -> nat
    decreases n,
{
    if n == 0 {
        1
    } else {
        256 * pow256((n - 1) as nat)
    }
}

/// The unsigned number whose little-endian bytes are `b`.
pub open spec fn le_value(b: Seq<u8>) -> nat
    decreases b.len(),
{
    if b.len() == 0 {
        0
    } else {
        (b[0] + 256 * le_value(b.drop_first())) as nat
    }
}

/// The unsigned number whose big-endian bytes are `b`.
pub open spec fn be_value(b: Seq<u8>) -> nat
    decreases b.len(),
{
    if b.len() == 0 {
        0
    } else {
        (be_value(b.drop_last()) * 256 + b.last()) as nat
    }
}

/// The unsigned number stored in `b` in the given order.
pub open spec fn unsigned_value(b: Seq<u8>, order: ByteOrder) -> nat {
    match order {
        ByteOrder::Little => le_value(b),
        ByteOrder::Big => be_value(b),
    }
}

/// The two's complement number stored in `b` in the given order.
pub open spec fn signed_value(b: Seq<u8>, order: ByteOrder) -> int {
    let u = unsigned_value(b, order);
    if 2 * u >= pow256(b.len()) {
        u - pow256(b.len())
    } else {
        u as int
    }
}

/// The `n` little-endian bytes of `u` modulo `256^n`.
pub open spec fn le_bytes(u: nat, n: nat) -> Seq<u8>
    decreases n,
{
    if n == 0 {
        seq![]
    } else {
        seq![(u % 256) as u8] + le_bytes(u / 256, (n - 1) as nat)
    }
}

/// The `n` big-endian bytes of `u` modulo `256^n`.
pub open spec fn be_bytes(u: nat, n: nat) -> Seq<u8>
    decreases n,
{
    if n == 0 {
        seq![]
    } else {
        be_bytes(u / 256, (n - 1) as nat) + seq![(u % 256) as u8]
    }
}

/// The `n` bytes of the two's complement form of `v`, in the given order.
pub open spec fn encode_int(v: int, n: nat, order: ByteOrder) -> Seq<u8> {
    let u: nat = if v < 0 { (v + pow256(n)) as nat } else { v as nat };
    match order {
        ByteOrder::Little => le_bytes(u, n),
        ByteOrder::Big => be_bytes(u, n),
    }
}

/// Calls `u16::from_ne_bytes`, which std documents as reading the two bytes
/// in the target's native byte order: the little-endian reading of the pair
/// on a little-endian machine, the big-endian reading on a big-endian one.
/// The machine's order is vstd's `endianness()`, which names the order of the
/// hardware that runs the code; which of the two it is stays open.
#[verifier::external_body]
fn u16_from_native_bytes(b0: u8, b1: u8) -> (r: u16)
    ensures
        r == b0 + 256 * b1 || r == 256 * b0 + b1,
        endianness() is Little ==> r == b0 + 256 * b1,
        endianness() is Big ==> r == 256 * b0 + b1,
{
    u16::from_ne_bytes([b0, b1])
}

/// The byte order of the machine that runs the code.
pub open spec fn machine_order() -> ByteOrder {
    match endianness() {
        Endian::Little => ByteOrder::Little,
        Endian::Big => ByteOrder::Big,
    }
}

/// The byte order of the machine, found by reading a known pair of bytes
/// natively.
pub(crate) fn native_byte_order() -> (r: ByteOrder)
    ensures
        r == machine_order(),
{
    if u16_from_native_bytes(1, 0) == 1 {
        ByteOrder::Little
    } else {
        ByteOrder::Big
    }
}

pub proof fn lemma_pow256_values()
    ensures
        pow256(0) == 1,
        pow256(1) == 256,
        pow256(2) == 0x1_0000,
        pow256(4) == 0x1_0000_0000,
        pow256(8) == 0x1_0000_0000_0000_0000,
{
    reveal_with_fuel(pow256, 9);
}

pub proof fn lemma_pow256_monotone(a: nat, b: nat)
    requires
        a <= b,
    ensures
        pow256(a) <= pow256(b),
    decreases b,
{
    if a < b {
        lemma_pow256_monotone(a, (b - 1) as nat);
    }
}

/// A little-endian number is below `256^len`.
pub proof fn lemma_le_value_bound(b: Seq<u8>)
    ensures
        le_value(b) < pow256(b.len()),
    decreases b.len(),
{
    if b.len() > 0 {
        lemma_le_value_bound(b.drop_first());
    }
}

/// A big-endian number is below `256^len`.
pub proof fn lemma_be_value_bound(b: Seq<u8>)
    ensures
        be_value(b) < pow256(b.len()),
    decreases b.len(),
{
    if b.len() > 0 {
        lemma_be_value_bound(b.drop_last());
    }
}

pub proof fn lemma_unsigned_value_bound(b: Seq<u8>, order: ByteOrder)
    ensures
        unsigned_value(b, order) < pow256(b.len()),
{
    lemma_le_value_bound(b);
    lemma_be_value_bound(b);
}

/// Reads the unsigned number stored in up to eight bytes.
pub fn decode_unsigned(b: &[u8], order: ByteOrder) -> (r: u64)
    requires
        b@.len() <= 8,
    ensures
        r == unsigned_value(b@, order),
{
    let n = b.len();
    let mut u: u64 = 0;
    match order {
        ByteOrder::Little => {
            let mut i: usize = n;
            assert(b@.skip(n as int) =~= Seq::<u8>::empty());
            while i > 0
                invariant
                    n == b@.len(),
                    n <= 8,
                    i <= n,
                    u == le_value(b@.skip(i as int)),
                decreases i,
            {
                proof {
                    lemma_le_value_bound(b@.skip(i as int));
                    lemma_pow256_monotone((n - i) as nat, 7);
                    lemma_pow256_values();
                    assert(b@.skip(i - 1).drop_first() =~= b@.skip(i as int));
                }
                u = (b[i - 1] as u64) + 256 * u;
                i = i - 1;
            }
            assert(b@.skip(0) =~= b@);
        },
        ByteOrder::Big => {
            let mut i: usize = 0;
            assert(b@.take(0) =~= Seq::<u8>::empty());
            while i < n
                invariant
                    n == b@.len(),
                    n <= 8,
                    i <= n,
                    u == be_value(b@.take(i as int)),
                decreases n - i,
            {
                proof {
                    lemma_be_value_bound(b@.take(i as int));
                    lemma_pow256_monotone(i as nat, 7);
                    lemma_pow256_values();
                    assert(b@.take(i + 1).drop_last() =~= b@.take(i as int));
                }
                u = u * 256 + (b[i] as u64);
                i = i + 1;
            }
            assert(b@.take(n as int) =~= b@);
        },
    }
    u
}

/// Reads the two's complement number stored in 1, 2, 4 or 8 bytes.
pub fn decode_signed(b: &[u8], order: ByteOrder) -> (r: i64)
    requires
        b@.len() == 1 || b@.len() == 2 || b@.len() == 4 || b@.len() == 8,
    ensures
        r == signed_value(b@, order),
{
    let u = decode_unsigned(b, order);
    proof {
        lemma_pow256_values();
        lemma_unsigned_value_bound(b@, order);
    }
    let m: u128 = match b.len() {
        1 => 0x100,
        2 => 0x1_0000,
        4 => 0x1_0000_0000,
        _ => 0x1_0000_0000_0000_0000,
    };
    if 2 * (u as u128) >= m {
        ((u as i128) - (m as i128)) as i64
    } else {
        u as i64
    }
}

/// Writes the `n` bytes of the two's complement form of `v`.
pub fn encode_int_bytes(v: i64, n: usize, order: ByteOrder) -> (r: Vec<u8>)
    requires
        n == 1 || n == 2 || n == 4 || n == 8,
        -(pow256(n as nat) as int) <= 2 * v < pow256(n as nat),
    ensures
        r@ == encode_int(v as int, n as nat, order),
{
    proof {
        lemma_pow256_values();
    }
    let m: i128 = match n {
        1 => 0x100,
        2 => 0x1_0000,
        4 => 0x1_0000_0000,
        _ => 0x1_0000_0000_0000_0000,
    };
    let u0: u64 = if v < 0 { ((v as i128) + m) as u64 } else { v as u64 };
    let mut u: u64 = u0;
    let mut i: usize = 0;
    match order {
        ByteOrder::Little => {
            let mut out: Vec<u8> = Vec::new();
            while i < n
                invariant
                    i <= n,
                    out@.len() == i,
                    out@ + le_bytes(u as nat, (n - i) as nat) == le_bytes(u0 as nat, n as nat),
                decreases n - i,
            {
                let byte = (u % 256) as u8;
                proof {
                    let rest = le_bytes((u / 256) as nat, (n - i - 1) as nat);
                    assert(le_bytes(u as nat, (n - i) as nat) == seq![byte] + rest);
                    assert(out@.push(byte) + rest =~= out@ + (seq![byte] + rest));
                }
                out.push(byte);
                u = u / 256;
                i = i + 1;
            }
            assert(le_bytes(u as nat, 0) =~= Seq::<u8>::empty());
            assert(out@ + Seq::<u8>::empty() =~= out@);
            out
        },
        ByteOrder::Big => {
            let mut out: Vec<u8> = vec![0u8; n];
            while i < n
                invariant
                    i <= n,
                    out@.len() == n,
                    be_bytes(u as nat, (n - i) as nat) + out@.subrange(n - i, n as int) == be_bytes(u0 as nat, n as nat),
                decreases n - i,
            {
                let byte = (u % 256) as u8;
                let ghost prev_tail = out@.subrange(n - i, n as int);
                out.set(n - 1 - i, byte);
                proof {
                    let rest = be_bytes((u / 256) as nat, (n - i - 1) as nat);
                    assert(be_bytes(u as nat, (n - i) as nat) == rest + seq![byte]);
                    assert(out@.subrange(n - i - 1, n as int) =~= seq![byte] + prev_tail);
                    assert(rest + (seq![byte] + prev_tail) =~= (rest + seq![byte]) + prev_tail);
                }
                u = u / 256;
                i = i + 1;
            }
            assert(be_bytes(u as nat, 0) =~= Seq::<u8>::empty());
            assert(out@.subrange(0, n as int) =~= out@);
            assert(Seq::<u8>::empty() + out@ =~= out@);
            out
        },
    }
}

pub proof fn lemma_le_bytes_len(u: nat, n: nat)
    ensures
        le_bytes(u, n).len() == n,
    decreases n,
{
    if n > 0 {
        lemma_le_bytes_len(u / 256, (n - 1) as nat);
    }
}

pub proof fn lemma_be_bytes_len(u: nat, n: nat)
    ensures
        be_bytes(u, n).len() == n,
    decreases n,
{
    if n > 0 {
        lemma_be_bytes_len(u / 256, (n - 1) as nat);
    }
}

/// Reading back little-endian bytes gives the number that was written.
pub proof fn lemma_le_roundtrip(u: nat, n: nat)
    requires
        u < pow256(n),
    ensures
        le_value(le_bytes(u, n)) == u,
    decreases n,
{
    if n > 0 {
        lemma_le_bytes_len(u / 256, (n - 1) as nat);
        lemma_le_roundtrip(u / 256, (n - 1) as nat);
        assert(le_bytes(u, n).drop_first() =~= le_bytes(u / 256, (n - 1) as nat));
    }
}

/// Reading back big-endian bytes gives the number that was written.
pub proof fn lemma_be_roundtrip(u: nat, n: nat)
    requires
        u < pow256(n),
    ensures
        be_value(be_bytes(u, n)) == u,
    decreases n,
{
    if n > 0 {
        lemma_be_bytes_len(u / 256, (n - 1) as nat);
        lemma_be_roundtrip(u / 256, (n - 1) as nat);
        assert(be_bytes(u, n).drop_last() =~= be_bytes(u / 256, (n - 1) as nat));
    }
}

/// Writing little-endian bytes of what they denote gives the bytes back.
pub proof fn lemma_le_bytes_of_value(b: Seq<u8>)
    ensures
        le_bytes(le_value(b), b.len()) == b,
    decreases b.len(),
{
    if b.len() > 0 {
        lemma_le_bytes_of_value(b.drop_first());
        let v = le_value(b);
        assert(v % 256 == b[0]);
        assert(v / 256 == le_value(b.drop_first()));
        assert(le_bytes(v, b.len()) =~= seq![b[0]] + b.drop_first());
        assert(seq![b[0]] + b.drop_first() =~= b);
    } else {
        assert(b =~= Seq::<u8>::empty());
    }
}

/// Writing big-endian bytes of what they denote gives the bytes back.
pub proof fn lemma_be_bytes_of_value(b: Seq<u8>)
    ensures
        be_bytes(be_value(b), b.len()) == b,
    decreases b.len(),
{
    if b.len() > 0 {
        lemma_be_bytes_of_value(b.drop_last());
        let v = be_value(b);
        assert(v % 256 == b.last());
        assert(v / 256 == be_value(b.drop_last()));
        assert(be_bytes(v, b.len()) =~= b.drop_last() + seq![b.last()]);
        assert(b.drop_last() + seq![b.last()] =~= b);
    } else {
        assert(b =~= Seq::<u8>::empty());
    }
}

/// Decoding what `encode_int` wrote gives the value back: the byte image of
/// a value in range denotes that value.
pub proof fn lemma_decode_encode(v: int, n: nat, order: ByteOrder)
    requires
        -(pow256(n) as int) <= 2 * v < pow256(n),
    ensures
        encode_int(v, n, order).len() == n,
        signed_value(encode_int(v, n, order), order) == v,
{
    let u: nat = if v < 0 { (v + pow256(n)) as nat } else { v as nat };
    lemma_le_bytes_len(u, n);
    lemma_be_bytes_len(u, n);
    lemma_le_roundtrip(u, n);
    lemma_be_roundtrip(u, n);
}

/// Encoding the value that bytes denote gives the same bytes back.
pub proof fn lemma_encode_decode(b: Seq<u8>, order: ByteOrder)
    ensures
        encode_int(signed_value(b, order), b.len(), order) == b,
{
    lemma_unsigned_value_bound(b, order);
    lemma_le_bytes_of_value(b);
    lemma_be_bytes_of_value(b);
}

/// Smallest value of an integer scan type.
pub open spec fn int_min(t: ScanType) -> int {
    match t {
        ScanType::I8 => -0x80,
        ScanType::I16 => -0x8000,
        ScanType::I32 => -0x8000_0000,
        _ => -0x8000_0000_0000_0000,
    }
}

/// Largest value of an integer scan type.
pub open spec fn int_max(t: ScanType) -> int {
    match t {
        ScanType::I8 => 0x7F,
        ScanType::I16 => 0x7FFF,
        ScanType::I32 => 0x7FFF_FFFF,
        _ => 0x7FFF_FFFF_FFFF_FFFF,
    }
}

/// The outcome of comparing two numbers with a comparison type.
pub open spec fn spec_compare_numbers(a: int, b: int, comparison: CompareType) -> bool {
    match comparison {
        CompareType::Equal => a == b,
        CompareType::NotEqual => a != b,
        CompareType::GreaterThan => a > b,
        CompareType::LessThan => a < b,
    }
}

/// The sign bit of an IEEE 754 value of `w` bytes (4 or 8).
pub open spec fn float_sign_bit(w: nat) -> nat {
    if w == 4 {
        0x8000_0000
    } else {
        0x8000_0000_0000_0000
    }
}

/// The bit pattern of positive infinity in `w` bytes.
pub open spec fn float_inf_bits(w: nat) -> nat {
    if w == 4 {
        0x7F80_0000
    } else {
        0x7FF0_0000_0000_0000
    }
}

/// An IEEE 754 bit pattern is a NaN when its exponent is all ones and its
/// fraction is not zero, that is when its magnitude bits exceed infinity's.
pub open spec fn float_is_nan(bits: nat, w: nat) -> bool {
    bits % float_sign_bit(w) > float_inf_bits(w)
}

/// A number that orders the non-NaN IEEE 754 values of `w` bytes as their
/// real values: the magnitude bits, negated when the sign bit is set (so
/// that both zeros map to 0).
pub open spec fn float_order_key(bits: nat, w: nat) -> int {
    if bits >= float_sign_bit(w) {
        -((bits - float_sign_bit(w)) as int)
    } else {
        bits as int
    }
}

/// IEEE 754 comparison of two bit patterns: a NaN is unequal to everything
/// and neither less nor greater than anything.
pub open spec fn spec_compare_float_bits(a: nat, b: nat, w: nat, comparison: CompareType) -> bool {
    if float_is_nan(a, w) || float_is_nan(b, w) {
        comparison == CompareType::NotEqual
    } else {
        spec_compare_numbers(float_order_key(a, w), float_order_key(b, w), comparison)
    }
}

/// The bytes that a value of type `t` is read from: the first byte for `I8`;
/// for the other types the slice when its length is the type's size, and
/// zeros otherwise.
pub open spec fn operand_bytes(t: ScanType, b: Seq<u8>) -> Seq<u8> {
    if t == ScanType::I8 {
        b.take(1)
    } else if b.len() == spec_size(t) {
        b
    } else {
        Seq::new(spec_size(t), |i: int| 0u8)
    }
}

/// Whether the value in `cur` stands in relation `comparison` to the value in `last`.
pub open spec fn spec_compare_values(
    order: ByteOrder,
    t: ScanType,
    cur: Seq<u8>,
    last: Seq<u8>,
    comparison: CompareType,
) -> bool {
    let c = operand_bytes(t, cur);
    let l = operand_bytes(t, last);
    if spec_is_float(t) {
        spec_compare_float_bits(unsigned_value(c, order), unsigned_value(l, order), spec_size(t), comparison)
    } else {
        spec_compare_numbers(signed_value(c, order), signed_value(l, order), comparison)
    }
}

pub proof fn lemma_zeros_value(n: nat, order: ByteOrder)
    ensures
        unsigned_value(Seq::new(n, |i: int| 0u8), order) == 0,
        signed_value(Seq::new(n, |i: int| 0u8), order) == 0,
    decreases n,
{
    let z = Seq::new(n, |i: int| 0u8);
    if n > 0 {
        lemma_zeros_value((n - 1) as nat, order);
        assert(z.drop_first() =~= Seq::new((n - 1) as nat, |i: int| 0u8));
        assert(z.drop_last() =~= Seq::new((n - 1) as nat, |i: int| 0u8));
    }
}

/// The unsigned number that a value of type `t` (not `I8`) is read from.
fn operand_unsigned(order: ByteOrder, t: ScanType, b: &[u8]) -> (r: u64)
    requires
        t != ScanType::I8,
    ensures
        r == unsigned_value(operand_bytes(t, b@), order),
{
    if b.len() == t.size() {
        decode_unsigned(b, order)
    } else {
        proof {
            lemma_zeros_value(spec_size(t), order);
        }
        0
    }
}

/// The signed number that a value of integer type `t` is read from.
fn operand_signed(order: ByteOrder, t: ScanType, b: &[u8]) -> (r: i64)
    requires
        !spec_is_float(t),
        t == ScanType::I8 ==> b@.len() >= 1,
    ensures
        r == signed_value(operand_bytes(t, b@), order),
{
    if t == ScanType::I8 {
        let b0 = b[0];
        proof {
            let one = b@.take(1);
            assert(one.drop_first() =~= Seq::<u8>::empty());
            assert(one.drop_last() =~= Seq::<u8>::empty());
            assert(le_value(one.drop_first()) == 0);
            assert(be_value(one.drop_last()) == 0);
            assert(one[0] == b0 && one.last() == b0);
            assert(le_value(one) == b0);
            assert(be_value(one) == b0);
            lemma_pow256_values();
        }
        if b0 >= 128 {
            (b0 as i64) - 256
        } else {
            b0 as i64
        }
    } else if b.len() == t.size() {
        decode_signed(b, order)
    } else {
        proof {
            lemma_zeros_value(spec_size(t), order);
        }
        0
    }
}

fn compare_numbers(a: i128, b: i128, comparison: CompareType) -> (r: bool)
    ensures
        r == spec_compare_numbers(a as int, b as int, comparison),
{
    match comparison {
        CompareType::Equal => a == b,
        CompareType::NotEqual => a != b,
        CompareType::GreaterThan => a > b,
        CompareType::LessThan => a < b,
    }
}

/// Compares two IEEE 754 bit patterns of `w` bytes.
pub fn compare_float_bits(a: u64, b: u64, w: usize, comparison: CompareType) -> (r: bool)
    requires
        w == 4 || w == 8,
    ensures
        r == spec_compare_float_bits(a as nat, b as nat, w as nat, comparison),
{
    let sign: u64 = if w == 4 { 0x8000_0000 } else { 0x8000_0000_0000_0000 };
    let inf: u64 = if w == 4 { 0x7F80_0000 } else { 0x7FF0_0000_0000_0000 };
    if a % sign > inf || b % sign > inf {
        return comparison == CompareType::NotEqual;
    }
    let ka: i128 = if a >= sign { 0 - ((a - sign) as i128) } else { a as i128 };
    let kb: i128 = if b >= sign { 0 - ((b - sign) as i128) } else { b as i128 };
    compare_numbers(ka, kb, comparison)
}

/// Compares the value in `cur` with the value in `last`, both stored in
/// the given byte order.
pub fn compare_values_in_order(
    order: ByteOrder,
    scan_type: ScanType,
    cur: &[u8],
    last: &[u8],
    comparison: CompareType,
) -> (r: bool)
    requires
        scan_type == ScanType::I8 ==> cur@.len() >= 1 && last@.len() >= 1,
    ensures
        r == spec_compare_values(order, scan_type, cur@, last@, comparison),
{
    if scan_type.is_float() {
        let a = operand_unsigned(order, scan_type, cur);
        let b = operand_unsigned(order, scan_type, last);
        compare_float_bits(a, b, scan_type.size(), comparison)
    } else {
        let a = operand_signed(order, scan_type, cur);
        let b = operand_signed(order, scan_type, last);
        compare_numbers(a as i128, b as i128, comparison)
    }
}

/// Compares the value in `cur` with the value in `last`, both stored in the
/// machine's byte order.
pub fn compare_values(scan_type: ScanType, cur: &[u8], last: &[u8], comparison: CompareType) -> (r: bool)
    requires
        scan_type == ScanType::I8 ==> cur@.len() >= 1 && last@.len() >= 1,
    ensures
        exists|order: ByteOrder| r == spec_compare_values(order, scan_type, cur@, last@, comparison),
        r == spec_compare_values(machine_order(), scan_type, cur@, last@, comparison),
{
    let order = native_byte_order();
    compare_values_in_order(order, scan_type, cur, last, comparison)
}

/// Comparing the byte images of two integers of a type's range, written and
/// read in one byte order, compares the integers themselves.
pub proof fn lemma_compare_encoded_integers(order: ByteOrder, t: ScanType, v: int, w: int, comparison: CompareType)
    requires
        !spec_is_float(t),
        int_min(t) <= v <= int_max(t),
        int_min(t) <= w <= int_max(t),
    ensures
        spec_compare_values(
            order,
            t,
            encode_int(v, spec_size(t), order),
            encode_int(w, spec_size(t), order),
            comparison,
        ) == match comparison {
            CompareType::Equal => v == w,
            CompareType::NotEqual => v != w,
            CompareType::GreaterThan => v > w,
            CompareType::LessThan => v < w,
        },
{
    lemma_pow256_values();
    let n = spec_size(t);
    lemma_decode_encode(v, n, order);
    lemma_decode_encode(w, n, order);
    let a = encode_int(v, n, order);
    let b = encode_int(w, n, order);
    assert(operand_bytes(t, a) =~= a);
    assert(operand_bytes(t, b) =~= b);
}

/// "Unchanged" and "changed" filters are complementary: a value is unequal
/// to another exactly when it is not equal to it (NaNs included).
pub proof fn lemma_changed_is_not_unchanged(order: ByteOrder, t: ScanType, a: Seq<u8>, b: Seq<u8>)
    ensures
        spec_compare_values(order, t, a, b, CompareType::NotEqual) == !spec_compare_values(
            order,
            t,
            a,
            b,
            CompareType::Equal,
        ),
{
}

/// "Increased" and "decreased" are mirror images: `a` is greater than `b`
/// exactly when `b` is less than `a`.
pub proof fn lemma_increased_mirrors_decreased(order: ByteOrder, t: ScanType, a: Seq<u8>, b: Seq<u8>)
    ensures
        spec_compare_values(order, t, a, b, CompareType::GreaterThan) == spec_compare_values(
            order,
            t,
            b,
            a,
            CompareType::LessThan,
        ),
{
}

/// Equality is symmetric.
pub proof fn lemma_equal_symmetric(order: ByteOrder, t: ScanType, a: Seq<u8>, b: Seq<u8>)
    ensures
        spec_compare_values(order, t, a, b, CompareType::Equal) == spec_compare_values(
            order,
            t,
            b,
            a,
            CompareType::Equal,
        ),
{
}

/// For integer types, and for floating-point values that are not NaN,
/// exactly one of "less", "equal" and "greater" holds.
pub proof fn lemma_trichotomy(order: ByteOrder, t: ScanType, a: Seq<u8>, b: Seq<u8>)
    requires
        spec_is_float(t) ==> !float_is_nan(unsigned_value(operand_bytes(t, a), order), spec_size(t))
            && !float_is_nan(unsigned_value(operand_bytes(t, b), order), spec_size(t)),
    ensures
        spec_compare_values(order, t, a, b, CompareType::LessThan) as int + spec_compare_values(
            order,
            t,
            a,
            b,
            CompareType::Equal,
        ) as int + spec_compare_values(order, t, a, b, CompareType::GreaterThan) as int == 1,
{
}

/// An integer value compares equal to itself; so does a float that is not NaN,
/// while a NaN is "changed" even against itself.
pub proof fn lemma_equal_reflexive(order: ByteOrder, t: ScanType, a: Seq<u8>)
    ensures
        !spec_is_float(t) ==> spec_compare_values(order, t, a, a, CompareType::Equal),
        spec_is_float(t) ==> (spec_compare_values(order, t, a, a, CompareType::Equal) <==> !float_is_nan(
            unsigned_value(operand_bytes(t, a), order),
            spec_size(t),
        )),
{
}

/// Parsing the decimal text of a value gives back the value's bytes: the
/// text that the value view shows is accepted by the value entry.
pub proof fn lemma_parse_decimal_of_value(order: ByteOrder, t: ScanType, v: int)
    requires
        !spec_is_float(t),
        int_min(t) <= v <= int_max(t),
    ensures
        spec_parse_value_bytes(order, t, decimal_string(v)) == Some(encode_int(v, spec_size(t), order)),
{
    crate::text::lemma_parse_decimal_string(v, int_min(t), int_max(t));
}

/// The bytes that the text `input` denotes for an integer type: the trimmed
/// text parsed as a decimal integer of the type, in two's complement.
pub open spec fn spec_parse_value_bytes(order: ByteOrder, t: ScanType, input: Seq<char>) -> Option<Seq<u8>> {
    match spec_parse_int(spec_trim(input), 10, true, int_min(t), int_max(t)) {
        Some(v) => Some(encode_int(v, spec_size(t), order)),
        None => None,
    }
}

/// Parses a user-entered value of an integer type into its byte image.
pub fn parse_value_bytes_in_order(order: ByteOrder, scan_type: ScanType, input: &str) -> (r: Option<Vec<u8>>)
    requires
        !spec_is_float(scan_type),
    ensures
        r matches Some(b) ==> spec_parse_value_bytes(order, scan_type, input@) == Some(b@),
        r is None ==> spec_parse_value_bytes(order, scan_type, input@) is None,
{
    let text = trim(input);
    let (min, max): (i128, i128) = match scan_type {
        ScanType::I8 => (-0x80, 0x7F),
        ScanType::I16 => (-0x8000, 0x7FFF),
        ScanType::I32 => (-0x8000_0000, 0x7FFF_FFFF),
        _ => (-0x8000_0000_0000_0000, 0x7FFF_FFFF_FFFF_FFFF),
    };
    match parse_int(text, 10, true, min, max) {
        Some(v) => {
            proof {
                lemma_pow256_values();
            }
            Some(encode_int_bytes(v as i64, scan_type.size(), order))
        },
        None => None,
    }
}

/// Parses a user-entered value of an integer type into its byte image in
/// the machine's byte order.
pub fn parse_value_bytes(scan_type: ScanType, input: &str) -> (r: Option<Vec<u8>>)
    requires
        !spec_is_float(scan_type),
    ensures
        exists|order: ByteOrder|
            {
                &&& r matches Some(b) ==> spec_parse_value_bytes(order, scan_type, input@) == Some(b@)
                &&& r is None ==> spec_parse_value_bytes(order, scan_type, input@) is None
            },
        r matches Some(b) ==> spec_parse_value_bytes(machine_order(), scan_type, input@) == Some(b@),
        r is None ==> spec_parse_value_bytes(machine_order(), scan_type, input@) is None,
{
    let order = native_byte_order();
    parse_value_bytes_in_order(order, scan_type, input)
}

/// The bytes of an optional read, as a sequence.
pub open spec fn read_view(read: Option<&[u8]>) -> Option<Seq<u8>> {
    match read {
        Some(b) => Some(b@),
        None => None,
    }
}

/// `b` followed by zeros up to length `n`.
pub open spec fn zero_padded(b: Seq<u8>, n: nat) -> Seq<u8> {
    b + Seq::new((n - b.len()) as nat, |i: int| 0u8)
}

/// The text shown for a value of integer type `t` of which `read` is what a
/// read of its bytes returned (`None` for a failed read): the decimal value of
/// the bytes, those not read taken as zero.
pub open spec fn spec_format_value(order: ByteOrder, t: ScanType, read: Option<Seq<u8>>) -> Seq<char> {
    match read {
        None => "UNREADABLE"@,
        Some(b) => decimal_string(signed_value(zero_padded(b, spec_size(t)), order)),
    }
}

/// The text shown for the bytes of an integer value parses back to those
/// bytes: what the value view shows can be typed back in unchanged.
pub proof fn lemma_format_then_parse(order: ByteOrder, t: ScanType, b: Seq<u8>)
    requires
        !spec_is_float(t),
        b.len() == spec_size(t),
    ensures
        spec_parse_value_bytes(order, t, spec_format_value(order, t, Some(b))) == Some(b),
{
    assert(zero_padded(b, spec_size(t)) =~= b);
    let v = signed_value(b, order);
    lemma_unsigned_value_bound(b, order);
    lemma_pow256_values();
    assert(int_min(t) <= v <= int_max(t));
    lemma_parse_decimal_of_value(order, t, v);
    lemma_encode_decode(b, order);
}

/// Formats the value of integer type `scan_type` found by a read of its
/// bytes, or the failure marker when the read failed.
pub fn format_value_at_address_in_order(order: ByteOrder, scan_type: ScanType, read: Option<&[u8]>) -> (r: String)
    requires
        read is Some ==> !spec_is_float(scan_type) && read->0@.len() <= spec_size(scan_type),
    ensures
        r@ == spec_format_value(order, scan_type, read_view(read)),
{
    match read {
        None => String::from_str("UNREADABLE"),
        Some(b) => {
            let size = scan_type.size();
            let mut buf: Vec<u8> = Vec::new();
            let mut i: usize = 0;
            while i < b.len()
                invariant
                    i <= b@.len(),
                    buf@ =~= b@.take(i as int),
                decreases b@.len() - i,
            {
                buf.push(b[i]);
                i = i + 1;
            }
            while buf.len() < size
                invariant
                    b@.len() <= buf@.len() <= size,
                    size == spec_size(scan_type),
                    buf@ =~= zero_padded(b@, buf@.len()),
                decreases size - buf@.len(),
            {
                buf.push(0u8);
            }
            let v = decode_signed(buf.as_slice(), order);
            format_i64(v)
        },
    }
}

/// Formats the value of integer type `scan_type` found by a read of its
/// bytes in the machine's byte order.
pub fn format_value_at_address(scan_type: ScanType, read: Option<&[u8]>) -> (r: String)
    requires
        read is Some ==> !spec_is_float(scan_type) && read->0@.len() <= spec_size(scan_type),
    ensures
        exists|order: ByteOrder|
            r@ == #[trigger] spec_format_value(order, scan_type, read_view(read)),
        r@ == spec_format_value(machine_order(), scan_type, read_view(read)),
{
    let order = native_byte_order();
    format_value_at_address_in_order(order, scan_type, read)
}

} // verus!
