//! MAC addresses: their 48-bit number, their flag bits and their text.

use crate::text::{digit, digit_char, smaller_at, text_before};
use vstd::arithmetic::power2::pow2;
use vstd::prelude::*;

verus! {

/// The number that the six bytes of a MAC denote, most significant byte first.
pub open spec fn mac_value(mac: [u8; 6]) -> nat {
    (mac[0] * 0x100_0000_0000 + mac[1] * 0x1_0000_0000 + mac[2] * 0x100_0000 + mac[3] * 0x1_0000
        + mac[4] * 0x100 + mac[5]) as nat
}

/// Converts a MAC of six bytes to a 48-bit integer.
pub fn mac48(mac: &[u8; 6]) -> (r: u64)
    ensures
        r == mac_value(*mac),
        r < 0x1_0000_0000_0000,
{
    let (a, b, c, d, e, f) = (
        mac[0] as u64,
        mac[1] as u64,
        mac[2] as u64,
        mac[3] as u64,
        mac[4] as u64,
        mac[5] as u64,
    );
    assert((a << 40) | (b << 32) | (c << 24) | (d << 16) | (e << 8) | f == a * 0x100_0000_0000 + b
        * 0x1_0000_0000 + c * 0x100_0000 + d * 0x1_0000 + e * 0x100 + f) by (bit_vector)
        requires
            a < 256,
            b < 256,
            c < 256,
            d < 256,
            e < 256,
            f < 256,
    ;
    (a << 40) | (b << 32) | (c << 24) | (d << 16) | (e << 8) | f
}

/// The upper bits of a number of 48 bits.
pub open spec fn top_bits(value: nat, bits: nat) -> nat
    recommends
        bits <= 48,
{
    value / pow2((48 - bits) as nat)
}

/// A number of 48 bits with all but its upper bits cleared.
pub open spec fn cleared(value: nat, bits: nat) -> nat
    recommends
        bits <= 48,
{
    (value - value % pow2((48 - bits) as nat)) as nat
}

/// Clears all but the upper bits of a number of 48 bits.
pub fn clear_low_bits(value: u64, bits: u32) -> (r: u64)
    requires
        bits <= 48,
    ensures
        r == cleared(value as nat, bits as nat),
{
    let shift: u32 = 48 - bits;
    proof {
        let (v, p) = (value as int, pow2(shift as nat) as int);
        vstd::arithmetic::power2::lemma_pow2_pos(shift as nat);
        vstd::arithmetic::div_mod::lemma_fundamental_div_mod(v, p);
        vstd::arithmetic::mul::lemma_mul_is_commutative(p, v / p);
        vstd::bits::lemma_u64_shr_is_div(value, shift as u64);
        vstd::bits::lemma_u64_shl_is_mul(value >> shift, shift as u64);
    }
    (value >> shift) << shift
}

/// The group bit: the lowest bit of the first byte.
pub open spec fn multicast(mac: [u8; 6]) -> bool {
    mac[0] % 2 == 1
}

/// The local bit: the second lowest bit of the first byte.
pub open spec fn locally_administered(mac: [u8; 6]) -> bool {
    mac[0] / 2 % 2 == 1
}

/// Whether a MAC names a group of stations (multicast or broadcast).
pub fn is_multicast(mac: &[u8; 6]) -> (r: bool)
    ensures
        r == multicast(*mac),
{
    let b: u8 = mac[0];
    assert((b & 0x01 != 0) == (b % 2 == 1)) by (bit_vector);
    b & 0x01 != 0
}

/// Whether a MAC was set by software, as randomised ones are.
pub fn is_locally_administered(mac: &[u8; 6]) -> (r: bool)
    ensures
        r == locally_administered(*mac),
{
    let b: u8 = mac[0];
    assert((b & 0x02 != 0) == (b / 2 % 2 == 1)) by (bit_vector);
    b & 0x02 != 0
}

/// The text of a MAC: two lower-case hexadecimal digits for each byte, colons between them.
pub open spec fn mac_text(mac: [u8; 6]) -> Seq<char> {
    Seq::new(
        17,
        |i: int|
            if i % 3 == 2 {
                ':'
            } else if i % 3 == 0 {
                digit_char((mac[i / 3] / 16) as nat)
            } else {
                digit_char((mac[i / 3] % 16) as nat)
            },
    )
}

/// Writes a MAC as `aa:bb:cc:dd:ee:ff`.
pub fn format_mac(mac: &[u8; 6]) -> (s: String)
    ensures
        s@ == mac_text(*mac),
{
    let mut s = String::new();
    let mut i: usize = 0;
    assert(s@ =~= mac_text(*mac).take(0));
    while i < 6
        invariant
            i <= 6,
            s@ == mac_text(*mac).take(if i == 6 { 17int } else { 3 * i }),
        decreases 6 - i,
    {
        let byte: u8 = mac[i];
        s.push(digit(byte / 16));
        s.push(digit(byte % 16));
        if i < 5 {
            s.push(':');
        }
        assert(s@ =~= mac_text(*mac).take(if i == 5 { 17int } else { 3 * i + 3 }));
        i = i + 1;
    }
    assert(s@ =~= mac_text(*mac));
    s
}

// ---------------------------------------------------------------------------
// Laws
// ---------------------------------------------------------------------------

/// The first byte in which two MACs differ; the last one where they do not.
spec fn first_difference(a: [u8; 6], b: [u8; 6]) -> int {
    if a[0] != b[0] {
        0
    } else if a[1] != b[1] {
        1
    } else if a[2] != b[2] {
        2
    } else if a[3] != b[3] {
        3
    } else if a[4] != b[4] {
        4
    } else {
        5
    }
}

/// No two MACs have the same number.
pub proof fn law_mac48_injective(a: [u8; 6], b: [u8; 6])
    requires
        mac_value(a) == mac_value(b),
    ensures
        a == b,
{
    let k = first_difference(a, b);
    if a[k] < b[k] {
        law_mac48_order(a, b, k);
    } else if b[k] < a[k] {
        law_mac48_order(b, a, k);
    }
    assert(a =~= b);
}

/// MACs are ordered by number as they are byte by byte.
pub proof fn law_mac48_order(a: [u8; 6], b: [u8; 6], k: int)
    requires
        0 <= k < 6,
        forall|j: int| 0 <= j < k ==> a[j] == b[j],
        a[k] < b[k],
    ensures
        mac_value(a) < mac_value(b),
{
}

/// The first three bytes of a MAC are the upper half of its number.
pub proof fn law_mac48_upper_half(mac: [u8; 6])
    ensures
        mac_value(mac) / 0x100_0000 == mac[0] * 0x1_0000 + mac[1] * 0x100 + mac[2],
{
}

/// The texts of MACs are ordered as their numbers are.
pub proof fn law_format_mac_order(a: [u8; 6], b: [u8; 6])
    ensures
        mac_value(a) < mac_value(b) <==> text_before(mac_text(a), mac_text(b)),
{
    if mac_value(a) < mac_value(b) {
        lemma_text_follows_value(a, b);
    } else if text_before(mac_text(a), mac_text(b)) {
        let k = choose|k: int| smaller_at(mac_text(a), mac_text(b), k);
        if mac_value(a) == mac_value(b) {
            law_mac48_injective(a, b);
        } else {
            lemma_text_follows_value(b, a);
            let l = choose|l: int| smaller_at(mac_text(b), mac_text(a), l);
            assert(k == l || k < l || l < k);
        }
    }
}

/// No two MACs have the same text.
pub proof fn law_format_mac_injective(a: [u8; 6], b: [u8; 6])
    requires
        mac_text(a) == mac_text(b),
    ensures
        a == b,
{
    law_format_mac_order(a, b);
    law_format_mac_order(b, a);
    assert(!text_before(mac_text(a), mac_text(a))) by {
        assert forall|k: int| !smaller_at(mac_text(a), mac_text(a), k) by {}
    }
    law_mac48_injective(a, b);
}

/// Clearing the lower bits of a number leaves none of them set and keeps the upper ones.
pub proof fn law_cleared_keeps_top(value: nat, bits: nat)
    requires
        bits <= 48,
    ensures
        cleared(value, bits) <= value,
        cleared(value, bits) % pow2((48 - bits) as nat) == 0,
        top_bits(cleared(value, bits), bits) == top_bits(value, bits),
{
    let p = pow2((48 - bits) as nat) as int;
    let (v, q) = (value as int, value as int / p);
    vstd::arithmetic::power2::lemma_pow2_pos((48 - bits) as nat);
    vstd::arithmetic::div_mod::lemma_fundamental_div_mod(v, p);
    vstd::arithmetic::mul::lemma_mul_is_commutative(p, q);
    vstd::arithmetic::div_mod::lemma_mod_decreases(value, p as nat);
    vstd::arithmetic::div_mod::lemma_mod_multiples_basic(q, p);
    vstd::arithmetic::div_mod::lemma_div_by_multiple(q, p);
}

/// Numbers that agree in their upper bits agree in fewer of them.
pub proof fn law_fewer_bits_agree(a: nat, b: nat, more: nat, fewer: nat)
    requires
        fewer <= more <= 48,
        top_bits(a, more) == top_bits(b, more),
    ensures
        top_bits(a, fewer) == top_bits(b, fewer),
{
    let (p, q) = ((48 - more) as nat, (more - fewer) as nat);
    vstd::arithmetic::power2::lemma_pow2_adds(p, q);
    vstd::arithmetic::power2::lemma_pow2_pos(p);
    vstd::arithmetic::power2::lemma_pow2_pos(q);
    vstd::arithmetic::div_mod::lemma_div_denominator(a as int, pow2(p) as int, pow2(q) as int);
    vstd::arithmetic::div_mod::lemma_div_denominator(b as int, pow2(p) as int, pow2(q) as int);
    assert(p + q == 48 - fewer);
}

/// The bytes of a MAC are the digits of its number in base 256.
pub proof fn law_mac48_bytes(mac: [u8; 6], r: u64)
    ensures
        ({
            let v = mac_value(mac);
            &&& v < 0x1_0000_0000_0000
            &&& v / 0x100_0000_0000 == mac[0]
            &&& v / 0x1_0000_0000 % 256 == mac[1]
            &&& v / 0x100_0000 % 256 == mac[2]
            &&& v / 0x1_0000 % 256 == mac[3]
            &&& v / 0x100 % 256 == mac[4]
            &&& v % 256 == mac[5]
            &&& call_requires(mac48, (&mac,))
            &&& call_ensures(mac48, (&mac,), r) ==> r == v
        }),
{
    lemma_base_256(
        mac[0] as int,
        mac[1] as int,
        mac[2] as int,
        mac[3] as int,
        mac[4] as int,
        mac[5] as int,
    );
}

/// The digits of a number in base 256.
proof fn lemma_base_256(a: int, b: int, c: int, d: int, e: int, f: int)
    requires
        0 <= a < 256,
        0 <= b < 256,
        0 <= c < 256,
        0 <= d < 256,
        0 <= e < 256,
        0 <= f < 256,
    ensures
        ({
            let v = a * 0x100_0000_0000 + b * 0x1_0000_0000 + c * 0x100_0000 + d * 0x1_0000 + e
                * 0x100 + f;
            &&& 0 <= v < 0x1_0000_0000_0000
            &&& v / 0x100_0000_0000 == a
            &&& v / 0x1_0000_0000 % 256 == b
            &&& v / 0x100_0000 % 256 == c
            &&& v / 0x1_0000 % 256 == d
            &&& v / 0x100 % 256 == e
            &&& v % 256 == f
        }),
{
    let v = a * 0x100_0000_0000 + b * 0x1_0000_0000 + c * 0x100_0000 + d * 0x1_0000 + e * 0x100 + f;
    let ab = a * 256 + b;
    let abc = ab * 256 + c;
    let abcd = abc * 256 + d;
    let abcde = abcd * 256 + e;
    assert(v == abcde * 256 + f);
    assert(v / 0x100 == abcde && v % 256 == f);
    assert(v / 0x1_0000 == abcd);
    assert(v / 0x100_0000 == abc);
    assert(v / 0x1_0000_0000 == ab);
    assert(v / 0x100_0000_0000 == a);
    assert(ab % 256 == b && abc % 256 == c && abcd % 256 == d && abcde % 256 == e);
}

/// A MAC names a group exactly when its first byte is odd, and was set by software exactly when
/// the next bit of that byte is set. The other five bytes do not matter.
pub proof fn law_flags(mac: [u8; 6], r: bool)
    ensures
        multicast(mac) <==> mac[0] as int % 2 == 1,
        locally_administered(mac) <==> mac[0] as int % 4 >= 2,
        call_requires(is_multicast, (&mac,)),
        call_requires(is_locally_administered, (&mac,)),
        call_ensures(is_multicast, (&mac,), r) ==> r == (mac[0] as int % 2 == 1),
        call_ensures(is_locally_administered, (&mac,), r) ==> r == (mac[0] as int % 4 >= 2),
{
}

/// The text of a MAC, character by character.
pub proof fn law_mac_text(mac: [u8; 6], s: String)
    ensures
        ({
            let digits = "0123456789abcdef"@;
            let text = mac_text(mac);
            &&& text.len() == 17
            &&& forall|i: int|
                0 <= i < 6 ==> text[3 * i] == digits[(#[trigger] mac[i] / 16) as int] && text[3 * i
                    + 1] == digits[(mac[i] % 16) as int]
            &&& text[2] == ':' && text[5] == ':' && text[8] == ':' && text[11] == ':' && text[14]
                == ':'
            &&& call_requires(format_mac, (&mac,))
            &&& call_ensures(format_mac, (&mac,), s) ==> s@ == text
        }),
{
    reveal_strlit("0123456789abcdef");
}

/// Clearing leaves the largest multiple of the lowest remaining bit that is not above the value.
pub proof fn law_clear_low_bits(value: u64, bits: u32, r: u64)
    requires
        bits <= 48,
    ensures
        call_requires(clear_low_bits, (value, bits)),
        call_ensures(clear_low_bits, (value, bits), r) ==> {
            &&& r <= value < r + pow2((48 - bits) as nat)
            &&& r as nat % pow2((48 - bits) as nat) == 0
        },
{
    law_cleared_keeps_top(value as nat, bits as nat);
    vstd::arithmetic::power2::lemma_pow2_pos((48 - bits) as nat);
    vstd::arithmetic::div_mod::lemma_mod_bound(value as int, pow2((48 - bits) as nat) as int);
}

/// The text of the smaller MAC comes first.
proof fn lemma_text_follows_value(a: [u8; 6], b: [u8; 6])
    requires
        mac_value(a) < mac_value(b),
    ensures
        text_before(mac_text(a), mac_text(b)),
{
    let k = first_difference(a, b);
    if b[k] < a[k] {
        law_mac48_order(b, a, k);
    }
    assert(a[k] < b[k]);
    let p: int = if a[k] / 16 != b[k] / 16 {
        3 * k
    } else {
        3 * k + 1
    };
    assert(smaller_at(mac_text(a), mac_text(b), p));
}

} // verus!
