//! Reading the MAC prefixes of a vendor database.

use crate::mac::{
    clear_low_bits, cleared, law_cleared_keeps_top, law_fewer_bits_agree, law_mac48_upper_half, mac48,
    mac_text, mac_value,
};
use crate::text::{
    characters, digit_char, digit_value, digits_value, find_first, first_of, lemma_at_first_of,
    lemma_first_of, number, parse_number, trim, trimmed, trimmed_end, trimmed_start, white_space,
    without_plus,
};
use vstd::arithmetic::power2::{lemma2_to64, pow2};
use vstd::prelude::*;

verus! {

/// The pieces of a text between colons and hyphens.
pub open spec fn fields(s: Seq<char>) -> Seq<Seq<char>>
    decreases s.len(),
{
    let i = first_of(s, ':', '-') as int;
    if i >= s.len() {
        seq![s]
    } else {
        seq![s.take(i)] + fields(s.skip(i + 1))
    }
}

/// The byte that a field holds: a hexadecimal number, white space around it aside.
pub open spec fn octet(field: Seq<char>) -> Option<nat> {
    number(trimmed(field), 16, 255)
}

/// How many fields of an address count: the first six at most.
pub open spec fn octet_count(address: Seq<char>) -> nat {
    if fields(address).len() < 6 {
        fields(address).len()
    } else {
        6
    }
}

/// A byte of an address; zero beyond its fields.
pub open spec fn octet_at(address: Seq<char>, i: int) -> u8 {
    if i < octet_count(address) {
        octet(fields(address)[i])->0 as u8
    } else {
        0
    }
}

/// The six bytes of an address, the missing ones zero.
pub open spec fn padded_octets(address: Seq<char>) -> [u8; 6] {
    [
        octet_at(address, 0),
        octet_at(address, 1),
        octet_at(address, 2),
        octet_at(address, 3),
        octet_at(address, 4),
        octet_at(address, 5),
    ]
}

/// Three fields at least, and each that counts holds a byte.
pub open spec fn valid_address(address: Seq<char>) -> bool {
    &&& octet_count(address) >= 3
    &&& forall|i: int| 0 <= i < octet_count(address) ==> octet(#[trigger] fields(address)[i]) is Some
}

/// The part of a prefix before its first slash.
pub open spec fn address_part(s: Seq<char>) -> Seq<char> {
    s.take(first_of(s, '/', '/') as int)
}

/// The number of significant bits: the number after the first slash, or eight for each byte.
pub open spec fn prefix_bits(s: Seq<char>) -> Option<nat> {
    let slash = first_of(s, '/', '/') as int;
    if slash < s.len() {
        number(trimmed(s.skip(slash + 1)), 10, 0xffff_ffff)
    } else {
        Some(8 * octet_count(address_part(s)))
    }
}

/// What a prefix says: its first three bytes, its value in the upper bits of a 48-bit number,
/// and how many bits are significant, 24 at least. Bits below the significant ones are cleared.
pub open spec fn prefix_of(s: Seq<char>) -> Option<([u8; 3], u64, u32)> {
    let octets = padded_octets(address_part(s));
    if valid_address(address_part(s)) && prefix_bits(s) is Some && 24 <= prefix_bits(s)->0 <= 48 {
        Some(
            (
                [octets[0], octets[1], octets[2]],
                cleared(mac_value(octets), prefix_bits(s)->0) as u64,
                prefix_bits(s)->0 as u32,
            ),
        )
    } else {
        None
    }
}

/// Reads the bytes of an address between two positions: the bytes, and how many there are.
/// None where a field that counts holds no byte.
fn parse_octets(s: &Vec<char>, lo: usize, hi: usize) -> (r: Option<([u8; 6], usize)>)
    requires
        lo <= hi <= s@.len(),
    ensures
        ({
            let address = s@.subrange(lo as int, hi as int);
            match r {
                Some((octets, n)) => {
                    &&& n == octet_count(address)
                    &&& octets == padded_octets(address)
                    &&& forall|i: int|
                        0 <= i < octet_count(address) ==> octet(
                            #[trigger] fields(address)[i],
                        ) is Some
                },
                None => exists|i: int|
                    0 <= i < octet_count(address) && octet(#[trigger] fields(address)[i]) is None,
            }
        }),
{
    let ghost address = s@.subrange(lo as int, hi as int);
    let ghost all = fields(address);
    let mut octets: [u8; 6] = [0u8; 6];
    let mut n: usize = 0;
    let mut pos: usize = lo;
    let mut more: bool = true;
    assert(all.skip(0) =~= all);
    while more && n < 6
        invariant
            lo <= pos <= hi <= s@.len(),
            address == s@.subrange(lo as int, hi as int),
            all == fields(address),
            n <= 6,
            n <= all.len(),
            more ==> all.skip(n as int) == fields(s@.subrange(pos as int, hi as int)),
            !more ==> all.len() == n,
            forall|i: int| 0 <= i < n ==> octet(#[trigger] all[i]) == Some(octets[i] as nat),
            forall|i: int| n <= i < 6 ==> octets[i] == 0,
        decreases 6 - n,
    {
        let ghost rest = s@.subrange(pos as int, hi as int);
        let end: usize = find_first(s, pos, hi, ':', '-');
        let ghost k = first_of(rest, ':', '-') as int;
        assert(rest.take(k) =~= s@.subrange(pos as int, end as int));
        assert(all.skip(n as int)[0] == s@.subrange(pos as int, end as int)) by {
            assert(end == hi ==> rest.take(k) =~= rest);
        }
        assert(fields(rest).len() >= 1);
        assert(all[n as int] == all.skip(n as int)[0]);
        let (a, b) = trim(s, pos, end);
        match parse_number(s, a, b, 16, 255) {
            Some(v) => {
                octets[n] = v as u8;
            },
            None => {
                assert(octet(all[n as int]) is None);
                return None;
            },
        }
        assert(all.skip(n as int).skip(1) =~= all.skip(n + 1));
        if end < hi {
            assert(rest.skip(k + 1) =~= s@.subrange(end + 1, hi as int));
            assert(fields(rest).skip(1) =~= fields(rest.skip(k + 1)));
            pos = end + 1;
        } else {
            assert(fields(rest).len() == 1);
            more = false;
        }
        n = n + 1;
    }
    proof {
        assert(fields(s@.subrange(pos as int, hi as int)).len() >= 1);
        assert(octets =~= padded_octets(address));
    }
    Some((octets, n))
}

/// Reads a prefix such as `AA:BB:CC` or `AA:BB:CC:DD/28`: the key of three bytes, the prefix as
/// a 48-bit number, and its significant bits. A prefix has at least 24 of them.
pub fn parse_prefix(s: &str) -> (r: Option<([u8; 3], u64, u32)>)
    ensures
        r == prefix_of(s@),
{
    let text = characters(s);
    let slash: usize = find_first(&text, 0, text.len(), '/', '/');
    let ghost address = address_part(s@);
    assert(text@.subrange(0, text@.len() as int) =~= s@);
    assert(text@.subrange(0, slash as int) =~= address);
    let (octets, n) = match parse_octets(&text, 0, slash) {
        Some(found) => found,
        None => {
            return None;
        },
    };
    if n < 3 {
        return None;
    }
    let bits: u32 = if slash < text.len() {
        let (a, b) = trim(&text, slash + 1, text.len());
        assert(text@.subrange(slash + 1, text@.len() as int) =~= s@.skip(slash + 1));
        match parse_number(&text, a, b, 10, 0xffff_ffff) {
            Some(v) => v,
            None => {
                return None;
            },
        }
    } else {
        (n as u32) * 8
    };
    if bits < 24 || bits > 48 {
        return None;
    }
    let key: [u8; 3] = [octets[0], octets[1], octets[2]];
    let ghost padded = padded_octets(address);
    assert(key =~= [padded[0], padded[1], padded[2]]);
    Some((key, clear_low_bits(mac48(&octets), bits), bits))
}

// ---------------------------------------------------------------------------
// Laws
// ---------------------------------------------------------------------------

/// A prefix has 24 to 48 significant bits, occupies only these of a 48-bit number, and its key is
/// the upper half of it.
pub proof fn law_prefix_shape(s: Seq<char>)
    ensures
        prefix_of(s) matches Some((key, prefix, bits)) ==> {
            &&& 24 <= bits <= 48
            &&& prefix < 0x1_0000_0000_0000
            &&& prefix as nat % pow2((48 - bits) as nat) == 0
            &&& prefix / 0x100_0000 == key[0] * 0x1_0000 + key[1] * 0x100 + key[2]
        },
{
    if let Some((key, prefix, bits)) = prefix_of(s) {
        let octets = padded_octets(address_part(s));
        law_cleared_keeps_top(mac_value(octets), bits as nat);
        law_fewer_bits_agree(prefix as nat, mac_value(octets), bits as nat, 24);
        law_mac48_upper_half(octets);
        lemma2_to64();
        assert(pow2(24) == 0x100_0000);
    }
}

/// A prefix without a mask has eight significant bits for each of its bytes, and its value is
/// that of its bytes: there is nothing below them to clear.
pub proof fn law_prefix_without_mask(s: Seq<char>)
    requires
        first_of(s, '/', '/') == s.len(),
    ensures
        prefix_of(s) matches Some((key, prefix, bits)) ==> {
            &&& bits == 8 * octet_count(address_part(s))
            &&& prefix == mac_value(padded_octets(address_part(s)))
        },
{
    let octets = padded_octets(address_part(s));
    let n = octet_count(address_part(s));
    if prefix_of(s) is Some {
        lemma_nothing_to_clear(octets, n);
    }
}

/// Where the bytes after the first `n` are zero, clearing the bits of these changes nothing.
proof fn lemma_nothing_to_clear(octets: [u8; 6], n: nat)
    requires
        3 <= n <= 6,
        n < 4 ==> octets[3] == 0,
        n < 5 ==> octets[4] == 0,
        n < 6 ==> octets[5] == 0,
    ensures
        cleared(mac_value(octets), 8 * n) == mac_value(octets),
{
    lemma2_to64();
    if n == 3 {
        assert(pow2(24) == 0x100_0000);
        assert(mac_value(octets) % 0x100_0000 == 0);
    } else if n == 4 {
        assert(pow2(16) == 0x1_0000);
        assert(mac_value(octets) % 0x1_0000 == 0);
    } else if n == 5 {
        assert(pow2(8) == 0x100);
        assert(mac_value(octets) % 0x100 == 0);
    } else {
        assert(pow2(0) == 1);
    }
}

/// A field of a text: what stands between two neighbours among the positions of its separators,
/// before the position `end`.
pub open spec fn piece(s: Seq<char>, cuts: Seq<int>, end: int, i: int) -> Seq<char> {
    s.subrange(
        if i == 0 {
            0
        } else {
            cuts[i - 1] + 1
        },
        if i == cuts.len() {
            end
        } else {
            cuts[i]
        },
    )
}

/// What `parse_prefix` makes of any text. `slash` is where its first slash stands, or its end, and
/// `cuts` are the positions of the colons and hyphens before it. Each of the first six pieces is a
/// byte in hexadecimal, blanks around it aside; there are three at least. The number after the
/// slash, or else eight for each of these bytes, is the number of significant bits, from 24 to 48.
/// The key holds the first three bytes; the prefix holds the bytes, zero where there are none, one
/// after the other in 48 bits, and is rounded down to its significant bits.
pub proof fn law_parse_prefix(
    s: &str,
    slash: int,
    cuts: Seq<int>,
    r: Option<([u8; 3], u64, u32)>,
)
    requires
        0 <= slash <= s@.len(),
        forall|p: int| 0 <= p < slash ==> s@[p] != '/',
        slash < s@.len() ==> s@[slash] == '/',
        forall|i: int, j: int| 0 <= i < j < cuts.len() ==> cuts[i] < cuts[j],
        forall|i: int|
            0 <= i < cuts.len() ==> 0 <= #[trigger] cuts[i] < slash && (s@[cuts[i]] == ':'
                || s@[cuts[i]] == '-'),
        forall|p: int|
            0 <= p < slash && (#[trigger] s@[p] == ':' || s@[p] == '-') ==> cuts.contains(p),
        call_ensures(parse_prefix, (s,), r),
    ensures
        call_requires(parse_prefix, (s,)),
        r == prefix_of(s@),
        ({
            let n = if cuts.len() < 6 { cuts.len() + 1 } else { 6 };
            let byte = |i: int| number(trimmed(piece(s@, cuts, slash, i)), 16, 0xff);
            let mask = if slash < s@.len() {
                number(trimmed(s@.subrange(slash + 1, s@.len() as int)), 10, 0xffff_ffff)
            } else {
                Some((8 * n) as nat)
            };
            let value = byte(0)->0 * 0x100_0000_0000 + byte(1)->0 * 0x1_0000_0000 + byte(2)->0
                * 0x100_0000 + (if n > 3 { byte(3)->0 } else { 0 }) * 0x1_0000 + (if n > 4 {
                byte(4)->0
            } else {
                0
            }) * 0x100 + (if n > 5 { byte(5)->0 } else { 0 });
            &&& r is Some <==> n >= 3 && byte(0) is Some && byte(1) is Some && byte(2) is Some && (n
                > 3 ==> byte(3) is Some) && (n > 4 ==> byte(4) is Some) && (n > 5 ==> byte(
                5,
            ) is Some) && mask is Some && 24 <= mask->0 <= 48
            &&& r matches Some((key, prefix, bits)) ==> {
                &&& bits == mask->0
                &&& key[0] == byte(0)->0 && key[1] == byte(1)->0 && key[2] == byte(2)->0
                &&& prefix <= value < prefix + pow2((48 - bits) as nat)
                &&& prefix as nat % pow2((48 - bits) as nat) == 0
            }
        }),
{
    let address = address_part(s@);
    lemma_pieces(s@, slash, cuts);
    lemma_valid_address(address);
    if let Some((key, prefix, bits)) = r {
        let octets = padded_octets(address);
        law_cleared_keeps_top(mac_value(octets), bits as nat);
        vstd::arithmetic::power2::lemma_pow2_pos((48 - bits) as nat);
        vstd::arithmetic::div_mod::lemma_mod_bound(
            mac_value(octets) as int,
            pow2((48 - bits) as nat) as int,
        );
    }
}

/// The pieces between the separators before the slash are the fields that `prefix_of` reads.
proof fn lemma_pieces(s: Seq<char>, slash: int, cuts: Seq<int>)
    requires
        0 <= slash <= s.len(),
        forall|p: int| 0 <= p < slash ==> s[p] != '/',
        slash < s.len() ==> s[slash] == '/',
        forall|i: int, j: int| 0 <= i < j < cuts.len() ==> cuts[i] < cuts[j],
        forall|i: int|
            0 <= i < cuts.len() ==> 0 <= #[trigger] cuts[i] < slash && (s[cuts[i]] == ':'
                || s[cuts[i]] == '-'),
        forall|p: int|
            0 <= p < slash && (#[trigger] s[p] == ':' || s[p] == '-') ==> cuts.contains(p),
    ensures
        first_of(s, '/', '/') == slash,
        octet_count(address_part(s)) == (if cuts.len() < 6 { cuts.len() + 1 } else { 6 }),
        fields(address_part(s)).len() == cuts.len() + 1,
        forall|i: int|
            0 <= i <= cuts.len() ==> #[trigger] fields(address_part(s))[i] == piece(
                s,
                cuts,
                slash,
                i,
            ),
        slash < s.len() ==> s.skip(slash + 1) == s.subrange(slash + 1, s.len() as int),
{
    let address = address_part(s);
    lemma_first_of(s, '/', '/', slash);
    if slash < s.len() {
        assert(s.skip(slash + 1) =~= s.subrange(slash + 1, s.len() as int));
    }
    assert forall|p: int| 0 <= p < address.len() && (#[trigger] address[p] == ':' || address[p]
        == '-') implies cuts.contains(p) by {
        assert(address[p] == s[p]);
    }
    lemma_fields_between_cuts(address, cuts);
    assert forall|i: int| 0 <= i <= cuts.len() implies #[trigger] fields(address)[i] == piece(
        s,
        cuts,
        slash,
        i,
    ) by {
        if 0 < i < cuts.len() {
            assert(cuts[i - 1] < cuts[i]);
        }
        assert(piece(address, cuts, slash, i) =~= piece(s, cuts, slash, i));
    }
}

/// What makes an address valid, field by field, and the number that its bytes make.
proof fn lemma_valid_address(address: Seq<char>)
    ensures
        ({
            let n = octet_count(address);
            let f = fields(address);
            let octets = padded_octets(address);
            &&& valid_address(address) <==> n >= 3 && octet(f[0]) is Some && octet(f[1]) is Some
                && octet(f[2]) is Some && (n > 3 ==> octet(f[3]) is Some) && (n > 4 ==> octet(
                f[4],
            ) is Some) && (n > 5 ==> octet(f[5]) is Some)
            &&& valid_address(address) ==> {
                &&& octets[0] == octet(f[0])->0
                &&& octets[1] == octet(f[1])->0
                &&& octets[2] == octet(f[2])->0
                &&& octets[3] == (if n > 3 { octet(f[3])->0 } else { 0 })
                &&& octets[4] == (if n > 4 { octet(f[4])->0 } else { 0 })
                &&& octets[5] == (if n > 5 { octet(f[5])->0 } else { 0 })
            }
        }),
{
}

/// The fields of a text are the pieces between its separators.
proof fn lemma_fields_between_cuts(s: Seq<char>, cuts: Seq<int>)
    requires
        forall|i: int, j: int| 0 <= i < j < cuts.len() ==> cuts[i] < cuts[j],
        forall|i: int|
            0 <= i < cuts.len() ==> 0 <= #[trigger] cuts[i] < s.len() && (s[cuts[i]] == ':'
                || s[cuts[i]] == '-'),
        forall|p: int|
            0 <= p < s.len() && (#[trigger] s[p] == ':' || s[p] == '-') ==> cuts.contains(p),
    ensures
        fields(s).len() == cuts.len() + 1,
        forall|i: int|
            0 <= i <= cuts.len() ==> #[trigger] fields(s)[i] == piece(s, cuts, s.len() as int, i),
    decreases cuts.len(),
{
    if cuts.len() == 0 {
        assert forall|p: int| 0 <= p < s.len() implies s[p] != ':' && s[p] != '-' by {
            if s[p] == ':' || s[p] == '-' {
                assert(cuts.contains(p));
            }
        }
        lemma_first_of(s, ':', '-', s.len() as int);
        assert(piece(s, cuts, s.len() as int, 0) =~= s);
    } else {
        let k = cuts[0];
        assert forall|p: int| 0 <= p < k implies s[p] != ':' && s[p] != '-' by {
            if s[p] == ':' || s[p] == '-' {
                assert(cuts.contains(p));
                let i = choose|i: int| 0 <= i < cuts.len() && cuts[i] == p;
                assert(i == 0 || cuts[0] < cuts[i]);
            }
        }
        lemma_first_of(s, ':', '-', k);
        let rest = s.skip(k + 1);
        let later = Seq::new((cuts.len() - 1) as nat, |i: int| cuts[i + 1] - (k + 1));
        assert forall|i: int| 0 <= i < later.len() implies 0 <= #[trigger] later[i] < rest.len() && (
        rest[later[i]] == ':' || rest[later[i]] == '-') by {
            assert(cuts[0] < cuts[i + 1]);
            assert(rest[later[i]] == s[cuts[i + 1]]);
        }
        assert forall|i: int, j: int| 0 <= i < j < later.len() implies later[i] < later[j] by {
            assert(cuts[i + 1] < cuts[j + 1]);
        }
        assert forall|p: int| 0 <= p < rest.len() && (#[trigger] rest[p] == ':' || rest[p]
            == '-') implies later.contains(p) by {
            assert(s[p + k + 1] == rest[p]);
            assert(cuts.contains(p + k + 1));
            let i = choose|i: int| 0 <= i < cuts.len() && cuts[i] == p + k + 1;
            assert(later[i - 1] == p);
        }
        lemma_fields_between_cuts(rest, later);
        assert forall|i: int| 0 <= i <= cuts.len() implies #[trigger] fields(s)[i] == piece(
            s,
            cuts,
            s.len() as int,
            i,
        ) by {
            if i == 0 {
                assert(s.take(k) =~= piece(s, cuts, s.len() as int, 0));
            } else {
                assert(fields(s)[i] == fields(rest)[i - 1]);
                if i > 1 {
                    assert(cuts[0] < cuts[i - 1]);
                }
                if i < cuts.len() && i > 1 {
                    assert(cuts[i - 1] < cuts[i]);
                }
                assert(piece(rest, later, rest.len() as int, i - 1) =~= piece(
                    s,
                    cuts,
                    s.len() as int,
                    i,
                ));
            }
        }
    }
}

/// Fields beyond the sixth are ignored, whatever they hold.
pub proof fn law_further_fields_are_ignored(s: Seq<char>, t: Seq<char>)
    requires
        fields(address_part(s)).len() >= 6,
        fields(address_part(t)).len() >= 6,
        fields(address_part(s)).take(6) == fields(address_part(t)).take(6),
        prefix_bits(s) == prefix_bits(t),
    ensures
        prefix_of(s) == prefix_of(t),
{
    let (a, b) = (address_part(s), address_part(t));
    assert forall|i: int| 0 <= i < 6 implies #[trigger] fields(a)[i] == #[trigger] fields(b)[i] by {
        assert(fields(a)[i] == fields(a).take(6)[i]);
        assert(fields(b)[i] == fields(b).take(6)[i]);
    }
    assert(padded_octets(a) =~= padded_octets(b));
    assert(valid_address(a) == valid_address(b));
}

/// Two characters are the same, or both separate fields.
pub open spec fn alike(a: char, b: char) -> bool {
    a == b || ((a == ':' || a == '-') && (b == ':' || b == '-'))
}

/// Colons and hyphens separate fields alike.
pub proof fn law_separators_are_alike(s: Seq<char>, t: Seq<char>)
    requires
        s.len() == t.len(),
        forall|i: int| 0 <= i < first_of(s, '/', '/') ==> alike(#[trigger] s[i], t[i]),
        forall|i: int| first_of(s, '/', '/') <= i < s.len() ==> #[trigger] s[i] == t[i],
    ensures
        prefix_of(s) == prefix_of(t),
{
    let k = first_of(s, '/', '/') as int;
    lemma_at_first_of(s, '/', '/');
    assert forall|j: int| 0 <= j < k implies t[j] != '/' by {
        assert(alike(s[j], t[j]));
    }
    lemma_first_of(t, '/', '/', k);
    let (a, b) = (address_part(s), address_part(t));
    assert forall|i: int| 0 <= i < a.len() implies alike(#[trigger] a[i], b[i]) by {
        assert(alike(s[i], t[i]));
    }
    lemma_fields_alike(a, b);
    assert(padded_octets(a) =~= padded_octets(b));
    if k < s.len() {
        assert(s.skip(k + 1) =~= t.skip(k + 1));
    }
}

/// Texts that differ in separators only have the same fields.
proof fn lemma_fields_alike(s: Seq<char>, t: Seq<char>)
    requires
        s.len() == t.len(),
        forall|i: int| 0 <= i < s.len() ==> alike(#[trigger] s[i], t[i]),
    ensures
        fields(s) == fields(t),
    decreases s.len(),
{
    let k = first_of(s, ':', '-') as int;
    lemma_at_first_of(s, ':', '-');
    assert forall|j: int| 0 <= j < k implies t[j] == s[j] by {
        assert(alike(s[j], t[j]));
    }
    if k < s.len() {
        assert(alike(s[k], t[k]));
    }
    lemma_first_of(t, ':', '-', k);
    assert(s.take(k) =~= t.take(k));
    if k < s.len() {
        let (u, v) = (s.skip(k + 1), t.skip(k + 1));
        assert forall|i: int| 0 <= i < u.len() implies alike(#[trigger] u[i], v[i]) by {
            assert(alike(s[i + k + 1], t[i + k + 1]));
        }
        lemma_fields_alike(u, v);
    } else {
        assert(s.take(k) =~= s);
        assert(t.take(k) =~= t);
    }
}

/// The text of a MAC reads back as a prefix of all 48 bits with the value of that MAC.
pub proof fn law_formatted_mac_reads_back(mac: [u8; 6])
    ensures
        prefix_of(mac_text(mac)) matches Some((key, prefix, bits)) && key@ == mac@.take(3) && prefix
            == mac_value(mac) && bits == 48,
{
    let text = mac_text(mac);
    lemma_first_of(text, '/', '/', 17);
    assert(address_part(text) =~= text);
    lemma_octets_of_mac_text(mac);
    law_prefix_without_mask(text);
    let key = [mac[0], mac[1], mac[2]];
    assert(key@ =~= mac@.take(3));
}

/// The text of a MAC is an address with the bytes of the MAC.
proof fn lemma_octets_of_mac_text(mac: [u8; 6])
    ensures
        valid_address(mac_text(mac)),
        octet_count(mac_text(mac)) == 6,
        padded_octets(mac_text(mac)) == mac,
{
    let text = mac_text(mac);
    assert(text.skip(0) =~= text);
    lemma_fields_of_mac_text(mac, 0);
    assert forall|i: int| 0 <= i < 6 implies octet(#[trigger] fields(text)[i]) == Some(
        mac[i] as nat,
    ) by {
        lemma_octet_of_digits(mac[i], text.subrange(3 * i, 3 * i + 2));
    }
    assert(padded_octets(text) =~= mac);
}

/// The text of a MAC has six fields, of two digits each.
proof fn lemma_fields_of_mac_text(mac: [u8; 6], j: int)
    requires
        0 <= j < 6,
    ensures
        fields(mac_text(mac).skip(3 * j)).len() == 6 - j,
        forall|i: int|
            0 <= i < 6 - j ==> #[trigger] fields(mac_text(mac).skip(3 * j))[i] == mac_text(
                mac,
            ).subrange(3 * (i + j), 3 * (i + j) + 2),
    decreases 6 - j,
{
    let text = mac_text(mac);
    let rest = text.skip(3 * j);
    lemma_first_of(rest, ':', '-', 2);
    if j < 5 {
        lemma_fields_of_mac_text(mac, j + 1);
        assert(rest.skip(3) =~= text.skip(3 * (j + 1)));
        assert(rest.take(2) =~= text.subrange(3 * j, 3 * j + 2));
    } else {
        assert(rest =~= text.subrange(3 * j, 3 * j + 2));
    }
}

/// Two digits read as the byte that they were written for.
proof fn lemma_octet_of_digits(byte: u8, field: Seq<char>)
    requires
        field.len() == 2,
        field[0] == digit_char((byte / 16) as nat),
        field[1] == digit_char((byte % 16) as nat),
    ensures
        octet(field) == Some(byte as nat),
{
    assert(!white_space(field[0]) && !white_space(field[1]));
    assert(trimmed_start(field) == field);
    assert(trimmed_end(field) == field);
    assert(field[0] != '+');
    assert(without_plus(field) == field);
    assert(digit_value(field[0], 16) == Some((byte / 16) as nat));
    assert(digit_value(field[1], 16) == Some((byte % 16) as nat));
    reveal_with_fuel(digits_value, 3);
    assert(digits_value(field, 16) == Some(((byte / 16) * 16 + byte % 16) as nat));
}

} // verus!
