//! Text: the characters of a string, trimming, numbers and column padding.

use vstd::prelude::*;

verus! {

/// `String::push` puts one character at the end of the string.
pub assume_specification[ String::push ](s: &mut String, c: char)
    ensures
        final(s)@ == old(s)@.push(c),
;

/// The characters of a string, in order.
pub fn characters(s: &str) -> (r: Vec<char>)
    ensures
        r@ == s@,
{
    let mut out: Vec<char> = Vec::new();
    for c in it: s.chars()
        invariant
            out@ == it.seq().take(it.index() as int),
            it.seq() == s@,
    {
        out.push(c);
        assert(it.seq().take(it.index() as int + 1) =~= it.seq().take(it.index() as int).push(c));
    }
    assert(out@ =~= s@);
    out
}

// ---------------------------------------------------------------------------
// Digits and numbers
// ---------------------------------------------------------------------------

/// The lower-case digit for a value below sixteen.
pub open spec fn digit_char(n: nat) -> char {
    if n < 10 {
        (('0' as nat) + n) as char
    } else {
        (('a' as nat) + n - 10) as char
    }
}

/// The lower-case digit for a value below sixteen.
pub fn digit(n: u8) -> (c: char)
    requires
        n < 16,
    ensures
        c == digit_char(n as nat),
{
    if n < 10 {
        ('0' as u8 + n) as char
    } else {
        ('a' as u8 + (n - 10)) as char
    }
}

/// The decimal text of a number, without leading zeros.
pub open spec fn decimal(n: nat) -> Seq<char>
    decreases n,
{
    if n < 10 {
        seq![digit_char(n)]
    } else {
        decimal(n / 10).push(digit_char(n % 10))
    }
}

/// The decimal text of a number, without leading zeros.
pub fn decimal_text(n: u64) -> (s: String)
    ensures
        s@ == decimal(n as nat),
    decreases n,
{
    if n < 10 {
        let mut s = String::new();
        s.push(digit(n as u8));
        assert(s@ =~= seq![digit_char(n as nat)]);
        s
    } else {
        let mut s = decimal_text(n / 10);
        s.push(digit((n % 10) as u8));
        s
    }
}

/// The value of a digit of the given radix, upper or lower case.
pub open spec fn digit_value(c: char, radix: nat) -> Option<nat> {
    let v = if '0' <= c <= '9' {
        c as int - '0' as int
    } else if 'a' <= c <= 'f' {
        c as int - 'a' as int + 10
    } else if 'A' <= c <= 'F' {
        c as int - 'A' as int + 10
    } else {
        16
    };
    if v < radix {
        Some(v as nat)
    } else {
        None
    }
}

/// The value of a digit of the given radix, upper or lower case.
fn read_digit(c: char, radix: u32) -> (r: Option<u32>)
    requires
        radix <= 16,
    ensures
        match r {
            Some(v) => digit_value(c, radix as nat) == Some(v as nat) && v < radix,
            None => digit_value(c, radix as nat) is None,
        },
{
    let v: u32 = if '0' <= c && c <= '9' {
        c as u32 - '0' as u32
    } else if 'a' <= c && c <= 'f' {
        c as u32 - 'a' as u32 + 10
    } else if 'A' <= c && c <= 'F' {
        c as u32 - 'A' as u32 + 10
    } else {
        16
    };
    if v < radix {
        Some(v)
    } else {
        None
    }
}

/// The value of a run of digits, most significant first; none where a character is no digit.
pub open spec fn digits_value(s: Seq<char>, radix: nat) -> Option<nat>
    decreases s.len(),
{
    if s.len() == 0 {
        Some(0)
    } else {
        match (digits_value(s.drop_last(), radix), digit_value(s.last(), radix)) {
            (Some(v), Some(d)) => Some(v * radix + d),
            _ => None,
        }
    }
}

/// A number without its optional leading plus sign. A plus sign that stands alone is no sign.
pub open spec fn without_plus(s: Seq<char>) -> Seq<char> {
    if s.len() > 1 && s[0] == '+' {
        s.skip(1)
    } else {
        s
    }
}

/// The unsigned number that a text denotes in the given radix: at least one digit, an optional
/// plus sign before them, nothing else, and a value of at most `max`.
pub open spec fn number(s: Seq<char>, radix: nat, max: nat) -> Option<nat> {
    let digits = without_plus(s);
    if digits.len() == 0 {
        None
    } else {
        match digits_value(digits, radix) {
            Some(v) => if v <= max {
                Some(v)
            } else {
                None
            },
            None => None,
        }
    }
}

/// A run of digits is worth at least as much as each of its beginnings, and is no number where
/// one of its beginnings is none.
proof fn lemma_digits_grow(s: Seq<char>, radix: nat, k: int)
    requires
        radix >= 1,
        0 <= k <= s.len(),
    ensures
        digits_value(s.take(k), radix) is None ==> digits_value(s, radix) is None,
        digits_value(s, radix) is Some ==> digits_value(s.take(k), radix)->0 <= digits_value(
            s,
            radix,
        )->0,
    decreases s.len() - k,
{
    if k == s.len() {
        assert(s.take(k) =~= s);
    } else {
        lemma_digits_grow(s, radix, k + 1);
        let t = s.take(k + 1);
        assert(t.drop_last() =~= s.take(k));
        if digits_value(t, radix) is Some {
            let v = digits_value(s.take(k), radix)->0;
            assert(v <= v * radix) by (nonlinear_arith)
                requires
                    radix >= 1,
            ;
        }
    }
}

/// Reads an unsigned number from the characters between two positions.
pub fn parse_number(s: &Vec<char>, lo: usize, hi: usize, radix: u32, max: u32) -> (r: Option<u32>)
    requires
        lo <= hi <= s@.len(),
        2 <= radix <= 16,
    ensures
        match r {
            Some(v) => number(s@.subrange(lo as int, hi as int), radix as nat, max as nat) == Some(
                v as nat,
            ),
            None => number(s@.subrange(lo as int, hi as int), radix as nat, max as nat) is None,
        },
{
    let ghost whole = s@.subrange(lo as int, hi as int);
    let ghost digits = without_plus(whole);
    let start: usize = if hi - lo > 1 && s[lo] == '+' {
        lo + 1
    } else {
        lo
    };
    assert(digits =~= s@.subrange(start as int, hi as int));
    if start == hi {
        return None;
    }
    let mut value: u32 = 0;
    let mut i: usize = start;
    assert(digits.take(0) =~= Seq::<char>::empty());
    while i < hi
        invariant
            lo <= start <= i <= hi <= s@.len(),
            start < hi,
            2 <= radix <= 16,
            value <= max,
            whole == s@.subrange(lo as int, hi as int),
            digits == without_plus(whole),
            digits == s@.subrange(start as int, hi as int),
            digits_value(digits.take(i - start), radix as nat) == Some(value as nat),
        decreases hi - i,
    {
        let ghost k = i - start;
        assert(digits.take(k + 1).drop_last() =~= digits.take(k));
        assert(digits.take(k + 1).last() == s@[i as int]);
        proof {
            lemma_digits_grow(digits, radix as nat, k + 1);
        }
        match read_digit(s[i], radix) {
            Some(d) => {
                assert(value * radix + d <= 0xffff_ffff * 16 + 16) by (nonlinear_arith)
                    requires
                        value <= 0xffff_ffff,
                        radix <= 16,
                        d < 16,
                ;
                let next: u64 = value as u64 * radix as u64 + d as u64;
                if next > max as u64 {
                    return None;
                }
                value = next as u32;
            },
            None => {
                return None;
            },
        }
        i = i + 1;
    }
    assert(digits.take(hi - start) =~= digits);
    Some(value)
}

// ---------------------------------------------------------------------------
// White space and trimming
// ---------------------------------------------------------------------------

/// The characters with the Unicode property White_Space.
pub open spec fn white_space(c: char) -> bool {
    let n = c as u32;
    ||| 0x9 <= n <= 0xd
    ||| n == 0x20
    ||| n == 0x85
    ||| n == 0xa0
    ||| n == 0x1680
    ||| 0x2000 <= n <= 0x200a
    ||| n == 0x2028
    ||| n == 0x2029
    ||| n == 0x202f
    ||| n == 0x205f
    ||| n == 0x3000
}

/// Whether a character has the Unicode property White_Space.
pub fn is_white_space(c: char) -> (r: bool)
    ensures
        r == white_space(c),
{
    let n: u32 = c as u32;
    (0x9 <= n && n <= 0xd) || n == 0x20 || n == 0x85 || n == 0xa0 || n == 0x1680 || (0x2000 <= n && n
        <= 0x200a) || n == 0x2028 || n == 0x2029 || n == 0x202f || n == 0x205f || n == 0x3000
}

/// A text without the white space at its start.
pub open spec fn trimmed_start(s: Seq<char>) -> Seq<char>
    decreases s.len(),
{
    if s.len() > 0 && white_space(s[0]) {
        trimmed_start(s.drop_first())
    } else {
        s
    }
}

/// A text without the white space at its end.
pub open spec fn trimmed_end(s: Seq<char>) -> Seq<char>
    decreases s.len(),
{
    if s.len() > 0 && white_space(s.last()) {
        trimmed_end(s.drop_last())
    } else {
        s
    }
}

/// A text without the white space at either end.
pub open spec fn trimmed(s: Seq<char>) -> Seq<char> {
    trimmed_end(trimmed_start(s))
}

/// Narrows a range of characters to the same range without the white space at either end.
pub fn trim(s: &Vec<char>, lo: usize, hi: usize) -> (r: (usize, usize))
    requires
        lo <= hi <= s@.len(),
    ensures
        lo <= r.0 <= r.1 <= hi,
        s@.subrange(r.0 as int, r.1 as int) == trimmed(s@.subrange(lo as int, hi as int)),
{
    let ghost whole = s@.subrange(lo as int, hi as int);
    let mut a: usize = lo;
    while a < hi && is_white_space(s[a])
        invariant
            lo <= a <= hi <= s@.len(),
            trimmed_start(s@.subrange(a as int, hi as int)) == trimmed_start(whole),
        decreases hi - a,
    {
        assert(s@.subrange(a as int, hi as int).drop_first() =~= s@.subrange(a + 1, hi as int));
        a = a + 1;
    }
    let mut b: usize = hi;
    while a < b && is_white_space(s[b - 1])
        invariant
            lo <= a <= b <= hi <= s@.len(),
            trimmed_end(s@.subrange(a as int, b as int)) == trimmed(whole),
        decreases b - a,
    {
        assert(s@.subrange(a as int, b as int).drop_last() =~= s@.subrange(a as int, b - 1));
        b = b - 1;
    }
    (a, b)
}

// ---------------------------------------------------------------------------
// Searching
// ---------------------------------------------------------------------------

/// The position of the first character that is one of two; the length where there is none.
pub open spec fn first_of(s: Seq<char>, a: char, b: char) -> nat
    decreases s.len(),
{
    if s.len() == 0 || s[0] == a || s[0] == b {
        0
    } else {
        1 + first_of(s.drop_first(), a, b)
    }
}

/// What `first_of` is, without recursion.
pub proof fn lemma_first_of(s: Seq<char>, a: char, b: char, k: int)
    requires
        0 <= k <= s.len(),
        forall|j: int| 0 <= j < k ==> s[j] != a && s[j] != b,
        k < s.len() ==> s[k] == a || s[k] == b,
    ensures
        first_of(s, a, b) == k,
    decreases s.len(),
{
    if k > 0 {
        lemma_first_of(s.drop_first(), a, b, k - 1);
    }
}

/// What stands before the position `first_of` and at it.
pub proof fn lemma_at_first_of(s: Seq<char>, a: char, b: char)
    ensures
        first_of(s, a, b) <= s.len(),
        forall|j: int| 0 <= j < first_of(s, a, b) ==> s[j] != a && s[j] != b,
        first_of(s, a, b) < s.len() ==> s[first_of(s, a, b) as int] == a || s[first_of(
            s,
            a,
            b,
        ) as int] == b,
    decreases s.len(),
{
    if s.len() > 0 && s[0] != a && s[0] != b {
        let rest = s.drop_first();
        lemma_at_first_of(rest, a, b);
        assert forall|j: int| 0 <= j < first_of(s, a, b) implies s[j] != a && s[j] != b by {
            if j > 0 {
                assert(s[j] == rest[j - 1]);
            }
        }
    }
}

/// The position of the first character between two positions that is one of two; the end of
/// the range where there is none.
pub fn find_first(s: &Vec<char>, lo: usize, hi: usize, a: char, b: char) -> (r: usize)
    requires
        lo <= hi <= s@.len(),
    ensures
        lo <= r <= hi,
        r - lo == first_of(s@.subrange(lo as int, hi as int), a, b),
        r < hi ==> s@[r as int] == a || s@[r as int] == b,
{
    let mut i: usize = lo;
    while i < hi && s[i] != a && s[i] != b
        invariant
            lo <= i <= hi <= s@.len(),
            forall|j: int| lo <= j < i ==> s@[j] != a && s@[j] != b,
        decreases hi - i,
    {
        i = i + 1;
    }
    proof {
        lemma_first_of(s@.subrange(lo as int, hi as int), a, b, i - lo);
    }
    i
}

// ---------------------------------------------------------------------------
// Order
// ---------------------------------------------------------------------------

/// Two texts agree before a position and `a` has ended or has the smaller character there.
pub open spec fn smaller_at(a: Seq<char>, b: Seq<char>, k: int) -> bool {
    &&& 0 <= k <= a.len()
    &&& k < b.len()
    &&& forall|j: int| 0 <= j < k ==> a[j] == b[j]
    &&& k < a.len() ==> a[k] < b[k]
}

/// The order of strings: `a` comes strictly before `b`, character by character.
pub open spec fn text_before(a: Seq<char>, b: Seq<char>) -> bool {
    exists|k: int| smaller_at(a, b, k)
}

// ---------------------------------------------------------------------------
// Columns
// ---------------------------------------------------------------------------

/// As many blanks as it takes to bring a text to a width.
pub open spec fn blanks(s: Seq<char>, width: nat) -> Seq<char> {
    Seq::new((if s.len() < width { width - s.len() } else { 0 }) as nat, |i: int| ' ')
}

/// A text at the left of a column.
pub open spec fn left_aligned(s: Seq<char>, width: nat) -> Seq<char> {
    s + blanks(s, width)
}

/// A text at the right of a column.
pub open spec fn right_aligned(s: Seq<char>, width: nat) -> Seq<char> {
    blanks(s, width) + s
}

/// Puts at the end of `out` the blanks that bring `s` to a width.
fn push_blanks(out: &mut String, s: &str, width: usize)
    ensures
        final(out)@ == old(out)@ + blanks(s@, width as nat),
{
    let len: usize = s.unicode_len();
    let mut i: usize = len;
    assert(out@ =~= old(out)@ + Seq::new(0, |i: int| ' '));
    while i < width
        invariant
            len == s@.len(),
            len <= i,
            len <= width ==> i <= width,
            len > width ==> i == len,
            out@ == old(out)@ + Seq::new((i - len) as nat, |i: int| ' '),
        decreases width - i,
    {
        out.push(' ');
        assert(out@ =~= old(out)@ + Seq::new((i + 1 - len) as nat, |i: int| ' '));
        i = i + 1;
    }
    assert(out@ =~= old(out)@ + blanks(s@, width as nat));
}

/// Writes a text at the left of a column.
pub fn push_left(out: &mut String, s: &str, width: usize)
    ensures
        final(out)@ == old(out)@ + left_aligned(s@, width as nat),
{
    out.append(s);
    push_blanks(out, s, width);
    assert(out@ =~= old(out)@ + left_aligned(s@, width as nat));
}

/// Writes a text at the right of a column.
pub fn push_right(out: &mut String, s: &str, width: usize)
    ensures
        final(out)@ == old(out)@ + right_aligned(s@, width as nat),
{
    push_blanks(out, s, width);
    out.append(s);
    assert(out@ =~= old(out)@ + right_aligned(s@, width as nat));
}

// ---------------------------------------------------------------------------
// Laws
// ---------------------------------------------------------------------------

/// The digits are `0` to `9` and `a` to `f`, by value.
pub proof fn law_digits(n: u8, c: char)
    requires
        n < 16,
    ensures
        digit_char(n as nat) == "0123456789abcdef"@[n as int],
        call_requires(digit, (n,)),
        call_ensures(digit, (n,), c) ==> c == "0123456789abcdef"@[n as int],
{
    reveal_strlit("0123456789abcdef");
}

/// A decimal text has decimal digits only, no zero before the others, and the value of its number.
pub proof fn law_decimal(n: nat)
    ensures
        decimal(n).len() >= 1,
        forall|i: int| 0 <= i < decimal(n).len() ==> 0x30 <= #[trigger] decimal(n)[i] as int <= 0x39,
        decimal(n)[0] == '0' ==> n == 0 && decimal(n).len() == 1,
        decimal(n).fold_left(0, |v: int, c: char| 10 * v + (c as int - 0x30)) == n,
    decreases n,
{
    let step = |v: int, c: char| 10 * v + (c as int - 0x30);
    let text = decimal(n);
    if n < 10 {
        assert(text.drop_last() =~= Seq::empty());
        assert(text.drop_last().fold_left(0, step) == 0);
    } else {
        law_decimal(n / 10);
        assert(text.drop_last() =~= decimal(n / 10));
        assert(text[0] == decimal(n / 10)[0]);
    }
}

/// The executable form of decimal texts.
pub proof fn law_decimal_text(n: u64, s: String)
    ensures
        call_requires(decimal_text, (n,)),
        call_ensures(decimal_text, (n,), s) ==> {
            &&& s@.len() >= 1
            &&& forall|i: int| 0 <= i < s@.len() ==> 0x30 <= #[trigger] s@[i] as int <= 0x39
            &&& s@[0] == '0' ==> n == 0 && s@.len() == 1
            &&& s@.fold_left(0, |v: int, c: char| 10 * v + (c as int - 0x30)) == n
        },
{
    law_decimal(n as nat);
}

/// A text is a number exactly when it consists of digits, at least one, after at most one plus
/// sign, and their value, each weighing `radix` times the next, is in range. Letters count as
/// digits in either case.
pub proof fn law_number(s: Seq<char>, digits: Seq<char>, radix: nat, max: nat)
    requires
        2 <= radix <= 16,
        s.len() > 1 && s[0] == '+' ==> digits == s.subrange(1, s.len() as int),
        !(s.len() > 1 && s[0] == '+') ==> digits == s,
    ensures
        number(s, radix, max) is Some <==> {
            &&& digits.len() > 0
            &&& forall|i: int| 0 <= i < digits.len() ==> {
                let n = #[trigger] digits[i] as int;
                ||| 0x30 <= n <= 0x39 && n - 0x30 < radix
                ||| 0x41 <= n <= 0x46 && n - 0x37 < radix
                ||| 0x61 <= n <= 0x66 && n - 0x57 < radix
            }
            &&& digits.fold_left(
                0,
                |v: int, c: char|
                    v * radix + c as int - (if c as int <= 0x39 {
                        0x30int
                    } else if c as int <= 0x46 {
                        0x37int
                    } else {
                        0x57int
                    }),
            ) <= max
        },
        number(s, radix, max) is Some ==> number(s, radix, max)->0 == digits.fold_left(
            0,
            |v: int, c: char|
                v * radix + c as int - (if c as int <= 0x39 {
                    0x30int
                } else if c as int <= 0x46 {
                    0x37int
                } else {
                    0x57int
                }),
        ),
{
    let step = |v: int, c: char|
        v * radix + c as int - (if c as int <= 0x39 {
            0x30int
        } else if c as int <= 0x46 {
            0x37int
        } else {
            0x57int
        });
    assert(digits =~= without_plus(s));
    lemma_digits_fold(digits, radix, step);
}

/// A run of digits is one character after the other.
proof fn lemma_digits_fold(s: Seq<char>, radix: nat, step: spec_fn(int, char) -> int)
    requires
        2 <= radix <= 16,
        forall|v: int, c: char| #[trigger]
            step(v, c) == v * radix + c as int - (if c as int <= 0x39 {
                0x30int
            } else if c as int <= 0x46 {
                0x37int
            } else {
                0x57int
            }),
    ensures
        digits_value(s, radix) is Some <==> forall|i: int|
            0 <= i < s.len() ==> {
                let n = #[trigger] s[i] as int;
                ||| 0x30 <= n <= 0x39 && n - 0x30 < radix
                ||| 0x41 <= n <= 0x46 && n - 0x37 < radix
                ||| 0x61 <= n <= 0x66 && n - 0x57 < radix
            },
        digits_value(s, radix) is Some ==> digits_value(s, radix)->0 == s.fold_left(0, step),
    decreases s.len(),
{
    if s.len() > 0 {
        let rest = s.drop_last();
        lemma_digits_fold(rest, radix, step);
        assert(forall|i: int| 0 <= i < rest.len() ==> rest[i] == #[trigger] s[i]);
        assert(forall|i: int| 0 <= i < rest.len() ==> #[trigger] rest[i] == s[i]);
        if digits_value(s, radix) is Some {
            let v = digits_value(rest, radix)->0;
            assert(step(v as int, s.last()) == v * radix + digit_value(s.last(), radix)->0);
        }
    }
}

/// The white space of Unicode, character by character.
pub proof fn law_white_space(c: char, r: bool)
    ensures
        ({
            let all = seq![
                0x9int, 0xa, 0xb, 0xc, 0xd, 0x20, 0x85, 0xa0, 0x1680, 0x2000, 0x2001, 0x2002, 0x2003,
                0x2004, 0x2005, 0x2006, 0x2007, 0x2008, 0x2009, 0x200a, 0x2028, 0x2029, 0x202f,
                0x205f, 0x3000,
            ];
            &&& white_space(c) <==> all.contains(c as int)
            &&& call_requires(is_white_space, (c,))
            &&& call_ensures(is_white_space, (c,), r) ==> r == all.contains(c as int)
        }),
{
    let all = seq![
        0x9int, 0xa, 0xb, 0xc, 0xd, 0x20, 0x85, 0xa0, 0x1680, 0x2000, 0x2001, 0x2002, 0x2003,
        0x2004, 0x2005, 0x2006, 0x2007, 0x2008, 0x2009, 0x200a, 0x2028, 0x2029, 0x202f,
        0x205f, 0x3000,
    ];
    let n = c as int;
    if white_space(c) {
        let i = if n <= 0xd {
            n - 0x9
        } else if n == 0x20 {
            5
        } else if n == 0x85 {
            6
        } else if n == 0xa0 {
            7
        } else if n == 0x1680 {
            8
        } else if n <= 0x200a {
            9 + (n - 0x2000)
        } else if n == 0x2028 {
            20
        } else if n == 0x2029 {
            21
        } else if n == 0x202f {
            22
        } else if n == 0x205f {
            23
        } else {
            24
        };
        assert(all[i] == n);
    }
    if all.contains(n) {
        let i = choose|i: int| 0 <= i < all.len() && all[i] == n;
        assert(all[i] == n);
    }
}

/// Trimming takes white space from both ends of a text, all of it, and nothing else.
pub proof fn law_trimmed(s: Seq<char>) -> (r: (int, int))
    ensures
        0 <= r.0 <= r.1 <= s.len(),
        trimmed(s) == s.subrange(r.0, r.1),
        forall|i: int| 0 <= i < r.0 || r.1 <= i < s.len() ==> white_space(#[trigger] s[i]),
        r.0 < r.1 ==> !white_space(s[r.0]) && !white_space(s[r.1 - 1]),
{
    let a = lemma_trimmed_start(s);
    let rest = s.skip(a);
    let n = lemma_trimmed_end(rest);
    assert(rest.take(n) =~= s.subrange(a, a + n));
    assert forall|i: int| a + n <= i < s.len() implies white_space(#[trigger] s[i]) by {
        assert(rest[i - a] == s[i]);
    }
    if n > 0 {
        assert(rest[0] == s[a] && rest[n - 1] == s[a + n - 1]);
    }
    (a, a + n)
}

proof fn lemma_trimmed_start(s: Seq<char>) -> (a: int)
    ensures
        0 <= a <= s.len(),
        trimmed_start(s) == s.skip(a),
        forall|i: int| 0 <= i < a ==> white_space(#[trigger] s[i]),
        a < s.len() ==> !white_space(s[a]),
    decreases s.len(),
{
    if s.len() > 0 && white_space(s[0]) {
        let rest = s.drop_first();
        let a = lemma_trimmed_start(rest);
        assert(rest.skip(a) =~= s.skip(a + 1));
        assert forall|i: int| 0 <= i < a + 1 implies white_space(#[trigger] s[i]) by {
            if i > 0 {
                assert(rest[i - 1] == s[i]);
            }
        }
        a + 1
    } else {
        assert(s.skip(0) =~= s);
        0
    }
}

proof fn lemma_trimmed_end(s: Seq<char>) -> (n: int)
    ensures
        0 <= n <= s.len(),
        trimmed_end(s) == s.take(n),
        forall|i: int| n <= i < s.len() ==> white_space(#[trigger] s[i]),
        n > 0 ==> !white_space(s[n - 1]),
    decreases s.len(),
{
    if s.len() > 0 && white_space(s.last()) {
        let rest = s.drop_last();
        let n = lemma_trimmed_end(rest);
        assert(rest.take(n) =~= s.take(n));
        assert forall|i: int| n <= i < s.len() implies white_space(#[trigger] s[i]) by {
            if i < s.len() - 1 {
                assert(rest[i] == s[i]);
            }
        }
        n
    } else {
        assert(s.take(s.len() as int) =~= s);
        s.len() as int
    }
}

/// A column holds its text at one end and blanks in the rest of its width. A text that is too
/// wide stays whole.
pub proof fn law_columns(s: Seq<char>, width: nat)
    ensures
        ({
            let n = if s.len() < width { width } else { s.len() };
            let (left, right) = (left_aligned(s, width), right_aligned(s, width));
            &&& left.len() == n && right.len() == n
            &&& left.take(s.len() as int) == s
            &&& right.skip(n - s.len()) == s
            &&& forall|i: int| s.len() <= i < n ==> #[trigger] left[i] == ' '
            &&& forall|i: int| 0 <= i < n - s.len() ==> #[trigger] right[i] == ' '
        }),
{
    let n = if s.len() < width { width } else { s.len() };
    assert(left_aligned(s, width).take(s.len() as int) =~= s);
    assert(right_aligned(s, width).skip(n - s.len()) =~= s);
}

} // verus!
