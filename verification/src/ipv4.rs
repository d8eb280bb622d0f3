//! IPv4 addresses: dotted-decimal text both ways, and the private ranges.

use crate::decimal::decimal;
use crate::decimal::digit_char;
use crate::decimal::u8_to_string;
use crate::text::chars_of;
use crate::text::lemma_split_no_sep;
use crate::text::lemma_split_piece;
use crate::text::split_bounds;
use crate::text::split_on;
use vstd::prelude::*;
use vstd::string::StringExecFns;

verus! {

broadcast use vstd::string::group_string_axioms;

/// An IPv4 address, by its four octets in order.
#[derive(Clone, Copy, PartialEq, Eq, Structural, Debug, Hash)]
pub struct Ipv4Address {
    pub a: u8,
    pub b: u8,
    pub c: u8,
    pub d: u8,
}

/// An ASCII decimal digit.
pub open spec fn is_digit(c: char) -> bool {
    48 <= c as u32 <= 57
}

/// The number that the decimal digits `t` stand for.
pub open spec fn digits_value(t: Seq<char>) -> nat
    decreases t.len(),
{
    if t.len() == 0 {
        0
    } else {
        digits_value(t.drop_last()) * 10 + ((t.last() as u32) - 48) as nat
    }
}

/// One octet of a dotted-decimal address as `Ipv4Addr`'s parser accepts it:
/// one to three digits, no leading zero, at most 255.
pub open spec fn octet_text(t: Seq<char>) -> bool {
    &&& 1 <= t.len() <= 3
    &&& forall|i: int| 0 <= i < t.len() ==> is_digit(#[trigger] t[i])
    &&& (t.len() == 1 || t[0] != '0')
    &&& digits_value(t) <= 255
}

/// The address that `s` denotes in dotted-decimal notation, if it is one:
/// exactly four octets separated by dots (`str::parse::<Ipv4Addr>`).
pub open spec fn parse_ipv4(s: Seq<char>) -> Option<Ipv4Address> {
    let p = split_on(s, '.');
    if p.len() == 4 && octet_text(p[0]) && octet_text(p[1]) && octet_text(p[2]) && octet_text(
        p[3],
    ) {
        Some(
            Ipv4Address {
                a: digits_value(p[0]) as u8,
                b: digits_value(p[1]) as u8,
                c: digits_value(p[2]) as u8,
                d: digits_value(p[3]) as u8,
            },
        )
    } else {
        None
    }
}

/// The dotted-decimal text of an address (`Ipv4Addr`'s `Display`).
pub open spec fn ipv4_text(ip: Ipv4Address) -> Seq<char> {
    decimal(ip.a as nat) + seq!['.'] + decimal(ip.b as nat) + seq!['.'] + decimal(ip.c as nat)
        + seq!['.'] + decimal(ip.d as nat)
}

/// An address in `10.0.0.0/8`, `172.16.0.0/12` or `192.168.0.0/16`
/// (`Ipv4Addr::is_private`).
pub open spec fn is_private_ipv4(ip: Ipv4Address) -> bool {
    ||| ip.a == 10
    ||| (ip.a == 172 && 16 <= ip.b <= 31)
    ||| (ip.a == 192 && ip.b == 168)
}

/// The address as one 32-bit number, the first octet highest.
pub open spec fn ipv4_bits(ip: Ipv4Address) -> u32 {
    ((ip.a as u32) << 24u32) | ((ip.b as u32) << 16u32) | ((ip.c as u32) << 8u32) | (ip.d as u32)
}

proof fn lemma_bits_octets(a: u8, b: u8, c: u8, d: u8)
    ensures
        ((((a as u32) << 24u32) | ((b as u32) << 16u32) | ((c as u32) << 8u32) | (d as u32))
            >> 24u32) as u8 == a,
        ((((a as u32) << 24u32) | ((b as u32) << 16u32) | ((c as u32) << 8u32) | (d as u32))
            >> 16u32) as u8 == b,
        ((((a as u32) << 24u32) | ((b as u32) << 16u32) | ((c as u32) << 8u32) | (d as u32))
            >> 8u32) as u8 == c,
        (((a as u32) << 24u32) | ((b as u32) << 16u32) | ((c as u32) << 8u32) | (d as u32)) as u8
            == d,
{
    assert(((((a as u32) << 24u32) | ((b as u32) << 16u32) | ((c as u32) << 8u32) | (d as u32))
        >> 24u32) as u8 == a) by (bit_vector);
    assert(((((a as u32) << 24u32) | ((b as u32) << 16u32) | ((c as u32) << 8u32) | (d as u32))
        >> 16u32) as u8 == b) by (bit_vector);
    assert(((((a as u32) << 24u32) | ((b as u32) << 16u32) | ((c as u32) << 8u32) | (d as u32))
        >> 8u32) as u8 == c) by (bit_vector);
    assert((((a as u32) << 24u32) | ((b as u32) << 16u32) | ((c as u32) << 8u32) | (d as u32))
        as u8 == d) by (bit_vector);
}

/// Two addresses with the same number are the same address.
pub proof fn lemma_ipv4_bits_injective(x: Ipv4Address, y: Ipv4Address)
    requires
        ipv4_bits(x) == ipv4_bits(y),
    ensures
        x == y,
{
    lemma_bits_octets(x.a, x.b, x.c, x.d);
    lemma_bits_octets(y.a, y.b, y.c, y.d);
}

impl Ipv4Address {
    /// The address as one 32-bit number, the first octet highest.
    pub fn to_bits(&self) -> (n: u32)
        ensures
            n == ipv4_bits(*self),
    {
        ((self.a as u32) << 24u32) | ((self.b as u32) << 16u32) | ((self.c as u32) << 8u32) | (
        self.d as u32)
    }

    /// The address whose number is `n`.
    pub fn from_bits(n: u32) -> (ip: Ipv4Address)
        ensures
            ipv4_bits(ip) == n,
    {
        let ip = Ipv4Address {
            a: (n >> 24u32) as u8,
            b: (n >> 16u32) as u8,
            c: (n >> 8u32) as u8,
            d: n as u8,
        };
        assert(((((n >> 24u32) as u8) as u32) << 24u32) | ((((n >> 16u32) as u8) as u32) << 16u32)
            | ((((n >> 8u32) as u8) as u32) << 8u32) | ((n as u8) as u32) == n) by (bit_vector);
        ip
    }

    /// Whether the address belongs to one of the private ranges.
    pub fn is_private(&self) -> (b: bool)
        ensures
            b == is_private_ipv4(*self),
    {
        self.a == 10 || (self.a == 172 && 16 <= self.b && self.b <= 31) || (self.a == 192 && self.b
            == 168)
    }

    /// The dotted-decimal text of the address.
    pub fn to_text(&self) -> (s: String)
        ensures
            s@ == ipv4_text(*self),
    {
        proof {
            reveal_strlit(".");
        }
        let mut s = u8_to_string(self.a);
        s.append(".");
        s.append(u8_to_string(self.b).as_str());
        s.append(".");
        s.append(u8_to_string(self.c).as_str());
        s.append(".");
        s.append(u8_to_string(self.d).as_str());
        s
    }
}

/// The octet that `cs[lo..hi]` denotes, if it is a valid octet.
fn parse_octet(cs: &[char], lo: usize, hi: usize) -> (r: Option<u8>)
    requires
        lo <= hi <= cs@.len(),
    ensures
        match r {
            Some(v) => octet_text(cs@.subrange(lo as int, hi as int)) && v == digits_value(
                cs@.subrange(lo as int, hi as int),
            ),
            None => !octet_text(cs@.subrange(lo as int, hi as int)),
        },
{
    let ghost t = cs@.subrange(lo as int, hi as int);
    if hi - lo < 1 || hi - lo > 3 {
        return None;
    }
    let mut v: u32 = 0;
    let mut i = lo;
    assert(cs@.subrange(lo as int, lo as int) =~= Seq::<char>::empty());
    while i < hi
        invariant
            lo <= i <= hi,
            hi - lo <= 3,
            hi <= cs@.len(),
            t == cs@.subrange(lo as int, hi as int),
            forall|j: int| lo <= j < i ==> is_digit(cs@[j]),
            v == digits_value(cs@.subrange(lo as int, i as int)),
            v <= 999,
        decreases hi - i,
    {
        let u = cs[i] as u32;
        if u < 48 || u > 57 {
            assert(t[i - lo] == cs@[i as int]);
            return None;
        }
        assert(cs@.subrange(lo as int, i + 1).drop_last() =~= cs@.subrange(lo as int, i as int));
        assert(v <= 99) by {
            lemma_digits_bound(cs@.subrange(lo as int, i as int));
        }
        v = v * 10 + (u - 48);
        i = i + 1;
    }
    assert(cs@.subrange(lo as int, hi as int) =~= t);
    if hi - lo > 1 && cs[lo] == '0' {
        assert(t[0] == cs@[lo as int]);
        return None;
    }
    if v > 255 {
        return None;
    }
    assert forall|j: int| 0 <= j < t.len() implies is_digit(#[trigger] t[j]) by {
        assert(t[j] == cs@[lo + j]);
    }
    Some(v as u8)
}

proof fn lemma_digits_bound(t: Seq<char>)
    requires
        t.len() <= 2,
        forall|j: int| 0 <= j < t.len() ==> is_digit(#[trigger] t[j]),
    ensures
        digits_value(t) <= 99,
        t.len() <= 1 ==> digits_value(t) <= 9,
    decreases t.len(),
{
    if t.len() > 0 {
        assert(is_digit(t[t.len() - 1]));
        lemma_digits_bound(t.drop_last());
    }
}

/// The address denoted by `ip` in dotted-decimal notation, if any.
pub fn parse_ipv4_text(ip: &str) -> (r: Option<Ipv4Address>)
    ensures
        r == parse_ipv4(ip@),
{
    let cs = chars_of(ip);
    let b = split_bounds(cs.as_slice(), '.');
    if b.len() != 4 {
        return None;
    }
    let ghost p = split_on(cs@, '.');
    assert(p[0] == cs@.subrange(b@[0].0 as int, b@[0].1 as int));
    assert(p[1] == cs@.subrange(b@[1].0 as int, b@[1].1 as int));
    assert(p[2] == cs@.subrange(b@[2].0 as int, b@[2].1 as int));
    assert(p[3] == cs@.subrange(b@[3].0 as int, b@[3].1 as int));
    let a = match parse_octet(cs.as_slice(), b[0].0, b[0].1) {
        Some(v) => v,
        None => return None,
    };
    let bb = match parse_octet(cs.as_slice(), b[1].0, b[1].1) {
        Some(v) => v,
        None => return None,
    };
    let c = match parse_octet(cs.as_slice(), b[2].0, b[2].1) {
        Some(v) => v,
        None => return None,
    };
    let d = match parse_octet(cs.as_slice(), b[3].0, b[3].1) {
        Some(v) => v,
        None => return None,
    };
    Some(Ipv4Address { a, b: bb, c, d })
}

/// Whether `ip` is an IPv4 address in dotted-decimal notation.
pub fn is_valid_ipv4(ip: &str) -> (b: bool)
    ensures
        b == parse_ipv4(ip@) is Some,
{
    parse_ipv4_text(ip).is_some()
}

// ---------------------------------------------------------------------------
// Printing an address and reading it back
proof fn lemma_decimal_octet(n: nat)
    requires
        n <= 255,
    ensures
        octet_text(decimal(n)),
        digits_value(decimal(n)) == n,
        !decimal(n).contains('.'),
    decreases n,
{
    lemma_decimal_digits(n);
    let t = decimal(n);
    if n < 10 {
        assert(t.drop_last() =~= Seq::<char>::empty());
    } else {
        lemma_decimal_digits(n / 10);
        assert(t.drop_last() =~= decimal(n / 10));
        if n / 10 >= 10 {
            assert(decimal(n / 10).drop_last() =~= decimal(n / 100));
            assert(decimal(n / 100).len() == 1);
        }
    }
    if t.contains('.') {
        let i = choose|i: int| 0 <= i < t.len() && t[i] == '.';
        assert(is_digit(t[i]));
    }
}

proof fn lemma_decimal_digits(n: nat)
    ensures
        forall|i: int| 0 <= i < decimal(n).len() ==> is_digit(#[trigger] decimal(n)[i]),
        digits_value(decimal(n)) == n,
        decimal(n).len() >= 1,
        n < 10 ==> decimal(n).len() == 1,
        10 <= n < 100 ==> decimal(n).len() == 2,
        100 <= n < 1000 ==> decimal(n).len() == 3,
        n >= 1 ==> decimal(n)[0] != '0',
    decreases n,
{
    if n < 10 {
        assert(decimal(n) == seq![digit_char(n as int)]);
        assert(decimal(n).drop_last() =~= Seq::<char>::empty());
        assert((digit_char(n as int) as u32) == 48 + n);
        assert(digits_value(decimal(n)) == digits_value(decimal(n).drop_last()) * 10 + ((decimal(n).last() as u32) - 48) as nat);
    } else {
        lemma_decimal_digits(n / 10);
        let t = decimal(n);
        assert((digit_char((n % 10) as int) as u32) == 48 + n % 10);
        assert(t.last() == digit_char((n % 10) as int));
        assert(digits_value(t) == digits_value(t.drop_last()) * 10 + ((t.last() as u32) - 48) as nat);
        assert((n / 10) * 10 + n % 10 == n);
        assert(t.drop_last() =~= decimal(n / 10));
        assert forall|i: int| 0 <= i < t.len() implies is_digit(#[trigger] t[i]) by {
            if i < t.len() - 1 {
                assert(t[i] == decimal(n / 10)[i]);
            }
        }
        assert(t[0] == decimal(n / 10)[0]);
    }
}

/// The dotted-decimal text of any address reads back as that address.
pub proof fn lemma_ipv4_text_parses_back(ip: Ipv4Address)
    ensures
        parse_ipv4(ipv4_text(ip)) == Some(ip),
{
    let da = decimal(ip.a as nat);
    let db = decimal(ip.b as nat);
    let dc = decimal(ip.c as nat);
    let dd = decimal(ip.d as nat);
    lemma_decimal_octet(ip.a as nat);
    lemma_decimal_octet(ip.b as nat);
    lemma_decimal_octet(ip.c as nat);
    lemma_decimal_octet(ip.d as nat);
    let s = ipv4_text(ip);
    let r3 = dc + seq!['.'] + dd;
    let r2 = db + seq!['.'] + r3;
    assert(s =~= da + seq!['.'] + r2);
    lemma_split_piece(da, '.', r2, seq![]);
    lemma_split_piece(db, '.', r3, seq![]);
    lemma_split_piece(dc, '.', dd, seq![]);
    lemma_split_no_sep(dd, '.', seq![]);
    let e: Seq<char> = seq![];
    assert(e + da =~= da);
    assert(e + db =~= db);
    assert(e + dc =~= dc);
    assert(e + dd =~= dd);
    let p = split_on(s, '.');
    assert(p =~= seq![da, db, dc, dd]);
}

} // verus!
