use vstd::prelude::*;

use crate::text::{chars_of, pieces, slice, split_at_char, views_of};

verus! {

pub open spec fn is_digit(c: char) -> bool {
    '0' <= c && c <= '9'
}

pub open spec fn is_hex(c: char) -> bool {
    is_digit(c) || ('a' <= c && c <= 'f') || ('A' <= c && c <= 'F')
}

/// A character that can stand in an address: a hex digit, a dot or a colon.
pub open spec fn is_ip_char(c: char) -> bool {
    is_hex(c) || c == '.' || c == ':'
}

/// The number written by the decimal digits `p`.
pub open spec fn decimal_value(p: Seq<char>) -> int
    decreases p.len(),
{
    if p.len() == 0 {
        0
    } else {
        decimal_value(p.drop_last()) * 10 + (p.last() as int - '0' as int)
    }
}

/// One to three decimal digits whose value is at most 255.
pub open spec fn is_octet(p: Seq<char>) -> bool {
    &&& 1 <= p.len() <= 3
    &&& forall|i: int| 0 <= i < p.len() ==> is_digit(#[trigger] p[i])
    &&& decimal_value(p) <= 255
}

/// Four octets separated by dots.
pub open spec fn is_ipv4(s: Seq<char>) -> bool {
    let p = pieces(s, '.');
    &&& p.len() == 4
    &&& forall|i: int| 0 <= i < 4 ==> is_octet(#[trigger] p[i])
}

/// One to four hex digits.
pub open spec fn is_hextet(p: Seq<char>) -> bool {
    &&& 1 <= p.len() <= 4
    &&& forall|i: int| 0 <= i < p.len() ==> is_hex(#[trigger] p[i])
}

/// Every colon-separated piece of `s` is a hextet.
pub open spec fn all_hextets(s: Seq<char>) -> bool {
    forall|i: int| 0 <= i < pieces(s, ':').len() ==> is_hextet(#[trigger] pieces(s, ':')[i])
}

/// One side of a `::`: empty, or hextets separated by single colons.
pub open spec fn side_ok(s: Seq<char>) -> bool {
    s.len() == 0 || all_hextets(s)
}

/// How many hextets one side of a `::` holds.
pub open spec fn side_count(s: Seq<char>) -> int {
    if s.len() == 0 {
        0
    } else {
        pieces(s, ':').len() as int
    }
}

pub open spec fn double_colon_at(s: Seq<char>, k: int) -> bool {
    0 <= k && k + 1 < s.len() && s[k] == ':' && s[k + 1] == ':'
}

/// `k` is where the first `::` of `s` starts.
pub open spec fn first_double_colon(s: Seq<char>, k: int) -> bool {
    &&& double_colon_at(s, k)
    &&& forall|j: int| 0 <= j < k ==> !double_colon_at(s, j)
}

/// The `::` at `k` stands for the zero hextets that the two sides leave out.
pub open spec fn compressed_ok(s: Seq<char>, k: int) -> bool {
    let left = s.take(k);
    let right = s.skip(k + 2);
    &&& side_ok(left)
    &&& side_ok(right)
    &&& side_count(left) + side_count(right) <= 7
}

/// Eight hextets separated by colons, or fewer with one `::` in place of the
/// rest.
pub open spec fn is_ipv6(s: Seq<char>) -> bool {
    ||| (pieces(s, ':').len() == 8 && all_hextets(s))
    ||| exists|k: int| first_double_colon(s, k) && compressed_ok(s, k)
}

/// A syntactically valid IPv4 or IPv6 address.
pub open spec fn is_ip_spec(s: Seq<char>) -> bool {
    &&& forall|i: int| 0 <= i < s.len() ==> is_ip_char(#[trigger] s[i])
    &&& (is_ipv4(s) || is_ipv6(s))
}

fn digit(c: char) -> (r: bool)
    ensures
        r == is_digit(c),
{
    '0' <= c && c <= '9'
}

fn hex(c: char) -> (r: bool)
    ensures
        r == is_hex(c),
{
    digit(c) || ('a' <= c && c <= 'f') || ('A' <= c && c <= 'F')
}

fn octet(p: &Vec<char>) -> (r: bool)
    ensures
        r == is_octet(p@),
{
    if p.len() < 1 || p.len() > 3 {
        return false;
    }
    let mut value: u32 = 0;
    let mut i: usize = 0;
    while i < p.len()
        invariant
            1 <= p.len() <= 3,
            i <= p.len(),
            forall|j: int| 0 <= j < i ==> is_digit(#[trigger] p@[j]),
            value == decimal_value(p@.take(i as int)),
            i == 0 ==> value == 0,
            i == 1 ==> value <= 9,
            i == 2 ==> value <= 99,
            i == 3 ==> value <= 999,
        decreases p.len() - i,
    {
        if !digit(p[i]) {
            return false;
        }
        assert(p@.take(i + 1).drop_last() =~= p@.take(i as int));
        value = value * 10 + (p[i] as u32 - '0' as u32);
        i = i + 1;
    }
    assert(p@.take(p.len() as int) =~= p@);
    value <= 255
}

fn ipv4(s: &Vec<char>) -> (r: bool)
    ensures
        r == is_ipv4(s@),
{
    let p = split_at_char(s, '.');
    if p.len() != 4 {
        return false;
    }
    let mut i: usize = 0;
    while i < 4
        invariant
            p.len() == 4,
            views_of(p@) == pieces(s@, '.'),
            i <= 4,
            forall|j: int| 0 <= j < i ==> is_octet(#[trigger] pieces(s@, '.')[j]),
        decreases 4 - i,
    {
        assert(views_of(p@)[i as int] == p@[i as int]@);
        if !octet(&p[i]) {
            return false;
        }
        i = i + 1;
    }
    true
}

fn hextet(p: &Vec<char>) -> (r: bool)
    ensures
        r == is_hextet(p@),
{
    if p.len() < 1 || p.len() > 4 {
        return false;
    }
    let mut i: usize = 0;
    while i < p.len()
        invariant
            i <= p.len(),
            forall|j: int| 0 <= j < i ==> is_hex(#[trigger] p@[j]),
        decreases p.len() - i,
    {
        if !hex(p[i]) {
            return false;
        }
        i = i + 1;
    }
    true
}

/// Whether every colon-separated piece of `s` is a hextet, and how many there are.
fn hextets(s: &Vec<char>) -> (r: (bool, usize))
    ensures
        r.0 == all_hextets(s@),
        r.1 == pieces(s@, ':').len(),
{
    let p = split_at_char(s, ':');
    let mut i: usize = 0;
    while i < p.len()
        invariant
            views_of(p@) == pieces(s@, ':'),
            i <= p.len(),
            forall|j: int| 0 <= j < i ==> is_hextet(#[trigger] pieces(s@, ':')[j]),
        decreases p.len() - i,
    {
        assert(views_of(p@)[i as int] == p@[i as int]@);
        if !hextet(&p[i]) {
            return (false, p.len());
        }
        i = i + 1;
    }
    (true, p.len())
}

fn side(s: &Vec<char>) -> (r: (bool, usize))
    ensures
        r.0 == side_ok(s@),
        r.0 ==> r.1 == side_count(s@),
{
    if s.len() == 0 {
        (true, 0)
    } else {
        hextets(s)
    }
}

fn ipv6(s: &Vec<char>) -> (r: bool)
    ensures
        r == is_ipv6(s@),
{
    let (full, n) = hextets(s);
    if full && n == 8 {
        return true;
    }
    let mut k: usize = 0;
    while k < s.len()
        invariant
            k <= s.len(),
            !(pieces(s@, ':').len() == 8 && all_hextets(s@)),
            forall|j: int| 0 <= j < k ==> !double_colon_at(s@, j),
        decreases s.len() - k,
    {
        if k + 1 < s.len() && s[k] == ':' && s[k + 1] == ':' {
            assert(first_double_colon(s@, k as int));
            let left = slice(s, 0, k);
            let right = slice(s, k + 2, s.len());
            assert(left@ =~= s@.take(k as int));
            assert(right@ =~= s@.skip(k + 2));
            let (lok, lc) = side(&left);
            let (rok, rc) = side(&right);
            let ok = lok && rok && lc <= 7 && rc <= 7 - lc;
            assert(ok == compressed_ok(s@, k as int));
            assert forall|j: int| #[trigger] first_double_colon(s@, j) implies j == k by {
                if j < k {
                    assert(!double_colon_at(s@, j));
                } else if j > k {
                    assert(double_colon_at(s@, k as int));
                }
            }
            if ok {
                assert(first_double_colon(s@, k as int) && compressed_ok(s@, k as int));
            }
            return ok;
        }
        k = k + 1;
    }
    assert forall|j: int| !#[trigger] first_double_colon(s@, j) by {
        if 0 <= j < k {
            assert(!double_colon_at(s@, j));
        }
    }
    false
}

/// Whether `s` is a syntactically valid IPv4 or IPv6 address.
pub fn ip_chars(s: &Vec<char>) -> (r: bool)
    ensures
        r == is_ip_spec(s@),
{
    let mut i: usize = 0;
    while i < s.len()
        invariant
            i <= s.len(),
            forall|j: int| 0 <= j < i ==> is_ip_char(#[trigger] s@[j]),
        decreases s.len() - i,
    {
        let c = s[i];
        if !(hex(c) || c == '.' || c == ':') {
            return false;
        }
        i = i + 1;
    }
    ipv4(s) || ipv6(s)
}

/// Whether `text` is a syntactically valid IPv4 or IPv6 address.
pub fn is_ip(text: &str) -> (r: bool)
    ensures
        r == is_ip_spec(text@),
{
    let v = chars_of(text);
    ip_chars(&v)
}

} // verus!
