//! Strings: the order of names, decimal numbers, padding and whitespace.

use vstd::prelude::*;
use vstd::string::*;
use vstd::utf8::{decode_utf8, encode_utf8, valid_utf8};

verus! {

/// At byte `k` the sequence `x` turns out smaller than `y`: they agree before
/// `k`, and there `x` has ended or holds the smaller byte.
pub open spec fn smaller_at(x: Seq<u8>, y: Seq<u8>, k: int) -> bool {
    &&& 0 <= k <= x.len()
    &&& k < y.len()
    &&& forall|j: int| 0 <= j < k ==> #[trigger] x[j] == y[j]
    &&& k == x.len() || x[k] < y[k]
}

/// The lexicographic order of byte sequences.
pub open spec fn bytes_lt(x: Seq<u8>, y: Seq<u8>) -> bool {
    exists|k: int| #[trigger] smaller_at(x, y, k)
}

/// The order of strings: that of their UTF-8 bytes.
pub open spec fn name_lt(a: Seq<char>, b: Seq<char>) -> bool {
    bytes_lt(encode_utf8(a), encode_utf8(b))
}

/// No byte sequence comes before itself.
pub proof fn bytes_lt_irreflexive(x: Seq<u8>)
    ensures
        !bytes_lt(x, x),
{
}

/// The order of byte sequences is transitive.
pub proof fn bytes_lt_transitive(x: Seq<u8>, y: Seq<u8>, z: Seq<u8>)
    requires
        bytes_lt(x, y),
        bytes_lt(y, z),
    ensures
        bytes_lt(x, z),
{
    let i = choose|k: int| #[trigger] smaller_at(x, y, k);
    let j = choose|k: int| #[trigger] smaller_at(y, z, k);
    if i <= j {
        assert forall|m: int| 0 <= m < i implies #[trigger] x[m] == z[m] by {
            assert(x[m] == y[m]);
            assert(y[m] == z[m]);
        }
        if i < j {
            assert(y[i] == z[i]);
        }
        assert(smaller_at(x, z, i));
    } else {
        assert forall|m: int| 0 <= m < j implies #[trigger] x[m] == z[m] by {
            assert(x[m] == y[m]);
            assert(y[m] == z[m]);
        }
        assert(x[j] == y[j]);
        assert(smaller_at(x, z, j));
    }
}

/// Of two different byte sequences one comes before the other.
pub proof fn bytes_lt_total(x: Seq<u8>, y: Seq<u8>)
    ensures
        x == y || bytes_lt(x, y) || bytes_lt(y, x),
    decreases x.len(),
{
    if x.len() == 0 {
        if y.len() > 0 {
            assert(smaller_at(x, y, 0));
        } else {
            assert(x =~= y);
        }
    } else if y.len() == 0 {
        assert(smaller_at(y, x, 0));
    } else if x[0] < y[0] {
        assert(smaller_at(x, y, 0));
    } else if y[0] < x[0] {
        assert(smaller_at(y, x, 0));
    } else {
        let (s, t) = (x.drop_first(), y.drop_first());
        bytes_lt_total(s, t);
        if s == t {
            assert forall|i: int| 0 <= i < x.len() implies x[i] == y[i] by {
                if i > 0 {
                    assert(s[i - 1] == t[i - 1]);
                }
            }
            assert(s.len() == t.len());
            assert(x =~= y);
        } else if bytes_lt(s, t) {
            lemma_one_more(x, y);
        } else {
            lemma_one_more(y, x);
        }
    }
}

proof fn lemma_one_more(x: Seq<u8>, y: Seq<u8>)
    requires
        x.len() > 0,
        y.len() > 0,
        x[0] == y[0],
        bytes_lt(x.drop_first(), y.drop_first()),
    ensures
        bytes_lt(x, y),
{
    let (s, t) = (x.drop_first(), y.drop_first());
    let k = choose|k: int| #[trigger] smaller_at(s, t, k);
    assert forall|j: int| 0 <= j < k + 1 implies #[trigger] x[j] == y[j] by {
        if j > 0 {
            assert(s[j - 1] == t[j - 1]);
        }
    }
    assert(smaller_at(x, y, k + 1));
}

/// Strings with the same bytes are the same string.
pub proof fn same_bytes_same_string(a: Seq<char>, b: Seq<char>)
    requires
        encode_utf8(a) == encode_utf8(b),
    ensures
        a == b,
{
    vstd::utf8::encode_utf8_decode_utf8(a);
    vstd::utf8::encode_utf8_decode_utf8(b);
}

/// The bytes of two strings joined are the bytes of one and then those of the
/// other.
pub proof fn joined_bytes(a: Seq<char>, b: Seq<char>)
    ensures
        encode_utf8(a + b) == encode_utf8(a) + encode_utf8(b),
    decreases a.len(),
{
    if a.len() == 0 {
        assert(a + b =~= b);
        assert(encode_utf8(a) + encode_utf8(b) =~= encode_utf8(b));
    } else {
        let (s, t) = (a.drop_first(), a + b);
        joined_bytes(s, b);
        assert(t.drop_first() =~= s + b);
        let first = vstd::utf8::encode_scalar(a[0] as u32);
        assert(first + (encode_utf8(s) + encode_utf8(b)) =~= (first + encode_utf8(s)) + encode_utf8(
            b,
        ));
    }
}

/// Whether two strings are the same.
pub fn same_text(a: &str, b: &str) -> (r: bool)
    ensures
        r == (a@ == b@),
{
    let x = a.as_bytes();
    let y = b.as_bytes();
    if x.len() != y.len() {
        return false;
    }
    let mut k: usize = 0;
    while k < x.len()
        invariant
            k <= x.len(),
            x.len() == y.len(),
            x@ == encode_utf8(a@),
            y@ == encode_utf8(b@),
            forall|j: int| 0 <= j < k ==> x@[j] == y@[j],
        decreases x.len() - k,
    {
        if x[k] != y[k] {
            return false;
        }
        k = k + 1;
    }
    proof {
        assert(x@ =~= y@);
        same_bytes_same_string(a@, b@);
    }
    true
}

/// Whether the first byte sequence comes before the second.
pub fn bytes_before(x: &[u8], y: &[u8]) -> (r: bool)
    ensures
        r == bytes_lt(x@, y@),
{
    let mut k: usize = 0;
    while k < x.len() && k < y.len()
        invariant
            k <= x.len(),
            k <= y.len(),
            forall|j: int| 0 <= j < k ==> x@[j] == y@[j],
        decreases x.len() - k,
    {
        if x[k] < y[k] {
            assert(smaller_at(x@, y@, k as int));
            return true;
        }
        if y[k] < x[k] {
            proof {
                if bytes_lt(x@, y@) {
                    let j = choose|j: int| #[trigger] smaller_at(x@, y@, j);
                    if k < j {
                        assert(x@[k as int] == y@[k as int]);
                    }
                }
            }
            return false;
        }
        k = k + 1;
    }
    if k < y.len() {
        assert(smaller_at(x@, y@, k as int));
    }
    k < y.len()
}

/// `String::push`: appends the character to the end of the string.
pub assume_specification[ String::push ](s: &mut String, ch: char)
    ensures
        final(s)@ == old(s)@.push(ch),
;

/// `std::str::from_utf8`: bytes that are valid UTF-8 are the string that they
/// encode, and no others are a string.
#[verifier::external_body]
pub(crate) fn utf8_text(bytes: &[u8]) -> (r: Option<String>)
    ensures
        match r {
            Some(s) => valid_utf8(bytes@) && s@ == decode_utf8(bytes@),
            None => !valid_utf8(bytes@),
        },
{
    match std::str::from_utf8(bytes) {
        Ok(s) => Some(s.to_owned()),
        Err(_) => None,
    }
}

/// The decimal digit of a number below ten.
pub open spec fn digit(d: nat) -> char {
    (('0' as nat) + d) as char
}

/// A natural number in decimal notation, without leading zeros.
pub open spec fn decimal(n: nat) -> Seq<char>
    decreases n,
{
    if n < 10 {
        seq![digit(n)]
    } else {
        decimal(n / 10).push(digit(n % 10))
    }
}

/// An integer in decimal notation.
pub open spec fn signed_decimal(n: int) -> Seq<char> {
    if n < 0 {
        seq!['-'] + decimal((-n) as nat)
    } else {
        decimal(n as nat)
    }
}

fn digit_char(d: u64) -> (c: char)
    requires
        d < 10,
    ensures
        c == digit(d as nat),
{
    if d == 0 {
        '0'
    } else if d == 1 {
        '1'
    } else if d == 2 {
        '2'
    } else if d == 3 {
        '3'
    } else if d == 4 {
        '4'
    } else if d == 5 {
        '5'
    } else if d == 6 {
        '6'
    } else if d == 7 {
        '7'
    } else if d == 8 {
        '8'
    } else {
        '9'
    }
}

/// Writes a number in decimal notation.
pub fn decimal_text(n: u64) -> (r: String)
    ensures
        r@ == decimal(n as nat),
    decreases n,
{
    let mut s = if n < 10 {
        String::new()
    } else {
        decimal_text(n / 10)
    };
    s.push(digit_char(n % 10));
    assert(s@ =~= decimal(n as nat));
    s
}

/// Writes an integer in decimal notation.
pub fn signed_text(n: i32) -> (r: String)
    ensures
        r@ == signed_decimal(n as int),
{
    if n < 0 {
        let mut s = String::new();
        s.push('-');
        s.append(decimal_text((0 - n as i64) as u64).as_str());
        assert(s@ =~= signed_decimal(n as int));
        s
    } else {
        decimal_text(n as u64)
    }
}

/// `n` spaces.
pub open spec fn spaces(n: int) -> Seq<char> {
    Seq::new(
        if n > 0 {
            n as nat
        } else {
            0
        },
        |i: int| ' ',
    )
}

/// A string with spaces behind it, up to a width.
pub open spec fn padded_right(s: Seq<char>, width: int) -> Seq<char> {
    s + spaces(width - s.len())
}

/// A string with spaces before it, up to a width.
pub open spec fn padded_left(s: Seq<char>, width: int) -> Seq<char> {
    spaces(width - s.len()) + s
}

fn space_text(n: usize) -> (r: String)
    ensures
        r@ == spaces(n as int),
{
    let mut s = String::new();
    let mut i: usize = 0;
    assert(s@ =~= spaces(0));
    while i < n
        invariant
            i <= n,
            s@ == spaces(i as int),
        decreases n - i,
    {
        s.push(' ');
        i = i + 1;
        assert(s@ =~= spaces(i as int));
    }
    s
}

/// Appends `text` and then spaces, so that both together take up `width`
/// characters, or more if `text` is longer.
pub fn append_padded_right(out: &mut String, text: &str, width: usize)
    ensures
        final(out)@ == old(out)@ + padded_right(text@, width as int),
{
    let n = text.unicode_len();
    out.append(text);
    if n < width {
        out.append(space_text(width - n).as_str());
    }
    assert(out@ =~= old(out)@ + padded_right(text@, width as int));
}

/// Appends spaces and then `text`, so that both together take up `width`
/// characters, or more if `text` is longer.
pub fn append_padded_left(out: &mut String, text: &str, width: usize)
    ensures
        final(out)@ == old(out)@ + padded_left(text@, width as int),
{
    let n = text.unicode_len();
    if n < width {
        out.append(space_text(width - n).as_str());
    }
    out.append(text);
    assert(out@ =~= old(out)@ + padded_left(text@, width as int));
}

/// Unicode white space.
pub open spec fn is_space(c: char) -> bool {
    let n = c as u32;
    ||| 0x09 <= n <= 0x0d
    ||| n == 0x20
    ||| n == 0x85
    ||| n == 0xa0
    ||| n == 0x1680
    ||| 0x2000 <= n <= 0x200a
    ||| n == 0x2028
    ||| n == 0x2029
    ||| n == 0x202f
    ||| n == 0x205f
    ||| n == 0x3000
}

/// Whether a character is white space.
pub fn space(c: char) -> (r: bool)
    ensures
        r == is_space(c),
{
    let n = c as u32;
    (0x09 <= n && n <= 0x0d) || n == 0x20 || n == 0x85 || n == 0xa0 || n == 0x1680 || (0x2000 <= n
        && n <= 0x200a) || n == 0x2028 || n == 0x2029 || n == 0x202f || n == 0x205f || n == 0x3000
}

/// A string without the white space at its front.
pub open spec fn without_leading_space(s: Seq<char>) -> Seq<char>
    decreases s.len(),
{
    if s.len() > 0 && is_space(s.first()) {
        without_leading_space(s.drop_first())
    } else {
        s
    }
}

/// A string without the white space at its end.
pub open spec fn without_trailing_space(s: Seq<char>) -> Seq<char>
    decreases s.len(),
{
    if s.len() > 0 && is_space(s.last()) {
        without_trailing_space(s.drop_last())
    } else {
        s
    }
}

/// A string without the white space around it.
pub open spec fn trimmed(s: Seq<char>) -> Seq<char> {
    without_trailing_space(without_leading_space(s))
}

/// Cuts off the white space around a string.
pub fn trim<'a>(s: &'a str) -> (r: &'a str)
    ensures
        r@ == trimmed(s@),
{
    let n = s.unicode_len();
    let mut a: usize = 0;
    assert(s@.subrange(0, n as int) =~= s@);
    while a < n && space(s.get_char(a))
        invariant
            a <= n,
            n == s@.len(),
            without_leading_space(s@) == without_leading_space(s@.subrange(a as int, n as int)),
        decreases n - a,
    {
        assert(s@.subrange(a as int, n as int).drop_first() =~= s@.subrange(a + 1, n as int));
        a = a + 1;
    }
    assert(without_leading_space(s@) == s@.subrange(a as int, n as int));
    let mut b: usize = n;
    while a < b && space(s.get_char(b - 1))
        invariant
            a <= b <= n,
            n == s@.len(),
            trimmed(s@) == without_trailing_space(s@.subrange(a as int, b as int)),
        decreases b,
    {
        assert(s@.subrange(a as int, b as int).drop_last() =~= s@.subrange(a as int, b - 1));
        b = b - 1;
    }
    s.substring_char(a, b)
}

} // verus!
