//! What numbers, padding, white space and the order of names come to.

use crate::text::{
    bytes_lt, decimal, is_space, name_lt, padded_left, padded_right, signed_decimal, smaller_at,
    trimmed, without_leading_space, without_trailing_space,
};
use vstd::prelude::*;
use vstd::string::*;
use vstd::utf8::encode_utf8;

verus! {

/// The number that decimal digits stand for.
pub open spec fn digits_value(s: Seq<char>) -> int
    decreases s.len(),
{
    if s.len() == 0 {
        0
    } else {
        10 * digits_value(s.drop_last()) + (s.last() as int - '0' as int)
    }
}

/// A number in decimal notation is made of digits, has no leading zero unless it
/// is zero, and stands for the number.
pub proof fn decimals_are_read_back(n: nat)
    ensures
        decimal(n).len() > 0,
        forall|i: int|
            0 <= i < decimal(n).len() ==> '0' as int <= #[trigger] decimal(n)[i] as int <= '9'
                as int,
        decimal(n)[0] == '0' ==> n == 0,
        digits_value(decimal(n)) == n,
    decreases n,
{
    reveal_with_fuel(digits_value, 2);
    if n >= 10 {
        decimals_are_read_back(n / 10);
        let s = decimal(n);
        assert(s.drop_last() =~= decimal(n / 10));
        assert(s.last() as int == '0' as int + n % 10);
        assert(s[0] == decimal(n / 10)[0]);
    } else {
        let s = decimal(n);
        assert(s.drop_last() =~= seq![]);
        assert(s.last() as int == '0' as int + n);
    }
}

/// A negative number has a minus sign before it, and no other has.
pub proof fn signs_are_written(n: int)
    ensures
        n >= 0 ==> signed_decimal(n) == decimal(n as nat),
        n < 0 ==> signed_decimal(n).len() > 0 && signed_decimal(n)[0] == '-' && signed_decimal(
            n,
        ).skip(1) == decimal((-n) as nat),
{
    if n < 0 {
        assert(signed_decimal(n).skip(1) =~= decimal((-n) as nat));
    }
}

/// Padding fills up to the width with spaces, and cuts nothing off.
pub proof fn padding_fills_the_width(s: Seq<char>, width: int)
    ensures
        ({
            let (r, l) = (padded_right(s, width), padded_left(s, width));
            let n = if s.len() < width {
                width
            } else {
                s.len() as int
            };
            &&& r.len() == n
            &&& l.len() == n
            &&& r.take(s.len() as int) == s
            &&& l.skip(n - s.len()) == s
            &&& forall|i: int| s.len() <= i < n ==> #[trigger] r[i] == ' '
            &&& forall|i: int| 0 <= i < n - s.len() ==> #[trigger] l[i] == ' '
        }),
{
    let (r, l) = (padded_right(s, width), padded_left(s, width));
    assert(r.take(s.len() as int) =~= s);
    assert(l.skip(l.len() - s.len()) =~= s);
}

/// All of these are white space.
pub open spec fn blank(s: Seq<char>) -> bool {
    forall|i: int| 0 <= i < s.len() ==> is_space(#[trigger] s[i])
}

proof fn lemma_leading(s: Seq<char>) -> (a: Seq<char>)
    ensures
        blank(a),
        s == a + without_leading_space(s),
        without_leading_space(s).len() > 0 ==> !is_space(without_leading_space(s).first()),
    decreases s.len(),
{
    if s.len() > 0 && is_space(s.first()) {
        let b = lemma_leading(s.drop_first());
        let a = seq![s.first()] + b;
        assert(s =~= seq![s.first()] + s.drop_first());
        assert(s =~= a + without_leading_space(s));
        a
    } else {
        assert(s =~= Seq::<char>::empty() + s);
        seq![]
    }
}

proof fn lemma_trailing(s: Seq<char>) -> (b: Seq<char>)
    ensures
        blank(b),
        s == without_trailing_space(s) + b,
        without_trailing_space(s).len() > 0 ==> !is_space(without_trailing_space(s).last()),
    decreases s.len(),
{
    if s.len() > 0 && is_space(s.last()) {
        let c = lemma_trailing(s.drop_last());
        let b = c.push(s.last());
        assert(s =~= s.drop_last().push(s.last()));
        assert(s =~= without_trailing_space(s) + b);
        b
    } else {
        assert(s =~= s + Seq::<char>::empty());
        seq![]
    }
}

/// Trimming takes off white space at both ends, all of it, and nothing else.
pub proof fn trimming_takes_off_white_space(s: Seq<char>)
    ensures
        exists|a: Seq<char>, b: Seq<char>|
            blank(a) && blank(b) && s == #[trigger] (a + trimmed(s) + b),
        trimmed(s).len() > 0 ==> !is_space(trimmed(s).first()) && !is_space(trimmed(s).last()),
{
    let a = lemma_leading(s);
    let t = without_leading_space(s);
    let b = lemma_trailing(t);
    assert(s =~= a + trimmed(s) + b);
    if trimmed(s).len() > 0 {
        assert(trimmed(s).first() == t.first());
    }
}

/// What is all white space trims to nothing.
pub proof fn blanks_trim_to_nothing(s: Seq<char>)
    requires
        blank(s),
    ensures
        trimmed(s).len() == 0,
{
    trimming_takes_off_white_space(s);
    if trimmed(s).len() > 0 {
        let (a, b) = choose|a: Seq<char>, b: Seq<char>|
            blank(a) && blank(b) && s == #[trigger] (a + trimmed(s) + b);
        assert(s[a.len() as int] == trimmed(s).first());
    }
}

/// A byte sequence comes before every longer one that begins with it.
pub proof fn prefixes_come_first(x: Seq<u8>, y: Seq<u8>)
    requires
        y.len() > 0,
    ensures
        bytes_lt(x, x + y),
        !bytes_lt(x + y, x),
{
    assert(smaller_at(x, x + y, x.len() as int));
    if bytes_lt(x + y, x) {
        let k = choose|k: int| #[trigger] smaller_at(x + y, x, k);
        assert((x + y)[k] == x[k]);
    }
}

/// Where two byte sequences first differ, the smaller byte decides.
pub proof fn first_differences_decide(p: Seq<u8>, a: u8, b: u8, x: Seq<u8>, y: Seq<u8>)
    requires
        a < b,
    ensures
        bytes_lt(p + seq![a] + x, p + seq![b] + y),
        !bytes_lt(p + seq![b] + y, p + seq![a] + x),
{
    let (s, t) = (p + seq![a] + x, p + seq![b] + y);
    let n = p.len() as int;
    assert(s[n] == a && t[n] == b);
    assert(smaller_at(s, t, n));
    if bytes_lt(t, s) {
        let k = choose|k: int| #[trigger] smaller_at(t, s, k);
        if k < n {
            assert(t[k] == p[k] && s[k] == p[k]);
        } else if n < k {
            assert(t[n] == s[n]);
        }
    }
}

/// Names are ordered as their bytes are.
pub proof fn names_are_ordered_by_their_bytes(a: Seq<char>, b: Seq<char>)
    ensures
        name_lt(a, b) <==> bytes_lt(encode_utf8(a), encode_utf8(b)),
{
}

} // verus!
