//! Character-level string helpers shared by the renderers and packers.
//!
//! Text is modelled as `Seq<char>` throughout the library.  Scanning
//! functions walk a `&str` character by character; builders accumulate a
//! `Vec<char>` and turn it into a `String` at the very end.

use vstd::prelude::*;
use vstd::string::*;

verus! {

/// Concatenation of a sequence of character sequences.
pub open spec fn concat_all(ss: Seq<Seq<char>>) -> Seq<char>
    decreases ss.len(),
{
    if ss.len() == 0 {
        Seq::empty()
    } else {
        ss.first() + concat_all(ss.drop_first())
    }
}

pub proof fn lemma_concat_all_push(ss: Seq<Seq<char>>, s: Seq<char>)
    ensures
        concat_all(ss.push(s)) == concat_all(ss) + s,
    decreases ss.len(),
{
    if ss.len() == 0 {
        assert(ss.push(s).drop_first() =~= Seq::<Seq<char>>::empty());
        assert(ss.push(s).first() == s);
        assert(concat_all(ss.push(s)) == s + concat_all(Seq::<Seq<char>>::empty()));
        assert(concat_all(ss.push(s)) =~= s);
        assert(concat_all(ss) + s =~= s);
    } else {
        assert(ss.push(s).drop_first() =~= ss.drop_first().push(s));
        lemma_concat_all_push(ss.drop_first(), s);
        assert(concat_all(ss.push(s)) =~= concat_all(ss) + s);
    }
}

/// The characters of a string, as a vector.
pub fn chars_of(s: &str) -> (v: Vec<char>)
    ensures
        v@ == s@,
{
    let n: usize = s.unicode_len();
    let mut v: Vec<char> = Vec::new();
    let mut i: usize = 0;
    while i < n
        invariant
            i <= n,
            n == s@.len(),
            v@ == s@.take(i as int),
        decreases n - i,
    {
        v.push(s.get_char(i));
        i = i + 1;
        assert(v@ =~= s@.take(i as int));
    }
    assert(v@ =~= s@);
    v
}

/// Appends every character of `s` to `dst`.
pub fn append_str(dst: &mut Vec<char>, s: &str)
    ensures
        final(dst)@ == old(dst)@ + s@,
{
    let n: usize = s.unicode_len();
    let mut i: usize = 0;
    while i < n
        invariant
            i <= n,
            n == s@.len(),
            dst@ == old(dst)@ + s@.take(i as int),
        decreases n - i,
    {
        dst.push(s.get_char(i));
        i = i + 1;
        assert(dst@ =~= old(dst)@ + s@.take(i as int));
    }
    assert(dst@ =~= old(dst)@ + s@);
}

/// Collects a vector of characters into a `String`.
///
/// Relies on `core::iter::Iterator::collect` for `String` from `char`
/// items: the resulting string holds exactly the characters of `v` in
/// order.
#[verifier::external_body]
pub fn string_from_chars(v: &Vec<char>) -> (s: String)
    ensures
        s@ == v@,
{
    v.iter().collect()
}

/// The character for a single decimal digit.
pub open spec fn digit_char(d: nat) -> char {
    if d == 0 {
        '0'
    } else if d == 1 {
        '1'
    } else if d == 2 {
        '2'
    } else if d == 3 {
        '3'
    } else if d == 4 {
        '4'
    } else if d == 5 {
        '5'
    } else if d == 6 {
        '6'
    } else if d == 7 {
        '7'
    } else if d == 8 {
        '8'
    } else {
        '9'
    }
}

/// The usual decimal rendering of a natural number, most significant
/// digit first, with no leading zeros (`0` renders as `"0"`).
pub open spec fn spec_dec(n: nat) -> Seq<char>
    decreases n,
{
    if n < 10 {
        seq![digit_char(n)]
    } else {
        spec_dec(n / 10) + seq![digit_char(n % 10)]
    }
}

fn digit_to_char(d: usize) -> (c: char)
    requires
        d < 10,
    ensures
        c == digit_char(d as nat),
{
    if d == 0 {
        '0'
    } else if d == 1 {
        '1'
    } else if d == 2 {
        '2'
    } else if d == 3 {
        '3'
    } else if d == 4 {
        '4'
    } else if d == 5 {
        '5'
    } else if d == 6 {
        '6'
    } else if d == 7 {
        '7'
    } else if d == 8 {
        '8'
    } else {
        '9'
    }
}

/// Decimal digits of `n`, as characters.
pub fn dec_chars(n: usize) -> (v: Vec<char>)
    ensures
        v@ == spec_dec(n as nat),
{
    let mut rev: Vec<char> = Vec::new();
    rev.push(digit_to_char(n % 10));
    let mut m: usize = n / 10;
    proof {
        assert(rev@.reverse() =~= seq![digit_char(n as nat % 10)]);
        if n < 10 {
            assert(spec_dec(n as nat) =~= rev@.reverse());
        }
    }
    while m > 0
        invariant
            m == 0 ==> spec_dec(n as nat) == rev@.reverse(),
            m > 0 ==> spec_dec(n as nat) == spec_dec(m as nat) + rev@.reverse(),
        decreases m,
    {
        let ghost prev_rev = rev@;
        let ghost prev_m = m as nat;
        rev.push(digit_to_char(m % 10));
        m = m / 10;
        proof {
            assert(rev@.reverse() =~= seq![digit_char(prev_m % 10)] + prev_rev.reverse());
            if prev_m >= 10 {
                assert(spec_dec(prev_m) == spec_dec(prev_m / 10) + seq![digit_char(prev_m % 10)]);
                assert(spec_dec(m as nat) + rev@.reverse() =~= spec_dec(prev_m)
                    + prev_rev.reverse());
            } else {
                assert(spec_dec(prev_m) =~= seq![digit_char(prev_m)]);
                assert(rev@.reverse() =~= spec_dec(prev_m) + prev_rev.reverse());
            }
        }
    }
    let mut v: Vec<char> = Vec::new();
    let mut i: usize = rev.len();
    while i > 0
        invariant
            i <= rev.len(),
            v@ == rev@.subrange(i as int, rev@.len() as int).reverse(),
        decreases i,
    {
        i = i - 1;
        v.push(rev[i]);
        assert(v@ =~= rev@.subrange(i as int, rev@.len() as int).reverse());
    }
    assert(rev@.subrange(0, rev@.len() as int) =~= rev@);
    v
}

/// Decimal rendering of `n` as a `String`.
pub fn dec_string(n: usize) -> (s: String)
    ensures
        s@ == spec_dec(n as nat),
{
    let v = dec_chars(n);
    string_from_chars(&v)
}

} // verus!
