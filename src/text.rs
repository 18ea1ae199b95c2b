//! Building text from verified pieces.
use vstd::prelude::*;
use vstd::string::*;

verus! {

/// Appends the characters of `s`.
pub fn push_text(v: &mut Vec<char>, s: &str)
    ensures
        final(v)@ == old(v)@ + s@,
{
    let n = s.unicode_len();
    let mut i: usize = 0;
    let ghost v0 = v@;
    while i < n
        invariant
            i <= n,
            n == s@.len(),
            v@ == v0 + s@.take(i as int),
        decreases n - i,
    {
        v.push(s.get_char(i));
        assert(s@.take(i + 1) =~= s@.take(i as int).push(s@[i as int]));
        i = i + 1;
    }
    assert(s@.take(n as int) =~= s@);
}

/// Appends the characters of `s`.
pub fn push_string(v: &mut Vec<char>, s: &String)
    ensures
        final(v)@ == old(v)@ + s@,
{
    push_text(v, s.as_str());
}

/// The decimal digit character of `d` < 10.
pub open spec fn digit_to_char(d: nat) -> char {
    ((d + 48) as u8) as char
}

/// The decimal text of `n`.
pub open spec fn decimal(n: nat) -> Seq<char>
    decreases n,
{
    if n < 10 {
        seq![digit_to_char(n)]
    } else {
        decimal(n / 10).push(digit_to_char(n % 10))
    }
}

/// Appends the decimal text of `n`.
pub fn push_decimal(v: &mut Vec<char>, n: usize)
    ensures
        final(v)@ == old(v)@ + decimal(n as nat),
    decreases n,
{
    if n < 10 {
        v.push(((n as u8) + 48) as char);
        assert(decimal(n as nat) =~= seq![digit_to_char(n as nat)]);
    } else {
        let ghost v0 = v@;
        push_decimal(v, n / 10);
        v.push((((n % 10) as u8) + 48) as char);
        assert(v@ =~= v0 + decimal(n as nat));
    }
}

} // verus!
