use vstd::prelude::*;

verus! {

/// The decimal digit character for `d < 10`.
pub open spec fn digit_char(d: int) -> char {
    if d == 0 {
        '0'
    } else if d == 1 {
        '1'
    } else if d == 2 {
        '2'
    } else if d == 3 {
        '3'
    } else if d == 4 {
        '4'
    } else if d == 5 {
        '5'
    } else if d == 6 {
        '6'
    } else if d == 7 {
        '7'
    } else if d == 8 {
        '8'
    } else {
        '9'
    }
}

/// Decimal notation of `n`, without leading zeros.
pub open spec fn decimal(n: nat) -> Seq<char>
    decreases n,
{
    if n < 10 {
        seq![digit_char(n as int)]
    } else {
        decimal(n / 10).push(digit_char((n % 10) as int))
    }
}

/// The decimal digit character of `d < 10`.
pub fn digit_of(d: u128) -> (c: char)
    requires
        d < 10,
    ensures
        c == digit_char(d as int),
{
    if d == 0 {
        '0'
    } else if d == 1 {
        '1'
    } else if d == 2 {
        '2'
    } else if d == 3 {
        '3'
    } else if d == 4 {
        '4'
    } else if d == 5 {
        '5'
    } else if d == 6 {
        '6'
    } else if d == 7 {
        '7'
    } else if d == 8 {
        '8'
    } else {
        '9'
    }
}

/// Appends the decimal notation of `n`.
pub fn push_decimal(out: &mut Vec<char>, n: u128)
    ensures
        final(out)@ == old(out)@ + decimal(n as nat),
    decreases n,
{
    if n >= 10 {
        push_decimal(out, n / 10);
    }
    out.push(digit_of(n % 10));
    assert(n < 10 ==> decimal(n as nat) == seq![digit_char(n as int)]);
}

/// Appends the characters of `s`.
pub fn push_chars(out: &mut Vec<char>, s: &Vec<char>)
    ensures
        final(out)@ == old(out)@ + s@,
{
    let ghost start = out@;
    let mut k: usize = 0;
    while k < s.len()
        invariant
            k <= s@.len(),
            out@ == start + s@.subrange(0, k as int),
        decreases s@.len() - k,
    {
        out.push(s[k]);
        assert(s@.subrange(0, k + 1) == s@.subrange(0, k as int).push(s@[k as int]));
        k = k + 1;
    }
    assert(s@.subrange(0, s@.len() as int) == s@);
}

/// Whether two character sequences are equal.
pub fn same_chars(a: &Vec<char>, b: &Vec<char>) -> (r: bool)
    ensures
        r == (a@ == b@),
{
    if a.len() != b.len() {
        return false;
    }
    let mut k: usize = 0;
    while k < a.len()
        invariant
            a@.len() == b@.len(),
            k <= a@.len(),
            forall|j: int| 0 <= j < k ==> a@[j] == b@[j],
        decreases a@.len() - k,
    {
        if a[k] != b[k] {
            return false;
        }
        k = k + 1;
    }
    assert(a@ =~= b@);
    true
}

/// The characters of `s`, in order.
pub fn chars_of(s: &str) -> (r: Vec<char>)
    ensures
        r@ == s@,
{
    broadcast use vstd::string::axiom_spec_iter;

    let mut r: Vec<char> = Vec::new();
    for c in it: s.chars()
        invariant
            it.seq() == s@,
            r@ == s@.take(it.index() as int),
    {
        r.push(c);
        assert(s@.take(it.index() + 1) == s@.take(it.index() as int).push(c));
    }
    assert(r@.len() == s@.len());
    assert(r@ =~= s@);
    r
}

/// Relies on `String::from_iter`: the string made of `chars`, in order.
#[verifier::external_body]
pub fn text_of(chars: &Vec<char>) -> (r: String)
    ensures
        r@ == chars@,
{
    String::from_iter(chars.iter())
}

} // verus!
