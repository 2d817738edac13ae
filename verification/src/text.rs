//! Small text helpers: appending bytes, decimal numbers, and searching for a
//! byte in a text.
use vstd::prelude::*;

verus! {

/// Append the bytes of `s` to `out`.
pub fn append_slice(out: &mut Vec<u8>, s: &[u8])
    ensures
        final(out)@ == old(out)@ + s@,
{
    let mut k: usize = 0;
    while k < s.len()
        invariant
            k <= s@.len(),
            out@ == old(out)@ + s@.take(k as int),
        decreases s@.len() - k,
    {
        out.push(s[k]);
        assert(s@.take(k + 1) =~= s@.take(k as int).push(s@[k as int]));
        assert(out@ =~= old(out)@ + s@.take(k + 1));
        k = k + 1;
    }
    assert(s@.take(s@.len() as int) =~= s@);
}

/// The ASCII digit of `d`.
pub open spec fn digit_char(d: nat) -> char {
    if d == 0 {
        '0'
    } else if d == 1 {
        '1'
    } else if d == 2 {
        '2'
    } else if d == 3 {
        '3'
    } else if d == 4 {
        '4'
    } else if d == 5 {
        '5'
    } else if d == 6 {
        '6'
    } else if d == 7 {
        '7'
    } else if d == 8 {
        '8'
    } else {
        '9'
    }
}

/// The decimal digits of `n`, without leading zeros (`0` for zero).
pub open spec fn decimal_digits(n: nat) -> Seq<char>
    decreases n,
{
    if n < 10 {
        seq![digit_char(n)]
    } else {
        decimal_digits(n / 10).push(digit_char(n % 10))
    }
}

/// The decimal text of an integer, with a minus sign when it is negative.
pub open spec fn decimal_text(n: int) -> Seq<char> {
    if n < 0 {
        seq!['-'] + decimal_digits((-n) as nat)
    } else {
        decimal_digits(n as nat)
    }
}

/// The decimal text of `n`, with at least two digits.
pub open spec fn two_digit_text(n: nat) -> Seq<char> {
    if n < 10 {
        seq!['0', digit_char(n)]
    } else {
        decimal_digits(n)
    }
}

fn digit(d: u128) -> (c: char)
    requires
        d < 10,
    ensures
        c == digit_char(d as nat),
{
    if d == 0 {
        '0'
    } else if d == 1 {
        '1'
    } else if d == 2 {
        '2'
    } else if d == 3 {
        '3'
    } else if d == 4 {
        '4'
    } else if d == 5 {
        '5'
    } else if d == 6 {
        '6'
    } else if d == 7 {
        '7'
    } else if d == 8 {
        '8'
    } else {
        '9'
    }
}

/// The decimal digits of a non-negative number.
fn digits_of(n: u128) -> (r: Vec<char>)
    ensures
        r@ == decimal_digits(n as nat),
    decreases n,
{
    if n < 10 {
        let mut r: Vec<char> = Vec::new();
        r.push(digit(n));
        assert(r@ =~= seq![digit_char(n as nat)]);
        r
    } else {
        let mut r = digits_of(n / 10);
        r.push(digit(n % 10));
        r
    }
}

/// A string holding the given characters.
fn string_of_chars(cs: &Vec<char>) -> (s: String)
    ensures
        s@ == cs@,
{
    let mut s = String::new();
    let mut k: usize = 0;
    while k < cs.len()
        invariant
            k <= cs@.len(),
            s@ == cs@.take(k as int),
        decreases cs@.len() - k,
    {
        let c = cs[k];
        let one = char_string(c);
        s.append(one.as_str());
        assert(cs@.take(k + 1) =~= cs@.take(k as int).push(c));
        k = k + 1;
    }
    assert(cs@.take(cs@.len() as int) =~= cs@);
    s
}

/// Calls `char::to_string`: the one-character string of `c`.
#[verifier::external_body]
fn char_string(c: char) -> (s: String)
    ensures
        s@ == seq![c],
{
    c.to_string()
}

/// The decimal text of a signed 64-bit integer.
pub fn decimal_string(n: i64) -> (s: String)
    ensures
        s@ == decimal_text(n as int),
{
    if n < 0 {
        let m: i128 = n as i128;
        let abs: u128 = (-m) as u128;
        let mut cs: Vec<char> = Vec::new();
        cs.push('-');
        let ds = digits_of(abs);
        let mut k: usize = 0;
        while k < ds.len()
            invariant
                k <= ds@.len(),
                cs@ == seq!['-'] + ds@.take(k as int),
            decreases ds@.len() - k,
        {
            cs.push(ds[k]);
            assert(ds@.take(k + 1) =~= ds@.take(k as int).push(ds@[k as int]));
            assert(cs@ =~= seq!['-'] + ds@.take(k + 1));
            k = k + 1;
        }
        assert(ds@.take(ds@.len() as int) =~= ds@);
        string_of_chars(&cs)
    } else {
        let ds = digits_of(n as u128);
        string_of_chars(&ds)
    }
}

/// The decimal text of `n` with at least two digits.
pub fn two_digit_string(n: u32) -> (s: String)
    ensures
        s@ == two_digit_text(n as nat),
{
    if n < 10 {
        let mut cs: Vec<char> = Vec::new();
        cs.push('0');
        cs.push(digit(n as u128));
        assert(cs@ =~= seq!['0', digit_char(n as nat)]);
        string_of_chars(&cs)
    } else {
        let ds = digits_of(n as u128);
        string_of_chars(&ds)
    }
}


/// The first position from `k` on where `s` holds the byte `b`.
pub open spec fn find_byte_from(s: Seq<u8>, b: u8, k: int) -> Option<int>
    decreases s.len() - k,
{
    if 0 <= k < s.len() {
        if s[k] == b {
            Some(k)
        } else {
            find_byte_from(s, b, k + 1)
        }
    } else {
        None
    }
}

/// `s` without its leading bytes `b`.
pub open spec fn trim_leading_byte(s: Seq<u8>, b: u8) -> Seq<u8>
    decreases s.len(),
{
    if s.len() > 0 && s[0] == b {
        trim_leading_byte(s.drop_first(), b)
    } else {
        s
    }
}

pub proof fn lemma_find_byte_from(s: Seq<u8>, b: u8, k: int)
    requires
        0 <= k,
    ensures
        find_byte_from(s, b, k) matches Some(i) ==> k <= i < s.len() && s[i] == b && forall|m: int|
            k <= m < i ==> s[m] != b,
        find_byte_from(s, b, k) is None ==> forall|m: int| k <= m < s.len() ==> s[m] != b,
    decreases s.len() - k,
{
    if 0 <= k < s.len() && s[k] != b {
        lemma_find_byte_from(s, b, k + 1);
    }
}

/// The first position of the byte `b` in `s`, or the length of `s`.
pub fn find_byte(s: &[u8], b: u8) -> (r: usize)
    ensures
        r <= s@.len(),
        r < s@.len() ==> find_byte_from(s@, b, 0) == Some(r as int),
        r == s@.len() ==> find_byte_from(s@, b, 0) is None,
{
    let mut k: usize = 0;
    while k < s.len()
        invariant
            k <= s@.len(),
            forall|m: int| 0 <= m < k ==> s@[m] != b,
        decreases s@.len() - k,
    {
        if s[k] == b {
            proof {
                lemma_find_byte_from(s@, b, 0);
                match find_byte_from(s@, b, 0) {
                    Some(i) => {
                        if i < k {
                        }
                    },
                    None => {},
                }
            }
            return k;
        }
        k = k + 1;
    }
    proof {
        lemma_find_byte_from(s@, b, 0);
    }
    k
}

/// The first position from `from` on where `s` does not hold `b`, or the length of `s`.
pub fn skip_byte(s: &[u8], b: u8, from: usize) -> (r: usize)
    requires
        from <= s@.len(),
    ensures
        from <= r <= s@.len(),
        s@.subrange(r as int, s@.len() as int) == trim_leading_byte(s@.subrange(from as int, s@.len() as int), b),
{
    let mut k: usize = from;
    while k < s.len() && s[k] == b
        invariant
            from <= k <= s@.len(),
            trim_leading_byte(s@.subrange(k as int, s@.len() as int), b) == trim_leading_byte(
                s@.subrange(from as int, s@.len() as int),
                b,
            ),
        decreases s@.len() - k,
    {
        assert(s@.subrange(k as int, s@.len() as int).drop_first() =~= s@.subrange(k + 1, s@.len() as int));
        k = k + 1;
    }
    k
}

/// A copy of `s[from..to]`.
pub fn copy_bytes(s: &[u8], from: usize, to: usize) -> (r: Vec<u8>)
    requires
        from <= to <= s@.len(),
    ensures
        r@ == s@.subrange(from as int, to as int),
{
    let mut r: Vec<u8> = Vec::new();
    let mut k = from;
    while k < to
        invariant
            from <= k <= to <= s@.len(),
            r@ == s@.subrange(from as int, k as int),
        decreases to - k,
    {
        r.push(s[k]);
        assert(r@ =~= s@.subrange(from as int, k + 1));
        k = k + 1;
    }
    r
}


/// The decimal text of an unsigned size.
pub fn usize_string(n: usize) -> (s: String)
    ensures
        s@ == decimal_digits(n as nat),
{
    let ds = digits_of(n as u128);
    string_of_chars(&ds)
}


/// `a`, `b` and `c` one after the other.
pub fn concat3(a: &str, b: &str, c: &str) -> (r: String)
    ensures
        r@ == a@ + b@ + c@,
{
    let mut r = a.to_owned();
    r.append(b);
    r.append(c);
    r
}

} // verus!
