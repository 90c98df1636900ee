//! Text building blocks: characters, decimal numbers and white space.

use vstd::prelude::*;

verus! {

/// Calls `String::push`: appends the character `c` to `s`.
#[verifier::external_body]
pub fn push_char(s: &mut String, c: char)
    ensures
        final(s)@ == old(s)@.push(c),
{
    s.push(c);
}


/// The character of the decimal digit `d` (for `d < 10`).
pub open spec fn digit_char(d: nat) -> char {
    ((d + 48) as u8) as char
}

/// The decimal numeral of `n`, without leading zeros.
pub open spec fn decimal(n: nat) -> Seq<char>
    decreases n,
{
    if n < 10 {
        seq![digit_char(n)]
    } else {
        decimal(n / 10).push(digit_char(n % 10))
    }
}

/// The decimal digits of `n`, most significant first.
pub fn decimal_digits(n: u64) -> (r: Vec<char>)
    ensures
        r@ == decimal(n as nat),
    decreases n,
{
    let mut digits = if n >= 10 { decimal_digits(n / 10) } else { Vec::new() };
    let d: u8 = (n % 10) as u8;
    digits.push((d + 48) as char);
    proof {
        if n < 10 {
            assert(digits@ =~= decimal(n as nat));
        }
    }
    digits
}

/// Appends each character of `chars` to `out`.
pub fn append_chars(out: &mut String, chars: &Vec<char>)
    ensures
        final(out)@ == old(out)@ + chars@,
{
    let ghost start = out@;
    for i in 0..chars.len()
        invariant
            out@ == start + chars@.take(i as int),
    {
        push_char(out, chars[i]);
        assert(chars@.take(i + 1) =~= chars@.take(i as int).push(chars@[i as int]));
    }
    assert(chars@.take(chars@.len() as int) =~= chars@);
}


/// `s` with '0' characters put in front until it is `width` characters long.
pub open spec fn zero_padded(s: Seq<char>, width: nat) -> Seq<char> {
    if s.len() >= width {
        s
    } else {
        Seq::new((width - s.len()) as nat, |i: int| '0') + s
    }
}

/// Appends the decimal numeral of `n`, padded with leading zeros to at least `width` digits.
pub fn append_zero_padded(out: &mut String, n: u64, width: usize)
    ensures
        final(out)@ == old(out)@ + zero_padded(decimal(n as nat), width as nat),
{
    let digits = decimal_digits(n);
    let len = digits.len();
    let ghost start = out@;
    let mut k: usize = len;
    while k < width
        invariant
            len == decimal(n as nat).len(),
            len <= k,
            len < width ==> k <= width,
            len >= width ==> k == len,
            out@ == start + Seq::new((k - len) as nat, |i: int| '0'),
        decreases width - k,
    {
        push_char(out, '0');
        k = k + 1;
        assert(out@ =~= start + Seq::new((k - len) as nat, |i: int| '0'));
    }
    if len >= width {
        assert(out@ =~= start);
    }
    append_chars(out, &digits);
    if len >= width {
        assert(out@ =~= start + decimal(n as nat));
    } else {
        assert(out@ =~= start + zero_padded(decimal(n as nat), width as nat));
    }
}


/// Characters with the Unicode `White_Space` property.
pub open spec fn is_white_space(c: char) -> bool {
    let u = c as int;
    ||| 0x9 <= u <= 0xD
    ||| u == 0x20
    ||| u == 0x85
    ||| u == 0xA0
    ||| u == 0x1680
    ||| 0x2000 <= u <= 0x200A
    ||| u == 0x2028
    ||| u == 0x2029
    ||| u == 0x202F
    ||| u == 0x205F
    ||| u == 0x3000
}

/// Whether `c` is white space in the Unicode sense.
pub fn white_space(c: char) -> (r: bool)
    ensures
        r == is_white_space(c),
{
    let u = c as u32;
    (0x9 <= u && u <= 0xD) || u == 0x20 || u == 0x85 || u == 0xA0 || u == 0x1680
        || (0x2000 <= u && u <= 0x200A) || u == 0x2028 || u == 0x2029 || u == 0x202F
        || u == 0x205F || u == 0x3000
}

/// `s` without its leading white space.
pub open spec fn trim_start(s: Seq<char>) -> Seq<char>
    decreases s.len(),
{
    if s.len() > 0 && is_white_space(s[0]) {
        trim_start(s.drop_first())
    } else {
        s
    }
}

/// `s` without its trailing white space.
pub open spec fn trim_end(s: Seq<char>) -> Seq<char>
    decreases s.len(),
{
    if s.len() > 0 && is_white_space(s.last()) {
        trim_end(s.drop_last())
    } else {
        s
    }
}

/// `s` without leading and trailing white space.
pub open spec fn trimmed(s: Seq<char>) -> Seq<char> {
    trim_end(trim_start(s))
}

/// The characters of `s`.
pub fn chars_of(s: &str) -> (r: Vec<char>)
    ensures
        r@ == s@,
{
    let mut out: Vec<char> = Vec::new();
    for c in it: s.chars()
        invariant
            it.seq() == s@,
            out@ == s@.take(it.index() as int),
    {
        let ghost i = it.index();
        assert(c == s@[i as int]);
        out.push(c);
        assert(out@ =~= s@.take(i + 1));
    }
    assert(s@.take(s@.len() as int) == s@);
    out
}

/// The characters `v[start..end]` as a string.
pub fn string_of_range(v: &Vec<char>, start: usize, end: usize) -> (r: String)
    requires
        start <= end <= v@.len(),
    ensures
        r@ == v@.subrange(start as int, end as int),
{
    let mut out = String::new();
    for i in start..end
        invariant
            start <= end <= v@.len(),
            out@ == v@.subrange(start as int, i as int),
    {
        push_char(&mut out, v[i]);
        assert(out@ =~= v@.subrange(start as int, i + 1));
    }
    out
}

/// `s` with leading and trailing white space removed.
pub fn trim(s: &str) -> (r: String)
    ensures
        r@ == trimmed(s@),
{
    let v = chars_of(s);
    let mut start: usize = 0;
    assert(v@.subrange(0, v@.len() as int) =~= v@);
    while start < v.len() && white_space(v[start])
        invariant
            start <= v@.len(),
            trim_start(v@) == trim_start(v@.subrange(start as int, v@.len() as int)),
        decreases v.len() - start,
    {
        assert(v@.subrange(start as int, v@.len() as int).drop_first()
            =~= v@.subrange(start + 1, v@.len() as int));
        start = start + 1;
    }
    assert(trim_start(v@) == v@.subrange(start as int, v@.len() as int));
    let mut end: usize = v.len();
    while end > start && white_space(v[end - 1])
        invariant
            start <= end <= v@.len(),
            trim_end(v@.subrange(start as int, v@.len() as int))
                == trim_end(v@.subrange(start as int, end as int)),
        decreases end,
    {
        assert(v@.subrange(start as int, end as int).drop_last()
            =~= v@.subrange(start as int, end - 1));
        end = end - 1;
    }
    string_of_range(&v, start, end)
}

} // verus!
