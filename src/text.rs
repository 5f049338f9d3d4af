//! Character-level helpers shared by the configuration and class modules.

use vstd::prelude::*;

verus! {

/// Unicode `White_Space` property, as `char::is_whitespace` documents it.
pub open spec fn is_space(c: char) -> bool {
    let u = c as u32;
    (0x9 <= u <= 0xd) || u == 0x20 || u == 0x85 || u == 0xa0 || u == 0x1680 || (0x2000 <= u
        <= 0x200a) || u == 0x2028 || u == 0x2029 || u == 0x202f || u == 0x205f || u == 0x3000
}

/// Whether `c` is white space.
pub fn space(c: char) -> (r: bool)
    ensures
        r == is_space(c),
{
    let u = c as u32;
    (0x9 <= u && u <= 0xd) || u == 0x20 || u == 0x85 || u == 0xa0 || u == 0x1680 || (0x2000 <= u
        && u <= 0x200a) || u == 0x2028 || u == 0x2029 || u == 0x202f || u == 0x205f || u == 0x3000
}

/// The characters of `s`, in order.
pub fn chars_of(s: &str) -> (r: Vec<char>)
    ensures
        r@ == s@,
{
    let mut r: Vec<char> = Vec::new();
    for c in it: s.chars()
        invariant
            r@ == it.seq().take(it.index() as int),
    {
        r.push(c);
    }
    r
}

/// Relies on `String::push`: appends one character.
#[verifier::external_body]
pub(crate) fn push_char(s: &mut String, c: char)
    ensures
        final(s)@ == old(s)@.push(c),
{
    s.push(c)
}

/// A string holding exactly the given characters.
pub fn string_of(cs: &[char]) -> (r: String)
    ensures
        r@ == cs@,
{
    let mut r = String::new();
    let mut i: usize = 0;
    while i < cs.len()
        invariant
            i <= cs@.len(),
            r@ == cs@.take(i as int),
        decreases cs@.len() - i,
    {
        push_char(&mut r, cs[i]);
        i += 1;
        assert(cs@.take(i as int) == cs@.take(i - 1).push(cs@[i - 1]));
    }
    assert(cs@.take(cs@.len() as int) == cs@);
    r
}

/// `s` without its leading white space.
pub open spec fn trim_start(s: Seq<char>) -> Seq<char>
    decreases s.len(),
{
    if s.len() > 0 && is_space(s[0]) {
        trim_start(s.drop_first())
    } else {
        s
    }
}

/// `s` without its trailing white space.
pub open spec fn trim_end(s: Seq<char>) -> Seq<char>
    decreases s.len(),
{
    if s.len() > 0 && is_space(s.last()) {
        trim_end(s.drop_last())
    } else {
        s
    }
}

/// `s` without leading and trailing white space, as `str::trim` gives it.
pub open spec fn trim(s: Seq<char>) -> Seq<char> {
    trim_end(trim_start(s))
}

/// Bounds `(a, b)` of the trimmed part of `s`.
pub fn trim_bounds(s: &[char]) -> (r: (usize, usize))
    ensures
        r.0 <= r.1 <= s@.len(),
        s@.subrange(r.0 as int, r.1 as int) == trim(s@),
{
    let n = s.len();
    let mut a: usize = 0;
    assert(s@.subrange(0, n as int) == s@);
    while a < n && space(s[a])
        invariant
            a <= n == s@.len(),
            trim_start(s@) == trim_start(s@.subrange(a as int, n as int)),
        decreases n - a,
    {
        assert(s@.subrange(a as int, n as int).drop_first() == s@.subrange(a + 1, n as int));
        a += 1;
    }
    assert(trim_start(s@.subrange(a as int, n as int)) == s@.subrange(a as int, n as int));
    let mut b: usize = n;
    while b > a && space(s[b - 1])
        invariant
            a <= b <= n == s@.len(),
            trim(s@) == trim_end(s@.subrange(a as int, b as int)),
        decreases b - a,
    {
        assert(s@.subrange(a as int, b as int).drop_last() == s@.subrange(a as int, b - 1));
        b -= 1;
    }
    (a, b)
}

/// The trimmed characters of `s`.
pub fn trim_chars(s: &[char]) -> (r: Vec<char>)
    ensures
        r@ == trim(s@),
{
    let (a, b) = trim_bounds(s);
    slice_chars(s, a, b)
}

/// The characters of `s` from `a` up to `b`.
pub fn slice_chars(s: &[char], a: usize, b: usize) -> (r: Vec<char>)
    requires
        a <= b <= s@.len(),
    ensures
        r@ == s@.subrange(a as int, b as int),
{
    let mut r: Vec<char> = Vec::new();
    let mut i: usize = a;
    while i < b
        invariant
            a <= i <= b <= s@.len(),
            r@ == s@.subrange(a as int, i as int),
        decreases b - i,
    {
        r.push(s[i]);
        i += 1;
        assert(r@ == s@.subrange(a as int, i as int));
    }
    r
}

/// Whether `s` begins with `p`.
pub fn starts_with(s: &[char], p: &[char]) -> (r: bool)
    ensures
        r == (p@.len() <= s@.len() && s@.take(p@.len() as int) == p@),
{
    if p.len() > s.len() {
        return false;
    }
    let mut i: usize = 0;
    while i < p.len()
        invariant
            i <= p@.len() <= s@.len(),
            forall|k: int| 0 <= k < i ==> s@[k] == p@[k],
        decreases p@.len() - i,
    {
        if s[i] != p[i] {
            assert(s@.take(p@.len() as int)[i as int] != p@[i as int]);
            return false;
        }
        i += 1;
    }
    assert(s@.take(p@.len() as int) == p@);
    true
}

/// Whether `s` ends with `p`.
pub fn ends_with(s: &[char], p: &[char]) -> (r: bool)
    ensures
        r == (p@.len() <= s@.len() && s@.skip(s@.len() - p@.len()) == p@),
{
    if p.len() > s.len() {
        return false;
    }
    let d = s.len() - p.len();
    let mut i: usize = 0;
    while i < p.len()
        invariant
            i <= p@.len() <= s@.len(),
            d + p@.len() == s@.len(),
            s@.len() <= usize::MAX,
            forall|k: int| 0 <= k < i ==> s@[d + k] == p@[k],
        decreases p@.len() - i,
    {
        if s[d + i] != p[i] {
            assert(s@.skip(d as int)[i as int] != p@[i as int]);
            return false;
        }
        i += 1;
    }
    assert(s@.skip(d as int) == p@);
    true
}

/// Whether two character sequences are equal.
pub fn same_chars(s: &[char], t: &[char]) -> (r: bool)
    ensures
        r == (s@ == t@),
{
    if s.len() != t.len() {
        return false;
    }
    let mut i: usize = 0;
    while i < s.len()
        invariant
            i <= s@.len() == t@.len(),
            forall|k: int| 0 <= k < i ==> s@[k] == t@[k],
        decreases s@.len() - i,
    {
        if s[i] != t[i] {
            return false;
        }
        i += 1;
    }
    assert(s@ == t@);
    true
}

/// The pieces of `s` between occurrences of `sep`, empty pieces included,
/// as `str::split` gives them.
pub open spec fn split_on(s: Seq<char>, sep: char) -> Seq<Seq<char>>
    decreases s.len(),
{
    if s.len() == 0 {
        seq![Seq::empty()]
    } else {
        let f = split_on(s.drop_last(), sep);
        if s.last() == sep {
            f.push(Seq::empty())
        } else {
            f.update(f.len() - 1, f.last().push(s.last()))
        }
    }
}

pub(crate) proof fn lemma_split_on_len(s: Seq<char>, sep: char)
    ensures
        split_on(s, sep).len() >= 1,
    decreases s.len(),
{
    if s.len() > 0 {
        lemma_split_on_len(s.drop_last(), sep);
    }
}

/// Splits `s` at each `sep`.
pub fn split_chars(s: &[char], sep: char) -> (r: Vec<Vec<char>>)
    ensures
        r@.map_values(|v: Vec<char>| v@) == split_on(s@, sep),
{
    let mut out: Vec<Vec<char>> = Vec::new();
    let mut cur: Vec<char> = Vec::new();
    let mut i: usize = 0;
    assert(s@.take(0) == Seq::<char>::empty());
    while i < s.len()
        invariant
            i <= s@.len(),
            split_on(s@.take(i as int), sep).len() >= 1,
            out@.map_values(|v: Vec<char>| v@).push(cur@) == split_on(s@.take(i as int), sep),
        decreases s@.len() - i,
    {
        let c = s[i];
        proof {
            assert(s@.take(i + 1).drop_last() == s@.take(i as int));
            lemma_split_on_len(s@.take(i + 1), sep);
        }
        let ghost f = split_on(s@.take(i as int), sep);
        let ghost prev = out@;
        if c == sep {
            out.push(cur);
            cur = Vec::new();
            assert(out@.map_values(|v: Vec<char>| v@) =~= prev.map_values(|v: Vec<char>| v@).push(
                f.last(),
            ));
        } else {
            cur.push(c);
            assert(out@.map_values(|v: Vec<char>| v@).push(cur@) =~= f.update(
                f.len() - 1,
                f.last().push(c),
            ));
        }
        i += 1;
    }
    assert(s@.take(s@.len() as int) == s@);
    let ghost prev = out@;
    out.push(cur);
    assert(out@.map_values(|v: Vec<char>| v@) =~= prev.map_values(|v: Vec<char>| v@).push(
        cur@,
    ));
    out
}

/// A decimal digit.
pub open spec fn is_digit(c: char) -> bool {
    '0' <= c <= '9'
}

/// Whether every character of `s` is a decimal digit.
pub open spec fn all_digits(s: Seq<char>) -> bool {
    forall|k: int| 0 <= k < s.len() ==> is_digit(#[trigger] s[k])
}

/// The number that the decimal digits `s` write.
pub open spec fn decimal(s: Seq<char>) -> nat
    decreases s.len(),
{
    if s.len() == 0 {
        0
    } else {
        decimal(s.drop_last()) * 10 + (s.last() as nat - '0' as nat) as nat
    }
}

/// What `str::parse::<u32>` makes of `s`: an optional `+`, then one or more
/// decimal digits whose value fits.
pub open spec fn parsed_u32(s: Seq<char>) -> Option<u32> {
    let d = if s.len() > 0 && s[0] == '+' {
        s.drop_first()
    } else {
        s
    };
    if d.len() > 0 && all_digits(d) && decimal(d) <= u32::MAX {
        Some(decimal(d) as u32)
    } else {
        None
    }
}

proof fn lemma_decimal_grows(s: Seq<char>, i: int)
    requires
        0 <= i <= s.len(),
        forall|k: int| 0 <= k < s.len() ==> is_digit(#[trigger] s[k]),
    ensures
        decimal(s.take(i)) <= decimal(s),
    decreases s.len() - i,
{
    if i < s.len() {
        lemma_decimal_grows(s, i + 1);
        assert(s.take(i + 1).drop_last() == s.take(i));
        assert(is_digit(s[i]));
    } else {
        assert(s.take(i) == s);
    }
}

/// Reads an unsigned 32-bit number, as `str::parse::<u32>` does.
pub fn parse_u32(s: &[char]) -> (r: Option<u32>)
    ensures
        r == parsed_u32(s@),
{
    let start: usize = if s.len() > 0 && s[0] == '+' {
        1
    } else {
        0
    };
    let ghost d = s@.skip(start as int);
    assert(d == if s@.len() > 0 && s@[0] == '+' {
        s@.drop_first()
    } else {
        s@
    });
    if start >= s.len() {
        return None;
    }
    let mut acc: u64 = 0;
    let mut i: usize = start;
    while i < s.len()
        invariant
            start <= i <= s@.len(),
            d == s@.skip(start as int),
            d == (if s@.len() > 0 && s@[0] == '+' {
                s@.drop_first()
            } else {
                s@
            }),
            forall|k: int| 0 <= k < i - start ==> is_digit(#[trigger] d[k]),
            acc == decimal(d.take(i - start)),
            acc <= u32::MAX,
        decreases s@.len() - i,
    {
        let c = s[i];
        assert(d[i - start] == s@[i as int]);
        if !('0' <= c && c <= '9') {
            assert(!is_digit(d[i - start]));
            assert(parsed_u32(s@) is None);
            return None;
        }
        let v = (c as u64) - ('0' as u64);
        assert(d.take(i + 1 - start).drop_last() == d.take(i - start));
        assert(d[i - start] == c);
        acc = acc * 10 + v;
        if acc > 0xffff_ffff {
            proof {
                if all_digits(d) {
                    lemma_decimal_grows(d, i + 1 - start);
                }
            }
            return None;
        }
        i += 1;
    }
    assert(d.take(d.len() as int) == d);
    Some(acc as u32)
}

/// The decimal digits of `n`, without leading zeros.
pub open spec fn digits_of(n: nat) -> Seq<char>
    decreases n,
{
    if n < 10 {
        seq![(n + '0' as nat) as char]
    } else {
        digits_of(n / 10).push(((n % 10) + '0' as nat) as char)
    }
}

/// Writes `n` in decimal.
pub fn decimal_string(n: u32) -> (r: String)
    ensures
        r@ == digits_of(n as nat),
{
    let mut m: u32 = n;
    let mut acc: Vec<char> = Vec::new();
    while m >= 10
        invariant
            digits_of(n as nat) == digits_of(m as nat) + acc@,
        decreases m,
    {
        let d = (m % 10) as u8;
        let c = (48u8 + d) as char;
        assert(c == ((m % 10) as nat + '0' as nat) as char);
        let ghost before = acc@;
        acc.insert(0, c);
        assert(digits_of(m as nat) == digits_of((m / 10) as nat).push(c));
        assert(digits_of((m / 10) as nat).push(c) + before == digits_of((m / 10) as nat) + acc@);
        m = m / 10;
    }
    let c = (48u8 + (m as u8)) as char;
    assert(digits_of(m as nat) == seq![c]);
    let mut r: Vec<char> = Vec::new();
    r.push(c);
    let mut i: usize = 0;
    let ghost head = r@;
    while i < acc.len()
        invariant
            i <= acc@.len(),
            r@ == head + acc@.take(i as int),
        decreases acc@.len() - i,
    {
        r.push(acc[i]);
        i += 1;
        assert(acc@.take(i as int) == acc@.take(i - 1).push(acc@[i - 1]));
    }
    assert(acc@.take(acc@.len() as int) == acc@);
    string_of(&r)
}

} // verus!
