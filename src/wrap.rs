//! Naming the window class of a wrapped program after its command.

use vstd::prelude::*;
use crate::classes::{desktop_marker, strip_suffix};
use crate::text::{chars_of, ends_with, push_char, slice_chars, split_on, string_of};

verus! {

/// The last component of a path: what follows its last `/`.
pub open spec fn base_name(path: Seq<char>) -> Seq<char> {
    split_on(path, '/').last()
}

/// The last component of `path`.
pub fn basename(path: &str) -> (r: String)
    ensures
        r@ == base_name(path@),
{
    let cs = chars_of(path);
    let parts = crate::text::split_chars(&cs, '/');
    proof {
        crate::text::lemma_split_on_len(cs@, '/');
    }
    let ghost ps = parts@.map_values(|v: Vec<char>| v@);
    assert(ps[ps.len() - 1] == parts@[parts@.len() - 1]@);
    string_of(&parts[parts.len() - 1])
}

/// An ASCII letter or digit.
pub open spec fn ascii_alnum(c: char) -> bool {
    ('0' <= c <= '9') || ('a' <= c <= 'z') || ('A' <= c <= 'Z')
}

/// `c` in upper case, where it is an ASCII letter.
pub open spec fn ascii_upper(c: char) -> char {
    if 'a' <= c <= 'z' {
        ((c as u32) - 32) as char
    } else {
        c
    }
}

/// `c` in lower case, where it is an ASCII letter.
pub open spec fn ascii_lower(c: char) -> char {
    if 'A' <= c <= 'Z' {
        ((c as u32) + 32) as char
    } else {
        c
    }
}

fn upper(c: char) -> (r: char)
    ensures
        r == ascii_upper(c),
{
    if 'a' <= c && c <= 'z' {
        ((c as u8) - 32) as char
    } else {
        c
    }
}

fn lower(c: char) -> (r: char)
    ensures
        r == ascii_lower(c),
{
    if 'A' <= c && c <= 'Z' {
        ((c as u8) + 32) as char
    } else {
        c
    }
}

/// The leading run of ASCII letters and digits of `s`.
pub open spec fn alnum_run(s: Seq<char>) -> Seq<char>
    decreases s.len(),
{
    if s.len() > 0 && ascii_alnum(s[0]) {
        seq![s[0]] + alnum_run(s.drop_first())
    } else {
        Seq::empty()
    }
}

/// The first word of `s`: its first run of ASCII letters and digits.
pub open spec fn first_word(s: Seq<char>) -> Seq<char>
    decreases s.len(),
{
    if s.len() == 0 {
        s
    } else if !ascii_alnum(s[0]) {
        first_word(s.drop_first())
    } else {
        alnum_run(s)
    }
}

/// The window class named after a command: the first word of the
/// command's last path component (a trailing `.desktop`, then `.sh`,
/// removed), capitalised, lower-case after its first letter, followed by
/// `App`; just `App` where there is no word.
pub open spec fn class_from_command(argv0: Seq<char>) -> Seq<char> {
    let base = strip_suffix(strip_suffix(base_name(argv0), desktop_marker()), ".sh"@);
    let w = first_word(base);
    if w.len() == 0 {
        "App"@
    } else {
        seq![ascii_upper(w[0])] + w.drop_first().map_values(|c: char| ascii_lower(c)) + "App"@
    }
}

proof fn lemma_skip_to_word(s: Seq<char>, i: int)
    requires
        0 <= i <= s.len(),
        forall|k: int| 0 <= k < i ==> !ascii_alnum(#[trigger] s[k]),
    ensures
        first_word(s) == first_word(s.skip(i)),
    decreases i,
{
    if i > 0 {
        assert(s.drop_first().skip(i - 1) == s.skip(i));
        assert forall|k: int| 0 <= k < i - 1 implies !ascii_alnum(#[trigger] s.drop_first()[k]) by {
            assert(s.drop_first()[k] == s[k + 1]);
        }
        assert(!ascii_alnum(s[0]));
        lemma_skip_to_word(s.drop_first(), i - 1);
    } else {
        assert(s.skip(0) == s);
    }
}

proof fn lemma_run(s: Seq<char>, a: int, b: int)
    requires
        0 <= a <= b <= s.len(),
        forall|k: int| a <= k < b ==> ascii_alnum(#[trigger] s[k]),
    ensures
        alnum_run(s.skip(a)) == s.subrange(a, b) + alnum_run(s.skip(b)),
    decreases b - a,
{
    if a < b {
        lemma_run(s, a + 1, b);
        assert(s.skip(a).drop_first() == s.skip(a + 1));
        assert(s.skip(a)[0] == s[a]);
        assert(s.subrange(a, b) == seq![s[a]] + s.subrange(a + 1, b));
    } else {
        assert(s.subrange(a, b) == Seq::<char>::empty());
    }
}

fn strip_marker(s: Vec<char>, m: &[char]) -> (r: Vec<char>)
    ensures
        r@ == strip_suffix(s@, m@),
{
    if ends_with(&s, m) {
        slice_chars(&s, 0, s.len() - m.len())
    } else {
        s
    }
}

/// Names a window class after the command `argv0` (`echo` gives
/// `EchoApp`).
pub fn auto_class_from_argv0(argv0: &str) -> (r: String)
    ensures
        r@ == class_from_command(argv0@),
{
    let base = chars_of(basename(argv0).as_str());
    let marker = vec!['.', 'd', 'e', 's', 'k', 't', 'o', 'p'];
    assert(marker@ == desktop_marker());
    let b1 = strip_marker(base, &marker);
    let sh = chars_of(".sh");
    let s = strip_marker(b1, &sh);
    let mut a: usize = 0;
    while a < s.len() && !(('0' <= s[a] && s[a] <= '9') || ('a' <= s[a] && s[a] <= 'z') || ('A'
        <= s[a] && s[a] <= 'Z'))
        invariant
            a <= s@.len(),
            forall|k: int| 0 <= k < a ==> !ascii_alnum(#[trigger] s@[k]),
        decreases s@.len() - a,
    {
        a += 1;
    }
    proof {
        lemma_skip_to_word(s@, a as int);
    }
    if a == s.len() {
        assert(s@.skip(a as int).len() == 0);
        return "App".to_owned();
    }
    let mut b: usize = a;
    while b < s.len() && (('0' <= s[b] && s[b] <= '9') || ('a' <= s[b] && s[b] <= 'z') || ('A'
        <= s[b] && s[b] <= 'Z'))
        invariant
            a <= b <= s@.len(),
            forall|k: int| a <= k < b ==> ascii_alnum(#[trigger] s@[k]),
        decreases s@.len() - b,
    {
        b += 1;
    }
    proof {
        lemma_run(s@, a as int, b as int);
        assert(alnum_run(s@.skip(b as int)) == Seq::<char>::empty());
        assert(s@.skip(a as int).len() > 0 && ascii_alnum(s@.skip(a as int)[0]));
        assert(s@.subrange(a as int, b as int) + Seq::<char>::empty() == s@.subrange(
            a as int,
            b as int,
        ));
    }
    let ghost w = s@.subrange(a as int, b as int);
    let mut out = String::new();
    push_char(&mut out, upper(s[a]));
    let mut k: usize = a + 1;
    while k < b
        invariant
            a < b <= s@.len(),
            a + 1 <= k <= b,
            w == s@.subrange(a as int, b as int),
            out@ == seq![ascii_upper(w[0])] + w.drop_first().take(k - a - 1).map_values(
                |c: char| ascii_lower(c),
            ),
        decreases b - k,
    {
        push_char(&mut out, lower(s[k]));
        k += 1;
        assert(w.drop_first().take(k - a - 1) == w.drop_first().take(k - a - 2).push(s@[k - 1]));
        assert(out@ =~= seq![ascii_upper(w[0])] + w.drop_first().take(k - a - 1).map_values(
            |c: char| ascii_lower(c),
        ));
    }
    assert(w.drop_first().take(b - a - 1) == w.drop_first());
    proof {
        reveal_strlit("App");
    }
    push_char(&mut out, 'A');
    push_char(&mut out, 'p');
    push_char(&mut out, 'p');
    assert(out@ =~= seq![ascii_upper(w[0])] + w.drop_first().map_values(|c: char| ascii_lower(c))
        + "App"@);
    out
}

} // verus!
