//! Terminal output helpers: colouring with escape sequences and column
//! alignment by display width.

use vstd::prelude::*;
use vstd::string::StringExecFns;
use crate::text::{chars_of, push_char};

verus! {

/// Whether output may be coloured: `NO_COLOR` is not set and the terminal
/// type is known and not `dumb`.
pub fn colors_enabled(no_color: bool, term: Option<&str>) -> (r: bool)
    ensures
        r == (!no_color && (term matches Some(t) && t@ != "dumb"@)),
{
    if no_color {
        return false;
    }
    match term {
        Some(t) => {
            let cs = chars_of(t);
            !crate::text::same_chars(&cs, &chars_of("dumb"))
        },
        None => false,
    }
}

/// `s` wrapped in the escape sequence that selects the rendition `code`
/// and the one that resets it.
pub open spec fn painted(s: Seq<char>, code: Seq<char>) -> Seq<char> {
    seq!['\u{1b}', '['] + code + seq!['m'] + s + seq!['\u{1b}', '[', '0', 'm']
}

/// `s` in the rendition `code` where colours are on, else as it is.
pub fn paint(s: &str, code: &str, enabled: bool) -> (r: String)
    ensures
        r@ == if enabled {
            painted(s@, code@)
        } else {
            s@
        },
{
    if !enabled {
        return s.to_owned();
    }
    let mut r = String::new();
    push_char(&mut r, '\u{1b}');
    push_char(&mut r, '[');
    r.append(code);
    push_char(&mut r, 'm');
    r.append(s);
    push_char(&mut r, '\u{1b}');
    push_char(&mut r, '[');
    push_char(&mut r, '0');
    push_char(&mut r, 'm');
    assert(r@ =~= painted(s@, code@));
    r
}

/// `s` in bold.
pub fn bold(s: &str, enabled: bool) -> (r: String)
    ensures
        r@ == if enabled {
            painted(s@, "1"@)
        } else {
            s@
        },
{
    paint(s, "1", enabled)
}

/// `s` dimmed.
pub fn dim(s: &str, enabled: bool) -> (r: String)
    ensures
        r@ == if enabled {
            painted(s@, "2"@)
        } else {
            s@
        },
{
    paint(s, "2", enabled)
}

/// `s` in cyan.
pub fn cyan(s: &str, enabled: bool) -> (r: String)
    ensures
        r@ == if enabled {
            painted(s@, "36"@)
        } else {
            s@
        },
{
    paint(s, "36", enabled)
}

/// `s` in red.
pub fn soft_red(s: &str, enabled: bool) -> (r: String)
    ensures
        r@ == if enabled {
            painted(s@, "31"@)
        } else {
            s@
        },
{
    paint(s, "31", enabled)
}

/// A combining mark: it takes no cell of its own.
pub open spec fn combining(c: char) -> bool {
    let u = c as u32;
    (0x0300 <= u <= 0x036f) || (0x1ab0 <= u <= 0x1aff) || (0x1dc0 <= u <= 0x1dff) || (0x20d0 <= u
        <= 0x20ff) || (0xfe20 <= u <= 0xfe2f)
}

/// A character that takes two cells: wide East Asian scripts, full-width
/// forms and the common emoji blocks.
pub open spec fn wide(c: char) -> bool {
    let u = c as u32;
    (0x1100 <= u <= 0x115f) || (0x2329 <= u <= 0x232a) || (0x2e80 <= u <= 0xa4cf) || (0xac00 <= u
        <= 0xd7a3) || (0xf900 <= u <= 0xfaff) || (0xfe10 <= u <= 0xfe19) || (0xfe30 <= u <= 0xfe6f)
        || (0xff00 <= u <= 0xff60) || (0xffe0 <= u <= 0xffe6) || (0x1f300 <= u <= 0x1faff) || (
    0x2600 <= u <= 0x27bf)
}

/// Whether `c` is a combining mark.
pub fn is_combining_mark(c: char) -> (r: bool)
    ensures
        r == combining(c),
{
    let u = c as u32;
    (0x0300 <= u && u <= 0x036f) || (0x1ab0 <= u && u <= 0x1aff) || (0x1dc0 <= u && u <= 0x1dff)
        || (0x20d0 <= u && u <= 0x20ff) || (0xfe20 <= u && u <= 0xfe2f)
}

/// Whether `c` takes two cells.
pub fn is_wide(c: char) -> (r: bool)
    ensures
        r == wide(c),
{
    let u = c as u32;
    if (0x1100 <= u && u <= 0x115f) || (0x2329 <= u && u <= 0x232a) || (0x2e80 <= u && u <= 0xa4cf)
        || (0xac00 <= u && u <= 0xd7a3) || (0xf900 <= u && u <= 0xfaff) || (0xfe10 <= u && u
        <= 0xfe19) || (0xfe30 <= u && u <= 0xfe6f) || (0xff00 <= u && u <= 0xff60) || (0xffe0 <= u
        && u <= 0xffe6) {
        return true;
    }
    (0x1f300 <= u && u <= 0x1faff) || (0x2600 <= u && u <= 0x27bf)
}

/// The cells that `c` takes: line feed, carriage return and tab one,
/// combining marks none, wide characters two, all others one.
pub open spec fn cells(c: char) -> nat {
    if c == '\n' || c == '\r' || c == '\t' {
        1
    } else if combining(c) {
        0
    } else if wide(c) {
        2
    } else {
        1
    }
}

/// The cells that `s` takes on a terminal.
pub open spec fn width(s: Seq<char>) -> nat
    decreases s.len(),
{
    if s.len() == 0 {
        0
    } else {
        width(s.drop_last()) + cells(s.last())
    }
}

/// The cells that `s` takes on a terminal, or the largest `usize` where
/// that count does not fit.
pub fn display_width(s: &str) -> (r: usize)
    ensures
        r == if width(s@) <= usize::MAX {
            width(s@)
        } else {
            usize::MAX as nat
        },
{
    let cs = chars_of(s);
    let mut w: usize = 0;
    let mut i: usize = 0;
    while i < cs.len()
        invariant
            i <= cs@.len(),
            cs@ == s@,
            w == if width(cs@.take(i as int)) <= usize::MAX {
                width(cs@.take(i as int))
            } else {
                usize::MAX as nat
            },
        decreases cs@.len() - i,
    {
        let c = cs[i];
        proof {
            assert(cs@.take(i + 1).drop_last() == cs@.take(i as int));
        }
        if c == '\n' || c == '\r' || c == '\t' {
            w = w.saturating_add(1);
        } else if is_combining_mark(c) {
        } else if is_wide(c) {
            w = w.saturating_add(2);
        } else {
            w = w.saturating_add(1);
        }
        i += 1;
    }
    assert(cs@.take(cs@.len() as int) == cs@);
    w
}

/// `plain` padded with spaces to `w` cells, then coloured with `code`
/// where one is given and colours are on.
pub open spec fn left_column(plain: Seq<char>, w: nat, code: Option<Seq<char>>, enabled: bool) -> Seq<
    char,
> {
    let padded = if width(plain) < w {
        plain + Seq::new((w - width(plain)) as nat, |i: int| ' ')
    } else {
        plain
    };
    match code {
        Some(c) => if enabled {
            painted(padded, c)
        } else {
            padded
        },
        None => padded,
    }
}

/// Pads the left column of an aligned line, then colours it: padding
/// comes first, so escape sequences do not upset the alignment.
pub fn col_left(plain: &str, w: usize, color_code: Option<&str>, enabled: bool) -> (r: String)
    ensures
        r@ == left_column(
            plain@,
            w as nat,
            match color_code {
                Some(c) => Some(c@),
                None => None,
            },
            enabled,
        ),
{
    let mut s = plain.to_owned();
    let cur = display_width(plain);
    if cur < w {
        let n = w - cur;
        let mut k: usize = 0;
        while k < n
            invariant
                k <= n,
                s@ == plain@ + Seq::new(k as nat, |i: int| ' '),
            decreases n - k,
        {
            push_char(&mut s, ' ');
            k += 1;
            assert(s@ =~= plain@ + Seq::new(k as nat, |i: int| ' '));
        }
    }
    match color_code {
        Some(code) => paint(s.as_str(), code, enabled),
        None => s,
    }
}

} // verus!
