//! The grouped key-value configuration format: splitting a document into
//! lines, locating a key inside a named section, writing a key line back in
//! place, and rendering the lines again.

use vstd::prelude::*;
use vstd::string::{StrSliceExecFns, StringExecFns};
use crate::classes::views;
use crate::text::{is_space, trim_end, trim_start, chars_of, push_char, same_chars, starts_with, string_of, trim, trim_chars};

verus! {

/// The pieces of `s` between line feeds, empty pieces included.
pub open spec fn pieces(s: Seq<char>) -> Seq<Seq<char>>
    decreases s.len(),
{
    if s.len() == 0 {
        seq![Seq::empty()]
    } else {
        let f = pieces(s.drop_last());
        if s.last() == '\n' {
            f.push(Seq::empty())
        } else {
            f.update(f.len() - 1, f.last().push(s.last()))
        }
    }
}

/// The lines of a document: the pieces between line feeds, each kept as
/// it stands (a carriage return before a line feed stays part of its line),
/// and no empty last line after a final line feed.
pub open spec fn lines_of(s: Seq<char>) -> Seq<Seq<char>> {
    let f = pieces(s);
    if f.last().len() == 0 {
        f.drop_last()
    } else {
        f
    }
}

/// The document text of `ls`: each line followed by a line feed.
pub open spec fn render(ls: Seq<Seq<char>>) -> Seq<char>
    decreases ls.len(),
{
    if ls.len() == 0 {
        Seq::empty()
    } else {
        render(ls.drop_last()) + ls.last().push('\n')
    }
}

proof fn lemma_pieces_len(s: Seq<char>)
    ensures
        pieces(s).len() >= 1,
    decreases s.len(),
{
    if s.len() > 0 {
        lemma_pieces_len(s.drop_last());
    }
}

/// Splits a document into its lines.
pub fn split_lines(s: &str) -> (r: Vec<String>)
    ensures
        views(r@) == lines_of(s@),
{
    let cs = chars_of(s);
    let mut out: Vec<String> = Vec::new();
    let mut cur: Vec<char> = Vec::new();
    let mut i: usize = 0;
    assert(cs@.take(0) == Seq::<char>::empty());
    while i < cs.len()
        invariant
            i <= cs@.len(),
            pieces(cs@.take(i as int)).len() >= 1,
            cur@ == pieces(cs@.take(i as int)).last(),
            views(out@) == pieces(cs@.take(i as int)).drop_last(),
        decreases cs@.len() - i,
    {
        let c = cs[i];
        proof {
            assert(cs@.take(i + 1).drop_last() == cs@.take(i as int));
            lemma_pieces_len(cs@.take(i + 1));
        }
        let ghost f = pieces(cs@.take(i as int));
        if c == '\n' {
            let line = string_of(&cur);
            let ghost prev = out@;
            out.push(line);
            assert(views(out@) =~= views(prev).push(line@));
            assert(pieces(cs@.take(i + 1)).drop_last() == f);
            assert(f == f.drop_last().push(f.last()));
            cur = Vec::new();
        } else {
            cur.push(c);
            assert(pieces(cs@.take(i + 1)).drop_last() == f.drop_last());
        }
        i += 1;
    }
    assert(cs@.take(cs@.len() as int) == cs@);
    if cur.len() > 0 {
        let line = string_of(&cur);
        let ghost prev = out@;
        out.push(line);
        assert(views(out@) =~= views(prev).push(line@));
    }
    out
}

/// Renders lines into a document, each followed by a line feed.
pub fn join_lines(lines: &[String]) -> (r: String)
    ensures
        r@ == render(views(lines@)),
{
    let mut r = String::new();
    let mut i: usize = 0;
    while i < lines.len()
        invariant
            i <= lines@.len(),
            r@ == render(views(lines@.take(i as int))),
        decreases lines@.len() - i,
    {
        let ghost before = views(lines@.take(i as int));
        let piece = chars_of(lines[i].as_str());
        let mut k: usize = 0;
        let ghost base = r@;
        while k < piece.len()
            invariant
                k <= piece@.len(),
                r@ == base + piece@.take(k as int),
            decreases piece@.len() - k,
        {
            push_char(&mut r, piece[k]);
            k += 1;
            assert(piece@.take(k as int) == piece@.take(k - 1).push(piece@[k - 1]));
        }
        push_char(&mut r, '\n');
        assert(piece@.take(piece@.len() as int) == piece@);
        let ghost after = views(lines@.take(i + 1));
        assert(after.drop_last() == before);
        assert(after.last() == lines@[i as int]@);
        assert(r@ == base + piece@.push('\n'));
        i += 1;
    }
    assert(lines@.take(lines@.len() as int) == lines@);
    r
}

/// A section header line: trimmed, it begins with `[` and ends with `]`.
pub open spec fn is_header(l: Seq<char>) -> bool {
    let t = trim(l);
    t.len() > 0 && t[0] == '[' && t.last() == ']'
}

/// Whether, after the lines `pre`, the scan stands inside a section whose
/// header reads `header`: the last header line among them is that one.
pub open spec fn inside(pre: Seq<Seq<char>>, header: Seq<char>) -> bool
    decreases pre.len(),
{
    if pre.len() == 0 {
        false
    } else if is_header(pre.last()) {
        trim(pre.last()) == header
    } else {
        inside(pre.drop_last(), header)
    }
}

/// Index of the last line of `ls` that is the header `header`.
pub open spec fn last_header(ls: Seq<Seq<char>>, header: Seq<char>) -> Option<int>
    decreases ls.len(),
{
    if ls.len() == 0 {
        None
    } else if is_header(ls.last()) && trim(ls.last()) == header {
        Some(ls.len() - 1)
    } else {
        last_header(ls.drop_last(), header)
    }
}

/// Whether the last line of `pre` sets the key: it stands inside the
/// section and, trimmed, begins with `prefix` (the key and `=`).
pub open spec fn sets_key(pre: Seq<Seq<char>>, header: Seq<char>, prefix: Seq<char>) -> bool {
    let l = pre.last();
    &&& pre.len() > 0
    &&& !is_header(l)
    &&& inside(pre.drop_last(), header)
    &&& begins_with_key(l, prefix)
}

/// Whether `l`, trimmed, begins with `prefix`.
pub open spec fn begins_with_key(l: Seq<char>, prefix: Seq<char>) -> bool {
    prefix.len() <= trim(l).len() && trim(l).take(prefix.len() as int) == prefix
}

/// Index of the last line of `ls` that sets the key inside the section.
pub open spec fn last_value(ls: Seq<Seq<char>>, header: Seq<char>, prefix: Seq<char>) -> Option<
    int,
>
    decreases ls.len(),
{
    if ls.len() == 0 {
        None
    } else if sets_key(ls, header, prefix) {
        Some(ls.len() - 1)
    } else {
        last_value(ls.drop_last(), header, prefix)
    }
}

/// Where a section and a key inside it stand in a document.
pub struct SectionKeyLocation {
    /// Index of the last header line of the section.
    pub header_index: Option<usize>,
    /// Index of the last line that sets the key inside the section.
    pub value_index: Option<usize>,
    /// That line, trimmed, with the key and its `=` cut off (so
    /// `forceFocusClasses= a` holds ` a`); empty without such a line.
    pub value: String,
}

/// An index as an integer.
pub open spec fn opt_int(o: Option<usize>) -> Option<int> {
    match o {
        Some(i) => Some(i as int),
        None => None,
    }
}

/// `loc` is what a scan of `ls` for the section and key finds.
pub open spec fn located(
    ls: Seq<Seq<char>>,
    header: Seq<char>,
    prefix: Seq<char>,
    loc: SectionKeyLocation,
) -> bool {
    &&& opt_int(loc.header_index) == last_header(ls, header)
    &&& opt_int(loc.value_index) == last_value(ls, header, prefix)
    &&& loc.value@ == match loc.value_index {
        Some(i) => trim(ls[i as int]).skip(prefix.len() as int),
        None => Seq::empty(),
    }
}

proof fn lemma_last_value_bound(ls: Seq<Seq<char>>, header: Seq<char>, prefix: Seq<char>)
    ensures
        last_value(ls, header, prefix) matches Some(i) ==> 0 <= i < ls.len() && sets_key(
            ls.take(i + 1),
            header,
            prefix,
        ),
        last_header(ls, header) matches Some(i) ==> 0 <= i < ls.len() && is_header(ls[i])
            && trim(ls[i]) == header,
    decreases ls.len(),
{
    if ls.len() > 0 {
        lemma_last_value_bound(ls.drop_last(), header, prefix);
        assert(ls.take(ls.len() as int) == ls);
        if let Some(i) = last_value(ls.drop_last(), header, prefix) {
            assert(ls.drop_last().take(i + 1) == ls.take(i + 1));
        }
    }
}

/// Scans `lines` for the section whose header reads `header` and for the
/// last line inside it that begins with `prefix`.
pub fn locate(lines: &[String], header: &[char], prefix: &[char]) -> (r: SectionKeyLocation)
    ensures
        located(views(lines@), header@, prefix@, r),
{
    let ghost ls = views(lines@);
    let mut in_group = false;
    let mut header_index: Option<usize> = None;
    let mut value_index: Option<usize> = None;
    let mut value: Vec<char> = Vec::new();
    let mut i: usize = 0;
    assert(ls.take(0) == Seq::<Seq<char>>::empty());
    while i < lines.len()
        invariant
            i <= lines@.len() == ls.len(),
            ls == views(lines@),
            in_group == inside(ls.take(i as int), header@),
            opt_int(header_index) == last_header(ls.take(i as int), header@),
            opt_int(value_index) == last_value(ls.take(i as int), header@, prefix@),
            value@ == match value_index {
                Some(j) => trim(ls[j as int]).skip(prefix@.len() as int),
                None => Seq::empty(),
            },
            value_index matches Some(j) ==> j < i,
        decreases lines@.len() - i,
    {
        let ghost pre = ls.take(i + 1);
        assert(pre.drop_last() == ls.take(i as int));
        assert(pre.last() == lines@[i as int]@);
        let cs = chars_of(lines[i].as_str());
        let t = trim_chars(&cs);
        let n = t.len();
        if n > 0 && t[0] == '[' && t[n - 1] == ']' {
            if same_chars(&t, header) {
                in_group = true;
                header_index = Some(i);
            } else {
                in_group = false;
            }
        } else if in_group && starts_with(&t, prefix) {
            value_index = Some(i);
            value = crate::text::slice_chars(&t, prefix.len(), n);
            assert(value@ == t@.skip(prefix@.len() as int));
        }
        i += 1;
    }
    assert(ls.take(ls.len() as int) == ls);
    SectionKeyLocation { header_index, value_index, value: string_of(&value) }
}

/// The lines after writing `new_line` for a key whose section header and
/// value line were found at `h` and `v`: the value line is replaced, or the
/// line goes right after the header, or the section is appended at the end
/// (after a blank line when the document ends with a non-blank one).
pub open spec fn upserted(
    ls: Seq<Seq<char>>,
    h: Option<int>,
    v: Option<int>,
    header: Seq<char>,
    new_line: Seq<char>,
) -> Seq<Seq<char>> {
    match (h, v) {
        (Some(_), Some(vi)) => ls.update(vi, new_line),
        (Some(hi), None) => ls.insert(hi + 1, new_line),
        (None, _) => {
            let base = if ls.len() > 0 && ls.last().len() > 0 {
                ls.push(Seq::empty())
            } else {
                ls
            };
            base.push(header).push(new_line)
        },
    }
}

/// Writes `new_line` into `lines` where `loc`, the scan's result for the
/// section `header`, says it belongs.
pub fn upsert(
    lines: &mut Vec<String>,
    loc: &SectionKeyLocation,
    header: &[char],
    prefix: &[char],
    new_line: String,
)
    requires
        located(views(old(lines)@), header@, prefix@, *loc),
    ensures
        views(final(lines)@) == upserted(
            views(old(lines)@),
            opt_int(loc.header_index),
            opt_int(loc.value_index),
            header@,
            new_line@,
        ),
{
    proof {
        lemma_last_value_bound(views(lines@), header@, prefix@);
    }
    let ghost ls = views(lines@);
    match (loc.header_index, loc.value_index) {
        (Some(_), Some(v)) => {
            assert(opt_int(loc.value_index) == Some(v as int));
            lines.set(v, new_line);
            assert(views(lines@) =~= ls.update(v as int, new_line@));
        },
        (Some(h), None) => {
            assert(opt_int(loc.header_index) == Some(h as int));
            assert(h < lines.len());
            lines.insert(h + 1, new_line);
            assert(views(lines@) =~= ls.insert(h + 1, new_line@));
        },
        (None, _) => {
            let ghost prev = lines@;
            if lines.len() > 0 && lines[lines.len() - 1].as_str().unicode_len() > 0 {
                lines.push(String::new());
                assert(views(lines@) =~= views(prev).push(Seq::empty()));
            }
            let ghost base = lines@;
            lines.push(string_of(header));
            lines.push(new_line);
            assert(views(lines@) =~= views(base).push(header@).push(new_line@));
        },
    }
}

/// The value that the key's last line inside the section holds; empty
/// without such a line.
pub open spec fn entry_value(ls: Seq<Seq<char>>, header: Seq<char>, prefix: Seq<char>) -> Seq<
    char,
> {
    match last_value(ls, header, prefix) {
        Some(i) => trim(ls[i]).skip(prefix.len() as int),
        None => Seq::empty(),
    }
}

/// The document `doc` after writing the line `prefix + value` for the key
/// of the section `header`.
pub open spec fn write_entry(
    doc: Seq<char>,
    header: Seq<char>,
    prefix: Seq<char>,
    value: Seq<char>,
) -> Seq<char> {
    let ls = lines_of(doc);
    render(
        upserted(ls, last_header(ls, header), last_value(ls, header, prefix), header, prefix + value),
    )
}

/// Reads the key's value from a document.
pub fn read_entry(doc: &str, header: &[char], prefix: &[char]) -> (r: String)
    ensures
        r@ == entry_value(lines_of(doc@), header@, prefix@),
{
    let lines = split_lines(doc);
    let loc = locate(&lines, header, prefix);
    loc.value
}

/// Writes the line `prefix + value` for the key into a document and
/// renders it again.
pub fn write_entry_line(doc: &str, header: &[char], prefix: &[char], value: &str) -> (r: String)
    ensures
        r@ == write_entry(doc@, header@, prefix@, value@),
{
    let mut lines = split_lines(doc);
    let loc = locate(&lines, header, prefix);
    let mut line = string_of(prefix);
    line.append(value);
    upsert(&mut lines, &loc, header, prefix, line);
    join_lines(&lines)
}

/// Lines that the scan cannot tell apart: equal once trimmed, or both
/// plain lines that agree on whether they begin with the key.
pub open spec fn alike(a: Seq<char>, b: Seq<char>, prefix: Seq<char>) -> bool {
    trim(a) == trim(b) || (!is_header(a) && !is_header(b) && begins_with_key(a, prefix) == begins_with_key(
        b,
        prefix,
    ))
}

proof fn lemma_alike_scan(ls: Seq<Seq<char>>, us: Seq<Seq<char>>, h: Seq<char>, p: Seq<char>)
    requires
        ls.len() == us.len(),
        forall|i: int| 0 <= i < ls.len() ==> alike(#[trigger] ls[i], us[i], p),
    ensures
        inside(ls, h) == inside(us, h),
        last_header(ls, h) == last_header(us, h),
        last_value(ls, h, p) == last_value(us, h, p),
    decreases ls.len(),
{
    if ls.len() > 0 {
        let (la, ua) = (ls.drop_last(), us.drop_last());
        assert forall|i: int| 0 <= i < la.len() implies alike(#[trigger] la[i], ua[i], p) by {
            assert(la[i] == ls[i] && ua[i] == us[i]);
        }
        lemma_alike_scan(la, ua, h, p);
        assert(alike(ls[ls.len() - 1], us[us.len() - 1], p));
    }
}

/// A line that sets the key: not a header, and it begins with the key.
pub open spec fn key_line(line: Seq<char>, prefix: Seq<char>) -> bool {
    !is_header(line) && begins_with_key(line, prefix)
}

/// A header that the scan recognises as itself.
pub open spec fn proper_header(header: Seq<char>) -> bool {
    is_header(header) && trim(header) == header
}

proof fn lemma_inside_skip(a: Seq<Seq<char>>, x: Seq<char>, b: Seq<Seq<char>>, h: Seq<char>)
    requires
        !is_header(x),
    ensures
        inside(a.push(x) + b, h) == inside(a + b, h),
    decreases b.len(),
{
    if b.len() == 0 {
        assert(a.push(x) + b == a.push(x));
        assert(a + b == a);
        assert(a.push(x).drop_last() == a);
    } else {
        lemma_inside_skip(a, x, b.drop_last(), h);
        assert((a.push(x) + b).drop_last() == a.push(x) + b.drop_last());
        assert((a + b).drop_last() == a + b.drop_last());
        assert((a.push(x) + b).last() == b.last());
        assert((a + b).last() == b.last());
    }
}

proof fn lemma_last_value_is(ls: Seq<Seq<char>>, h: Seq<char>, p: Seq<char>, i: int)
    requires
        0 <= i < ls.len(),
        sets_key(ls.take(i + 1), h, p),
        forall|k: int| i < k < ls.len() ==> !sets_key(#[trigger] ls.take(k + 1), h, p),
    ensures
        last_value(ls, h, p) == Some(i),
    decreases ls.len(),
{
    assert(ls.take(ls.len() as int) == ls);
    if i < ls.len() - 1 {
        let la = ls.drop_last();
        let last = ls.len() - 1;
        assert(!sets_key(ls.take(last + 1), h, p));
        assert(la.take(i + 1) == ls.take(i + 1));
        assert forall|k: int| i < k < la.len() implies !sets_key(#[trigger] la.take(k + 1), h, p) by {
            assert(la.take(k + 1) == ls.take(k + 1));
        }
        lemma_last_value_is(la, h, p, i);
    }
}

/// After a write, a scan finds the section and the written line as the
/// key's last line.
pub proof fn lemma_upsert_found(ls: Seq<Seq<char>>, h: Seq<char>, p: Seq<char>, line: Seq<char>)
    requires
        proper_header(h),
        key_line(line, p),
    ensures
        ({
            let u = upserted(ls, last_header(ls, h), last_value(ls, h, p), h, line);
            &&& last_header(u, h) is Some
            &&& last_value(u, h, p) matches Some(k) && 0 <= k < u.len() && u[k] == line
        }),
{
    lemma_last_value_bound(ls, h, p);
    let u = upserted(ls, last_header(ls, h), last_value(ls, h, p), h, line);
    match (last_header(ls, h), last_value(ls, h, p)) {
        (Some(_), Some(v)) => {
            assert(sets_key(ls.take(v + 1), h, p));
            assert(ls.take(v + 1).last() == ls[v]);
            assert forall|i: int| 0 <= i < ls.len() implies alike(#[trigger] ls[i], u[i], p) by {}
            lemma_alike_scan(ls, u, h, p);
            lemma_last_value_bound(u, h, p);
            assert(ls.len() > 0);
            assert(last_header(u, h) is Some);
            assert(last_value(u, h, p) == Some(v));
            assert(u[v] == line);
        },
        (Some(h0), None) => {
            assert(u.take(h0 + 1) == ls.take(h0 + 1));
            assert(ls.take(h0 + 1).last() == ls[h0]);
            assert(ls.take(h0 + 1).drop_last() == ls.take(h0));
            assert(inside(ls.take(h0 + 1), h));
            assert(u.take(h0 + 2).drop_last() == u.take(h0 + 1));
            assert(u.take(h0 + 2).last() == line);
            assert(sets_key(u.take(h0 + 2), h, p));
            assert forall|k: int| h0 + 1 < k < u.len() implies !sets_key(
                #[trigger] u.take(k + 1),
                h,
                p,
            ) by {
                let a = ls.take(h0 + 1);
                let b = ls.subrange(h0 + 1, k - 1);
                lemma_inside_skip(a, line, b, h);
                assert(u.take(k) == a.push(line) + b);
                assert(ls.take(k - 1) == a + b);
                assert(u.take(k + 1).drop_last() == u.take(k));
                assert(u.take(k + 1).last() == ls[k - 1]);
                assert(ls.take(k).drop_last() == ls.take(k - 1));
                assert(ls.take(k).last() == ls[k - 1]);
                if sets_key(u.take(k + 1), h, p) {
                    assert(sets_key(ls.take(k), h, p));
                    let ks = ls.take(k);
                    assert(last_value(ls, h, p) is None);
                    lemma_no_value(ls, h, p, k - 1);
                }
            }
            lemma_last_value_is(u, h, p, h0 + 1);
            lemma_header_kept(ls, u, h, h0);
            assert(u[h0 + 1] == line);
        },
        (None, _) => {
            let base = if ls.len() > 0 && ls.last().len() > 0 {
                ls.push(Seq::empty())
            } else {
                ls
            };
            assert(u == base.push(h).push(line));
            assert(u.drop_last() == base.push(h));
            assert(base.push(h).drop_last() == base);
            assert(inside(base.push(h), h));
            assert(sets_key(u, h, p));
            assert(last_value(u, h, p) == Some(u.len() - 1));
            assert(last_header(base.push(h), h) is Some);
            assert(last_header(u, h) is Some);
        },
    }
}

proof fn lemma_no_value(ls: Seq<Seq<char>>, h: Seq<char>, p: Seq<char>, i: int)
    requires
        last_value(ls, h, p) is None,
        0 <= i < ls.len(),
    ensures
        !sets_key(ls.take(i + 1), h, p),
    decreases ls.len(),
{
    assert(ls.take(ls.len() as int) == ls);
    if i < ls.len() - 1 {
        assert(ls.drop_last().take(i + 1) == ls.take(i + 1));
        lemma_no_value(ls.drop_last(), h, p, i);
    }
}

proof fn lemma_header_kept(ls: Seq<Seq<char>>, u: Seq<Seq<char>>, h: Seq<char>, h0: int)
    requires
        0 <= h0 < ls.len(),
        h0 < u.len(),
        u[h0] == ls[h0],
        is_header(ls[h0]) && trim(ls[h0]) == h,
    ensures
        last_header(u, h) is Some,
    decreases u.len(),
{
    if h0 < u.len() - 1 {
        if last_header(u, h) is None {
            assert(u.drop_last()[h0] == u[h0]);
            lemma_header_kept(ls, u.drop_last(), h, h0);
        }
    }
}

/// Writing the same key line a second time changes nothing.
pub proof fn lemma_upsert_idempotent(
    ls: Seq<Seq<char>>,
    h: Seq<char>,
    p: Seq<char>,
    line: Seq<char>,
)
    requires
        proper_header(h),
        key_line(line, p),
    ensures
        ({
            let u = upserted(ls, last_header(ls, h), last_value(ls, h, p), h, line);
            upserted(u, last_header(u, h), last_value(u, h, p), h, line) == u
        }),
{
    lemma_upsert_found(ls, h, p, line);
    let u = upserted(ls, last_header(ls, h), last_value(ls, h, p), h, line);
    let k = last_value(u, h, p)->Some_0;
    assert(u.update(k, line) == u);
}

/// A line that holds no line feed.
pub open spec fn one_line(l: Seq<char>) -> bool {
    forall|k: int| 0 <= k < l.len() ==> #[trigger] l[k] != '\n'
}

proof fn lemma_pieces_extend(a: Seq<char>, b: Seq<char>)
    requires
        one_line(b),
    ensures
        pieces(a + b) == pieces(a).update(pieces(a).len() - 1, pieces(a).last() + b),
    decreases b.len(),
{
    lemma_pieces_len(a);
    if b.len() == 0 {
        assert(a + b == a);
        assert(pieces(a).last() + b == pieces(a).last());
        assert(pieces(a).update(pieces(a).len() - 1, pieces(a).last()) == pieces(a));
    } else {
        let b0 = b.drop_last();
        lemma_pieces_extend(a, b0);
        assert((a + b).drop_last() == a + b0);
        assert((a + b).last() == b.last());
        assert(b[b.len() - 1] != '\n');
        assert((pieces(a).last() + b0).push(b.last()) == pieces(a).last() + b);
    }
}

proof fn lemma_pieces_render(ls: Seq<Seq<char>>)
    requires
        forall|i: int| 0 <= i < ls.len() ==> one_line(#[trigger] ls[i]),
    ensures
        pieces(render(ls)) == ls.push(Seq::empty()),
    decreases ls.len(),
{
    if ls.len() == 0 {
        assert(pieces(Seq::<char>::empty()) == seq![Seq::<char>::empty()]);
        assert(ls.push(Seq::empty()) == seq![Seq::<char>::empty()]);
    } else {
        let init = ls.drop_last();
        assert forall|i: int| 0 <= i < init.len() implies one_line(#[trigger] init[i]) by {
            assert(init[i] == ls[i]);
        }
        lemma_pieces_render(init);
        let a = render(init);
        let x = ls.last();
        assert(one_line(ls[ls.len() - 1]));
        lemma_pieces_extend(a, x);
        assert(render(ls) == (a + x).push('\n'));
        assert((a + x).push('\n').drop_last() == a + x);
        assert(Seq::<char>::empty() + x == x);
        assert(init.push(Seq::empty()).update(init.len() as int, x) == ls);
    }
}

/// Lines without line feeds, rendered and split again, come back as they
/// were.
pub proof fn lemma_lines_render(ls: Seq<Seq<char>>)
    requires
        forall|i: int| 0 <= i < ls.len() ==> one_line(#[trigger] ls[i]),
    ensures
        lines_of(render(ls)) == ls,
{
    lemma_pieces_render(ls);
    assert(ls.push(Seq::empty()).drop_last() == ls);
}

proof fn lemma_pieces_one_line(s: Seq<char>)
    ensures
        forall|i: int| 0 <= i < pieces(s).len() ==> one_line(#[trigger] pieces(s)[i]),
    decreases s.len(),
{
    if s.len() > 0 {
        lemma_pieces_one_line(s.drop_last());
        lemma_pieces_len(s.drop_last());
        let f = pieces(s.drop_last());
        assert(one_line(f[f.len() - 1]));
    }
}

/// No line of a document holds a line feed.
pub proof fn lemma_lines_one_line(s: Seq<char>)
    ensures
        forall|i: int| 0 <= i < lines_of(s).len() ==> one_line(#[trigger] lines_of(s)[i]),
{
    lemma_pieces_one_line(s);
    lemma_pieces_len(s);
    let f = pieces(s);
    assert forall|i: int| 0 <= i < lines_of(s).len() implies one_line(#[trigger] lines_of(s)[i]) by {
        assert(lines_of(s)[i] == f[i]);
    }
}

proof fn lemma_trim_end_prefix(s: Seq<char>)
    ensures
        trim_end(s).len() <= s.len(),
        trim_end(s) == s.take(trim_end(s).len() as int),
        forall|k: int| trim_end(s).len() <= k < s.len() ==> is_space(#[trigger] s[k]),
    decreases s.len(),
{
    if s.len() > 0 && is_space(s.last()) {
        lemma_trim_end_prefix(s.drop_last());
        let t = trim_end(s.drop_last());
        assert(s.drop_last().take(t.len() as int) == s.take(t.len() as int));
        assert forall|k: int| t.len() <= k < s.len() implies is_space(#[trigger] s[k]) by {
            if k < s.len() - 1 {
                assert(s.drop_last()[k] == s[k]);
            }
        }
    } else {
        assert(s.take(s.len() as int) == s);
    }
}

proof fn lemma_upserted_lines(
    ls: Seq<Seq<char>>,
    h: Option<int>,
    v: Option<int>,
    header: Seq<char>,
    line: Seq<char>,
    good: spec_fn(Seq<char>) -> bool,
)
    requires
        forall|i: int| 0 <= i < ls.len() ==> good(#[trigger] ls[i]),
        good(Seq::empty()),
        good(header),
        good(line),
        h matches Some(hi) ==> 0 <= hi < ls.len(),
        v matches Some(vi) ==> 0 <= vi < ls.len(),
    ensures
        forall|i: int|
            0 <= i < upserted(ls, h, v, header, line).len() ==> good(
                #[trigger] upserted(ls, h, v, header, line)[i],
            ),
{
    let u = upserted(ls, h, v, header, line);
    match (h, v) {
        (Some(_), Some(vi)) => {
            assert forall|i: int| 0 <= i < u.len() implies good(#[trigger] u[i]) by {
                if i != vi {
                    assert(u[i] == ls[i]);
                }
            }
        },
        (Some(hi), None) => {
            assert forall|i: int| 0 <= i < u.len() implies good(#[trigger] u[i]) by {
                if i <= hi {
                    assert(u[i] == ls[i]);
                } else if i > hi + 1 {
                    assert(u[i] == ls[i - 1]);
                }
            }
        },
        (None, _) => {
            assert forall|i: int| 0 <= i < u.len() implies good(#[trigger] u[i]) by {
                if i < ls.len() {
                    assert(u[i] == ls[i]);
                }
            }
        },
    }
}

/// The line `prefix + value` sets the key `prefix` when the key begins
/// with a character that is neither white space nor `[`, and ends with one
/// that is not white space.
pub proof fn lemma_key_line(prefix: Seq<char>, value: Seq<char>)
    requires
        prefix.len() > 0,
        !is_space(prefix[0]),
        prefix[0] != '[',
        !is_space(prefix.last()),
    ensures
        key_line(prefix + value, prefix),
{
    let l = prefix + value;
    assert(l[0] == prefix[0]);
    assert(trim_start(l) == l);
    lemma_trim_end_prefix(l);
    assert(l[prefix.len() - 1] == prefix.last());
    let m = trim_end(l).len();
    if m < prefix.len() {
        assert(is_space(l[prefix.len() - 1]));
    }
    assert(trim(l).take(prefix.len() as int) == prefix);
    assert(trim(l)[0] == prefix[0]);
}

/// Writing a key line into a document a second time gives the same text as
/// writing it once.
pub proof fn lemma_write_idempotent(doc: Seq<char>, h: Seq<char>, p: Seq<char>, value: Seq<char>)
    requires
        proper_header(h),
        one_line(h),
        key_line(p + value, p),
        one_line(p + value),
    ensures
        write_entry(write_entry(doc, h, p, value), h, p, value) == write_entry(doc, h, p, value),
{
    let ls = lines_of(doc);
    let line = p + value;
    lemma_lines_one_line(doc);
    lemma_last_value_bound(ls, h, p);
    let u = upserted(ls, last_header(ls, h), last_value(ls, h, p), h, line);
    lemma_upserted_lines(
        ls,
        last_header(ls, h),
        last_value(ls, h, p),
        h,
        line,
        |l: Seq<char>| one_line(l),
    );
    lemma_lines_render(u);
    lemma_upsert_idempotent(ls, h, p, line);
}

/// After a key line is written, reading the key gives what follows the
/// key in the trimmed line.
pub proof fn lemma_read_after_write(doc: Seq<char>, h: Seq<char>, p: Seq<char>, value: Seq<char>)
    requires
        proper_header(h),
        one_line(h),
        key_line(p + value, p),
        one_line(p + value),
    ensures
        entry_value(lines_of(write_entry(doc, h, p, value)), h, p) == trim(p + value).skip(
            p.len() as int,
        ),
{
    let ls = lines_of(doc);
    let line = p + value;
    lemma_lines_one_line(doc);
    lemma_last_value_bound(ls, h, p);
    let u = upserted(ls, last_header(ls, h), last_value(ls, h, p), h, line);
    lemma_upserted_lines(
        ls,
        last_header(ls, h),
        last_value(ls, h, p),
        h,
        line,
        |l: Seq<char>| one_line(l),
    );
    lemma_lines_render(u);
    lemma_upsert_found(ls, h, p, line);
}

/// Writing a key into an empty document gives the section header and the
/// key line, and nothing before them.
pub proof fn lemma_write_empty(h: Seq<char>, p: Seq<char>, value: Seq<char>)
    ensures
        write_entry(Seq::empty(), h, p, value) == h.push('\n') + (p + value).push('\n'),
{
    let e = Seq::<char>::empty();
    assert(pieces(e) == seq![Seq::<char>::empty()]);
    assert(lines_of(e) =~= Seq::<Seq<char>>::empty());
    let u = Seq::<Seq<char>>::empty().push(h).push(p + value);
    assert(u.drop_last() == seq![h]);
    assert(seq![h].drop_last() == Seq::<Seq<char>>::empty());
    assert(seq![h].last() == h);
    assert(render(Seq::<Seq<char>>::empty()) == e);
    assert(render(seq![h]) == e + h.push('\n'));
    assert(u.last() == p + value);
    assert(e + h.push('\n') == h.push('\n'));
}

} // verus!
