//! Window-class names: their match keys, the stored list format, and
//! de-duplication by key.

use vstd::prelude::*;
use crate::text::{chars_of, ends_with, is_space, push_char, string_of, trim, trim_chars};

verus! {

/// What `str::to_lowercase` makes of a string.
pub uninterp spec fn lower_of(s: Seq<char>) -> Seq<char>;

/// Relies on `str::to_lowercase`: the lower-case form depends on the
/// characters alone, and the empty string stays empty.
#[verifier::external_body]
pub(crate) fn lowercase(s: &str) -> (r: String)
    ensures
        r@ == lower_of(s@),
        s@.len() == 0 ==> r@.len() == 0,
{
    s.to_lowercase()
}

/// The trailing marker that a class name may carry.
pub open spec fn desktop_marker() -> Seq<char> {
    seq!['.', 'd', 'e', 's', 'k', 't', 'o', 'p']
}

/// `s` with one trailing `p` removed, if it ends with `p`.
pub open spec fn strip_suffix(s: Seq<char>, p: Seq<char>) -> Seq<char> {
    if p.len() <= s.len() && s.skip(s.len() - p.len()) == p {
        s.take(s.len() - p.len())
    } else {
        s
    }
}

/// The match key of a class name: trimmed, lower-cased, one trailing
/// marker removed; empty when nothing but white space is given.
pub open spec fn key_of(s: Seq<char>) -> Seq<char> {
    let t = trim(s);
    if t.len() == 0 {
        t
    } else {
        strip_suffix(lower_of(t), desktop_marker())
    }
}

/// The characters of each string.
pub open spec fn views(v: Seq<String>) -> Seq<Seq<char>> {
    v.map_values(|x: String| x@)
}

fn marker() -> (r: Vec<char>)
    ensures
        r@ == desktop_marker(),
{
    let r = vec!['.', 'd', 'e', 's', 'k', 't', 'o', 'p'];
    assert(r@ == desktop_marker());
    r
}

/// A lower-cased class name without one trailing marker: the last step of
/// making a match key.
pub fn strip_desktop_marker(lowered: &str) -> (r: String)
    ensures
        r@ == strip_suffix(lowered@, desktop_marker()),
{
    let cs = chars_of(lowered);
    let m = marker();
    if ends_with(&cs, &m) {
        string_of(&crate::text::slice_chars(&cs, 0, cs.len() - m.len()))
    } else {
        string_of(&cs)
    }
}

/// Match key of a class name given as characters.
pub fn key_chars(s: &[char]) -> (r: Vec<char>)
    ensures
        r@ == key_of(s@),
{
    let t = trim_chars(s);
    if t.len() == 0 {
        return t;
    }
    let lower = lowercase(string_of(&t).as_str());
    chars_of(strip_desktop_marker(lower.as_str()).as_str())
}

/// The match key of a window class: used to compare and de-duplicate,
/// never stored.
pub fn class_key(s: &str) -> (r: String)
    ensures
        r@ == key_of(s@),
{
    let cs = chars_of(s);
    let k = key_chars(&cs);
    string_of(&k)
}

/// A separator of the stored list: `;`, `,` or white space.
pub open spec fn is_sep(c: char) -> bool {
    c == ';' || c == ',' || is_space(c)
}

/// The pieces of `s` between separators, empty pieces included.
pub open spec fn fields(s: Seq<char>) -> Seq<Seq<char>>
    decreases s.len(),
{
    if s.len() == 0 {
        seq![Seq::empty()]
    } else {
        let f = fields(s.drop_last());
        if is_sep(s.last()) {
            f.push(Seq::empty())
        } else {
            f.update(f.len() - 1, f.last().push(s.last()))
        }
    }
}

/// The non-empty members of `fs`, in order.
pub open spec fn nonempty(fs: Seq<Seq<char>>) -> Seq<Seq<char>>
    decreases fs.len(),
{
    if fs.len() == 0 {
        fs
    } else if fs.last().len() > 0 {
        nonempty(fs.drop_last()).push(fs.last())
    } else {
        nonempty(fs.drop_last())
    }
}

/// The class names that a stored list value holds.
pub open spec fn split_classes(s: Seq<char>) -> Seq<Seq<char>> {
    nonempty(fields(s))
}

/// The stored form of a class list: the names joined by `;`.
pub open spec fn join(xs: Seq<Seq<char>>) -> Seq<char>
    decreases xs.len(),
{
    if xs.len() == 0 {
        Seq::empty()
    } else if xs.len() == 1 {
        xs[0]
    } else {
        join(xs.drop_last()) + seq![';'] + xs.last()
    }
}

/// A name that the stored list can hold as one entry.
pub open spec fn storable(x: Seq<char>) -> bool {
    x.len() > 0 && forall|k: int| 0 <= k < x.len() ==> !#[trigger] is_sep(x[k])
}

proof fn lemma_fields_len(s: Seq<char>)
    ensures
        fields(s).len() >= 1,
    decreases s.len(),
{
    if s.len() > 0 {
        lemma_fields_len(s.drop_last());
    }
}

/// Whether `c` separates names in the stored list.
pub fn sep(c: char) -> (r: bool)
    ensures
        r == is_sep(c),
{
    c == ';' || c == ',' || crate::text::space(c)
}

/// Splits a stored list value into class names: `;`, `,` and white space
/// all separate, empty pieces are dropped, order and spelling are kept.
pub fn parse_classes(value: &str) -> (r: Vec<String>)
    ensures
        views(r@) == split_classes(value@),
{
    let s = chars_of(value);
    let mut out: Vec<String> = Vec::new();
    let mut cur: Vec<char> = Vec::new();
    let mut i: usize = 0;
    assert(s@.take(0) == Seq::<char>::empty());
    while i < s.len()
        invariant
            i <= s@.len(),
            fields(s@.take(i as int)).len() >= 1,
            cur@ == fields(s@.take(i as int)).last(),
            views(out@) == nonempty(fields(s@.take(i as int)).drop_last()),
        decreases s@.len() - i,
    {
        let c = s[i];
        proof {
            assert(s@.take(i + 1).drop_last() == s@.take(i as int));
            lemma_fields_len(s@.take(i + 1));
        }
        let ghost f = fields(s@.take(i as int));
        if sep(c) {
            if cur.len() > 0 {
                let piece = string_of(&cur);
                let ghost prev = out@;
                out.push(piece);
                assert(views(out@) =~= views(prev).push(piece@));
            }
            assert(fields(s@.take(i + 1)).drop_last() == f);
            cur = Vec::new();
        } else {
            cur.push(c);
            assert(fields(s@.take(i + 1)).drop_last() == f.drop_last());
        }
        i += 1;
    }
    assert(s@.take(s@.len() as int) == s@);
    let ghost f = fields(s@);
    if cur.len() > 0 {
        let piece = string_of(&cur);
        let ghost prev = out@;
        out.push(piece);
        assert(views(out@) =~= views(prev).push(piece@));
    }
    assert(f == f.drop_last().push(f.last()));
    out
}

/// Joins class names into the stored list form, separated by `;`.
pub fn join_classes(classes: &[String]) -> (r: String)
    ensures
        r@ == join(views(classes@)),
{
    let mut r = String::new();
    let mut i: usize = 0;
    while i < classes.len()
        invariant
            i <= classes@.len(),
            r@ == join(views(classes@.take(i as int))),
        decreases classes@.len() - i,
    {
        let ghost before = views(classes@.take(i as int));
        if i > 0 {
            push_char(&mut r, ';');
        }
        let piece = chars_of(classes[i].as_str());
        let mut k: usize = 0;
        let ghost base = r@;
        while k < piece.len()
            invariant
                k <= piece@.len(),
                r@ == base + piece@.take(k as int),
            decreases piece@.len() - k,
        {
            push_char(&mut r, piece[k]);
            k += 1;
            assert(piece@.take(k as int) == piece@.take(k - 1).push(piece@[k - 1]));
        }
        assert(piece@.take(piece@.len() as int) == piece@);
        let ghost after = views(classes@.take(i + 1));
        assert(after.drop_last() == before);
        assert(after.last() == classes@[i as int]@);
        if i == 0 {
            assert(before.len() == 0);
            assert(base == Seq::<char>::empty());
            assert(r@ == after[0]);
        }
        i += 1;
    }
    assert(classes@.take(classes@.len() as int) == classes@);
    r
}

proof fn lemma_fields_sep(a: Seq<char>)
    ensures
        fields(a + seq![';']) == fields(a).push(Seq::empty()),
{
    assert((a + seq![';']).drop_last() == a);
}

proof fn lemma_fields_extend(a: Seq<char>, b: Seq<char>)
    requires
        forall|k: int| 0 <= k < b.len() ==> !#[trigger] is_sep(b[k]),
    ensures
        fields(a + b) == fields(a).update(fields(a).len() - 1, fields(a).last() + b),
    decreases b.len(),
{
    lemma_fields_len(a);
    if b.len() == 0 {
        assert(a + b == a);
        assert(fields(a).last() + b == fields(a).last());
        assert(fields(a).update(fields(a).len() - 1, fields(a).last()) == fields(a));
    } else {
        let b0 = b.drop_last();
        lemma_fields_extend(a, b0);
        assert((a + b).drop_last() == a + b0);
        assert((a + b).last() == b.last());
        assert(!is_sep(b[b.len() - 1]));
        assert(fields(a).last() + b0 + seq![b.last()] == fields(a).last() + b);
        assert((fields(a).last() + b0).push(b.last()) == fields(a).last() + b);
    }
}

proof fn lemma_fields_join(xs: Seq<Seq<char>>)
    requires
        xs.len() >= 1,
        forall|i: int| 0 <= i < xs.len() ==> storable(#[trigger] xs[i]),
    ensures
        fields(join(xs)) == xs,
    decreases xs.len(),
{
    if xs.len() == 1 {
        let x = xs[0];
        assert(storable(xs[0]));
        lemma_fields_extend(Seq::empty(), x);
        assert(Seq::<char>::empty() + x == x);
        assert(fields(Seq::<char>::empty()) == seq![Seq::<char>::empty()]);
        assert(xs == seq![x]);
    } else {
        let init = xs.drop_last();
        assert forall|i: int| 0 <= i < init.len() implies storable(#[trigger] init[i]) by {
            assert(init[i] == xs[i]);
        }
        lemma_fields_join(init);
        let a = join(init);
        lemma_fields_sep(a);
        assert(storable(xs[xs.len() - 1]));
        lemma_fields_extend(a + seq![';'], xs.last());
        assert(Seq::<char>::empty() + xs.last() == xs.last());
        assert(xs == init.push(xs.last()));
    }
}

proof fn lemma_nonempty_all(xs: Seq<Seq<char>>)
    requires
        forall|i: int| 0 <= i < xs.len() ==> (#[trigger] xs[i]).len() > 0,
    ensures
        nonempty(xs) == xs,
    decreases xs.len(),
{
    if xs.len() > 0 {
        let init = xs.drop_last();
        assert forall|i: int| 0 <= i < init.len() implies (#[trigger] init[i]).len() > 0 by {
            assert(init[i] == xs[i]);
        }
        lemma_nonempty_all(init);
        assert(xs[xs.len() - 1].len() > 0);
        assert(xs == init.push(xs.last()));
    }
}

/// Parsing the stored form of a list of storable names gives the list back,
/// in order and with its spelling; no two names of such a list share a key.
pub proof fn lemma_round_trip(xs: Seq<Seq<char>>)
    requires
        forall|i: int| 0 <= i < xs.len() ==> storable(#[trigger] xs[i]),
        forall|i: int, j: int| 0 <= i < j < xs.len() ==> key_of(xs[i]) != key_of(xs[j]),
    ensures
        split_classes(join(xs)) == xs,
{
    if xs.len() == 0 {
        assert(fields(Seq::<char>::empty()) == seq![Seq::<char>::empty()]);
        let one = seq![Seq::<char>::empty()];
        assert(one.drop_last() == Seq::<Seq<char>>::empty());
        assert(one.last().len() == 0);
        assert(nonempty(one) == nonempty(one.drop_last()));
        assert(xs == Seq::<Seq<char>>::empty());
    } else {
        lemma_fields_join(xs);
        assert forall|i: int| 0 <= i < xs.len() implies (#[trigger] xs[i]).len() > 0 by {
            assert(storable(xs[i]));
        }
        lemma_nonempty_all(xs);
    }
}

/// Whether some name of `xs` has the match key `k`.
pub open spec fn key_seen(xs: Seq<Seq<char>>, k: Seq<char>) -> bool {
    exists|j: int| 0 <= j < xs.len() && key_of(#[trigger] xs[j]) == k
}

/// `xs` with every name dropped whose match key an earlier name has.
pub open spec fn dedup(xs: Seq<Seq<char>>) -> Seq<Seq<char>>
    decreases xs.len(),
{
    if xs.len() == 0 {
        xs
    } else if key_seen(xs.drop_last(), key_of(xs.last())) {
        dedup(xs.drop_last())
    } else {
        dedup(xs.drop_last()).push(xs.last())
    }
}

/// De-duplication keeps exactly the match keys that the list had.
pub proof fn lemma_dedup_keys(xs: Seq<Seq<char>>, k: Seq<char>)
    ensures
        key_seen(dedup(xs), k) == key_seen(xs, k),
    decreases xs.len(),
{
    if xs.len() > 0 {
        let init = xs.drop_last();
        lemma_dedup_keys(init, k);
        lemma_dedup_keys(init, key_of(xs.last()));
        let d = dedup(init);
        if key_seen(xs, k) {
            let j = choose|j: int| 0 <= j < xs.len() && key_of(#[trigger] xs[j]) == k;
            if j < init.len() {
                assert(init[j] == xs[j]);
            }
        }
        if key_seen(init, k) {
            let j = choose|j: int| 0 <= j < init.len() && key_of(#[trigger] init[j]) == k;
            assert(xs[j] == init[j]);
        }
        if !key_seen(init, key_of(xs.last())) {
            let dd = d.push(xs.last());
            if key_seen(d, k) {
                let j = choose|j: int| 0 <= j < d.len() && key_of(#[trigger] d[j]) == k;
                assert(dd[j] == d[j]);
            }
            if key_seen(dd, k) {
                let j = choose|j: int| 0 <= j < dd.len() && key_of(#[trigger] dd[j]) == k;
                if j < d.len() {
                    assert(dd[j] == d[j]);
                } else {
                    assert(xs[xs.len() - 1] == xs.last());
                }
            }
            if key_of(xs.last()) == k {
                assert(dd[dd.len() - 1] == xs.last());
                assert(xs[xs.len() - 1] == xs.last());
            }
        }
    }
}

/// After de-duplication no two names share a match key.
pub proof fn lemma_dedup_distinct(xs: Seq<Seq<char>>)
    ensures
        forall|i: int, j: int|
            0 <= i < j < dedup(xs).len() ==> key_of(dedup(xs)[i]) != key_of(dedup(xs)[j]),
    decreases xs.len(),
{
    if xs.len() > 0 {
        let init = xs.drop_last();
        lemma_dedup_distinct(init);
        lemma_dedup_keys(init, key_of(xs.last()));
        let d = dedup(init);
        if !key_seen(init, key_of(xs.last())) {
            let dd = d.push(xs.last());
            assert forall|i: int, j: int| 0 <= i < j < dd.len() implies key_of(dd[i]) != key_of(
                dd[j],
            ) by {
                if j == d.len() {
                    assert(dd[i] == d[i]);
                    assert(!key_seen(d, key_of(xs.last())));
                } else {
                    assert(dd[i] == d[i]);
                    assert(dd[j] == d[j]);
                }
            }
        }
    }
}

/// Drops each class whose match key an earlier class has; the first
/// spelling is kept and the order stays.
pub fn dedup_classes(classes: &[String]) -> (r: Vec<String>)
    ensures
        views(r@) == dedup(views(classes@)),
{
    let mut out: Vec<String> = Vec::new();
    let mut keys: Vec<Vec<char>> = Vec::new();
    let mut i: usize = 0;
    while i < classes.len()
        invariant
            i <= classes@.len(),
            views(out@) == dedup(views(classes@.take(i as int))),
            keys@.len() == out@.len(),
            forall|k: int| 0 <= k < keys@.len() ==> (#[trigger] keys@[k])@ == key_of(out@[k]@),
        decreases classes@.len() - i,
    {
        let ghost prefix = views(classes@.take(i as int));
        let ghost next = views(classes@.take(i + 1));
        assert(next.drop_last() == prefix);
        assert(next.last() == classes@[i as int]@);
        let cs = chars_of(classes[i].as_str());
        let k = key_chars(&cs);
        let mut seen = false;
        let mut j: usize = 0;
        while j < keys.len()
            invariant
                j <= keys@.len() == out@.len(),
                forall|m: int| 0 <= m < keys@.len() ==> (#[trigger] keys@[m])@ == key_of(out@[m]@),
                seen == exists|m: int| 0 <= m < j && key_of(out@[m]@) == k@,
            decreases keys@.len() - j,
        {
            if crate::text::same_chars(&keys[j], &k) {
                seen = true;
            }
            j += 1;
        }
        proof {
            lemma_dedup_keys(prefix, k@);
            let d = views(out@);
            if seen {
                let m = choose|m: int| 0 <= m < j && key_of(out@[m]@) == k@;
                assert(d[m] == out@[m]@);
            }
            if key_seen(d, k@) {
                let m = choose|m: int| 0 <= m < d.len() && key_of(#[trigger] d[m]) == k@;
                assert(d[m] == out@[m]@);
            }
            assert(seen == key_seen(prefix, k@));
        }
        if !seen {
            let ghost prev = out@;
            out.push(classes[i].clone());
            keys.push(k);
            assert(views(out@) =~= views(prev).push(classes@[i as int]@));
        }
        i += 1;
    }
    assert(classes@.take(classes@.len() as int) == classes@);
    out
}

proof fn lemma_fields_no_sep(s: Seq<char>)
    ensures
        forall|i: int, k: int|
            0 <= i < fields(s).len() && 0 <= k < fields(s)[i].len() ==> !is_sep(
                #[trigger] fields(s)[i][k],
            ),
    decreases s.len(),
{
    if s.len() > 0 {
        lemma_fields_no_sep(s.drop_last());
        lemma_fields_len(s.drop_last());
        let f = fields(s.drop_last());
        if !is_sep(s.last()) {
            let g = fields(s);
            assert forall|i: int, k: int| 0 <= i < g.len() && 0 <= k < g[i].len() implies !is_sep(
                #[trigger] g[i][k],
            ) by {
                if i < f.len() - 1 {
                    assert(g[i] == f[i]);
                } else if k < f.last().len() {
                    assert(g[i][k] == f[f.len() - 1][k]);
                }
            }
        }
    }
}

proof fn lemma_nonempty_keeps(fs: Seq<Seq<char>>, good: spec_fn(Seq<char>) -> bool)
    requires
        forall|i: int| 0 <= i < fs.len() && fs[i].len() > 0 ==> good(#[trigger] fs[i]),
    ensures
        forall|i: int| 0 <= i < nonempty(fs).len() ==> good(#[trigger] nonempty(fs)[i]),
    decreases fs.len(),
{
    if fs.len() > 0 {
        let init = fs.drop_last();
        assert forall|i: int| 0 <= i < init.len() && init[i].len() > 0 implies good(
            #[trigger] init[i],
        ) by {
            assert(init[i] == fs[i]);
        }
        lemma_nonempty_keeps(init, good);
        if fs.last().len() > 0 {
            assert(good(fs[fs.len() - 1]));
            let d = nonempty(init);
            let dd = d.push(fs.last());
            assert forall|i: int| 0 <= i < dd.len() implies good(#[trigger] dd[i]) by {
                if i < d.len() {
                    assert(dd[i] == d[i]);
                }
            }
        }
    }
}

/// Every name that a stored list value holds is storable.
pub proof fn lemma_split_storable(s: Seq<char>)
    ensures
        forall|i: int| 0 <= i < split_classes(s).len() ==> storable(#[trigger] split_classes(s)[i]),
{
    lemma_fields_no_sep(s);
    let fs = fields(s);
    assert forall|i: int| 0 <= i < fs.len() && fs[i].len() > 0 implies storable(#[trigger] fs[i]) by {
        assert forall|k: int| 0 <= k < fs[i].len() implies !#[trigger] is_sep(fs[i][k]) by {}
    }
    lemma_nonempty_keeps(fs, |x: Seq<char>| storable(x));
}

/// The stored form of storable names holds no white space.
pub proof fn lemma_join_no_space(xs: Seq<Seq<char>>)
    requires
        forall|i: int| 0 <= i < xs.len() ==> storable(#[trigger] xs[i]),
    ensures
        forall|k: int| 0 <= k < join(xs).len() ==> !is_space(#[trigger] join(xs)[k]),
    decreases xs.len(),
{
    if xs.len() == 1 {
        assert(storable(xs[0]));
        assert forall|k: int| 0 <= k < join(xs).len() implies !is_space(#[trigger] join(xs)[k]) by {
            assert(!is_sep(xs[0][k]));
        }
    } else if xs.len() > 1 {
        let init = xs.drop_last();
        assert forall|i: int| 0 <= i < init.len() implies storable(#[trigger] init[i]) by {
            assert(init[i] == xs[i]);
        }
        lemma_join_no_space(init);
        let a = join(init);
        let x = xs.last();
        assert(storable(xs[xs.len() - 1]));
        assert forall|k: int| 0 <= k < join(xs).len() implies !is_space(#[trigger] join(xs)[k]) by {
            if k < a.len() {
                assert(join(xs)[k] == a[k]);
            } else if k > a.len() {
                assert(join(xs)[k] == x[k - a.len() - 1]);
                assert(!is_sep(x[k - a.len() - 1]));
            }
        }
    }
}

/// De-duplication keeps only names of the list.
pub proof fn lemma_dedup_keeps(xs: Seq<Seq<char>>, good: spec_fn(Seq<char>) -> bool)
    requires
        forall|i: int| 0 <= i < xs.len() ==> good(#[trigger] xs[i]),
    ensures
        forall|i: int| 0 <= i < dedup(xs).len() ==> good(#[trigger] dedup(xs)[i]),
    decreases xs.len(),
{
    if xs.len() > 0 {
        let init = xs.drop_last();
        assert forall|i: int| 0 <= i < init.len() implies good(#[trigger] init[i]) by {
            assert(init[i] == xs[i]);
        }
        lemma_dedup_keeps(init, good);
        assert(good(xs[xs.len() - 1]));
        let d = dedup(init);
        let dd = d.push(xs.last());
        assert forall|i: int| 0 <= i < dd.len() implies good(#[trigger] dd[i]) by {
            if i < d.len() {
                assert(dd[i] == d[i]);
            }
        }
    }
}

/// Names with pairwise different match keys.
pub open spec fn distinct_keys(xs: Seq<Seq<char>>) -> bool {
    forall|i: int, j: int| 0 <= i < j < xs.len() ==> key_of(xs[i]) != key_of(xs[j])
}

/// A list without two equal match keys is its own de-duplication.
pub proof fn lemma_dedup_id(xs: Seq<Seq<char>>)
    requires
        distinct_keys(xs),
    ensures
        dedup(xs) == xs,
    decreases xs.len(),
{
    if xs.len() > 0 {
        let init = xs.drop_last();
        assert forall|i: int, j: int| 0 <= i < j < init.len() implies key_of(init[i]) != key_of(
            init[j],
        ) by {
            assert(init[i] == xs[i] && init[j] == xs[j]);
        }
        lemma_dedup_id(init);
        if key_seen(init, key_of(xs.last())) {
            let j = choose|j: int| 0 <= j < init.len() && key_of(#[trigger] init[j]) == key_of(
                xs.last(),
            );
            assert(init[j] == xs[j]);
            assert(xs.last() == xs[xs.len() - 1]);
        }
        assert(xs == init.push(xs.last()));
    }
}

} // verus!
