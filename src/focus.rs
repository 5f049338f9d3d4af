//! The forced-focus settings of the focus-helper script: its class list and
//! its plugin-enabled flag, read from and written into the compositor's
//! configuration document.

use vstd::prelude::*;
use crate::classes::{
    dedup, dedup_classes, distinct_keys, is_sep, key_seen, lemma_dedup_id,
    lemma_dedup_distinct, lemma_dedup_keeps, lemma_join_no_space, lemma_round_trip, lemma_split_storable, storable, join, join_classes, key_chars, key_of, lower_of, lowercase,
    parse_classes, split_classes, views,
};
use crate::ini::{
    entry_value, key_line, lemma_key_line, lemma_read_after_write, lemma_write_empty,
    lemma_write_idempotent, one_line, proper_header, last_header, last_value, located, lines_of, locate, opt_int, read_entry, split_lines,
    write_entry, write_entry_line, SectionKeyLocation,
};
use crate::text::{chars_of, is_space, same_chars, string_of, trim, trim_end, trim_start};

verus! {

/// Name of the section that holds the class list.
pub const GROUP_NAME: &'static str = "Script-kwin-focus-helper";

/// Key of the class list.
pub const KEY_NAME: &'static str = "forceFocusClasses";

/// Identifier of the script.
pub const SCRIPT_ID: &'static str = "kwin-focus-helper";

/// Name of the section that holds the plugin flags.
pub const PLUGINS_GROUP: &'static str = "Plugins";

/// Header line of the class-list section.
pub open spec fn script_header() -> Seq<char> {
    "[Script-kwin-focus-helper]"@
}

/// Beginning of the class-list line.
pub open spec fn classes_prefix() -> Seq<char> {
    "forceFocusClasses="@
}

/// Header line of the plugin section.
pub open spec fn plugins_header() -> Seq<char> {
    "[Plugins]"@
}

/// Beginning of the enabled-flag line.
pub open spec fn enabled_prefix() -> Seq<char> {
    "kwin-focus-helperEnabled="@
}

fn script_header_chars() -> (r: Vec<char>)
    ensures
        r@ == script_header(),
{
    chars_of("[Script-kwin-focus-helper]")
}

fn classes_prefix_chars() -> (r: Vec<char>)
    ensures
        r@ == classes_prefix(),
{
    chars_of("forceFocusClasses=")
}

fn plugins_header_chars() -> (r: Vec<char>)
    ensures
        r@ == plugins_header(),
{
    chars_of("[Plugins]")
}

fn enabled_prefix_chars() -> (r: Vec<char>)
    ensures
        r@ == enabled_prefix(),
{
    chars_of("kwin-focus-helperEnabled=")
}

/// Finds the class-list section and the class-list line inside it.
pub fn extract_script_config(lines: &[String]) -> (r: SectionKeyLocation)
    ensures
        located(views(lines@), script_header(), classes_prefix(), r),
{
    locate(lines, &script_header_chars(), &classes_prefix_chars())
}

/// A flag value that reads as "on", once trimmed and lower-cased.
pub open spec fn truthy(v: Seq<char>) -> bool {
    v == "true"@ || v == "1"@ || v == "yes"@
}

/// Whether a lower-cased flag value reads as "on": `true`, `1` or `yes`.
pub fn is_truthy(word: &str) -> (r: bool)
    ensures
        r == truthy(word@),
{
    let w = chars_of(word);
    same_chars(&w, &chars_of("true")) || same_chars(&w, &chars_of("1")) || same_chars(
        &w,
        &chars_of("yes"),
    )
}

/// What the enabled flag of a document whose lines are `ls` reads as:
/// nothing without a flag line.
pub open spec fn enabled_of(ls: Seq<Seq<char>>) -> Option<bool> {
    match last_value(ls, plugins_header(), enabled_prefix()) {
        Some(_) => Some(truthy(lower_of(trim(entry_value(ls, plugins_header(), enabled_prefix()))))),
        None => None,
    }
}

/// Finds the plugin section and the enabled-flag line inside it, and what
/// the flag reads as.
pub fn extract_plugins_enabled(lines: &[String]) -> (r: (Option<usize>, Option<usize>, Option<bool>))
    ensures
        opt_int(r.0) == last_header(views(lines@), plugins_header()),
        opt_int(r.1) == last_value(views(lines@), plugins_header(), enabled_prefix()),
        r.2 == enabled_of(views(lines@)),
{
    let loc = locate(lines, &plugins_header_chars(), &enabled_prefix_chars());
    let enabled = match loc.value_index {
        Some(_) => {
            let v = chars_of(loc.value.as_str());
            let t = crate::text::trim_chars(&v);
            let lower = lowercase(string_of(&t).as_str());
            Some(is_truthy(lower.as_str()))
        },
        None => None,
    };
    (loc.header_index, loc.value_index, enabled)
}

/// The class names that a document stores.
pub open spec fn stored_classes(doc: Seq<char>) -> Seq<Seq<char>> {
    split_classes(entry_value(lines_of(doc), script_header(), classes_prefix()))
}

/// `doc` with its class list set to `xs`, de-duplicated by match key.
pub open spec fn with_classes(doc: Seq<char>, xs: Seq<Seq<char>>) -> Seq<char> {
    write_entry(doc, script_header(), classes_prefix(), join(dedup(xs)))
}

/// The enabled flag that a document holds.
pub open spec fn stored_enabled(doc: Seq<char>) -> Option<bool> {
    enabled_of(lines_of(doc))
}

/// `doc` with its enabled flag set to `on`.
pub open spec fn with_enabled(doc: Seq<char>, on: bool) -> Seq<char> {
    write_entry(
        doc,
        plugins_header(),
        enabled_prefix(),
        if on {
            "true"@
        } else {
            "false"@
        },
    )
}

/// The class names stored in a configuration document.
pub fn get_classes(contents: &str) -> (r: Vec<String>)
    ensures
        views(r@) == stored_classes(contents@),
{
    let value = read_entry(contents, &script_header_chars(), &classes_prefix_chars());
    parse_classes(value.as_str())
}

/// The document with its class list replaced by `new_classes`, of which a
/// class whose match key an earlier one has is left out.
pub fn set_classes(contents: &str, new_classes: &[String]) -> (r: String)
    ensures
        r@ == with_classes(contents@, views(new_classes@)),
{
    let kept = dedup_classes(new_classes);
    let joined = join_classes(&kept);
    write_entry_line(contents, &script_header_chars(), &classes_prefix_chars(), joined.as_str())
}

/// The enabled flag of a configuration document: nothing where it is unset.
pub fn get_enabled(contents: &str) -> (r: Option<bool>)
    ensures
        r == stored_enabled(contents@),
{
    let lines = split_lines(contents);
    let (_h, _v, enabled) = extract_plugins_enabled(&lines);
    enabled
}

/// The document with its enabled flag set to `enabled`.
pub fn set_enabled(contents: &str, enabled: bool) -> (r: String)
    ensures
        r@ == with_enabled(contents@, enabled),
{
    let value = if enabled {
        "true"
    } else {
        "false"
    };
    write_entry_line(contents, &plugins_header_chars(), &enabled_prefix_chars(), value)
}

/// Why a class edit was refused.
#[derive(Debug, Clone, Copy, PartialEq, Eq)]
pub enum ClassError {
    /// The class name holds nothing but white space.
    EmptyClass,
}

/// `xs` without the names whose match key is `k`.
pub open spec fn without_key(xs: Seq<Seq<char>>, k: Seq<char>) -> Seq<Seq<char>>
    decreases xs.len(),
{
    if xs.len() == 0 {
        xs
    } else if key_of(xs.last()) == k {
        without_key(xs.drop_last(), k)
    } else {
        without_key(xs.drop_last(), k).push(xs.last())
    }
}

/// Whether some class of `classes` has the match key `k`, the key given as
/// characters.
fn has_key(classes: &[String], k: &[char]) -> (r: bool)
    ensures
        r == key_seen(views(classes@), k@),
{
    let mut i: usize = 0;
    while i < classes.len()
        invariant
            i <= classes@.len(),
            forall|j: int| 0 <= j < i ==> key_of(#[trigger] views(classes@)[j]) != k@,
        decreases classes@.len() - i,
    {
        let ck = key_chars(&chars_of(classes[i].as_str()));
        if same_chars(&ck, k) {
            assert(views(classes@)[i as int] == classes@[i as int]@);
            return true;
        }
        i += 1;
    }
    false
}

/// Adds a class, spelled as given but trimmed, unless a stored class has
/// its match key: then the document needs no change and nothing is
/// returned.
pub fn add_class(contents: &str, class: &str) -> (r: Result<Option<String>, ClassError>)
    ensures
        r is Err <==> key_of(class@).len() == 0,
        r matches Ok(None) <==> key_of(class@).len() > 0 && key_seen(
            stored_classes(contents@),
            key_of(class@),
        ),
        r matches Ok(Some(d)) ==> d@ == with_classes(
            contents@,
            stored_classes(contents@).push(trim(class@)),
        ),
{
    let input = crate::text::trim_chars(&chars_of(class));
    let k = key_chars(&chars_of(class));
    if k.len() == 0 {
        return Err(ClassError::EmptyClass);
    }
    let mut classes = get_classes(contents);
    if has_key(&classes, &k) {
        return Ok(None);
    }
    let ghost before = classes@;
    classes.push(string_of(&input));
    assert(views(classes@) =~= views(before).push(trim(class@)));
    Ok(Some(set_classes(contents, &classes)))
}

/// Removes every class whose match key is that of `class`; where none has
/// it, the document needs no change and nothing is returned.
pub fn remove_class(contents: &str, class: &str) -> (r: Result<Option<String>, ClassError>)
    ensures
        r is Err <==> key_of(class@).len() == 0,
        r matches Ok(None) <==> key_of(class@).len() > 0 && !key_seen(
            stored_classes(contents@),
            key_of(class@),
        ),
        r matches Ok(Some(d)) ==> d@ == with_classes(
            contents@,
            without_key(stored_classes(contents@), key_of(class@)),
        ),
{
    let k = key_chars(&chars_of(class));
    if k.len() == 0 {
        return Err(ClassError::EmptyClass);
    }
    let classes = get_classes(contents);
    let ghost xs = views(classes@);
    let mut kept: Vec<String> = Vec::new();
    let mut found = false;
    let mut i: usize = 0;
    assert(xs.take(0) == Seq::<Seq<char>>::empty());
    while i < classes.len()
        invariant
            i <= classes@.len(),
            xs == views(classes@),
            views(kept@) == without_key(xs.take(i as int), k@),
            found == key_seen(xs.take(i as int), k@),
        decreases classes@.len() - i,
    {
        let ghost pre = xs.take(i as int);
        let ghost next = xs.take(i + 1);
        assert(next.drop_last() == pre);
        assert(next.last() == classes@[i as int]@);
        let ck = key_chars(&chars_of(classes[i].as_str()));
        if same_chars(&ck, &k) {
            found = true;
            assert(next[i as int] == next.last());
        } else {
            let ghost prev = kept@;
            kept.push(classes[i].clone());
            assert(views(kept@) =~= views(prev).push(classes@[i as int]@));
        }
        proof {
            if key_seen(pre, k@) {
                let j = choose|j: int| 0 <= j < pre.len() && key_of(#[trigger] pre[j]) == k@;
                assert(next[j] == pre[j]);
            }
            if key_seen(next, k@) {
                let j = choose|j: int| 0 <= j < next.len() && key_of(#[trigger] next[j]) == k@;
                if j < i {
                    assert(next[j] == pre[j]);
                }
            }
        }
        i += 1;
    }
    assert(xs.take(xs.len() as int) == xs);
    if !found {
        return Ok(None);
    }
    Ok(Some(set_classes(contents, &kept)))
}

proof fn lemma_script_keys()
    ensures
        proper_header(script_header()),
        one_line(script_header()),
        classes_prefix().len() > 0,
        !is_space(classes_prefix()[0]),
        classes_prefix()[0] != '[',
        !is_space(classes_prefix().last()),
        one_line(classes_prefix()),
{
    reveal_strlit("[Script-kwin-focus-helper]");
    reveal_strlit("forceFocusClasses=");
    let h = script_header();
    assert(trim_start(h) == h);
    assert(trim_end(h) == h);
}

proof fn lemma_plugin_keys()
    ensures
        proper_header(plugins_header()),
        one_line(plugins_header()),
        enabled_prefix().len() > 0,
        !is_space(enabled_prefix()[0]),
        enabled_prefix()[0] != '[',
        !is_space(enabled_prefix().last()),
        one_line(enabled_prefix()),
{
    reveal_strlit("[Plugins]");
    reveal_strlit("kwin-focus-helperEnabled=");
    let h = plugins_header();
    assert(trim_start(h) == h);
    assert(trim_end(h) == h);
}

/// Setting the enabled flag twice to the same value gives the same text
/// as setting it once.
pub proof fn lemma_set_enabled_idempotent(doc: Seq<char>, on: bool)
    ensures
        with_enabled(with_enabled(doc, on), on) == with_enabled(doc, on),
{
    lemma_plugin_keys();
    reveal_strlit("true");
    reveal_strlit("false");
    let v = if on {
        "true"@
    } else {
        "false"@
    };
    let l = enabled_prefix() + v;
    lemma_key_line(enabled_prefix(), v);
    assert(l.last() == v.last());
    assert forall|k: int| 0 <= k < l.len() implies #[trigger] l[k] != '\n' by {
        if k < enabled_prefix().len() {
            assert(l[k] == enabled_prefix()[k]);
        } else {
            assert(l[k] == v[k - enabled_prefix().len()]);
        }
    }
    lemma_write_idempotent(doc, plugins_header(), enabled_prefix(), v);
}

proof fn lemma_class_line(value: Seq<char>)
    requires
        forall|k: int| 0 <= k < value.len() ==> !is_space(#[trigger] value[k]),
    ensures
        key_line(classes_prefix() + value, classes_prefix()),
        one_line(classes_prefix() + value),
        trim(classes_prefix() + value) == classes_prefix() + value,
{
    lemma_script_keys();
    let p = classes_prefix();
    let l = p + value;
    lemma_key_line(p, value);
    assert forall|k: int| 0 <= k < l.len() implies #[trigger] l[k] != '\n' by {
        if k < p.len() {
            assert(l[k] == p[k]);
        } else {
            assert(l[k] == value[k - p.len()]);
            assert(is_space('\n'));
        }
    }
    assert(!is_space(l.last())) by {
        if value.len() > 0 {
            assert(l.last() == value[value.len() - 1]);
        } else {
            assert(l.last() == p.last());
        }
    }
    assert(l[0] == p[0]);
    assert(trim_start(l) == l);
    assert(trim_end(l) == l);
}

/// Setting the class list twice to the same classes gives the same text as
/// setting it once, where no class that is kept holds a line feed.
pub proof fn lemma_set_classes_idempotent(doc: Seq<char>, xs: Seq<Seq<char>>)
    requires
        forall|i: int| 0 <= i < dedup(xs).len() ==> one_line(#[trigger] dedup(xs)[i]),
    ensures
        with_classes(with_classes(doc, xs), xs) == with_classes(doc, xs),
{
    lemma_script_keys();
    let v = join(dedup(xs));
    let p = classes_prefix();
    let l = p + v;
    lemma_join_one_line(dedup(xs));
    lemma_key_line(p, v);
    assert forall|k: int| 0 <= k < l.len() implies #[trigger] l[k] != '\n' by {
        if k < p.len() {
            assert(l[k] == p[k]);
        } else {
            assert(l[k] == v[k - p.len()]);
        }
    }
    lemma_write_idempotent(doc, script_header(), p, v);
}

/// The stored form of names without line feeds holds no line feed.
proof fn lemma_join_one_line(xs: Seq<Seq<char>>)
    requires
        forall|i: int| 0 <= i < xs.len() ==> one_line(#[trigger] xs[i]),
    ensures
        one_line(join(xs)),
    decreases xs.len(),
{
    if xs.len() == 1 {
        assert(one_line(xs[0]));
    } else if xs.len() > 1 {
        let init = xs.drop_last();
        assert forall|i: int| 0 <= i < init.len() implies one_line(#[trigger] init[i]) by {
            assert(init[i] == xs[i]);
        }
        lemma_join_one_line(init);
        let a = join(init);
        let x = xs.last();
        assert(one_line(xs[xs.len() - 1]));
        assert forall|k: int| 0 <= k < join(xs).len() implies #[trigger] join(xs)[k] != '\n' by {
            if k < a.len() {
                assert(join(xs)[k] == a[k]);
            } else if k > a.len() {
                assert(join(xs)[k] == x[k - a.len() - 1]);
            }
        }
    }
}

/// A document without a class-list section gets exactly the section header
/// and the class-list line when its list is set, with no blank line before
/// them.
pub proof fn lemma_fresh_section(xs: Seq<Seq<char>>)
    ensures
        with_classes(Seq::empty(), xs) == script_header().push('\n') + (classes_prefix() + join(
            dedup(xs),
        )).push('\n'),
{
    lemma_write_empty(script_header(), classes_prefix(), join(dedup(xs)));
}

/// The class list that a document stores after its list was set to names
/// that are storable and have pairwise different keys is that list.
pub proof fn lemma_classes_read_back(doc: Seq<char>, xs: Seq<Seq<char>>)
    requires
        forall|i: int| 0 <= i < xs.len() ==> storable(#[trigger] xs[i]),
        distinct_keys(xs),
    ensures
        stored_classes(with_classes(doc, xs)) == xs,
{
    lemma_script_keys();
    lemma_dedup_id(xs);
    lemma_join_no_space(xs);
    lemma_class_line(join(xs));
    lemma_read_after_write(doc, script_header(), classes_prefix(), join(xs));
    let l = classes_prefix() + join(xs);
    assert(l.skip(classes_prefix().len() as int) == join(xs));
    lemma_round_trip(xs);
}

proof fn lemma_without_absent(xs: Seq<Seq<char>>, k: Seq<char>)
    requires
        !key_seen(xs, k),
    ensures
        without_key(xs, k) == xs,
    decreases xs.len(),
{
    if xs.len() > 0 {
        let init = xs.drop_last();
        if key_seen(init, k) {
            let j = choose|j: int| 0 <= j < init.len() && key_of(#[trigger] init[j]) == k;
            assert(xs[j] == init[j]);
        }
        lemma_without_absent(init, k);
        assert(xs[xs.len() - 1] == xs.last());
        assert(xs == init.push(xs.last()));
    }
}

/// Adding a class and then removing a class of the same match key gives
/// back the class list that the document had: where the added name is
/// storable once trimmed, its key was not stored yet, and the stored names
/// had pairwise different keys.
pub proof fn lemma_add_then_remove(doc: Seq<char>, added: Seq<char>, removed: Seq<char>)
    requires
        key_of(added).len() > 0,
        key_of(removed) == key_of(added),
        storable(trim(added)),
        !key_seen(stored_classes(doc), key_of(added)),
        distinct_keys(stored_classes(doc)),
    ensures
        ({
            let grown = with_classes(doc, stored_classes(doc).push(trim(added)));
            &&& key_seen(stored_classes(grown), key_of(removed))
            &&& stored_classes(
                with_classes(grown, without_key(stored_classes(grown), key_of(removed))),
            ) == stored_classes(doc)
        }),
{
    let xs = stored_classes(doc);
    let t = trim(added);
    let ys = xs.push(t);
    lemma_split_storable(entry_value(lines_of(doc), script_header(), classes_prefix()));
    assert(t[0] == t[0] && !is_sep(t[0]));
    assert(!is_sep(t[t.len() - 1]));
    assert(trim_start(t) == t);
    assert(trim_end(t) == t);
    assert(key_of(t) == key_of(added));
    assert forall|i: int| 0 <= i < ys.len() implies storable(#[trigger] ys[i]) by {
        if i < xs.len() {
            assert(ys[i] == xs[i]);
        }
    }
    assert forall|i: int, j: int| 0 <= i < j < ys.len() implies key_of(ys[i]) != key_of(ys[j]) by {
        assert(ys[i] == xs[i]);
        if j == xs.len() {
            assert(ys[j] == t);
        } else {
            assert(ys[j] == xs[j]);
        }
    }
    lemma_classes_read_back(doc, ys);
    let grown = with_classes(doc, ys);
    assert(ys[xs.len() as int] == t);
    assert(ys.drop_last() == xs);
    lemma_without_absent(xs, key_of(added));
    assert(without_key(ys, key_of(removed)) == xs);
    lemma_classes_read_back(grown, xs);
}

/// After the class list is set to storable names, the stored names have
/// pairwise different match keys.
pub proof fn lemma_stored_keys_distinct(doc: Seq<char>, xs: Seq<Seq<char>>)
    requires
        forall|i: int| 0 <= i < xs.len() ==> storable(#[trigger] xs[i]),
    ensures
        distinct_keys(stored_classes(with_classes(doc, xs))),
{
    lemma_dedup_keeps(xs, |x: Seq<char>| storable(x));
    lemma_dedup_distinct(xs);
    let d = dedup(xs);
    lemma_dedup_id(d);
    lemma_classes_read_back(doc, d);
}

} // verus!
