use focusctl::classes::{class_key, dedup_classes, join_classes, parse_classes};
use focusctl::focus::{
    add_class, extract_plugins_enabled, extract_script_config, get_classes, get_enabled,
    remove_class, set_classes, set_enabled, ClassError,
};
use focusctl::ini::{join_lines, split_lines};

fn strings(v: &[&str]) -> Vec<String> {
    v.iter().map(|s| s.to_string()).collect()
}

#[test]
fn set_classes_twice_is_stable() {
    let docs = [
        "",
        "[General]\nfoo=1\n",
        "[Script-kwin-focus-helper]\nother=2\n",
        "[Script-kwin-focus-helper]\nforceFocusClasses=old\n[X]\n",
    ];
    let classes = strings(&["Firefox", "code.desktop"]);
    for d in docs {
        let once = set_classes(d, &classes);
        let twice = set_classes(&once, &classes);
        assert_eq!(once, twice);
    }
}

#[test]
fn set_enabled_twice_is_stable() {
    for d in ["", "[Plugins]\nfoo=true", "a=b\n\n[Plugins]\n"] {
        for on in [true, false] {
            let once = set_enabled(d, on);
            assert_eq!(set_enabled(&once, on), once);
        }
    }
}

#[test]
fn parse_of_join_gives_list_back() {
    let list = strings(&["Chrome", "code.desktop", "ProcletChrome"]);
    let joined = join_classes(&list);
    assert_eq!(joined, "Chrome;code.desktop;ProcletChrome");
    assert_eq!(parse_classes(&joined), list);
    assert_eq!(parse_classes(&join_classes(&[])), Vec::<String>::new());
}

#[test]
fn class_key_normalizes() {
    assert_eq!(class_key("Foo.DESKTOP"), class_key("foo"));
    assert_eq!(class_key("foo"), "foo");
    assert_eq!(class_key("  "), "");
    assert_eq!(class_key(""), "");
    assert_eq!(class_key("  ABC  "), "abc");
    assert_eq!(class_key("x.desktop.desktop"), "x.desktop");
}

#[test]
fn dedup_keeps_first_spelling() {
    let list = strings(&["Chrome", "chrome", "CHROME.desktop"]);
    assert_eq!(dedup_classes(&list), strings(&["Chrome"]));
    let list = strings(&["b", "A", "B", "a.desktop", "c"]);
    assert_eq!(dedup_classes(&list), strings(&["b", "A", "c"]));
}

#[test]
fn fresh_document_gets_section() {
    let out = set_classes("", &strings(&["a"]));
    assert_eq!(out, "[Script-kwin-focus-helper]\nforceFocusClasses=a\n");
    let out = set_classes("", &[]);
    assert_eq!(out, "[Script-kwin-focus-helper]\nforceFocusClasses=\n");
}

#[test]
fn section_appended_after_blank_line() {
    let out = set_classes("[General]\nx=1", &strings(&["a", "b"]));
    assert_eq!(out, "[General]\nx=1\n\n[Script-kwin-focus-helper]\nforceFocusClasses=a;b\n");
    let out = set_classes("[General]\nx=1\n\n", &strings(&["a"]));
    assert_eq!(out, "[General]\nx=1\n\n[Script-kwin-focus-helper]\nforceFocusClasses=a\n");
}

#[test]
fn key_inserted_after_header() {
    let doc = "[Script-kwin-focus-helper]\nother=1\n[Plugins]\n";
    let out = set_classes(doc, &strings(&["z"]));
    assert_eq!(
        out,
        "[Script-kwin-focus-helper]\nforceFocusClasses=z\nother=1\n[Plugins]\n"
    );
}

#[test]
fn add_then_remove_restores_list() {
    let added = add_class("", "X").unwrap().unwrap();
    assert_eq!(get_classes(&added), strings(&["X"]));
    let removed = remove_class(&added, "x.desktop").unwrap().unwrap();
    assert_eq!(get_classes(&removed), Vec::<String>::new());
    assert_eq!(get_classes(""), Vec::<String>::new());
}

#[test]
fn add_class_rules() {
    assert_eq!(add_class("", "   "), Err(ClassError::EmptyClass));
    let doc = "[Script-kwin-focus-helper]\nforceFocusClasses=Chrome\n";
    assert_eq!(add_class(doc, "chrome.desktop"), Ok(None));
    let out = add_class(doc, "  Code ").unwrap().unwrap();
    assert_eq!(out, "[Script-kwin-focus-helper]\nforceFocusClasses=Chrome;Code\n");
}

#[test]
fn remove_class_rules() {
    assert_eq!(remove_class("", ""), Err(ClassError::EmptyClass));
    let doc = "[Script-kwin-focus-helper]\nforceFocusClasses=A;b;a.desktop\n";
    assert_eq!(remove_class(doc, "zzz"), Ok(None));
    let out = remove_class(doc, "A").unwrap().unwrap();
    assert_eq!(out, "[Script-kwin-focus-helper]\nforceFocusClasses=b\n");
}

#[test]
fn enable_changes_only_flag_line() {
    let doc = "[Plugins]\nkwin-focus-helperEnabled=false\n";
    assert_eq!(set_enabled(doc, true), "[Plugins]\nkwin-focus-helperEnabled=true\n");
    let doc = "[A]\nx=1\n[Plugins]\nfoo=bar\nkwin-focus-helperEnabled=false\n\n[B]\ny=2\n";
    assert_eq!(
        set_enabled(doc, true),
        "[A]\nx=1\n[Plugins]\nfoo=bar\nkwin-focus-helperEnabled=true\n\n[B]\ny=2\n"
    );
}

#[test]
fn set_classes_from_spec_text() {
    let classes = parse_classes("a;b,b; c");
    assert_eq!(classes, strings(&["a", "b", "b", "c"]));
    let out = set_classes("", &classes);
    assert_eq!(out, "[Script-kwin-focus-helper]\nforceFocusClasses=a;b;c\n");
    assert_eq!(get_classes(&out), strings(&["a", "b", "c"]));
}

#[test]
fn parse_classes_separators() {
    assert_eq!(parse_classes(""), Vec::<String>::new());
    assert_eq!(parse_classes(" ;, \t"), Vec::<String>::new());
    assert_eq!(parse_classes("x\ny"), strings(&["x", "y"]));
}

#[test]
fn enabled_flag_values() {
    assert_eq!(get_enabled(""), None);
    assert_eq!(get_enabled("[Plugins]\nkwin-focus-helperEnabled=TRUE\n"), Some(true));
    assert_eq!(get_enabled("[Plugins]\nkwin-focus-helperEnabled= yes \n"), Some(true));
    assert_eq!(get_enabled("[Plugins]\nkwin-focus-helperEnabled=1\n"), Some(true));
    assert_eq!(get_enabled("[Plugins]\nkwin-focus-helperEnabled=off\n"), Some(false));
    assert_eq!(get_enabled("[Other]\nkwin-focus-helperEnabled=true\n"), None);
    assert_eq!(set_enabled("", false), "[Plugins]\nkwin-focus-helperEnabled=false\n");
}

#[test]
fn last_key_line_wins() {
    let lines = strings(&[
        "[Script-kwin-focus-helper]",
        "forceFocusClasses=a",
        "[Other]",
        "forceFocusClasses=zzz",
        "  [Script-kwin-focus-helper]  ",
        "  forceFocusClasses=b;c  ",
    ]);
    let loc = extract_script_config(&lines);
    assert_eq!(loc.header_index, Some(4));
    assert_eq!(loc.value_index, Some(5));
    assert_eq!(loc.value, "b;c");
    let (h, v, e) = extract_plugins_enabled(&lines);
    assert_eq!((h, v, e), (None, None, None));
}

#[test]
fn lines_split_and_render() {
    assert_eq!(split_lines(""), Vec::<String>::new());
    assert_eq!(split_lines("a\r\nb\n\nc"), strings(&["a\r", "b", "", "c"]));
    assert_eq!(split_lines("x\r"), strings(&["x\r"]));
    assert_eq!(split_lines("a\n"), strings(&["a"]));
    assert_eq!(join_lines(&strings(&["a", "", "b"])), "a\n\nb\n");
}

#[test]
fn carriage_returns_are_kept_on_rewrite() {
    let classes = strings(&["a"]);
    let once = set_classes("x\r", &classes);
    assert_eq!(once, "x\r\n\n[Script-kwin-focus-helper]\nforceFocusClasses=a\n");
    assert_eq!(set_classes(&once, &classes), once);
    let once = set_enabled("x\r", true);
    assert_eq!(once, "x\r\n\n[Plugins]\nkwin-focus-helperEnabled=true\n");
    assert_eq!(set_enabled(&once, true), once);
}

#[test]
fn crlf_document_keeps_other_lines() {
    let doc = "[A]\r\nx=1\r\n[Plugins]\r\nkwin-focus-helperEnabled=false\r\ny=2\r\n";
    let out = set_enabled(doc, true);
    assert_eq!(out, "[A]\r\nx=1\r\n[Plugins]\r\nkwin-focus-helperEnabled=true\ny=2\r\n");
    assert_eq!(get_enabled(&out), Some(true));
    assert_eq!(set_enabled(&out, true), out);
    let doc = "[Script-kwin-focus-helper]\r\nforceFocusClasses=a;b\r\n";
    assert_eq!(get_classes(doc), strings(&["a", "b"]));
}
