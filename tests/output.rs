use focusctl::classes::strip_desktop_marker;
use focusctl::focus::is_truthy;
use focusctl::display::{
    bold, col_left, colors_enabled, cyan, dim, display_width, is_combining_mark, is_wide, paint,
    soft_red,
};
use focusctl::text::{decimal_string, parse_u32};
use focusctl::wrap::{auto_class_from_argv0, basename};

#[test]
fn colour_switch() {
    assert!(!colors_enabled(true, Some("xterm")));
    assert!(!colors_enabled(false, None));
    assert!(!colors_enabled(false, Some("dumb")));
    assert!(colors_enabled(false, Some("xterm-256color")));
}

#[test]
fn painting() {
    assert_eq!(paint("x", "36", true), "\x1b[36mx\x1b[0m");
    assert_eq!(paint("x", "36", false), "x");
    assert_eq!(bold("b", true), "\x1b[1mb\x1b[0m");
    assert_eq!(dim("d", true), "\x1b[2md\x1b[0m");
    assert_eq!(cyan("c", true), "\x1b[36mc\x1b[0m");
    assert_eq!(soft_red("r", true), "\x1b[31mr\x1b[0m");
}

#[test]
fn widths() {
    assert!(is_combining_mark('\u{0301}'));
    assert!(!is_combining_mark('a'));
    assert!(is_wide('漢'));
    assert!(is_wide('😀'));
    assert!(!is_wide('a'));
    assert_eq!(display_width(""), 0);
    assert_eq!(display_width("abc"), 3);
    assert_eq!(display_width("e\u{0301}"), 1);
    assert_eq!(display_width("漢字"), 4);
    assert_eq!(display_width("\t\n"), 2);
}

#[test]
fn left_columns() {
    assert_eq!(col_left("ab", 4, None, true), "ab  ");
    assert_eq!(col_left("abcdef", 4, None, true), "abcdef");
    assert_eq!(col_left("漢", 3, Some("36"), true), "\x1b[36m漢 \x1b[0m");
    assert_eq!(col_left("a", 2, Some("36"), false), "a ");
}

#[test]
fn base_names() {
    assert_eq!(basename("/usr/bin/echo"), "echo");
    assert_eq!(basename("echo"), "echo");
    assert_eq!(basename("/usr/bin/"), "");
}

#[test]
fn auto_class_names() {
    assert_eq!(auto_class_from_argv0("echo"), "EchoApp");
    assert_eq!(auto_class_from_argv0("/usr/bin/my-tool.sh"), "MyApp");
    assert_eq!(auto_class_from_argv0("/opt/FOO.desktop"), "FooApp");
    assert_eq!(auto_class_from_argv0("--"), "App");
    assert_eq!(auto_class_from_argv0(""), "App");
    assert_eq!(auto_class_from_argv0("__x9Y__"), "X9yApp");
}

#[test]
fn numbers() {
    assert_eq!(parse_u32(&['4', '2']), Some(42));
    assert_eq!(parse_u32(&['+', '7']), Some(7));
    assert_eq!(parse_u32(&['+']), None);
    assert_eq!(parse_u32(&[]), None);
    assert_eq!(parse_u32(&['-', '1']), None);
    assert_eq!(parse_u32(&"4294967295".chars().collect::<Vec<_>>()), Some(u32::MAX));
    assert_eq!(parse_u32(&"4294967296".chars().collect::<Vec<_>>()), None);
    assert_eq!(decimal_string(0), "0");
    assert_eq!(decimal_string(90210), "90210");
}

#[test]
fn steps_after_lowercasing() {
    assert_eq!(strip_desktop_marker("code.desktop"), "code");
    assert_eq!(strip_desktop_marker("code.DESKTOP"), "code.DESKTOP");
    assert_eq!(strip_desktop_marker(".desktop"), "");
    assert_eq!(strip_desktop_marker("code"), "code");
    assert!(is_truthy("true") && is_truthy("1") && is_truthy("yes"));
    assert!(!is_truthy("TRUE") && !is_truthy("no") && !is_truthy(""));
}
