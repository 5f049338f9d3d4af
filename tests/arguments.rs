use focusctl::cli::{parse_global_options, parse_wrap, OptionsError, WrapError};

fn strings(v: &[&str]) -> Vec<String> {
    v.iter().map(|s| s.to_string()).collect()
}

#[test]
fn global_options() {
    let args = strings(&["focusctl", "--uid", "1000", "--user", "bob", "--session-auto", "list-classes"]);
    let (o, next) = parse_global_options(&args, 1).unwrap();
    assert_eq!(o.uid, Some(1000));
    assert_eq!(o.user.as_deref(), Some("bob"));
    assert!(o.session_auto);
    assert_eq!(next, 6);

    let args = strings(&["focusctl", "--uid", "1", "--uid", "2"]);
    let (o, next) = parse_global_options(&args, 1).unwrap();
    assert_eq!((o.uid, next), (Some(2), 5));

    let args = strings(&["focusctl", "enable", "--uid", "x"]);
    let (o, next) = parse_global_options(&args, 1).unwrap();
    assert_eq!((o.uid, o.user, o.session_auto, next), (None, None, false, 1));
}

#[test]
fn global_option_errors() {
    assert_eq!(parse_global_options(&strings(&["p", "--uid"]), 1).err(), Some(OptionsError::MissingUid));
    assert_eq!(parse_global_options(&strings(&["p", "--user"]), 1).err(), Some(OptionsError::MissingUser));
    assert_eq!(
        parse_global_options(&strings(&["p", "--uid", "-3"]), 1).err(),
        Some(OptionsError::InvalidUid)
    );
    assert_eq!(parse_global_options(&strings(&["p", "-h"]), 1).err(), Some(OptionsError::Help));
    assert_eq!(parse_global_options(&strings(&["p", "--session-auto", "--help"]), 1).err(), Some(OptionsError::Help));
}

#[test]
fn wrap_requests() {
    let args = strings(&["wrap", "Firefox", "--dry-run", "--no-enable", "--", "firefox", "-P"]);
    let r = parse_wrap(&args, 1).unwrap();
    assert_eq!(r.class, "Firefox");
    assert!(r.dry_run && !r.enable && r.reconfigure);
    assert_eq!(r.command, strings(&["firefox", "-P"]));

    let args = strings(&["wrap", "--auto", "--", "/usr/bin/echo", "hi"]);
    let r = parse_wrap(&args, 1).unwrap();
    assert_eq!(r.class, "EchoApp");
    assert!(!r.dry_run && r.enable && r.reconfigure);

    let args = strings(&["wrap", "X", "--no-reconfigure", "cmd"]);
    assert_eq!(parse_wrap(&args, 1).err(), Some(WrapError::UnknownOption(3)));
}

#[test]
fn wrap_errors() {
    assert_eq!(parse_wrap(&strings(&["wrap"]), 1).err(), Some(WrapError::MissingClass));
    assert_eq!(parse_wrap(&strings(&["wrap", "X", "--"]), 1).err(), Some(WrapError::MissingCommand));
    assert_eq!(parse_wrap(&strings(&["wrap", "X"]), 1).err(), Some(WrapError::MissingCommand));
    assert_eq!(parse_wrap(&strings(&["wrap", "  ", "--", "a"]), 1).err(), Some(WrapError::EmptyClass));
}
