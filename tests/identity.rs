use focusctl::account::{
    config_path_for, find_user_by_name, find_user_by_uid, parse_passwd, resolve_target,
    select_target, Account, Selector, TargetError,
};

const PASSWD: &str = "root:x:0:0:root:/root:/bin/bash\n\
# a comment\n\
\n\
broken:x:abc:1:b:/nowhere:/bin/sh\n\
short:x:5:5\n\
alice:x:1000:1000:Alice:/home/alice:/bin/zsh\n\
bob:x:1001:100::/home/bob/:/bin/sh\n\
a:x:1:b:g:/h:/s\n\
alice2:x:1000:1000:Alias:/home/alias:/bin/sh\n";

#[test]
fn passwd_records() {
    let accs = parse_passwd(PASSWD);
    let names: Vec<&str> = accs.iter().map(|a| a.user.as_str()).collect();
    assert_eq!(names, vec!["root", "alice", "bob", "a", "alice2"]);
    assert_eq!(accs[1].uid, 1000);
    assert_eq!(accs[2].gid, Some(100));
    assert_eq!((accs[3].uid, accs[3].gid, accs[3].home.as_str()), (1, None, "/h"));
    assert_eq!(accs[2].home, "/home/bob/");
}

#[test]
fn lookups() {
    let a = find_user_by_name(PASSWD, "bob").unwrap();
    assert_eq!((a.uid, a.home.as_str()), (1001, "/home/bob/"));
    assert!(find_user_by_name(PASSWD, "carol").is_none());
    let a = find_user_by_uid(PASSWD, 1000).unwrap();
    assert_eq!(a.user, "alice");
    assert!(find_user_by_uid(PASSWD, 7).is_none());
    assert_eq!(find_user_by_name(PASSWD, "a").unwrap().uid, 1);
    assert_eq!(find_user_by_uid(PASSWD, 1).unwrap().user, "a");
}

#[test]
fn config_paths() {
    let a = find_user_by_name(PASSWD, "alice").unwrap();
    assert_eq!(config_path_for(&a), "/home/alice/.config/kwinrc");
    let b = find_user_by_name(PASSWD, "bob").unwrap();
    assert_eq!(config_path_for(&b), "/home/bob/.config/kwinrc");
    let c = Account { uid: 1, gid: Some(1), user: "c".to_string(), home: String::new() };
    assert_eq!(config_path_for(&c), ".config/kwinrc");
}

#[test]
fn selector_precedence() {
    assert!(matches!(select_target(Some(5), Some("bob".into()), true, true), Selector::Uid(5)));
    assert!(matches!(select_target(None, Some("bob".into()), true, true), Selector::User(ref n) if n == "bob"));
    assert!(matches!(select_target(None, None, true, true), Selector::Auto));
    assert!(matches!(select_target(None, None, true, false), Selector::Current));
    assert!(matches!(select_target(None, None, false, true), Selector::Current));
}

#[test]
fn resolving_targets() {
    let r = resolve_target(&Selector::Uid(1001), PASSWD, None, 0).unwrap();
    assert_eq!(r.user, "bob");
    assert_eq!(
        resolve_target(&Selector::Uid(9), PASSWD, None, 0).err(),
        Some(TargetError::UnknownUid(9))
    );
    assert_eq!(
        resolve_target(&Selector::User("nobody".into()), PASSWD, None, 0).err(),
        Some(TargetError::UnknownUser)
    );
    assert_eq!(
        resolve_target(&Selector::Auto, PASSWD, None, 0).err(),
        Some(TargetError::NoActiveSession)
    );
    let r = resolve_target(&Selector::Auto, PASSWD, Some(1000), 0).unwrap();
    assert_eq!(r.user, "alice");
    let r = resolve_target(&Selector::Current, PASSWD, Some(1000), 0).unwrap();
    assert_eq!(r.user, "root");
}
