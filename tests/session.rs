use focusctl::reload::{
    child_environment, next_reload_step, reload_args, reload_programs, run_through_sudo,
    sudo_args, ReloadStep,
};
use focusctl::session::{
    pick_auto_session, pick_session_for, pick_wayland_socket, plan_session,
    resolve_from_sessions, runtime_dir_for, session_from_row, ProcessEnv, SessionEnvironment,
    SessionError, SessionPlan, SessionRow, SessionType,
};

fn empty_env() -> ProcessEnv {
    ProcessEnv {
        runtime_dir: None,
        bus_address: None,
        display: None,
        wayland_display: None,
        xauthority: None,
        session_type: None,
    }
}

fn row(id: &str, active: &str, class: &str, kind: &str, state: &str, user: &str) -> SessionRow {
    SessionRow {
        id: id.to_string(),
        active: active.to_string(),
        class: class.to_string(),
        kind: kind.to_string(),
        state: state.to_string(),
        user: user.to_string(),
        runtime_dir: "/run/user/1000\n".to_string(),
        bus_address: "unix:path=/run/user/1000/bus\n".to_string(),
    }
}

#[test]
fn inherited_runtime_dir_is_kept() {
    let mut env = empty_env();
    env.runtime_dir = Some("/run/user/1234".to_string());
    env.display = Some(String::new());
    env.session_type = Some("wayland".to_string());
    for exists in [true, false] {
        match plan_session(&env, exists) {
            SessionPlan::Inherit(e) => {
                assert_eq!(e.runtime_dir.as_deref(), Some("/run/user/1234"));
                assert_eq!(e.bus_address, None);
                assert_eq!(e.display, None);
                assert_eq!(e.session_type, Some(SessionType::Wayland));
            }
            _ => panic!("expected the inherited environment"),
        }
    }
}

#[test]
fn inherited_bus_address_is_enough() {
    let mut env = empty_env();
    env.runtime_dir = Some(String::new());
    env.bus_address = Some("unix:path=/x".to_string());
    assert!(matches!(plan_session(&env, false), SessionPlan::Inherit(_)));
}

#[test]
fn missing_runtime_dir_fails_first() {
    assert!(matches!(plan_session(&empty_env(), false), SessionPlan::Missing));
    assert!(matches!(plan_session(&empty_env(), true), SessionPlan::Query));
}

#[test]
fn runtime_dir_path() {
    assert_eq!(runtime_dir_for(1000), "/run/user/1000");
    assert_eq!(runtime_dir_for(0), "/run/user/0");
    assert_eq!(runtime_dir_for(u32::MAX), "/run/user/4294967295");
}

#[test]
fn auto_session_is_first_qualifying() {
    let rows = vec![
        row("1", "no", "user", "wayland", "active", "1000"),
        row("2", "yes", "greeter", "x11", "active", "100"),
        row("3", "yes", "user", "tty", "active", "1001"),
        row("4", "yes\n", "user\n", "x11\n", "online", "1002\n"),
        row("5", "yes", "user", "wayland", "active", "1003"),
    ];
    assert_eq!(pick_auto_session(&rows), Some(1002));
    assert_eq!(pick_auto_session(&rows[..3]), None);
}

#[test]
fn session_for_uid() {
    let rows = vec![
        row("1", "yes", "user", "wayland", "closing", "1000"),
        row("2", "yes", "user", "wayland", "active", "1001"),
        row("3", "yes", "user", "wayland", "online", "1000"),
    ];
    assert_eq!(pick_session_for(&rows, 1000), Some(2));
    assert_eq!(pick_session_for(&rows, 1001), Some(1));
    assert_eq!(pick_session_for(&rows, 5), None);
}

#[test]
fn wayland_session_environment() {
    let r = row("1", "yes", "user", "wayland", "active", "1000");
    let entries: Vec<String> =
        ["bus", "wayland-0.lock", "wayland-1", "wayland-0"].iter().map(|s| s.to_string()).collect();
    let e = session_from_row(&r, "/home/a", &entries);
    assert_eq!(e.runtime_dir.as_deref(), Some("/run/user/1000"));
    assert_eq!(e.bus_address.as_deref(), Some("unix:path=/run/user/1000/bus"));
    assert_eq!(e.wayland_display.as_deref(), Some("wayland-1"));
    assert_eq!(e.display, None);
    assert_eq!(e.xauthority, None);
    assert_eq!(pick_wayland_socket(&[]), "wayland-0");
    assert_eq!(pick_wayland_socket(&["wayland-".to_string(), "wayland-x".to_string()]), "wayland-0");
}

#[test]
fn x11_session_environment() {
    let mut r = row("1", "yes", "user", "x11", "active", "1000");
    r.bus_address = "  ".to_string();
    let e = session_from_row(&r, "/home/a", &[]);
    assert_eq!(e.session_type, Some(SessionType::X11));
    assert_eq!(e.display.as_deref(), Some(":0"));
    assert_eq!(e.xauthority.as_deref(), Some("/home/a/.Xauthority"));
    assert_eq!(e.bus_address, None);
    assert_eq!(e.wayland_display, None);
}

#[test]
fn resolve_needs_a_session() {
    let rows = vec![row("1", "yes", "user", "x11", "active", "1000")];
    assert!(resolve_from_sessions(&rows, 1000, "/h", &[]).is_ok());
    assert!(matches!(resolve_from_sessions(&rows, 1, "/h", &[]), Err(SessionError::NotFound)));
}

#[test]
fn reload_order() {
    assert_eq!(reload_programs(), vec!["qdbus6", "qdbus-qt6", "qdbus-qt5", "qdbus"]);
    assert_eq!(reload_args(), vec!["org.kde.KWin", "/KWin", "reconfigure"]);
    assert_eq!(next_reload_step(None), ReloadStep::Attempt(0));
    assert_eq!(next_reload_step(Some((0, false))), ReloadStep::Attempt(1));
    assert_eq!(next_reload_step(Some((2, true))), ReloadStep::Reloaded(2));
    assert_eq!(next_reload_step(Some((3, false))), ReloadStep::GiveUp);
}

#[test]
fn running_as_target() {
    assert!(run_through_sudo(0, 1000, true));
    assert!(!run_through_sudo(0, 0, true));
    assert!(!run_through_sudo(1000, 1001, true));
    assert!(!run_through_sudo(0, 1000, false));
    let args = sudo_args(1000, "qdbus", &["a".to_string(), "b".to_string()]);
    assert_eq!(args, vec!["-u", "#1000", "-H", "qdbus", "a", "b"]);
}

#[test]
fn child_variables() {
    let e = SessionEnvironment {
        runtime_dir: Some("/run/user/1".to_string()),
        bus_address: None,
        display: Some(":0".to_string()),
        wayland_display: None,
        xauthority: None,
        session_type: Some(SessionType::X11),
    };
    let vars = child_environment(&e);
    let want: Vec<(String, String)> = vec![
        ("XDG_RUNTIME_DIR".to_string(), "/run/user/1".to_string()),
        ("DISPLAY".to_string(), ":0".to_string()),
        ("XDG_SESSION_TYPE".to_string(), "x11".to_string()),
    ];
    assert_eq!(vars, want);
}
