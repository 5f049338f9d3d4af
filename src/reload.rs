//! Asking the running compositor to read its configuration again: the
//! programs to try in turn, the environment and identity they run with, and
//! when to stop.

use vstd::prelude::*;
use vstd::string::StringExecFns;
use crate::classes::views;
use crate::session::{chars_opt, SessionEnvironment, SessionType};
use crate::text::{decimal_string, digits_of};

verus! {

/// Bus name of the compositor.
pub const RELOAD_DESTINATION: &'static str = "org.kde.KWin";

/// Object path of the compositor.
pub const RELOAD_PATH: &'static str = "/KWin";

/// Method that makes the compositor read its configuration again.
pub const RELOAD_METHOD: &'static str = "reconfigure";

/// The bus-call programs to try, in order.
pub open spec fn reload_programs_spec() -> Seq<Seq<char>> {
    seq!["qdbus6"@, "qdbus-qt6"@, "qdbus-qt5"@, "qdbus"@]
}

/// The bus-call programs to try, in order: one name for each toolkit
/// generation that ships the tool.
pub fn reload_programs() -> (r: Vec<String>)
    ensures
        views(r@) == reload_programs_spec(),
{
    let r = vec![
        "qdbus6".to_owned(),
        "qdbus-qt6".to_owned(),
        "qdbus-qt5".to_owned(),
        "qdbus".to_owned(),
    ];
    assert(views(r@) =~= reload_programs_spec());
    r
}

/// The arguments that every program gets: bus name, object path, method.
pub fn reload_args() -> (r: Vec<String>)
    ensures
        views(r@) == seq![RELOAD_DESTINATION@, RELOAD_PATH@, RELOAD_METHOD@],
{
    let r = vec![
        RELOAD_DESTINATION.to_owned(),
        RELOAD_PATH.to_owned(),
        RELOAD_METHOD.to_owned(),
    ];
    assert(views(r@) =~= seq![RELOAD_DESTINATION@, RELOAD_PATH@, RELOAD_METHOD@]);
    r
}

/// What to do next while reloading.
#[derive(Debug, Clone, Copy, PartialEq, Eq)]
pub enum ReloadStep {
    /// Run the program of this index.
    Attempt(usize),
    /// The program of this index reported success: stop.
    Reloaded(usize),
    /// Every program failed: tell the user how to reload by hand.
    GiveUp,
}

/// The next step, given the outcome of the last attempt: the index tried
/// and whether it started and reported success. Nothing tried yet starts
/// with the first program; a success stops; a failure goes on with the next
/// program, or gives up after the last.
pub fn next_reload_step(last: Option<(usize, bool)>) -> (r: ReloadStep)
    requires
        last matches Some((i, _)) ==> i < reload_programs_spec().len(),
    ensures
        match last {
            None => r == ReloadStep::Attempt(0),
            Some((i, true)) => r == ReloadStep::Reloaded(i),
            Some((i, false)) => if i + 1 < reload_programs_spec().len() {
                r == ReloadStep::Attempt((i + 1) as usize)
            } else {
                r == ReloadStep::GiveUp
            },
        },
{
    match last {
        None => ReloadStep::Attempt(0),
        Some((i, true)) => ReloadStep::Reloaded(i),
        Some((i, false)) => if i + 1 < 4 {
            ReloadStep::Attempt(i + 1)
        } else {
            ReloadStep::GiveUp
        },
    }
}

/// Whether a program for the target must run through `sudo`: this process
/// is privileged, the target is not, and `sudo` is there.
pub fn run_through_sudo(self_uid: u32, target_uid: u32, sudo_available: bool) -> (r: bool)
    ensures
        r == (self_uid == 0 && target_uid != 0 && sudo_available),
{
    self_uid == 0 && target_uid != 0 && sudo_available
}

/// The arguments of `sudo` that run `program` with `args` as the account
/// `uid`, with that account's home.
pub fn sudo_args(uid: u32, program: &str, args: &[String]) -> (r: Vec<String>)
    ensures
        views(r@) == seq!["-u"@, seq!['#'] + digits_of(uid as nat), "-H"@, program@] + views(args@),
{
    proof {
        reveal_strlit("#");
    }
    let mut who = "#".to_owned();
    assert(who@ == seq!['#']);
    who.append(decimal_string(uid).as_str());
    let mut r = vec!["-u".to_owned(), who, "-H".to_owned(), program.to_owned()];
    assert(views(r@) =~= seq!["-u"@, seq!['#'] + digits_of(uid as nat), "-H"@, program@]);
    let ghost head = views(r@);
    let mut i: usize = 0;
    while i < args.len()
        invariant
            i <= args@.len(),
            views(r@) == head + views(args@.take(i as int)),
        decreases args@.len() - i,
    {
        let ghost prev = r@;
        r.push(args[i].clone());
        assert(views(r@) =~= views(prev).push(args@[i as int]@));
        assert(views(args@.take(i + 1)) =~= views(args@.take(i as int)).push(args@[i as int]@));
        i += 1;
    }
    assert(args@.take(args@.len() as int) == args@);
    r
}

/// The name of a display protocol as session variables write it.
pub open spec fn type_word(t: SessionType) -> Seq<char> {
    match t {
        SessionType::Wayland => "wayland"@,
        SessionType::X11 => "x11"@,
    }
}

/// A variable name and value as plain values.
pub open spec fn pair_views(v: Seq<(String, String)>) -> Seq<(Seq<char>, Seq<char>)> {
    v.map_values(|p: (String, String)| (p.0@, p.1@))
}

/// `vars` with the variable `name` added where `value` is set.
pub open spec fn with_var(
    vars: Seq<(Seq<char>, Seq<char>)>,
    name: Seq<char>,
    value: Option<Seq<char>>,
) -> Seq<(Seq<char>, Seq<char>)> {
    match value {
        Some(v) => vars.push((name, v)),
        None => vars,
    }
}

/// The variables that carry a session environment to a child process, in
/// a fixed order, the missing ones left out.
pub open spec fn session_vars(e: SessionEnvironment) -> Seq<(Seq<char>, Seq<char>)> {
    let a = with_var(Seq::empty(), "XDG_RUNTIME_DIR"@, chars_opt(e.runtime_dir));
    let b = with_var(a, "DBUS_SESSION_BUS_ADDRESS"@, chars_opt(e.bus_address));
    let c = with_var(b, "DISPLAY"@, chars_opt(e.display));
    let d = with_var(c, "WAYLAND_DISPLAY"@, chars_opt(e.wayland_display));
    let f = with_var(d, "XAUTHORITY"@, chars_opt(e.xauthority));
    with_var(
        f,
        "XDG_SESSION_TYPE"@,
        match e.session_type {
            Some(t) => Some(type_word(t)),
            None => None,
        },
    )
}

fn add_var(vars: &mut Vec<(String, String)>, name: &str, value: &Option<String>)
    ensures
        pair_views(final(vars)@) == with_var(pair_views(old(vars)@), name@, chars_opt(*value)),
{
    if let Some(v) = value {
        let ghost prev = vars@;
        vars.push((name.to_owned(), v.clone()));
        assert(pair_views(vars@) =~= pair_views(prev).push((name@, v@)));
    }
}

/// The variables that carry `env` to a child process.
pub fn child_environment(env: &SessionEnvironment) -> (r: Vec<(String, String)>)
    ensures
        pair_views(r@) == session_vars(*env),
{
    let mut vars: Vec<(String, String)> = Vec::new();
    assert(pair_views(vars@) =~= Seq::<(Seq<char>, Seq<char>)>::empty());
    add_var(&mut vars, "XDG_RUNTIME_DIR", &env.runtime_dir);
    add_var(&mut vars, "DBUS_SESSION_BUS_ADDRESS", &env.bus_address);
    add_var(&mut vars, "DISPLAY", &env.display);
    add_var(&mut vars, "WAYLAND_DISPLAY", &env.wayland_display);
    add_var(&mut vars, "XAUTHORITY", &env.xauthority);
    let word = match env.session_type {
        Some(SessionType::Wayland) => Some("wayland".to_owned()),
        Some(SessionType::X11) => Some("x11".to_owned()),
        None => None,
    };
    add_var(&mut vars, "XDG_SESSION_TYPE", &word);
    vars
}

} // verus!
