//! Reaching an account's running desktop session: reusing this process's
//! own session environment, or picking the account's session among those
//! that the session manager lists and deriving the environment from it.

use vstd::prelude::*;
use vstd::string::{StrSliceExecFns, StringExecFns};
use crate::account::{join_path, path_join};
use crate::text::{
    all_digits, chars_of, decimal_string, digits_of, same_chars, parse_u32, parsed_u32,
    starts_with, string_of, trim, trim_chars,
};

verus! {

/// The display protocol of a session.
#[derive(Debug, Clone, Copy, PartialEq, Eq)]
pub enum SessionType {
    X11,
    Wayland,
}

/// What a child process needs to reach a desktop session. A field that
/// could not be found stays empty.
pub struct SessionEnvironment {
    pub runtime_dir: Option<String>,
    pub bus_address: Option<String>,
    pub display: Option<String>,
    pub wayland_display: Option<String>,
    pub xauthority: Option<String>,
    pub session_type: Option<SessionType>,
}

/// The session variables of this process's own environment, where set.
pub struct ProcessEnv {
    pub runtime_dir: Option<String>,
    pub bus_address: Option<String>,
    pub display: Option<String>,
    pub wayland_display: Option<String>,
    pub xauthority: Option<String>,
    pub session_type: Option<String>,
}

/// The characters of a value that is set and not empty.
pub open spec fn present(o: Option<String>) -> Option<Seq<char>> {
    match o {
        Some(s) => if s@.len() > 0 {
            Some(s@)
        } else {
            None
        },
        None => None,
    }
}

/// The characters of a value, where there is one.
pub open spec fn chars_opt(o: Option<String>) -> Option<Seq<char>> {
    match o {
        Some(s) => Some(s@),
        None => None,
    }
}

/// The protocol that a session type name stands for.
pub open spec fn type_named(s: Seq<char>) -> Option<SessionType> {
    if s == "wayland"@ {
        Some(SessionType::Wayland)
    } else if s == "x11"@ {
        Some(SessionType::X11)
    } else {
        None
    }
}

/// Reads a session type name, surrounding white space ignored.
pub fn parse_session_type(s: &str) -> (r: Option<SessionType>)
    ensures
        r == type_named(trim(s@)),
{
    let t = trim_chars(&chars_of(s));
    if same_chars(&t, &chars_of("wayland")) {
        Some(SessionType::Wayland)
    } else if same_chars(&t, &chars_of("x11")) {
        Some(SessionType::X11)
    } else {
        None
    }
}

fn present_copy(o: &Option<String>) -> (r: Option<String>)
    ensures
        chars_opt(r) == present(*o),
{
    match o {
        Some(s) => if s.as_str().unicode_len() > 0 {
            Some(s.clone())
        } else {
            None
        },
        None => None,
    }
}

/// Whether this process's own environment already reaches a session: its
/// runtime directory or its bus address is set and not empty.
pub open spec fn inherits(env: ProcessEnv) -> bool {
    present(env.runtime_dir) is Some || present(env.bus_address) is Some
}

/// The session environment taken over from this process's own, each
/// variable as it is, empty ones left out.
pub open spec fn inherited_from(env: ProcessEnv, e: SessionEnvironment) -> bool {
    &&& chars_opt(e.runtime_dir) == present(env.runtime_dir)
    &&& chars_opt(e.bus_address) == present(env.bus_address)
    &&& chars_opt(e.display) == present(env.display)
    &&& chars_opt(e.wayland_display) == present(env.wayland_display)
    &&& chars_opt(e.xauthority) == present(env.xauthority)
    &&& e.session_type == match env.session_type {
        Some(t) => type_named(trim(t@)),
        None => None,
    }
}

/// The first step of finding a session environment.
pub enum SessionPlan {
    /// This process's own environment reaches the session: use it.
    Inherit(SessionEnvironment),
    /// Ask the session manager for the account's session.
    Query,
    /// The account has no runtime directory, so no session: give up.
    Missing,
}

/// Decides how to reach the target account's session: through this
/// process's own environment where it already reaches one; otherwise, where
/// the account's runtime directory exists, by asking the session manager;
/// otherwise not at all.
pub fn plan_session(env: &ProcessEnv, runtime_dir_exists: bool) -> (r: SessionPlan)
    ensures
        inherits(*env) ==> (r matches SessionPlan::Inherit(e) && inherited_from(*env, e)),
        !inherits(*env) && !runtime_dir_exists ==> r is Missing,
        !inherits(*env) && runtime_dir_exists ==> r is Query,
{
    let runtime_dir = present_copy(&env.runtime_dir);
    let bus_address = present_copy(&env.bus_address);
    if runtime_dir.is_some() || bus_address.is_some() {
        let session_type = match &env.session_type {
            Some(t) => parse_session_type(t.as_str()),
            None => None,
        };
        return SessionPlan::Inherit(
            SessionEnvironment {
                runtime_dir,
                bus_address,
                display: present_copy(&env.display),
                wayland_display: present_copy(&env.wayland_display),
                xauthority: present_copy(&env.xauthority),
                session_type,
            },
        );
    }
    if runtime_dir_exists {
        SessionPlan::Query
    } else {
        SessionPlan::Missing
    }
}

/// The runtime directory of the uid `uid`.
pub open spec fn runtime_dir_path(uid: u32) -> Seq<char> {
    "/run/user/"@ + digits_of(uid as nat)
}

/// The per-uid runtime directory whose existence shows that the uid is
/// logged in.
pub fn runtime_dir_for(uid: u32) -> (r: String)
    ensures
        r@ == runtime_dir_path(uid),
{
    let mut r = "/run/user/".to_owned();
    let n = decimal_string(uid);
    r.append(n.as_str());
    r
}

/// What the session manager reports of one session, each property as it
/// printed it.
pub struct SessionRow {
    pub id: String,
    pub active: String,
    pub class: String,
    pub kind: String,
    pub state: String,
    pub user: String,
    pub runtime_dir: String,
    pub bus_address: String,
}

/// An active user session on one of the two display protocols.
pub open spec fn graphical(row: SessionRow) -> bool {
    &&& trim(row.active@) == "yes"@
    &&& trim(row.class@) == "user"@
    &&& type_named(trim(row.kind@)) is Some
}

/// A session that counts as the session of an unnamed target: graphical,
/// with an owner that reads as a uid.
pub open spec fn auto_candidate(row: SessionRow) -> bool {
    graphical(row) && parsed_u32(trim(row.user@)) is Some
}

/// A session of the account `uid`: graphical, in the state active or
/// online, and owned by that uid.
pub open spec fn session_of(row: SessionRow, uid: u32) -> bool {
    &&& graphical(row)
    &&& (trim(row.state@) == "active"@ || trim(row.state@) == "online"@)
    &&& parsed_u32(trim(row.user@)) == Some(uid)
}

fn is_word(s: &str, w: &str) -> (r: bool)
    ensures
        r == (trim(s@) == w@),
{
    let t = trim_chars(&chars_of(s));
    same_chars(&t, &chars_of(w))
}

fn is_graphical(row: &SessionRow) -> (r: bool)
    ensures
        r == graphical(*row),
{
    is_word(row.active.as_str(), "yes") && is_word(row.class.as_str(), "user")
        && parse_session_type(row.kind.as_str()).is_some()
}

fn owner(row: &SessionRow) -> (r: Option<u32>)
    ensures
        r == parsed_u32(trim(row.user@)),
{
    parse_u32(&trim_chars(&chars_of(row.user.as_str())))
}

/// The owner of the first session of `rows` that counts for an unnamed
/// target, where there is one.
pub open spec fn first_auto(rows: Seq<SessionRow>) -> Option<u32>
    decreases rows.len(),
{
    if rows.len() == 0 {
        None
    } else if auto_candidate(rows[0]) {
        parsed_u32(trim(rows[0].user@))
    } else {
        first_auto(rows.drop_first())
    }
}

/// Index of the first session of `rows` that belongs to `uid`.
pub open spec fn first_session_of(rows: Seq<SessionRow>, uid: u32) -> Option<int>
    decreases rows.len(),
{
    if rows.len() == 0 {
        None
    } else if session_of(rows[0], uid) {
        Some(0)
    } else {
        match first_session_of(rows.drop_first(), uid) {
            Some(i) => Some(i + 1),
            None => None,
        }
    }
}

proof fn lemma_first_auto(rows: Seq<SessionRow>, i: int)
    requires
        0 <= i <= rows.len(),
        forall|k: int| 0 <= k < i ==> !auto_candidate(#[trigger] rows[k]),
    ensures
        first_auto(rows) == first_auto(rows.skip(i)),
    decreases i,
{
    if i > 0 {
        assert(rows.drop_first().skip(i - 1) == rows.skip(i));
        assert forall|k: int| 0 <= k < i - 1 implies !auto_candidate(#[trigger] rows.drop_first()[k]) by {
            assert(rows.drop_first()[k] == rows[k + 1]);
        }
        assert(!auto_candidate(rows[0]));
        lemma_first_auto(rows.drop_first(), i - 1);
    } else {
        assert(rows.skip(0) == rows);
    }
}

proof fn lemma_first_session_of(rows: Seq<SessionRow>, uid: u32, i: int)
    requires
        0 <= i <= rows.len(),
        forall|k: int| 0 <= k < i ==> !session_of(#[trigger] rows[k], uid),
    ensures
        first_session_of(rows, uid) == match first_session_of(rows.skip(i), uid) {
            Some(j) => Some(j + i),
            None => None,
        },
    decreases i,
{
    if i > 0 {
        assert(rows.drop_first().skip(i - 1) == rows.skip(i));
        assert forall|k: int| 0 <= k < i - 1 implies !session_of(
            #[trigger] rows.drop_first()[k],
            uid,
        ) by {
            assert(rows.drop_first()[k] == rows[k + 1]);
        }
        assert(!session_of(rows[0], uid));
        lemma_first_session_of(rows.drop_first(), uid, i - 1);
    } else {
        assert(rows.skip(0) == rows);
    }
}

/// The owner of the first active graphical user session, the target of a
/// command that names no account: the session manager's order decides.
pub fn pick_auto_session(rows: &[SessionRow]) -> (r: Option<u32>)
    ensures
        r == first_auto(rows@),
{
    let mut i: usize = 0;
    while i < rows.len()
        invariant
            i <= rows@.len(),
            forall|k: int| 0 <= k < i ==> !auto_candidate(#[trigger] rows@[k]),
        decreases rows@.len() - i,
    {
        if is_graphical(&rows[i]) {
            let u = owner(&rows[i]);
            if u.is_some() {
                proof {
                    lemma_first_auto(rows@, i as int);
                    assert(rows@.skip(i as int)[0] == rows@[i as int]);
                }
                return u;
            }
        }
        i += 1;
    }
    proof {
        lemma_first_auto(rows@, rows@.len() as int);
    }
    None
}

/// Index of the first session of `rows` that belongs to `uid`.
pub fn pick_session_for(rows: &[SessionRow], uid: u32) -> (r: Option<usize>)
    ensures
        match r {
            Some(i) => first_session_of(rows@, uid) == Some(i as int),
            None => first_session_of(rows@, uid) is None,
        },
{
    let mut i: usize = 0;
    while i < rows.len()
        invariant
            i <= rows@.len(),
            forall|k: int| 0 <= k < i ==> !session_of(#[trigger] rows@[k], uid),
        decreases rows@.len() - i,
    {
        let row = &rows[i];
        if is_graphical(row) && (is_word(row.state.as_str(), "active") || is_word(
            row.state.as_str(),
            "online",
        )) && owner(row) == Some(uid) {
            proof {
                lemma_first_session_of(rows@, uid, i as int);
                assert(rows@.skip(i as int)[0] == rows@[i as int]);
            }
            return Some(i);
        }
        i += 1;
    }
    proof {
        lemma_first_session_of(rows@, uid, rows@.len() as int);
    }
    None
}

/// A display socket's name in a runtime directory: `wayland-` and a
/// number.
pub open spec fn socket_name(e: Seq<char>) -> bool {
    e.len() > 8 && e.take(8) == "wayland-"@ && all_digits(e.skip(8))
}

/// The first display socket among `entries`, or the default name.
pub open spec fn wayland_socket(entries: Seq<Seq<char>>) -> Seq<char>
    decreases entries.len(),
{
    if entries.len() == 0 {
        "wayland-0"@
    } else if socket_name(entries[0]) {
        entries[0]
    } else {
        wayland_socket(entries.drop_first())
    }
}

fn is_socket_name(e: &str) -> (r: bool)
    ensures
        r == socket_name(e@),
{
    let cs = chars_of(e);
    let p = chars_of("wayland-");
    proof {
        reveal_strlit("wayland-");
    }
    if cs.len() <= 8 || !starts_with(&cs, &p) {
        return false;
    }
    let mut i: usize = 8;
    while i < cs.len()
        invariant
            8 <= i <= cs@.len(),
            cs@ == e@,
            cs@.take(8) == "wayland-"@,
            forall|k: int| 0 <= k < i - 8 ==> crate::text::is_digit(#[trigger] cs@.skip(8)[k]),
        decreases cs@.len() - i,
    {
        assert(cs@.skip(8)[i - 8] == cs@[i as int]);
        if !('0' <= cs[i] && cs[i] <= '9') {
            assert(!crate::text::is_digit(cs@.skip(8)[i - 8]));
            return false;
        }
        i += 1;
    }
    true
}

proof fn lemma_wayland_socket(entries: Seq<Seq<char>>, i: int)
    requires
        0 <= i <= entries.len(),
        forall|k: int| 0 <= k < i ==> !socket_name(#[trigger] entries[k]),
    ensures
        wayland_socket(entries) == wayland_socket(entries.skip(i)),
    decreases i,
{
    if i > 0 {
        assert(entries.drop_first().skip(i - 1) == entries.skip(i));
        assert forall|k: int| 0 <= k < i - 1 implies !socket_name(#[trigger] entries.drop_first()[k]) by {
            assert(entries.drop_first()[k] == entries[k + 1]);
        }
        assert(!socket_name(entries[0]));
        lemma_wayland_socket(entries.drop_first(), i - 1);
    } else {
        assert(entries.skip(0) == entries);
    }
}

/// The display socket to use among the names of a runtime directory: the
/// first display socket, or `wayland-0` where there is none.
pub fn pick_wayland_socket(entries: &[String]) -> (r: String)
    ensures
        r@ == wayland_socket(crate::classes::views(entries@)),
{
    let ghost es = crate::classes::views(entries@);
    let mut i: usize = 0;
    while i < entries.len()
        invariant
            i <= entries@.len(),
            es == crate::classes::views(entries@),
            forall|k: int| 0 <= k < i ==> !socket_name(#[trigger] es[k]),
        decreases entries@.len() - i,
    {
        assert(es[i as int] == entries@[i as int]@);
        if is_socket_name(entries[i].as_str()) {
            proof {
                lemma_wayland_socket(es, i as int);
                assert(es.skip(i as int)[0] == es[i as int]);
            }
            return entries[i].clone();
        }
        i += 1;
    }
    proof {
        lemma_wayland_socket(es, es.len() as int);
    }
    "wayland-0".to_owned()
}

/// The environment that reaches the session `row` of an account whose home
/// is `home`; `entries` are the names in the account's runtime directory.
/// The runtime directory and bus address are the session's own, where it
/// names them; a display socket is looked up for a socket-based session,
/// and the first local display with the home's authority file is used for
/// a network-display session.
pub open spec fn session_environment(
    row: SessionRow,
    home: Seq<char>,
    entries: Seq<Seq<char>>,
    e: SessionEnvironment,
) -> bool {
    let ty = type_named(trim(row.kind@));
    &&& chars_opt(e.runtime_dir) == (if trim(row.runtime_dir@).len() > 0 {
        Some(trim(row.runtime_dir@))
    } else {
        None
    })
    &&& chars_opt(e.bus_address) == (if trim(row.bus_address@).len() > 0 {
        Some(trim(row.bus_address@))
    } else {
        None
    })
    &&& e.session_type == ty
    &&& chars_opt(e.wayland_display) == (if ty == Some(SessionType::Wayland) {
        Some(wayland_socket(entries))
    } else {
        None
    })
    &&& chars_opt(e.display) == (if ty == Some(SessionType::X11) {
        Some(":0"@)
    } else {
        None
    })
    &&& chars_opt(e.xauthority) == (if ty == Some(SessionType::X11) {
        Some(join_path(home, ".Xauthority"@))
    } else {
        None
    })
}

fn trimmed_present(s: &str) -> (r: Option<String>)
    ensures
        chars_opt(r) == (if trim(s@).len() > 0 {
            Some(trim(s@))
        } else {
            None
        }),
{
    let t = trim_chars(&chars_of(s));
    if t.len() > 0 {
        Some(string_of(&t))
    } else {
        None
    }
}

/// Builds the environment that reaches the session `row`.
pub fn session_from_row(row: &SessionRow, home: &str, entries: &[String]) -> (r:
    SessionEnvironment)
    ensures
        session_environment(*row, home@, crate::classes::views(entries@), r),
{
    let ty = parse_session_type(row.kind.as_str());
    let (display, wayland_display, xauthority) = match ty {
        Some(SessionType::Wayland) => (None, Some(pick_wayland_socket(entries)), None),
        Some(SessionType::X11) => (
            Some(":0".to_owned()),
            None,
            Some(path_join(home, ".Xauthority")),
        ),
        None => (None, None, None),
    };
    SessionEnvironment {
        runtime_dir: trimmed_present(row.runtime_dir.as_str()),
        bus_address: trimmed_present(row.bus_address.as_str()),
        display,
        wayland_display,
        xauthority,
        session_type: ty,
    }
}

/// Why no session environment could be found.
#[derive(Debug, Clone, Copy, PartialEq, Eq)]
pub enum SessionError {
    /// The account has no active graphical session.
    NotFound,
}

/// The environment of the first session that belongs to `uid` among
/// `rows`; fails where none does.
pub fn resolve_from_sessions(rows: &[SessionRow], uid: u32, home: &str, entries: &[String]) -> (r:
    Result<SessionEnvironment, SessionError>)
    ensures
        match first_session_of(rows@, uid) {
            Some(i) => 0 <= i < rows@.len() && (r matches Ok(e) && session_environment(
                rows@[i],
                home@,
                crate::classes::views(entries@),
                e,
            )),
            None => r matches Err(SessionError::NotFound),
        },
{
    proof {
        lemma_first_session_bound(rows@, uid);
    }
    match pick_session_for(rows, uid) {
        Some(i) => Ok(session_from_row(&rows[i], home, entries)),
        None => Err(SessionError::NotFound),
    }
}

proof fn lemma_first_session_bound(rows: Seq<SessionRow>, uid: u32)
    ensures
        first_session_of(rows, uid) matches Some(i) ==> 0 <= i < rows.len(),
    decreases rows.len(),
{
    if rows.len() > 0 {
        lemma_first_session_bound(rows.drop_first(), uid);
    }
}

} // verus!
