//! Accounts of the system account directory, and which account a command
//! is aimed at.

use vstd::prelude::*;
use vstd::string::StringExecFns;
use crate::classes::views;
use crate::ini::{lines_of, split_lines};
use crate::text::{chars_of, parse_u32, parsed_u32, same_chars, split_chars, split_on, string_of, trim, trim_chars};

verus! {

/// An account: its ids, its name and its home directory. The group id is
/// absent where the directory's gid field does not read as a number.
pub struct Account {
    pub uid: u32,
    pub gid: Option<u32>,
    pub user: String,
    pub home: String,
}

/// An account as plain values.
pub struct AccountView {
    pub uid: u32,
    pub gid: Option<u32>,
    pub user: Seq<char>,
    pub home: Seq<char>,
}

impl View for Account {
    type V = AccountView;

    open spec fn view(&self) -> AccountView {
        AccountView { uid: self.uid, gid: self.gid, user: self.user@, home: self.home@ }
    }
}

/// The plain values of each account.
pub open spec fn account_views(v: Seq<Account>) -> Seq<AccountView> {
    v.map_values(|a: Account| a@)
}

/// The account that one line of the directory describes: fields `name`,
/// password, uid, gid, comment, home and shell, separated by `:`. Blank
/// lines, comments and lines with too few fields or a uid that does not
/// read as a number describe none; a gid that does not read as a number
/// leaves the group id absent.
pub open spec fn record_of(l: Seq<char>) -> Option<AccountView> {
    let parts = split_on(l, ':');
    if trim(l).len() == 0 || (l.len() > 0 && l[0] == '#') || parts.len() < 7 {
        None
    } else {
        match parsed_u32(parts[2]) {
            Some(uid) => Some(
                AccountView { uid, gid: parsed_u32(parts[3]), user: parts[0], home: parts[5] },
            ),
            None => None,
        }
    }
}

/// The accounts that the lines `ls` describe, in order.
pub open spec fn records(ls: Seq<Seq<char>>) -> Seq<AccountView>
    decreases ls.len(),
{
    if ls.len() == 0 {
        Seq::empty()
    } else {
        match record_of(ls.last()) {
            Some(a) => records(ls.drop_last()).push(a),
            None => records(ls.drop_last()),
        }
    }
}

/// The accounts of an account directory's text.
pub open spec fn accounts_of(text: Seq<char>) -> Seq<AccountView> {
    records(lines_of(text))
}

/// Reads one line of the account directory.
pub fn parse_record(line: &str) -> (r: Option<Account>)
    ensures
        match r {
            Some(a) => record_of(line@) == Some(a@),
            None => record_of(line@) is None,
        },
{
    let cs = chars_of(line);
    let t = trim_chars(&cs);
    let parts = split_chars(&cs, ':');
    let ghost ps = parts@.map_values(|v: Vec<char>| v@);
    if t.len() == 0 || (cs.len() > 0 && cs[0] == '#') || parts.len() < 7 {
        return None;
    }
    assert(ps[2] == parts@[2]@ && ps[3] == parts@[3]@ && ps[0] == parts@[0]@ && ps[5] == parts@[5]@);
    let uid = parse_u32(&parts[2]);
    let gid = parse_u32(&parts[3]);
    match uid {
        Some(uid) => Some(
            Account { uid, gid, user: string_of(&parts[0]), home: string_of(&parts[5]) },
        ),
        None => None,
    }
}

/// Reads every account of the account directory's text, in order.
pub fn parse_passwd(text: &str) -> (r: Vec<Account>)
    ensures
        account_views(r@) == accounts_of(text@),
{
    let lines = split_lines(text);
    let ghost ls = views(lines@);
    let mut out: Vec<Account> = Vec::new();
    let mut i: usize = 0;
    assert(ls.take(0) == Seq::<Seq<char>>::empty());
    while i < lines.len()
        invariant
            i <= lines@.len(),
            ls == views(lines@),
            account_views(out@) == records(ls.take(i as int)),
        decreases lines@.len() - i,
    {
        assert(ls.take(i + 1).drop_last() == ls.take(i as int));
        assert(ls.take(i + 1).last() == lines@[i as int]@);
        let ghost prev = out@;
        match parse_record(lines[i].as_str()) {
            Some(a) => {
                out.push(a);
                assert(account_views(out@) =~= account_views(prev).push(a@));
            },
            None => {},
        }
        i += 1;
    }
    assert(ls.take(ls.len() as int) == ls);
    out
}

/// The first account of `accs` named `name`.
pub open spec fn first_named(accs: Seq<AccountView>, name: Seq<char>) -> Option<AccountView>
    decreases accs.len(),
{
    if accs.len() == 0 {
        None
    } else if accs[0].user == name {
        Some(accs[0])
    } else {
        first_named(accs.drop_first(), name)
    }
}

/// The first account of `accs` with the uid `uid`.
pub open spec fn first_with_uid(accs: Seq<AccountView>, uid: u32) -> Option<AccountView>
    decreases accs.len(),
{
    if accs.len() == 0 {
        None
    } else if accs[0].uid == uid {
        Some(accs[0])
    } else {
        first_with_uid(accs.drop_first(), uid)
    }
}

proof fn lemma_first_named(accs: Seq<AccountView>, name: Seq<char>, i: int)
    requires
        0 <= i <= accs.len(),
        forall|k: int| 0 <= k < i ==> (#[trigger] accs[k]).user != name,
    ensures
        first_named(accs, name) == first_named(accs.skip(i), name),
    decreases i,
{
    if i > 0 {
        assert(accs.drop_first().skip(i - 1) == accs.skip(i));
        assert forall|k: int| 0 <= k < i - 1 implies (#[trigger] accs.drop_first()[k]).user != name by {
            assert(accs.drop_first()[k] == accs[k + 1]);
        }
        assert(accs[0].user != name);
        lemma_first_named(accs.drop_first(), name, i - 1);
    } else {
        assert(accs.skip(0) == accs);
    }
}

proof fn lemma_first_with_uid(accs: Seq<AccountView>, uid: u32, i: int)
    requires
        0 <= i <= accs.len(),
        forall|k: int| 0 <= k < i ==> (#[trigger] accs[k]).uid != uid,
    ensures
        first_with_uid(accs, uid) == first_with_uid(accs.skip(i), uid),
    decreases i,
{
    if i > 0 {
        assert(accs.drop_first().skip(i - 1) == accs.skip(i));
        assert forall|k: int| 0 <= k < i - 1 implies (#[trigger] accs.drop_first()[k]).uid != uid by {
            assert(accs.drop_first()[k] == accs[k + 1]);
        }
        assert(accs[0].uid != uid);
        lemma_first_with_uid(accs.drop_first(), uid, i - 1);
    } else {
        assert(accs.skip(0) == accs);
    }
}

fn copy_account(a: &Account) -> (r: Account)
    ensures
        r@ == a@,
{
    Account { uid: a.uid, gid: a.gid, user: a.user.clone(), home: a.home.clone() }
}

/// The first account of the directory named `name`.
pub fn find_user_by_name(passwd: &str, name: &str) -> (r: Option<Account>)
    ensures
        match r {
            Some(a) => first_named(accounts_of(passwd@), name@) == Some(a@),
            None => first_named(accounts_of(passwd@), name@) is None,
        },
{
    let accs = parse_passwd(passwd);
    let ghost vs = account_views(accs@);
    let want = chars_of(name);
    let mut i: usize = 0;
    while i < accs.len()
        invariant
            i <= accs@.len(),
            vs == account_views(accs@),
            vs == accounts_of(passwd@),
            want@ == name@,
            forall|k: int| 0 <= k < i ==> (#[trigger] vs[k]).user != name@,
        decreases accs@.len() - i,
    {
        let n = chars_of(accs[i].user.as_str());
        assert(vs[i as int] == accs@[i as int]@);
        if same_chars(&n, &want) {
            proof {
                lemma_first_named(vs, name@, i as int);
                let rest = vs.skip(i as int);
                assert(rest[0] == accs@[i as int]@);
                assert(rest.len() > 0 && rest[0].user == name@);
                assert(first_named(rest, name@) == Some(rest[0]));
            }
            let found = copy_account(&accs[i]);
            assert(found@ == vs[i as int]);
            return Some(found);
        }
        i += 1;
    }
    proof {
        lemma_first_named(vs, name@, vs.len() as int);
    }
    None
}

/// The first account of the directory with the uid `uid`.
pub fn find_user_by_uid(passwd: &str, uid: u32) -> (r: Option<Account>)
    ensures
        match r {
            Some(a) => first_with_uid(accounts_of(passwd@), uid) == Some(a@),
            None => first_with_uid(accounts_of(passwd@), uid) is None,
        },
{
    let accs = parse_passwd(passwd);
    let ghost vs = account_views(accs@);
    let mut i: usize = 0;
    while i < accs.len()
        invariant
            i <= accs@.len(),
            vs == account_views(accs@),
            vs == accounts_of(passwd@),
            forall|k: int| 0 <= k < i ==> (#[trigger] vs[k]).uid != uid,
        decreases accs@.len() - i,
    {
        assert(vs[i as int] == accs@[i as int]@);
        if accs[i].uid == uid {
            proof {
                lemma_first_with_uid(vs, uid, i as int);
                let rest = vs.skip(i as int);
                assert(rest[0] == accs@[i as int]@);
                assert(rest.len() > 0 && rest[0].uid == uid);
                assert(first_with_uid(rest, uid) == Some(rest[0]));
            }
            let found = copy_account(&accs[i]);
            assert(found@ == vs[i as int]);
            return Some(found);
        }
        i += 1;
    }
    proof {
        lemma_first_with_uid(vs, uid, vs.len() as int);
    }
    None
}

/// `part` appended to the path `base` as one more component.
pub open spec fn join_path(base: Seq<char>, part: Seq<char>) -> Seq<char> {
    if base.len() == 0 {
        part
    } else if base.last() == '/' {
        base + part
    } else {
        base + seq!['/'] + part
    }
}

/// Appends `part` to the path `base` as one more component.
pub fn path_join(base: &str, part: &str) -> (r: String)
    ensures
        r@ == join_path(base@, part@),
{
    let b = chars_of(base);
    let mut r = string_of(&b);
    if b.len() == 0 {
        return part.to_owned();
    }
    if b[b.len() - 1] != '/' {
        crate::text::push_char(&mut r, '/');
    }
    r.append(part);
    r
}

/// Where the compositor's configuration of an account lies.
pub open spec fn config_path(home: Seq<char>) -> Seq<char> {
    join_path(join_path(home, ".config"@), "kwinrc"@)
}

/// The path of the compositor's configuration of `target`: the file
/// `kwinrc` in the directory `.config` of its home.
pub fn config_path_for(target: &Account) -> (r: String)
    ensures
        r@ == config_path(target.home@),
{
    let dir = path_join(target.home.as_str(), ".config");
    path_join(dir.as_str(), "kwinrc")
}

/// How a command names the account it is aimed at.
pub enum Selector {
    /// An explicit uid.
    Uid(u32),
    /// An explicit account name.
    User(String),
    /// The owner of the first active graphical session.
    Auto,
    /// The account that runs this process.
    Current,
}

/// Which selector wins among those given: an explicit uid, then an account
/// name, then the session owner (for a privileged caller only), then the
/// current process.
pub fn select_target(
    uid: Option<u32>,
    user: Option<String>,
    session_auto: bool,
    privileged: bool,
) -> (r: Selector)
    ensures
        match (uid, user) {
            (Some(u), _) => r == Selector::Uid(u),
            (None, Some(n)) => r matches Selector::User(m) && m@ == n@,
            (None, None) => if session_auto && privileged {
                r is Auto
            } else {
                r is Current
            },
        },
{
    match (uid, user) {
        (Some(u), _) => Selector::Uid(u),
        (None, Some(n)) => Selector::User(n),
        (None, None) => if session_auto && privileged {
            Selector::Auto
        } else {
            Selector::Current
        },
    }
}

/// Why no account could be found for a command.
#[derive(Debug, Clone, Copy, PartialEq, Eq)]
pub enum TargetError {
    /// No account has the uid.
    UnknownUid(u32),
    /// No account has the name.
    UnknownUser,
    /// No active graphical session could be found.
    NoActiveSession,
}

/// The account that a selector names. `session_uid` is the owner of the
/// first qualifying session, where one was found; `current_uid` is the
/// effective uid of this process.
pub fn resolve_target(
    sel: &Selector,
    passwd: &str,
    session_uid: Option<u32>,
    current_uid: u32,
) -> (r: Result<Account, TargetError>)
    ensures
        ({
            let accs = accounts_of(passwd@);
            match sel {
                Selector::Uid(u) => match first_with_uid(accs, *u) {
                    Some(a) => r matches Ok(b) && b@ == a,
                    None => r == Err::<Account, TargetError>(TargetError::UnknownUid(*u)),
                },
                Selector::User(n) => match first_named(accs, n@) {
                    Some(a) => r matches Ok(b) && b@ == a,
                    None => r == Err::<Account, TargetError>(TargetError::UnknownUser),
                },
                Selector::Auto => match session_uid {
                    None => r == Err::<Account, TargetError>(TargetError::NoActiveSession),
                    Some(u) => match first_with_uid(accs, u) {
                        Some(a) => r matches Ok(b) && b@ == a,
                        None => r == Err::<Account, TargetError>(TargetError::UnknownUid(u)),
                    },
                },
                Selector::Current => match first_with_uid(accs, current_uid) {
                    Some(a) => r matches Ok(b) && b@ == a,
                    None => r == Err::<Account, TargetError>(TargetError::UnknownUid(current_uid)),
                },
            }
        }),
{
    let uid = match sel {
        Selector::User(n) => {
            return match find_user_by_name(passwd, n.as_str()) {
                Some(a) => Ok(a),
                None => Err(TargetError::UnknownUser),
            };
        },
        Selector::Uid(u) => *u,
        Selector::Auto => match session_uid {
            Some(u) => u,
            None => {
                return Err(TargetError::NoActiveSession);
            },
        },
        Selector::Current => current_uid,
    };
    match find_user_by_uid(passwd, uid) {
        Some(a) => Ok(a),
        None => Err(TargetError::UnknownUid(uid)),
    }
}

} // verus!
