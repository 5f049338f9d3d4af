//! Reading the command line: the options that pick the target account and
//! the request of the `wrap` command.

use vstd::prelude::*;
use crate::classes::{key_of, views};
use crate::text::{chars_of, parse_u32, parsed_u32, same_chars};
use crate::wrap::{auto_class_from_argv0, class_from_command};

verus! {

/// The options before the command word.
pub struct GlobalOptions {
    pub uid: Option<u32>,
    pub user: Option<String>,
    pub session_auto: bool,
}

/// Why the options before the command word could not be read, or why they
/// ask for no command.
#[derive(Debug, Clone, Copy, PartialEq, Eq)]
pub enum OptionsError {
    /// `--uid` is the last argument.
    MissingUid,
    /// `--user` is the last argument.
    MissingUser,
    /// The value of `--uid` is not a uid.
    InvalidUid,
    /// Help was asked for.
    Help,
}

/// The outcome of reading the options, as plain values.
pub enum OptionsOutcome {
    Read { uid: Option<u32>, user: Option<Seq<char>>, session_auto: bool, next: int },
    Failed(OptionsError),
}

/// Reads options from `args[i]` on, with what was read so far: `--uid N`,
/// `--user NAME` and `--session-auto` (a later one of a kind wins); `--help`
/// or `-h` asks for help; any other argument ends the options.
pub open spec fn options_from(
    args: Seq<Seq<char>>,
    i: int,
    uid: Option<u32>,
    user: Option<Seq<char>>,
    auto: bool,
) -> OptionsOutcome
    decreases args.len() - i,
{
    if i < 0 || i >= args.len() {
        OptionsOutcome::Read { uid, user, session_auto: auto, next: i }
    } else if args[i] == "--uid"@ {
        if i + 1 >= args.len() {
            OptionsOutcome::Failed(OptionsError::MissingUid)
        } else {
            match parsed_u32(args[i + 1]) {
                Some(u) => options_from(args, i + 2, Some(u), user, auto),
                None => OptionsOutcome::Failed(OptionsError::InvalidUid),
            }
        }
    } else if args[i] == "--user"@ {
        if i + 1 >= args.len() {
            OptionsOutcome::Failed(OptionsError::MissingUser)
        } else {
            options_from(args, i + 2, uid, Some(args[i + 1]), auto)
        }
    } else if args[i] == "--session-auto"@ {
        options_from(args, i + 1, uid, user, true)
    } else if args[i] == "--help"@ || args[i] == "-h"@ {
        OptionsOutcome::Failed(OptionsError::Help)
    } else {
        OptionsOutcome::Read { uid, user, session_auto: auto, next: i }
    }
}

fn is_arg(a: &String, w: &str) -> (r: bool)
    ensures
        r == (a@ == w@),
{
    same_chars(&chars_of(a.as_str()), &chars_of(w))
}

/// Reads the options that start at `args[start]` (the program name comes
/// before them); on success also gives the index of the command word.
pub fn parse_global_options(args: &[String], start: usize) -> (r: Result<
    (GlobalOptions, usize),
    OptionsError,
>)
    ensures
        match options_from(views(args@), start as int, None, None, false) {
            OptionsOutcome::Read { uid, user, session_auto, next } => r matches Ok((o, n)) && o.uid
                == uid && crate::session::chars_opt(o.user) == user && o.session_auto
                == session_auto && n == next,
            OptionsOutcome::Failed(e) => r == Err::<(GlobalOptions, usize), OptionsError>(e),
        },
{
    let ghost a = views(args@);
    let mut uid: Option<u32> = None;
    let mut user: Option<String> = None;
    let mut auto = false;
    let mut i = start;
    let mut stop = false;
    while i < args.len() && !stop
        invariant
            a == views(args@),
            stop ==> options_from(a, i as int, uid, crate::session::chars_opt(user), auto)
                == (OptionsOutcome::Read {
                uid,
                user: crate::session::chars_opt(user),
                session_auto: auto,
                next: i as int,
            }),
            options_from(a, start as int, None, None, false) == options_from(
                a,
                i as int,
                uid,
                crate::session::chars_opt(user),
                auto,
            ),
        decreases args@.len() - i + (if stop {
            0int
        } else {
            1int
        }),
    {
        assert(a[i as int] == args@[i as int]@);
        if is_arg(&args[i], "--uid") {
            if i + 1 >= args.len() {
                return Err(OptionsError::MissingUid);
            }
            assert(a[i + 1] == args@[i + 1]@);
            match parse_u32(&chars_of(args[i + 1].as_str())) {
                Some(u) => uid = Some(u),
                None => {
                    return Err(OptionsError::InvalidUid);
                },
            }
            i += 2;
        } else if is_arg(&args[i], "--user") {
            if i + 1 >= args.len() {
                return Err(OptionsError::MissingUser);
            }
            assert(a[i + 1] == args@[i + 1]@);
            user = Some(args[i + 1].clone());
            i += 2;
        } else if is_arg(&args[i], "--session-auto") {
            auto = true;
            i += 1;
        } else if is_arg(&args[i], "--help") || is_arg(&args[i], "-h") {
            return Err(OptionsError::Help);
        } else {
            stop = true;
        }
    }
    Ok((GlobalOptions { uid, user, session_auto: auto }, i))
}

/// What the `wrap` command was asked to do.
pub struct WrapRequest {
    /// The window class to make sure of.
    pub class: String,
    /// Only say what would be done.
    pub dry_run: bool,
    /// Turn the script on.
    pub enable: bool,
    /// Ask the compositor to read its configuration again.
    pub reconfigure: bool,
    /// The command to run, program first.
    pub command: Vec<String>,
}

/// Why a `wrap` request could not be read.
#[derive(Debug, Clone, Copy, PartialEq, Eq)]
pub enum WrapError {
    /// Neither a class nor `--auto` was given.
    MissingClass,
    /// The argument of this index is no option of `wrap`.
    UnknownOption(usize),
    /// Nothing follows the options.
    MissingCommand,
    /// The class name holds nothing but white space.
    EmptyClass,
}

/// The outcome of reading the options of `wrap`.
pub enum WrapScan {
    Scanned { dry_run: bool, no_enable: bool, no_reconfigure: bool, next: int },
    Unknown(int),
}

/// Reads the options of `wrap` from `args[i]` on: `--dry-run`,
/// `--no-enable`, `--no-reconfigure`, and `--`, which ends them; the end of
/// the arguments ends them too.
pub open spec fn wrap_flags(args: Seq<Seq<char>>, i: int, dry: bool, no_en: bool, no_re: bool) -> WrapScan
    decreases args.len() - i,
{
    if i < 0 || i >= args.len() {
        WrapScan::Scanned { dry_run: dry, no_enable: no_en, no_reconfigure: no_re, next: i }
    } else if args[i] == "--dry-run"@ {
        wrap_flags(args, i + 1, true, no_en, no_re)
    } else if args[i] == "--no-enable"@ {
        wrap_flags(args, i + 1, dry, true, no_re)
    } else if args[i] == "--no-reconfigure"@ {
        wrap_flags(args, i + 1, dry, no_en, true)
    } else if args[i] == "--"@ {
        WrapScan::Scanned { dry_run: dry, no_enable: no_en, no_reconfigure: no_re, next: i + 1 }
    } else {
        WrapScan::Unknown(i)
    }
}

/// The request that `wrap` arguments from `args[start]` on make: a class
/// name or `--auto` (the class named after the command), options, then the
/// command.
pub open spec fn wrap_request(args: Seq<Seq<char>>, start: int, req: WrapRequest) -> bool {
    &&& 0 <= start < args.len()
    &&& wrap_flags(args, start + 1, false, false, false) matches WrapScan::Scanned {
        dry_run,
        no_enable,
        no_reconfigure,
        next,
    }
    &&& 0 <= next < args.len()
    &&& req.dry_run == dry_run
    &&& req.enable == !no_enable
    &&& req.reconfigure == !no_reconfigure
    &&& views(req.command@) == args.skip(next)
    &&& req.class@ == (if args[start] == "--auto"@ {
        class_from_command(args[next])
    } else {
        args[start]
    })
}

proof fn lemma_wrap_flags_next(args: Seq<Seq<char>>, i: int, dry: bool, no_en: bool, no_re: bool)
    requires
        0 <= i,
    ensures
        wrap_flags(args, i, dry, no_en, no_re) matches WrapScan::Scanned { next, .. } ==> i <= next,
        wrap_flags(args, i, dry, no_en, no_re) matches WrapScan::Unknown(j) ==> i <= j < args.len(),
    decreases args.len() - i,
{
    if i < args.len() {
        lemma_wrap_flags_next(args, i + 1, true, no_en, no_re);
        lemma_wrap_flags_next(args, i + 1, dry, true, no_re);
        lemma_wrap_flags_next(args, i + 1, dry, no_en, true);
    }
}

/// Reads a `wrap` request whose class (or `--auto`) is `args[start]`.
pub fn parse_wrap(args: &[String], start: usize) -> (r: Result<WrapRequest, WrapError>)
    ensures
        start >= args@.len() ==> r == Err::<WrapRequest, WrapError>(WrapError::MissingClass),
        start < args@.len() ==> match wrap_flags(views(args@), start + 1, false, false, false) {
            WrapScan::Unknown(j) => r == Err::<WrapRequest, WrapError>(
                WrapError::UnknownOption(j as usize),
            ),
            WrapScan::Scanned { next, .. } => if next >= args@.len() {
                r == Err::<WrapRequest, WrapError>(WrapError::MissingCommand)
            } else {
                match r {
                    Ok(req) => wrap_request(views(args@), start as int, req) && key_of(
                        req.class@,
                    ).len() > 0,
                    Err(e) => e == WrapError::EmptyClass && forall|req: WrapRequest|
                        wrap_request(views(args@), start as int, req) ==> key_of(req.class@).len()
                            == 0,
                }
            },
        },
{
    if start >= args.len() {
        return Err(WrapError::MissingClass);
    }
    let ghost a = views(args@);
    assert(a[start as int] == args@[start as int]@);
    let auto = is_arg(&args[start], "--auto");
    let mut dry = false;
    let mut no_en = false;
    let mut no_re = false;
    let mut i = start + 1;
    let mut stop = false;
    proof {
        lemma_wrap_flags_next(a, (start + 1) as int, false, false, false);
    }
    while i < args.len() && !stop
        invariant
            a == views(args@),
            start < i <= args@.len(),
            !stop ==> wrap_flags(a, start + 1, false, false, false) == wrap_flags(
                a,
                i as int,
                dry,
                no_en,
                no_re,
            ),
            stop ==> wrap_flags(a, start + 1, false, false, false) == (WrapScan::Scanned {
                dry_run: dry,
                no_enable: no_en,
                no_reconfigure: no_re,
                next: i as int,
            }),
        decreases args@.len() - i + (if stop {
            0int
        } else {
            1int
        }),
    {
        assert(a[i as int] == args@[i as int]@);
        if is_arg(&args[i], "--dry-run") {
            dry = true;
        } else if is_arg(&args[i], "--no-enable") {
            no_en = true;
        } else if is_arg(&args[i], "--no-reconfigure") {
            no_re = true;
        } else if is_arg(&args[i], "--") {
            stop = true;
        } else {
            return Err(WrapError::UnknownOption(i));
        }
        i += 1;
    }
    if i >= args.len() {
        return Err(WrapError::MissingCommand);
    }
    let mut command: Vec<String> = Vec::new();
    let mut k = i;
    while k < args.len()
        invariant
            a == views(args@),
            i <= k <= args@.len(),
            views(command@) == a.subrange(i as int, k as int),
        decreases args@.len() - k,
    {
        let ghost prev = command@;
        command.push(args[k].clone());
        assert(views(command@) =~= views(prev).push(args@[k as int]@));
        assert(a.subrange(i as int, k + 1) == a.subrange(i as int, k as int).push(a[k as int]));
        k += 1;
    }
    assert(a.subrange(i as int, a.len() as int) == a.skip(i as int));
    assert(a[i as int] == args@[i as int]@);
    let class = if auto {
        auto_class_from_argv0(args[i].as_str())
    } else {
        args[start].clone()
    };
    let key = crate::classes::key_chars(&chars_of(class.as_str()));
    let req = WrapRequest { class, dry_run: dry, enable: !no_en, reconfigure: !no_re, command };
    if key.len() == 0 {
        proof {
            assert forall|other: WrapRequest| wrap_request(a, start as int, other) implies key_of(
                other.class@,
            ).len() == 0 by {
                assert(other.class@ == req.class@);
            }
        }
        return Err(WrapError::EmptyClass);
    }
    Ok(req)
}

} // verus!
