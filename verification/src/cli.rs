//! The server's command line and environment: flags, the database path,
//! the HTTP port and bind address, and the monitor settings.
//!
//! The program reads its arguments and environment variables and hands
//! them here as plain values.

use vstd::prelude::*;
use crate::metrics::{all_digits, digits_value, is_digit, lemma_digits_value_grows, unsigned_digits};
use crate::text::{chars_of, owned, push_str, split3, str_eq, string_of, three_fields};

verus! {

broadcast use vstd::string::group_string_axioms;

/// The value an unsigned integer type of maximum `bound` reads from `s`
/// (an optional `+`, then digits), when it reads one.
pub open spec fn bounded_value(s: Seq<char>, bound: int) -> Option<int> {
    let d = unsigned_digits(s);
    if d.len() > 0 && all_digits(d) && digits_value(d) <= bound {
        Some(digits_value(d) as int)
    } else {
        None
    }
}

/// Parses an unsigned integer no greater than `bound`.
pub fn parse_bounded(s: &str, bound: u64) -> (r: Option<u64>)
    ensures
        match r {
            Some(v) => bounded_value(s@, bound as int) == Some(v as int),
            None => bounded_value(s@, bound as int) is None,
        },
{
    let cs = chars_of(s);
    let start: usize = if cs.len() > 0 && cs[0] == '+' { 1 } else { 0 };
    let ghost d = unsigned_digits(cs@);
    assert(d =~= cs@.skip(start as int));
    if start >= cs.len() {
        return None;
    }
    let mut value: u64 = 0;
    let mut i: usize = start;
    while i < cs.len()
        invariant
            cs@ == s@,
            start <= i <= cs@.len(),
            d == cs@.skip(start as int),
            d == unsigned_digits(cs@),
            d.len() > 0,
            forall|j: int| 0 <= j < i - start ==> is_digit(#[trigger] d[j]),
            value == digits_value(d.take(i - start)),
            value <= bound,
        decreases cs@.len() - i,
    {
        let c = cs[i];
        assert(d[i - start] == c);
        if !('0' <= c && c <= '9') {
            assert(!is_digit(d[i - start]));
            assert(!all_digits(d));
            return None;
        }
        let digit = (c as u32 - 48) as u64;
        assert(d.take(i - start + 1).drop_last() =~= d.take(i - start));
        assert(d.take(i - start + 1).last() == c);
        assert(digits_value(d.take(i - start + 1)) == value * 10 + digit);
        if digit > bound || value > (bound - digit) / 10 {
            proof {
                assert(value * 10 + digit > bound) by (nonlinear_arith)
                    requires digit > bound || value > (bound - digit) / 10, digit <= 9;
                lemma_digits_value_grows(d, i - start + 1);
            }
            return None;
        }
        assert(value * 10 + digit <= bound) by (nonlinear_arith)
            requires value <= (bound - digit) / 10, digit <= bound;
        value = value * 10 + digit;
        i += 1;
    }
    assert(d.take(i - start) =~= d);
    Some(value)
}

/// The text of an optional string.
pub open spec fn opt_text(o: Option<String>) -> Option<Seq<char>> {
    match o {
        Some(s) => Some(s@),
        None => None,
    }
}

/// The flags the server understands; each takes the next argument as its
/// value.
#[derive(Debug)]
pub struct Flags {
    pub port: Option<String>,
    pub bind: Option<String>,
    pub socket: Option<String>,
    pub db: Option<String>,
    pub atheneum: Option<String>,
}

/// Flag values by their texts: port, bind, socket, db, atheneum.
pub type FlagValues = (Option<Seq<char>>, Option<Seq<char>>, Option<Seq<char>>, Option<Seq<char>>, Option<Seq<char>>);

pub open spec fn flag_values(f: Flags) -> FlagValues {
    (opt_text(f.port), opt_text(f.bind), opt_text(f.socket), opt_text(f.db), opt_text(f.atheneum))
}

/// The flags read from argument `i` on: a flag followed by a value sets it
/// (a later one wins) and both are consumed; anything else is skipped.
pub open spec fn flags_from(args: Seq<Seq<char>>, i: int, f: FlagValues) -> FlagValues
    decreases args.len() - i,
{
    if i < 0 || i >= args.len() {
        f
    } else if i + 1 < args.len() && args[i] == "--port"@ {
        flags_from(args, i + 2, (Some(args[i + 1]), f.1, f.2, f.3, f.4))
    } else if i + 1 < args.len() && args[i] == "--bind"@ {
        flags_from(args, i + 2, (f.0, Some(args[i + 1]), f.2, f.3, f.4))
    } else if i + 1 < args.len() && args[i] == "--socket"@ {
        flags_from(args, i + 2, (f.0, f.1, Some(args[i + 1]), f.3, f.4))
    } else if i + 1 < args.len() && args[i] == "--db"@ {
        flags_from(args, i + 2, (f.0, f.1, f.2, Some(args[i + 1]), f.4))
    } else if i + 1 < args.len() && args[i] == "--atheneum"@ {
        flags_from(args, i + 2, (f.0, f.1, f.2, f.3, Some(args[i + 1])))
    } else {
        flags_from(args, i + 1, f)
    }
}

/// The texts of the arguments.
pub open spec fn arg_texts(args: Seq<String>) -> Seq<Seq<char>> {
    args.map_values(|a: String| a@)
}

/// Reads the flags among the arguments.
pub fn parse_flags(args: &Vec<String>) -> (r: Flags)
    ensures
        flag_values(r) == flags_from(arg_texts(args@), 0, (None, None, None, None, None)),
{
    let ghost av = arg_texts(args@);
    let mut flags = Flags { port: None, bind: None, socket: None, db: None, atheneum: None };
    let mut i: usize = 0;
    while i < args.len()
        invariant
            av == arg_texts(args@),
            i <= args@.len() + 1,
            flags_from(av, 0, (None, None, None, None, None)) == flags_from(av, i as int, flag_values(flags)),
        decreases args@.len() - i,
    {
        let a = args[i].as_str();
        assert(av[i as int] == a@);
        let has_value = i + 1 < args.len();
        if has_value {
            assert(av[i + 1] == args@[i + 1]@);
        }
        if has_value && str_eq(a, "--port") {
            flags.port = Some(args[i + 1].clone());
            i += 2;
        } else if has_value && str_eq(a, "--bind") {
            flags.bind = Some(args[i + 1].clone());
            i += 2;
        } else if has_value && str_eq(a, "--socket") {
            flags.socket = Some(args[i + 1].clone());
            i += 2;
        } else if has_value && str_eq(a, "--db") {
            flags.db = Some(args[i + 1].clone());
            i += 2;
        } else if has_value && str_eq(a, "--atheneum") {
            flags.atheneum = Some(args[i + 1].clone());
            i += 2;
        } else {
            i += 1;
        }
    }
    flags
}

/// `base` with a relative component `c` pushed as `PathBuf::push` does: a
/// separator goes between them unless `base` is empty or already ends
/// with one.
pub open spec fn join_path(base: Seq<char>, c: Seq<char>) -> Seq<char> {
    if base.len() == 0 {
        c
    } else if base.last() == '/' {
        base + c
    } else {
        base + "/"@ + c
    }
}

fn join(base: String, c: &str) -> (r: String)
    ensures
        r@ == join_path(base@, c@),
{
    let cs = chars_of(base.as_str());
    let mut out = base;
    if cs.len() > 0 && cs[cs.len() - 1] != '/' {
        push_str(&mut out, "/");
    }
    push_str(&mut out, c);
    out
}

/// The database path: the `--db` flag, else `ENVOY_DB`, else
/// `envoy/server.db` under `XDG_DATA_HOME`, else under `$HOME/.local/share`,
/// else under the current directory.
pub open spec fn db_path(flag: Option<Seq<char>>, env_db: Option<Seq<char>>, xdg: Option<Seq<char>>, home: Option<Seq<char>>) -> Seq<char> {
    match flag {
        Some(p) => p,
        None => match env_db {
            Some(p) => p,
            None => {
                let base = match xdg {
                    Some(x) => x,
                    None => match home {
                        Some(h) => join_path(join_path(h, ".local"@), "share"@),
                        None => "."@,
                    },
                };
                join_path(join_path(base, "envoy"@), "server.db"@)
            },
        },
    }
}

pub fn resolve_db_path(flag: Option<&str>, env_db: Option<&str>, xdg: Option<&str>, home: Option<&str>) -> (r: String)
    ensures
        r@ == db_path(
            match flag {
                Some(p) => Some(p@),
                None => None,
            },
            match env_db {
                Some(p) => Some(p@),
                None => None,
            },
            match xdg {
                Some(p) => Some(p@),
                None => None,
            },
            match home {
                Some(p) => Some(p@),
                None => None,
            },
        ),
{
    match flag {
        Some(p) => owned(p),
        None => match env_db {
            Some(p) => owned(p),
            None => {
                let base = match xdg {
                    Some(x) => owned(x),
                    None => match home {
                        Some(h) => join(join(owned(h), ".local"), "share"),
                        None => owned("."),
                    },
                };
                join(join(base, "envoy"), "server.db")
            },
        },
    }
}

/// A port read from an optional text, `default` when it is missing or is
/// not a `u16`.
pub open spec fn port_or(text: Option<Seq<char>>, default: u16) -> int {
    match text {
        Some(t) => match bounded_value(t, 0xffff) {
            Some(v) => v,
            None => default as int,
        },
        None => default as int,
    }
}

fn read_port(text: Option<&str>, default: u16) -> (r: u16)
    ensures
        r == port_or(
            match text {
                Some(t) => Some(t@),
                None => None,
            },
            default,
        ),
{
    match text {
        Some(t) => match parse_bounded(t, 0xffff) {
            Some(v) => v as u16,
            None => default,
        },
        None => default,
    }
}

/// The HTTP port: the `--port` flag, else `ENVOY_PORT`, else 9876 (a value
/// that is not a port falls through to the next).
pub fn http_port(flag: Option<&str>, env_port: Option<&str>) -> (r: u16)
    ensures
        r == port_or(
            match flag {
                Some(t) => Some(t@),
                None => None,
            },
            port_or(
                match env_port {
                    Some(t) => Some(t@),
                    None => None,
                },
                9876,
            ) as u16,
        ),
{
    let d = read_port(env_port, 9876);
    read_port(flag, d)
}

/// The address the HTTP server binds: the `--bind` flag, else 127.0.0.1.
pub fn bind_host(flag: Option<&str>) -> (r: String)
    ensures
        r@ == match flag {
            Some(b) => b@,
            None => "127.0.0.1"@,
        },
{
    match flag {
        Some(b) => owned(b),
        None => owned("127.0.0.1"),
    }
}

/// A monitor setting `project,target,interval_secs`: three fields split
/// at the first two commas, the interval `default_interval` when it is not
/// a number.
pub open spec fn monitor_setting(cfg: Seq<char>, default_interval: u64) -> Option<(Seq<char>, Seq<char>, int)> {
    match three_fields(cfg, ',') {
        Some((p, t, n)) => Some(
            (
                p,
                t,
                match bounded_value(n, u64::MAX as int) {
                    Some(v) => v,
                    None => default_interval as int,
                },
            ),
        ),
        None => None,
    }
}

pub fn parse_monitor_setting(cfg: &str, default_interval: u64) -> (r: Option<(String, String, u64)>)
    ensures
        match r {
            Some((p, t, n)) => monitor_setting(cfg@, default_interval) == Some((p@, t@, n as int)),
            None => monitor_setting(cfg@, default_interval) is None,
        },
{
    let cs = chars_of(cfg);
    match split3(&cs, ',') {
        Some((p, t, n)) => {
            let ns = string_of(&n);
            let interval = match parse_bounded(ns.as_str(), u64::MAX) {
                Some(v) => v,
                None => default_interval,
            };
            Some((string_of(&p), string_of(&t), interval))
        },
        None => None,
    }
}

} // verus!
