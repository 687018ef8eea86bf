//! The command line: `fsvfs dvdbnd [OPTIONS] <ARCHIVE>...`.
//!
//! Options take their value as the next argument: `-m, --mountpoint`,
//! `-g, --game`, `-k, --keys`, `-d, --dict` and `-c, --cache`; or in the
//! same argument, as `--mountpoint=DIR`, `-mDIR` or `-m=DIR`. `--no-cache`
//! (which excludes `--cache`) and `--piped` take none. Each may be given once.
//! Every other argument is an archive; after `--` every argument is one.

use vstd::prelude::*;

use crate::archives::chars_of;

verus! {

/// The parsed command line.
#[derive(Debug)]
pub struct Cli {
    pub command: Command,
}

#[derive(Debug)]
pub enum Command {
    /// Mount DVDBND archives as a read-only filesystem.
    Dvdbnd(DvdbndArgs),
}

#[derive(Debug)]
pub struct DvdbndArgs {
    /// Archives to mount (at least one BHD[5]).
    pub archive: Vec<String>,
    /// Where to mount the filesystem.
    pub mountpoint: String,
    /// Which game's file name hashes and keys to use.
    pub game: Option<String>,
    /// Directory of RSA keys in PEM format.
    pub keys: Option<String>,
    /// Directory of file name dictionaries.
    pub dict: Option<String>,
    pub cache: CacheArgs,
    /// Internal: stdin acts as an exit guard for the parent process.
    pub piped: Option<bool>,
}

#[derive(Debug)]
pub struct CacheArgs {
    /// Directory where to store cached artifacts.
    pub cache: Option<String>,
    /// Do not read or write the cache.
    pub no_cache: Option<bool>,
}

/// Why a command line was refused.
#[derive(Clone, Copy, Debug, PartialEq, Eq, Structural)]
pub enum CliError {
    /// No subcommand was given.
    MissingCommand,
    /// The subcommand is not `dvdbnd`.
    UnknownCommand,
    /// An argument that looks like an option is none of the known ones.
    UnknownArgument,
    /// An option that takes a value was given none.
    MissingValue,
    /// An option was given twice.
    Repeated,
    /// `--mountpoint` was not given.
    MissingMountpoint,
    /// No archive was given.
    MissingArchive,
    /// `--cache` and `--no-cache` were both given.
    CacheConflict,
}

/// What an argument after the subcommand is.
#[derive(Clone, Copy, Debug, PartialEq, Eq, Structural)]
pub enum ArgKind {
    Mountpoint,
    Game,
    Keys,
    Dict,
    Cache,
    NoCache,
    Piped,
    EndOfOptions,
    UnknownOption,
    Value,
}

pub open spec fn looks_like_option(a: Seq<char>) -> bool {
    a.len() > 1 && a[0] == '-'
}

pub open spec fn arg_kind(a: Seq<char>) -> ArgKind {
    if a == "-m"@ || a == "--mountpoint"@ {
        ArgKind::Mountpoint
    } else if a == "-g"@ || a == "--game"@ {
        ArgKind::Game
    } else if a == "-k"@ || a == "--keys"@ {
        ArgKind::Keys
    } else if a == "-d"@ || a == "--dict"@ {
        ArgKind::Dict
    } else if a == "-c"@ || a == "--cache"@ {
        ArgKind::Cache
    } else if a == "--no-cache"@ {
        ArgKind::NoCache
    } else if a == "--piped"@ {
        ArgKind::Piped
    } else if a == "--"@ {
        ArgKind::EndOfOptions
    } else if looks_like_option(a) {
        ArgKind::UnknownOption
    } else {
        ArgKind::Value
    }
}

/// Whether `a` is `name`, `=` and a value.
pub open spec fn has_long_value(a: Seq<char>, name: Seq<char>) -> bool {
    a.len() > name.len() && a.subrange(0, name.len() as int) == name && a[name.len() as int] == '='
}

/// The value after `name=` in `a`.
pub open spec fn long_value(a: Seq<char>, name: Seq<char>) -> Seq<char> {
    a.subrange(name.len() + 1int, a.len() as int)
}

/// The option that a short name stands for, if it takes a value.
pub open spec fn short_option(c: char) -> Option<ArgKind> {
    if c == 'm' {
        Some(ArgKind::Mountpoint)
    } else if c == 'g' {
        Some(ArgKind::Game)
    } else if c == 'k' {
        Some(ArgKind::Keys)
    } else if c == 'd' {
        Some(ArgKind::Dict)
    } else if c == 'c' {
        Some(ArgKind::Cache)
    } else {
        None
    }
}

/// An option given with its value in the same argument: `--name=VALUE`,
/// `-xVALUE` or `-x=VALUE`.
pub open spec fn attached(a: Seq<char>) -> Option<(ArgKind, Seq<char>)> {
    if has_long_value(a, "--mountpoint"@) {
        Some((ArgKind::Mountpoint, long_value(a, "--mountpoint"@)))
    } else if has_long_value(a, "--game"@) {
        Some((ArgKind::Game, long_value(a, "--game"@)))
    } else if has_long_value(a, "--keys"@) {
        Some((ArgKind::Keys, long_value(a, "--keys"@)))
    } else if has_long_value(a, "--dict"@) {
        Some((ArgKind::Dict, long_value(a, "--dict"@)))
    } else if has_long_value(a, "--cache"@) {
        Some((ArgKind::Cache, long_value(a, "--cache"@)))
    } else if a.len() > 2 && a[0] == '-' && short_option(a[1]) is Some {
        let v = a.subrange(2, a.len() as int);
        Some((short_option(a[1])->0, if v[0] == '=' { v.drop_first() } else { v }))
    } else {
        None
    }
}

/// The long names of the options that take a value.
pub open spec fn long_value_name(name: Seq<char>) -> bool {
    name == "--mountpoint"@ || name == "--game"@ || name == "--keys"@ || name == "--dict"@ || name
        == "--cache"@
}

/// The options seen so far.
pub ghost struct ArgsView {
    pub archive: Seq<Seq<char>>,
    pub mountpoint: Option<Seq<char>>,
    pub game: Option<Seq<char>>,
    pub keys: Option<Seq<char>>,
    pub dict: Option<Seq<char>>,
    pub cache: Option<Seq<char>>,
    pub no_cache: Option<bool>,
    pub piped: Option<bool>,
}

pub open spec fn empty_args() -> ArgsView {
    ArgsView {
        archive: Seq::empty(),
        mountpoint: None,
        game: None,
        keys: None,
        dict: None,
        cache: None,
        no_cache: None,
        piped: None,
    }
}

/// Stores `v` in the slot of an option taking a value.
pub open spec fn set_value(st: ArgsView, k: ArgKind, v: Seq<char>) -> Result<ArgsView, CliError> {
    let taken = match k {
        ArgKind::Mountpoint => st.mountpoint is Some,
        ArgKind::Game => st.game is Some,
        ArgKind::Keys => st.keys is Some,
        ArgKind::Dict => st.dict is Some,
        _ => st.cache is Some,
    };
    if taken {
        Err(CliError::Repeated)
    } else {
        Ok(
            match k {
                ArgKind::Mountpoint => ArgsView { mountpoint: Some(v), ..st },
                ArgKind::Game => ArgsView { game: Some(v), ..st },
                ArgKind::Keys => ArgsView { keys: Some(v), ..st },
                ArgKind::Dict => ArgsView { dict: Some(v), ..st },
                _ => ArgsView { cache: Some(v), ..st },
            },
        )
    }
}

pub open spec fn takes_value(k: ArgKind) -> bool {
    k == ArgKind::Mountpoint || k == ArgKind::Game || k == ArgKind::Keys || k == ArgKind::Dict
        || k == ArgKind::Cache
}

/// Reads the arguments from index `i` on, with `st` the options read so far
/// and `rest` whether `--` was seen.
pub open spec fn parse_options(args: Seq<Seq<char>>, i: int, st: ArgsView, rest: bool) -> Result<
    ArgsView,
    CliError,
>
    decreases args.len() - i,
{
    if i < 0 || i >= args.len() {
        Ok(st)
    } else if rest {
        parse_options(args, i + 1, ArgsView { archive: st.archive.push(args[i]), ..st }, true)
    } else if attached(args[i]) is Some {
        let (k, v) = attached(args[i])->0;
        match set_value(st, k, v) {
            Err(e) => Err(e),
            Ok(st2) => parse_options(args, i + 1, st2, false),
        }
    } else {
        let k = arg_kind(args[i]);
        if takes_value(k) {
            if i + 1 >= args.len() || looks_like_option(args[i + 1]) {
                Err(CliError::MissingValue)
            } else {
                match set_value(st, k, args[i + 1]) {
                    Err(e) => Err(e),
                    Ok(st2) => parse_options(args, i + 2, st2, false),
                }
            }
        } else if k == ArgKind::NoCache {
            if st.no_cache is Some {
                Err(CliError::Repeated)
            } else {
                parse_options(args, i + 1, ArgsView { no_cache: Some(true), ..st }, false)
            }
        } else if k == ArgKind::Piped {
            if st.piped is Some {
                Err(CliError::Repeated)
            } else {
                parse_options(args, i + 1, ArgsView { piped: Some(true), ..st }, false)
            }
        } else if k == ArgKind::EndOfOptions {
            parse_options(args, i + 1, st, true)
        } else if k == ArgKind::UnknownOption {
            Err(CliError::UnknownArgument)
        } else {
            parse_options(args, i + 1, ArgsView { archive: st.archive.push(args[i]), ..st }, false)
        }
    }
}

/// The command line `args`, the program name first.
pub open spec fn spec_parse(args: Seq<Seq<char>>) -> Result<ArgsView, CliError> {
    if args.len() < 2 {
        Err(CliError::MissingCommand)
    } else if args[1] != "dvdbnd"@ {
        Err(CliError::UnknownCommand)
    } else {
        match parse_options(args, 2, empty_args(), false) {
            Err(e) => Err(e),
            Ok(st) => if st.mountpoint is None {
                Err(CliError::MissingMountpoint)
            } else if st.archive.len() == 0 {
                Err(CliError::MissingArchive)
            } else if st.cache is Some && st.no_cache is Some {
                Err(CliError::CacheConflict)
            } else {
                Ok(st)
            },
        }
    }
}

pub open spec fn opt_view(o: Option<String>) -> Option<Seq<char>> {
    match o {
        Some(s) => Some(s@),
        None => None,
    }
}

pub open spec fn strings_view(v: Seq<String>) -> Seq<Seq<char>> {
    Seq::new(v.len(), |i: int| v[i]@)
}

impl DvdbndArgs {
    pub open spec fn view_args(&self) -> ArgsView {
        ArgsView {
            archive: strings_view(self.archive@),
            mountpoint: Some(self.mountpoint@),
            game: opt_view(self.game),
            keys: opt_view(self.keys),
            dict: opt_view(self.dict),
            cache: opt_view(self.cache.cache),
            no_cache: self.cache.no_cache,
            piped: self.piped,
        }
    }
}

/// Whether `a` is exactly `lit`.
fn is_exactly(a: &String, lit: &str) -> (r: bool)
    ensures
        r == (a@ == lit@),
{
    *a == lit.to_owned()
}

fn looks_like_option_exec(a: &String) -> (r: bool)
    ensures
        r == looks_like_option(a@),
{
    broadcast use vstd::string::axiom_spec_iter, vstd::string::next_postcondition;

    let mut chars = a.as_str().chars();
    let first = chars.next();
    match first {
        Some(c) => {
            if c == '-' {
                let second = chars.next();
                second.is_some()
            } else {
                false
            }
        },
        None => false,
    }
}

fn kind_of(a: &String) -> (r: ArgKind)
    ensures
        r == arg_kind(a@),
{
    if is_exactly(a, "-m") || is_exactly(a, "--mountpoint") {
        ArgKind::Mountpoint
    } else if is_exactly(a, "-g") || is_exactly(a, "--game") {
        ArgKind::Game
    } else if is_exactly(a, "-k") || is_exactly(a, "--keys") {
        ArgKind::Keys
    } else if is_exactly(a, "-d") || is_exactly(a, "--dict") {
        ArgKind::Dict
    } else if is_exactly(a, "-c") || is_exactly(a, "--cache") {
        ArgKind::Cache
    } else if is_exactly(a, "--no-cache") {
        ArgKind::NoCache
    } else if is_exactly(a, "--piped") {
        ArgKind::Piped
    } else if is_exactly(a, "--") {
        ArgKind::EndOfOptions
    } else if looks_like_option_exec(a) {
        ArgKind::UnknownOption
    } else {
        ArgKind::Value
    }
}

/// The characters of `cs` from `start` on, as a string.
fn string_from(cs: &Vec<char>, start: usize) -> (r: String)
    requires
        start <= cs@.len(),
    ensures
        r@ == cs@.subrange(start as int, cs@.len() as int),
{
    let mut s = String::new();
    let mut i: usize = start;
    while i < cs.len()
        invariant
            start <= i <= cs@.len(),
            s@ == cs@.subrange(start as int, i as int),
        decreases cs@.len() - i,
    {
        s.push(cs[i]);
        i = i + 1;
        assert(s@ =~= cs@.subrange(start as int, i as int));
    }
    s
}

/// The value after `name=` in `cs`, if `cs` has that form.
fn long_value_exec(cs: &Vec<char>, name: &str) -> (r: Option<String>)
    ensures
        match r {
            Some(v) => has_long_value(cs@, name@) && v@ == long_value(cs@, name@),
            None => !has_long_value(cs@, name@),
        },
{
    let n = chars_of(name);
    if cs.len() <= n.len() {
        return None;
    }
    let mut i: usize = 0;
    while i < n.len()
        invariant
            n@ == name@,
            i <= n@.len() < cs@.len(),
            forall|j: int| 0 <= j < i ==> cs@[j] == n@[j],
        decreases n@.len() - i,
    {
        if cs[i] != n[i] {
            assert(cs@.subrange(0, n@.len() as int)[i as int] != n@[i as int]);
            return None;
        }
        i = i + 1;
    }
    assert(cs@.subrange(0, n@.len() as int) =~= n@);
    if cs[n.len()] != '=' {
        return None;
    }
    Some(string_from(cs, n.len() + 1))
}

/// The option and value given together in `a` (see [`attached`]).
fn attached_exec(a: &String) -> (r: Option<(ArgKind, String)>)
    ensures
        match attached(a@) {
            Some((k, v)) => r matches Some((k2, s)) && k2 == k && s@ == v,
            None => r is None,
        },
{
    let cs = chars_of(a.as_str());
    if let Some(v) = long_value_exec(&cs, "--mountpoint") {
        return Some((ArgKind::Mountpoint, v));
    }
    if let Some(v) = long_value_exec(&cs, "--game") {
        return Some((ArgKind::Game, v));
    }
    if let Some(v) = long_value_exec(&cs, "--keys") {
        return Some((ArgKind::Keys, v));
    }
    if let Some(v) = long_value_exec(&cs, "--dict") {
        return Some((ArgKind::Dict, v));
    }
    if let Some(v) = long_value_exec(&cs, "--cache") {
        return Some((ArgKind::Cache, v));
    }
    if cs.len() <= 2 || cs[0] != '-' {
        return None;
    }
    let k = if cs[1] == 'm' {
        ArgKind::Mountpoint
    } else if cs[1] == 'g' {
        ArgKind::Game
    } else if cs[1] == 'k' {
        ArgKind::Keys
    } else if cs[1] == 'd' {
        ArgKind::Dict
    } else if cs[1] == 'c' {
        ArgKind::Cache
    } else {
        return None;
    };
    let start: usize = if cs[2] == '=' {
        3
    } else {
        2
    };
    let v = string_from(&cs, start);
    proof {
        let w = cs@.subrange(2, cs@.len() as int);
        assert(w[0] == cs@[2]);
        if cs@[2] == '=' {
            assert(w.drop_first() =~= cs@.subrange(3, cs@.len() as int));
        }
    }
    Some((k, v))
}

/// Mutable form of `ArgsView` while parsing.
struct Parsed {
    archive: Vec<String>,
    mountpoint: Option<String>,
    game: Option<String>,
    keys: Option<String>,
    dict: Option<String>,
    cache: Option<String>,
    no_cache: Option<bool>,
    piped: Option<bool>,
}

impl Parsed {
    spec fn view_args(&self) -> ArgsView {
        ArgsView {
            archive: strings_view(self.archive@),
            mountpoint: opt_view(self.mountpoint),
            game: opt_view(self.game),
            keys: opt_view(self.keys),
            dict: opt_view(self.dict),
            cache: opt_view(self.cache),
            no_cache: self.no_cache,
            piped: self.piped,
        }
    }
}

impl Parsed {
    /// Stores `v` in the slot of `k` (see [`set_value`]).
    fn set_slot(&mut self, k: ArgKind, v: String) -> (r: Result<(), CliError>)
        requires
            takes_value(k),
        ensures
            match set_value(old(self).view_args(), k, v@) {
                Ok(st) => r is Ok && final(self).view_args() == st,
                Err(e) => r == Err::<(), CliError>(e),
            },
    {
        let taken = match k {
            ArgKind::Mountpoint => self.mountpoint.is_some(),
            ArgKind::Game => self.game.is_some(),
            ArgKind::Keys => self.keys.is_some(),
            ArgKind::Dict => self.dict.is_some(),
            _ => self.cache.is_some(),
        };
        if taken {
            return Err(CliError::Repeated);
        }
        match k {
            ArgKind::Mountpoint => {
                self.mountpoint = Some(v);
            },
            ArgKind::Game => {
                self.game = Some(v);
            },
            ArgKind::Keys => {
                self.keys = Some(v);
            },
            ArgKind::Dict => {
                self.dict = Some(v);
            },
            _ => {
                self.cache = Some(v);
            },
        }
        Ok(())
    }
}

impl Cli {
    /// Parses the command line `args`, the program name first.
    pub fn parse_from(args: Vec<String>) -> (r: Result<Cli, CliError>)
        ensures
            match spec_parse(strings_view(args@)) {
                Ok(st) => r matches Ok(cli) && (match cli.command {
                    Command::Dvdbnd(a) => a.view_args() == st,
                }),
                Err(e) => r == Err::<Cli, CliError>(e),
            },
    {
        let ghost sv = strings_view(args@);
        if args.len() < 2 {
            return Err(CliError::MissingCommand);
        }
        if !is_exactly(&args[1], "dvdbnd") {
            return Err(CliError::UnknownCommand);
        }
        assert(sv[1] == args@[1]@);
        let mut p = Parsed {
            archive: Vec::new(),
            mountpoint: None,
            game: None,
            keys: None,
            dict: None,
            cache: None,
            no_cache: None,
            piped: None,
        };
        proof {
            assert(p.view_args().archive =~= Seq::<Seq<char>>::empty());
        }
        let mut rest = false;
        let mut i: usize = 2;
        while i < args.len()
            invariant
                2 <= i <= args@.len(),
                sv == strings_view(args@),
                sv[1] == "dvdbnd"@,
                parse_options(sv, 2, empty_args(), false) == parse_options(
                    sv,
                    i as int,
                    p.view_args(),
                    rest,
                ),
            decreases args@.len() - i,
        {
            let ghost st = p.view_args();
            assert(sv[i as int] == args@[i as int]@);
            if rest {
                p.archive.push(args[i].clone());
                proof {
                    assert(strings_view(p.archive@) =~= st.archive.push(sv[i as int]));
                }
                i = i + 1;
                continue;
            }
            match attached_exec(&args[i]) {
                Some((k, v)) => {
                    match p.set_slot(k, v) {
                        Err(e) => {
                            return Err(e);
                        },
                        Ok(()) => {},
                    }
                    i = i + 1;
                    continue;
                },
                None => {},
            }
            let k = kind_of(&args[i]);
            match k {
                ArgKind::Mountpoint | ArgKind::Game | ArgKind::Keys | ArgKind::Dict
                | ArgKind::Cache => {
                    assert(takes_value(k));
                    if i + 1 < args.len() {
                        assert(sv[i + 1] == args@[i + 1]@);
                    }
                    if i + 1 >= args.len() || looks_like_option_exec(&args[i + 1]) {
                        assert(parse_options(sv, i as int, st, false) == Err::<ArgsView, CliError>(
                            CliError::MissingValue,
                        ));
                        return Err(CliError::MissingValue);
                    }
                    let v = args[i + 1].clone();
                    let taken = match k {
                        ArgKind::Mountpoint => p.mountpoint.is_some(),
                        ArgKind::Game => p.game.is_some(),
                        ArgKind::Keys => p.keys.is_some(),
                        ArgKind::Dict => p.dict.is_some(),
                        _ => p.cache.is_some(),
                    };
                    if taken {
                        assert(set_value(st, k, sv[i + 1]) == Err::<ArgsView, CliError>(
                            CliError::Repeated,
                        ));
                        assert(parse_options(sv, i as int, st, false) == Err::<ArgsView, CliError>(
                            CliError::Repeated,
                        ));
                        return Err(CliError::Repeated);
                    }
                    match k {
                        ArgKind::Mountpoint => {
                            p.mountpoint = Some(v);
                        },
                        ArgKind::Game => {
                            p.game = Some(v);
                        },
                        ArgKind::Keys => {
                            p.keys = Some(v);
                        },
                        ArgKind::Dict => {
                            p.dict = Some(v);
                        },
                        _ => {
                            p.cache = Some(v);
                        },
                    }
                    proof {
                        assert(set_value(st, k, sv[i + 1]) == Ok::<ArgsView, CliError>(
                            p.view_args(),
                        ));
                    }
                    i = i + 2;
                },
                ArgKind::NoCache => {
                    if p.no_cache.is_some() {
                        return Err(CliError::Repeated);
                    }
                    p.no_cache = Some(true);
                    i = i + 1;
                },
                ArgKind::Piped => {
                    if p.piped.is_some() {
                        return Err(CliError::Repeated);
                    }
                    p.piped = Some(true);
                    i = i + 1;
                },
                ArgKind::EndOfOptions => {
                    rest = true;
                    i = i + 1;
                },
                ArgKind::UnknownOption => {
                    return Err(CliError::UnknownArgument);
                },
                ArgKind::Value => {
                    p.archive.push(args[i].clone());
                    proof {
                        assert(strings_view(p.archive@) =~= st.archive.push(sv[i as int]));
                    }
                    i = i + 1;
                },
            }
        }
        let mountpoint = match p.mountpoint {
            Some(m) => m,
            None => {
                return Err(CliError::MissingMountpoint);
            },
        };
        if p.archive.len() == 0 {
            return Err(CliError::MissingArchive);
        }
        if p.cache.is_some() && p.no_cache.is_some() {
            return Err(CliError::CacheConflict);
        }
        let args = DvdbndArgs {
            archive: p.archive,
            mountpoint,
            game: p.game,
            keys: p.keys,
            dict: p.dict,
            cache: CacheArgs { cache: p.cache, no_cache: p.no_cache },
            piped: p.piped,
        };
        Ok(Cli { command: Command::Dvdbnd(args) })
    }
}

/// Reading options depends only on the arguments not yet read.
proof fn lemma_parse_suffix(a: Seq<Seq<char>>, i: int, b: Seq<Seq<char>>, j: int, st: ArgsView, rest: bool)
    requires
        0 <= i <= a.len(),
        0 <= j <= b.len(),
        a.skip(i) == b.skip(j),
    ensures
        parse_options(a, i, st, rest) == parse_options(b, j, st, rest),
    decreases a.len() - i,
{
    assert(a.len() - i == a.skip(i).len());
    assert(b.len() - j == b.skip(j).len());
    if i < a.len() {
        assert(a[i] == a.skip(i)[0] && b[j] == b.skip(j)[0]);
        if i + 1 < a.len() {
            assert(a[i + 1] == a.skip(i)[1] && b[j + 1] == b.skip(j)[1]);
        }
        assert(a.skip(i + 1) =~= a.skip(i).skip(1));
        assert(b.skip(j + 1) =~= b.skip(j).skip(1));
        if i + 2 <= a.len() {
            assert(a.skip(i + 2) =~= a.skip(i).skip(2));
            assert(b.skip(j + 2) =~= b.skip(j).skip(2));
        }
        let k = arg_kind(a[i]);
        if rest {
            lemma_parse_suffix(a, i + 1, b, j + 1, ArgsView { archive: st.archive.push(a[i]), ..st }, true);
        } else if attached(a[i]) is Some {
            let (k2, v) = attached(a[i])->0;
            match set_value(st, k2, v) {
                Err(_) => {},
                Ok(st2) => lemma_parse_suffix(a, i + 1, b, j + 1, st2, false),
            }
        } else if takes_value(k) {
            if !(i + 1 >= a.len() || looks_like_option(a[i + 1])) {
                match set_value(st, k, a[i + 1]) {
                    Err(_) => {},
                    Ok(st2) => lemma_parse_suffix(a, i + 2, b, j + 2, st2, false),
                }
            }
        } else if k == ArgKind::NoCache {
            lemma_parse_suffix(a, i + 1, b, j + 1, ArgsView { no_cache: Some(true), ..st }, false);
        } else if k == ArgKind::Piped {
            lemma_parse_suffix(a, i + 1, b, j + 1, ArgsView { piped: Some(true), ..st }, false);
        } else if k == ArgKind::EndOfOptions {
            lemma_parse_suffix(a, i + 1, b, j + 1, st, true);
        } else {
            lemma_parse_suffix(a, i + 1, b, j + 1, ArgsView { archive: st.archive.push(a[i]), ..st }, false);
        }
    }
}

/// Where options are read, `--name=VALUE` for an option that takes a value
/// parses as the two arguments `--name VALUE` do (when the value does not
/// itself look like an option, which `--name VALUE` would refuse).
pub proof fn lemma_attached_long(args: Seq<Seq<char>>, i: int, st: ArgsView, name: Seq<char>, v: Seq<char>)
    requires
        0 <= i < args.len(),
        long_value_name(name),
        args[i] == name + seq!['='] + v,
        !looks_like_option(v),
    ensures
        parse_options(args, i, st, false) == parse_options(
            args.take(i) + seq![name, v] + args.skip(i + 1),
            i,
            st,
            false,
        ),
{
    reveal_strlit("--mountpoint");
    reveal_strlit("--game");
    reveal_strlit("--keys");
    reveal_strlit("--dict");
    reveal_strlit("--cache");
    reveal_strlit("-m");
    reveal_strlit("-g");
    reveal_strlit("-k");
    reveal_strlit("-d");
    reveal_strlit("-c");
    reveal_strlit("--no-cache");
    reveal_strlit("--piped");
    reveal_strlit("--");
    let a = args[i];
    let b = args.take(i) + seq![name, v] + args.skip(i + 1);
    assert(b[i] == name);
    assert(b[i + 1] == v);
    assert(b.skip(i + 2) =~= args.skip(i + 1));
    assert(a.subrange(0, name.len() as int) =~= name);
    assert(a[name.len() as int] == '=');
    assert(long_value(a, name) =~= v);
    let k = if name == "--mountpoint"@ {
        ArgKind::Mountpoint
    } else if name == "--game"@ {
        ArgKind::Game
    } else if name == "--keys"@ {
        ArgKind::Keys
    } else if name == "--dict"@ {
        ArgKind::Dict
    } else {
        ArgKind::Cache
    };
    assert(a[2] == name[2]);
    assert(a[0] == '-' && a[1] == '-');
    if has_long_value(a, "--mountpoint"@) {
        assert(a.subrange(0, 12)[2] == a[2]);
    }
    if has_long_value(a, "--game"@) {
        assert(a.subrange(0, 6)[2] == a[2]);
    }
    if has_long_value(a, "--keys"@) {
        assert(a.subrange(0, 6)[2] == a[2]);
    }
    if has_long_value(a, "--dict"@) {
        assert(a.subrange(0, 6)[2] == a[2]);
    }
    if has_long_value(a, "--cache"@) {
        assert(a.subrange(0, 7)[2] == a[2]);
    }
    assert(attached(a) == Some((k, v)));
    assert(attached(name) is None);
    assert(arg_kind(name) == k);
    match set_value(st, k, v) {
        Err(_) => {},
        Ok(st2) => lemma_parse_suffix(args, i + 1, b, i + 2, st2, false),
    }
}

/// The short names of the options that take a value.
pub open spec fn short_value_name(name: Seq<char>) -> bool {
    name == "-m"@ || name == "-g"@ || name == "-k"@ || name == "-d"@ || name == "-c"@
}

/// Where options are read, `-xVALUE` and `-x=VALUE` for a short option that
/// takes a value parse as the two arguments `-x VALUE` do (for a non-empty
/// value that does not look like an option; `-x=VALUE` is the form for a
/// value that starts with `=`).
pub proof fn lemma_attached_short(
    args: Seq<Seq<char>>,
    i: int,
    st: ArgsView,
    name: Seq<char>,
    v: Seq<char>,
    with_equals: bool,
)
    requires
        0 <= i < args.len(),
        short_value_name(name),
        args[i] == if with_equals {
            name + seq!['='] + v
        } else {
            name + v
        },
        v.len() > 0,
        with_equals || v[0] != '=',
        !looks_like_option(v),
    ensures
        parse_options(args, i, st, false) == parse_options(
            args.take(i) + seq![name, v] + args.skip(i + 1),
            i,
            st,
            false,
        ),
{
    reveal_strlit("--mountpoint");
    reveal_strlit("--game");
    reveal_strlit("--keys");
    reveal_strlit("--dict");
    reveal_strlit("--cache");
    reveal_strlit("-m");
    reveal_strlit("-g");
    reveal_strlit("-k");
    reveal_strlit("-d");
    reveal_strlit("-c");
    let a = args[i];
    let b = args.take(i) + seq![name, v] + args.skip(i + 1);
    assert(b[i] == name);
    assert(b[i + 1] == v);
    assert(b.skip(i + 2) =~= args.skip(i + 1));
    assert(a[0] == '-' && a[1] == name[1] && a[1] != '-');
    if has_long_value(a, "--mountpoint"@) {
        assert(a.subrange(0, 12)[1] == a[1]);
    }
    if has_long_value(a, "--game"@) {
        assert(a.subrange(0, 6)[1] == a[1]);
    }
    if has_long_value(a, "--keys"@) {
        assert(a.subrange(0, 6)[1] == a[1]);
    }
    if has_long_value(a, "--dict"@) {
        assert(a.subrange(0, 6)[1] == a[1]);
    }
    if has_long_value(a, "--cache"@) {
        assert(a.subrange(0, 7)[1] == a[1]);
    }
    let w = a.subrange(2, a.len() as int);
    if with_equals {
        assert(w[0] == '=');
        assert(w.drop_first() =~= v);
    } else {
        assert(w =~= v);
    }
    let k = short_option(name[1])->0;
    assert(attached(a) == Some((k, v)));
    assert(attached(name) is None);
    assert(arg_kind(name) == k);
    match set_value(st, k, v) {
        Err(_) => {},
        Ok(st2) => lemma_parse_suffix(args, i + 1, b, i + 2, st2, false),
    }
}

} // verus!
