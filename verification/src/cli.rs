//! The logic of the `t2` command line tool: bus addresses, the registry of
//! named addresses kept in the user's configuration file, and the checks and
//! renderings of the commands.
use vstd::prelude::*;
use vstd::string::*;
use crate::topic::{split_chars, split_chars_exec, strings_view, lemma_split_append, lemma_split_nonempty};

verus! {

/// Whether `p` is a prefix of `s`.
pub open spec fn starts_with(s: Seq<char>, p: Seq<char>) -> bool {
    p.len() <= s.len() && s.take(p.len() as int) == p
}

/// Whether `s` starts with `p`.
pub fn starts_with_exec(s: &str, p: &str) -> (b: bool)
    ensures
        b == starts_with(s@, p@),
{
    let n = s.unicode_len();
    let m = p.unicode_len();
    if m > n {
        return false;
    }
    let mut i: usize = 0;
    while i < m
        invariant
            n == s@.len(),
            m == p@.len(),
            m <= n,
            i <= m,
            forall|j: int| 0 <= j < i ==> s@[j] == p@[j],
        decreases m - i,
    {
        if s.get_char(i) != p.get_char(i) {
            assert(s@.take(m as int)[i as int] != p@[i as int]);
            return false;
        }
        i = i + 1;
    }
    assert(s@.take(m as int) =~= p@);
    true
}

/// What follows the prefix `p` of `s`.
pub fn strip_prefix_exec(s: &str, p: &str) -> (r: Option<String>)
    ensures
        r is Some <==> starts_with(s@, p@),
        r matches Some(rest) ==> rest@ == s@.skip(p@.len() as int),
{
    if starts_with_exec(s, p) {
        let n = s.unicode_len();
        let m = p.unicode_len();
        Some(String::from_str(s.substring_char(m, n)))
    } else {
        None
    }
}

/// The kinds of bus address.
#[derive(Clone, Copy, Debug, PartialEq, Eq)]
pub enum AddrKind {
    Tcp,
    Unix,
    Name,
}

/// The grammar `^(tcp|unix|name):(.+)$` of a bus address: its kind and the
/// address or name that follows, which is not empty and holds no newline.
pub open spec fn parse_bus_addr(s: Seq<char>) -> Option<(AddrKind, Seq<char>)> {
    let split = if starts_with(s, "tcp:"@) {
        Some((AddrKind::Tcp, s.skip("tcp:"@.len() as int)))
    } else if starts_with(s, "unix:"@) {
        Some((AddrKind::Unix, s.skip("unix:"@.len() as int)))
    } else if starts_with(s, "name:"@) {
        Some((AddrKind::Name, s.skip("name:"@.len() as int)))
    } else {
        None
    };
    match split {
        Some((k, rest)) => if rest.len() > 0 && !rest.contains('\n') {
            Some((k, rest))
        } else {
            None
        },
        None => None,
    }
}

fn has_no_newline(s: &str) -> (b: bool)
    ensures
        b == !s@.contains('\n'),
{
    let n = s.unicode_len();
    let mut i: usize = 0;
    while i < n
        invariant
            n == s@.len(),
            i <= n,
            forall|j: int| 0 <= j < i ==> s@[j] != '\n',
        decreases n - i,
    {
        if s.get_char(i) == '\n' {
            return false;
        }
        i = i + 1;
    }
    true
}

/// Splits a bus address into its kind and what follows the colon.
pub fn parse_bus_addr_exec(s: &str) -> (r: Option<(AddrKind, String)>)
    ensures
        match r {
            Some((k, rest)) => parse_bus_addr(s@) == Some((k, rest@)),
            None => parse_bus_addr(s@) is None,
        },
{
    let split = match strip_prefix_exec(s, "tcp:") {
        Some(rest) => Some((AddrKind::Tcp, rest)),
        None => match strip_prefix_exec(s, "unix:") {
            Some(rest) => Some((AddrKind::Unix, rest)),
            None => match strip_prefix_exec(s, "name:") {
                Some(rest) => Some((AddrKind::Name, rest)),
                None => None,
            },
        },
    };
    match split {
        Some((k, rest)) => {
            if rest.as_str().unicode_len() > 0 && has_no_newline(rest.as_str()) {
                Some((k, rest))
            } else {
                None
            }
        },
        None => None,
    }
}

/// Whether `s` is a valid name for a registered address: `^[a-z_]+$`.
pub open spec fn is_addr_name(s: Seq<char>) -> bool {
    s.len() > 0 && forall|i: int| 0 <= i < s.len() ==> ('a' <= #[trigger] s[i] && s[i] <= 'z') || s[i]
        == '_'
}

pub open spec fn addr_name_error() -> Seq<char> {
    "Invalid bus address name, must contain only lowercase and underscore."@
}

pub open spec fn bus_addr_error() -> Seq<char> {
    "Invalid bus address. Must be in the format of (tcp|unix|name):<address or name>"@
}

/// Checks a name for a registered address.
pub fn validate_bus_addr_name(s: &str) -> (r: Result<String, String>)
    ensures
        is_addr_name(s@) ==> (r matches Ok(v) && v@ == s@),
        !is_addr_name(s@) ==> (r matches Err(e) && e@ == addr_name_error()),
{
    let n = s.unicode_len();
    let mut ok = n > 0;
    let mut i: usize = 0;
    while i < n
        invariant
            n == s@.len(),
            i <= n,
            ok == (n > 0 && forall|j: int| 0 <= j < i ==> ('a' <= #[trigger] s@[j] && s@[j] <= 'z') || s@[j] == '_'),
        decreases n - i,
    {
        let c = s.get_char(i);
        if !(('a' <= c && c <= 'z') || c == '_') {
            ok = false;
        }
        i = i + 1;
    }
    if ok {
        Ok(String::from_str(s))
    } else {
        Err(String::from_str("Invalid bus address name, must contain only lowercase and underscore."))
    }
}

/// Checks a bus address.
pub fn validate_bus_addr(s: &str) -> (r: Result<String, String>)
    ensures
        parse_bus_addr(s@) is Some ==> (r matches Ok(v) && v@ == s@),
        parse_bus_addr(s@) is None ==> (r matches Err(e) && e@ == bus_addr_error()),
{
    match parse_bus_addr_exec(s) {
        Some(_) => Ok(String::from_str(s)),
        None => Err(String::from_str(
            "Invalid bus address. Must be in the format of (tcp|unix|name):<address or name>",
        )),
    }
}

/// A bus address that names a transport.
#[derive(Clone, Debug, PartialEq)]
pub enum ResolvedBusAddr {
    Tcp(String),
    Unix(String),
}

/// The view of a resolved address.
pub enum AddrView {
    Tcp(Seq<char>),
    Unix(Seq<char>),
}

impl View for ResolvedBusAddr {
    type V = AddrView;

    open spec fn view(&self) -> AddrView {
        match self {
            ResolvedBusAddr::Tcp(s) => AddrView::Tcp(s@),
            ResolvedBusAddr::Unix(s) => AddrView::Unix(s@),
        }
    }
}

/// How an address is written: `tcp:<address>` or `unix:<path>`.
pub open spec fn addr_text(a: AddrView) -> Seq<char> {
    match a {
        AddrView::Tcp(s) => "tcp:"@ + s,
        AddrView::Unix(s) => "unix:"@ + s,
    }
}

impl ResolvedBusAddr {
    /// The address written as `tcp:<address>` or `unix:<path>`.
    pub fn to_string(&self) -> (r: String)
        ensures
            r@ == addr_text(self@),
    {
        match self {
            ResolvedBusAddr::Tcp(s) => String::from_str("tcp:").concat(s.as_str()),
            ResolvedBusAddr::Unix(s) => String::from_str("unix:").concat(s.as_str()),
        }
    }
}

/// A registry entry: a name and the address it stands for.
pub open spec fn entry_view(e: (String, ResolvedBusAddr)) -> (Seq<char>, AddrView) {
    (e.0@, e.1@)
}

pub open spec fn config_view(c: Seq<(String, ResolvedBusAddr)>) -> Seq<(Seq<char>, AddrView)> {
    c.map_values(|e: (String, ResolvedBusAddr)| entry_view(e))
}

/// The index of the first entry named `name` at or after `i`.
pub open spec fn find_entry(c: Seq<(Seq<char>, AddrView)>, name: Seq<char>, i: int) -> Option<int>
    decreases c.len() - i,
{
    if i < 0 || i >= c.len() {
        None
    } else if c[i].0 == name {
        Some(i)
    } else {
        find_entry(c, name, i + 1)
    }
}

pub open spec fn not_found_error() -> Seq<char> {
    "Address not found in config"@
}

pub open spec fn no_default_error() -> Seq<char> {
    "No default address found in config. Use the register command to add one or specify an address"@
}

/// What an address argument resolves to, given the registry: a `tcp:` or
/// `unix:` address stands for itself, `name:` looks the name up, and no
/// address means the registry's first entry.
pub open spec fn resolve(addr: Option<Seq<char>>, c: Seq<(Seq<char>, AddrView)>) -> Result<
    AddrView,
    Seq<char>,
> {
    match addr {
        Some(s) => match parse_bus_addr(s) {
            Some((AddrKind::Tcp, rest)) => Ok(AddrView::Tcp(rest)),
            Some((AddrKind::Unix, rest)) => Ok(AddrView::Unix(rest)),
            Some((AddrKind::Name, rest)) => match find_entry(c, rest, 0) {
                Some(i) => Ok(c[i].1),
                None => Err(not_found_error()),
            },
            None => Err(Seq::empty()),
        },
        None => if c.len() == 0 {
            Err(no_default_error())
        } else {
            Ok(c[0].1)
        },
    }
}

pub open spec fn opt_view(o: Option<String>) -> Option<Seq<char>> {
    match o {
        Some(s) => Some(s@),
        None => None,
    }
}

pub open spec fn resolved_view(r: Result<ResolvedBusAddr, String>) -> Result<AddrView, Seq<char>> {
    match r {
        Ok(a) => Ok(a@),
        Err(e) => Err(e@),
    }
}

fn clone_addr(a: &ResolvedBusAddr) -> (r: ResolvedBusAddr)
    ensures
        r@ == a@,
{
    match a {
        ResolvedBusAddr::Tcp(s) => ResolvedBusAddr::Tcp(s.clone()),
        ResolvedBusAddr::Unix(s) => ResolvedBusAddr::Unix(s.clone()),
    }
}

/// Resolves an address argument against the registry `config`.
pub fn resolve_addr(addr: &Option<String>, config: &Vec<(String, ResolvedBusAddr)>) -> (r: Result<
    ResolvedBusAddr,
    String,
>)
    requires
        addr matches Some(s) ==> parse_bus_addr(s@) is Some,
    ensures
        resolved_view(r) == resolve(opt_view(*addr), config_view(config@)),
{
    let ghost c = config_view(config@);
    match addr {
        Some(s) => {
            match parse_bus_addr_exec(s.as_str()) {
                Some((AddrKind::Tcp, rest)) => {
                    assert(resolve(Some(s@), c) == Ok::<AddrView, Seq<char>>(AddrView::Tcp(rest@)));
                    Ok(ResolvedBusAddr::Tcp(rest))
                },
                Some((AddrKind::Unix, rest)) => {
                    assert(resolve(Some(s@), c) == Ok::<AddrView, Seq<char>>(AddrView::Unix(rest@)));
                    Ok(ResolvedBusAddr::Unix(rest))
                },
                Some((AddrKind::Name, rest)) => {
                    let mut i: usize = 0;
                    while i < config.len()
                        invariant
                            c == config_view(config@),
                            parse_bus_addr(s@) == Some((AddrKind::Name, rest@)),
                            opt_view(*addr) == Some(s@),
                            i <= config@.len(),
                            find_entry(c, rest@, 0) == find_entry(c, rest@, i as int),
                        decreases config@.len() - i,
                    {
                        if config[i].0 == rest {
                            assert(c[i as int].0 == rest@);
                            let a = clone_addr(&config[i].1);
                            assert(a@ == c[i as int].1);
                            assert(resolve(Some(s@), c) == Ok::<AddrView, Seq<char>>(a@));
                            return Ok(a);
                        }
                        i = i + 1;
                    }
                    assert(find_entry(c, rest@, i as int) is None);
                    assert(resolve(Some(s@), c) == Err::<AddrView, Seq<char>>(not_found_error()));
                    let e = String::from_str("Address not found in config");
                    assert(e@ == not_found_error());
                    Err(e)
                },
                None => Err(String::new()),
            }
        },
        None => {
            if config.len() == 0 {
                assert(c.len() == 0);
                let e = String::from_str(
                    "No default address found in config. Use the register command to add one or specify an address",
                );
                assert(e@ == no_default_error());
                assert(resolve(None, c) == Err::<AddrView, Seq<char>>(e@));
                Err(e)
            } else {
                let a = clone_addr(&config[0].1);
                assert(a@ == c[0].1);
                assert(resolve(None, c) == Ok::<AddrView, Seq<char>>(a@));
                Ok(a)
            }
        },
    }
}

/// The kind of separator at position `k` of a registry line, if any: ` tcp:` or ` unix:`.
pub open spec fn sep_kind_at(line: Seq<char>, k: int) -> Option<AddrKind> {
    if starts_with(line.skip(k), " tcp:"@) {
        Some(AddrKind::Tcp)
    } else if starts_with(line.skip(k), " unix:"@) {
        Some(AddrKind::Unix)
    } else {
        None
    }
}

/// The first separator at or after `k`.
pub open spec fn first_sep(line: Seq<char>, k: int) -> Option<(int, AddrKind)>
    decreases line.len() - k,
{
    if k < 0 || k >= line.len() {
        None
    } else {
        match sep_kind_at(line, k) {
            Some(kind) => Some((k, kind)),
            None => first_sep(line, k + 1),
        }
    }
}

/// The entry a registry line holds, as the pattern `(.+?) (tcp|unix):(.*?)\n`
/// reads it: the name is the shortest non-empty start of the line followed by
/// ` tcp:` or ` unix:`, and the address is the rest of the line.
pub open spec fn line_entry(line: Seq<char>) -> Option<(Seq<char>, AddrView)> {
    match first_sep(line, 1) {
        Some((k, AddrKind::Tcp)) => Some((line.take(k), AddrView::Tcp(line.skip(k + " tcp:"@.len())))),
        Some((k, AddrKind::Unix)) => Some(
            (line.take(k), AddrView::Unix(line.skip(k + " unix:"@.len()))),
        ),
        _ => None,
    }
}

/// The entries of the first `n` lines.
pub open spec fn entries(lines: Seq<Seq<char>>, n: int) -> Seq<(Seq<char>, AddrView)>
    decreases n,
{
    if n <= 0 {
        Seq::empty()
    } else {
        let prev = entries(lines, n - 1);
        match line_entry(lines[n - 1]) {
            Some(e) => prev.push(e),
            None => prev,
        }
    }
}

/// The registry written in `text`: one entry per newline-terminated line that
/// holds one; other lines, and an unterminated last line, are skipped.
pub open spec fn parse_config_spec(text: Seq<char>) -> Seq<(Seq<char>, AddrView)> {
    let lines = split_chars(text, '\n');
    entries(lines, lines.len() - 1)
}

fn line_entry_exec(line: &str) -> (r: Option<(String, ResolvedBusAddr)>)
    ensures
        match r {
            Some(e) => line_entry(line@) == Some(entry_view(e)),
            None => line_entry(line@) is None,
        },
{
    let n = line.unicode_len();
    let mut k: usize = 1;
    if n == 0 {
        return None;
    }
    while k < n
        invariant
            n == line@.len(),
            1 <= k <= n,
            first_sep(line@, 1) == first_sep(line@, k as int),
        decreases n - k,
    {
        let rest = line.substring_char(k, n);
        assert(rest@ == line@.skip(k as int));
        match strip_prefix_exec(rest, " tcp:") {
            Some(addr) => {
                let name = String::from_str(line.substring_char(0, k));
                assert(line@.skip(k as int).skip(" tcp:"@.len() as int) =~= line@.skip(k + " tcp:"@.len()));
                return Some((name, ResolvedBusAddr::Tcp(addr)));
            },
            None => {},
        }
        match strip_prefix_exec(rest, " unix:") {
            Some(addr) => {
                let name = String::from_str(line.substring_char(0, k));
                assert(line@.skip(k as int).skip(" unix:"@.len() as int) =~= line@.skip(k + " unix:"@.len()));
                return Some((name, ResolvedBusAddr::Unix(addr)));
            },
            None => {},
        }
        k = k + 1;
    }
    None
}

/// Reads the registry from the text of the configuration file.
pub fn parse_config_text(text: &str) -> (r: Vec<(String, ResolvedBusAddr)>)
    ensures
        config_view(r@) == parse_config_spec(text@),
{
    let lines = split_chars_exec(text, '\n');
    let ghost ls = strings_view(lines@);
    proof {
        crate::topic::lemma_split_nonempty(text@, '\n');
    }
    let mut out: Vec<(String, ResolvedBusAddr)> = Vec::new();
    let mut i: usize = 0;
    let total = lines.len() - 1;
    assert(config_view(out@) =~= entries(ls, 0));
    while i < total
        invariant
            ls == strings_view(lines@),
            total == lines@.len() - 1,
            i <= total,
            config_view(out@) == entries(ls, i as int),
        decreases total - i,
    {
        assert(ls[i as int] == lines@[i as int]@);
        match line_entry_exec(lines[i].as_str()) {
            Some(e) => {
                let ghost prev = out@;
                out.push(e);
                assert(config_view(out@) =~= config_view(prev).push(entry_view(e)));
            },
            None => {},
        }
        i = i + 1;
    }
    out
}

/// The text of a registry: one `name address` line per entry.
pub open spec fn config_text(c: Seq<(Seq<char>, AddrView)>) -> Seq<char>
    decreases c.len(),
{
    if c.len() == 0 {
        Seq::empty()
    } else {
        config_text(c.drop_last()) + c.last().0 + " "@ + addr_text(c.last().1) + "\n"@
    }
}

/// Writes the registry as the text of the configuration file.
pub fn serialize_config(config: &Vec<(String, ResolvedBusAddr)>) -> (r: String)
    ensures
        r@ == config_text(config_view(config@)),
{
    let ghost c = config_view(config@);
    let mut r = String::new();
    let mut i: usize = 0;
    assert(c.take(0) =~= Seq::<(Seq<char>, AddrView)>::empty());
    while i < config.len()
        invariant
            c == config_view(config@),
            i <= config@.len(),
            r@ == config_text(c.take(i as int)),
        decreases config@.len() - i,
    {
        assert(c.take(i + 1).drop_last() =~= c.take(i as int));
        assert(c.take(i + 1).last() == entry_view(config@[i as int]));
        r = r.concat(config[i].0.as_str()).concat(" ").concat(config[i].1.to_string().as_str()).concat(
            "\n",
        );
        i = i + 1;
    }
    assert(c.take(config@.len() as int) =~= c);
    r
}

/// The registry without the entries named `name`.
pub open spec fn without_name(c: Seq<(Seq<char>, AddrView)>, name: Seq<char>) -> Seq<
    (Seq<char>, AddrView),
>
    decreases c.len(),
{
    if c.len() == 0 {
        c
    } else {
        let prev = without_name(c.drop_last(), name);
        if c.last().0 == name {
            prev
        } else {
            prev.push(c.last())
        }
    }
}

/// The registry after registering `name` for `addr`: any old entry of that name
/// is dropped, and the new entry goes first (as the default address) or last.
pub open spec fn registered(
    c: Seq<(Seq<char>, AddrView)>,
    name: Seq<char>,
    addr: AddrView,
    default: bool,
) -> Seq<(Seq<char>, AddrView)> {
    let rest = without_name(c, name);
    if default {
        seq![(name, addr)] + rest
    } else {
        rest.push((name, addr))
    }
}

fn remove_named(config: Vec<(String, ResolvedBusAddr)>, name: &String) -> (r: Vec<
    (String, ResolvedBusAddr),
>)
    ensures
        config_view(r@) == without_name(config_view(config@), name@),
{
    let ghost c = config_view(config@);
    let mut out: Vec<(String, ResolvedBusAddr)> = Vec::new();
    let mut i: usize = 0;
    let mut rest = config;
    let ghost all = rest@;
    assert(c.take(0) =~= Seq::<(Seq<char>, AddrView)>::empty());
    assert(config_view(out@) =~= without_name(c.take(0), name@));
    while i < rest.len()
        invariant
            c == config_view(all),
            rest@ == all,
            i <= all.len(),
            config_view(out@) == without_name(c.take(i as int), name@),
        decreases all.len() - i,
    {
        assert(c.take(i + 1).drop_last() =~= c.take(i as int));
        assert(c.take(i + 1).last() == entry_view(all[i as int]));
        if rest[i].0 != *name {
            let e = (rest[i].0.clone(), clone_addr(&rest[i].1));
            let ghost prev = out@;
            out.push(e);
            assert(config_view(out@) =~= config_view(prev).push(entry_view(e)));
        }
        i = i + 1;
    }
    assert(c.take(all.len() as int) =~= c);
    out
}

/// Registers `name` for `addr`.
pub fn register(
    config: Vec<(String, ResolvedBusAddr)>,
    name: String,
    addr: ResolvedBusAddr,
    default: bool,
) -> (r: Vec<(String, ResolvedBusAddr)>)
    ensures
        config_view(r@) == registered(config_view(config@), name@, addr@, default),
{
    let mut rest = remove_named(config, &name);
    let ghost prev = rest@;
    let e = (name, addr);
    if default {
        rest.insert(0, e);
        assert(config_view(rest@) =~= seq![entry_view(e)] + config_view(prev));
    } else {
        rest.push(e);
        assert(config_view(rest@) =~= config_view(prev).push(entry_view(e)));
    }
    rest
}

/// Removes the entries named `name`.
pub fn unregister(config: Vec<(String, ResolvedBusAddr)>, name: &String) -> (r: Vec<
    (String, ResolvedBusAddr),
>)
    ensures
        config_view(r@) == without_name(config_view(config@), name@),
{
    remove_named(config, name)
}

/// The commands of the `t2` tool.
pub enum Commands {
    Serve { addr: Vec<String> },
    Sub { topic: String, addr: Option<String> },
    Pub { topic: String, value: String, addr: Option<String> },
    Lst { topic: String, addr: Option<String> },
    Register { name: String, addr: String, default: bool },
    Unregister { name: String },
}

pub open spec fn unknown_protocol_error() -> Seq<char> {
    "Unknown protocol"@
}

pub open spec fn invalid_f32_error() -> Seq<char> {
    "When the topic starts with f32/ then the value must be a valid f32"@
}

/// The check of a command before it runs: a published value must be of a known
/// protocol (`f32/` or `string/`), and an `f32/` value must be a number.
pub open spec fn validation(c: Commands, value_is_f32: bool) -> Result<(), Seq<char>> {
    match c {
        Commands::Pub { topic, value, addr } => if !(starts_with(topic@, "f32/"@) || starts_with(
            topic@,
            "string/"@,
        )) {
            Err(unknown_protocol_error())
        } else if starts_with(topic@, "f32/"@) && !value_is_f32 {
            Err(invalid_f32_error())
        } else {
            Ok(())
        },
        _ => Ok(()),
    }
}

impl Commands {
    /// Checks the command; `value_is_f32` tells whether the published value
    /// (for `Pub`) parses as an `f32`.
    pub fn validate(&self, value_is_f32: bool) -> (r: Result<(), String>)
        ensures
            match (r, validation(*self, value_is_f32)) {
                (Ok(_), Ok(_)) => true,
                (Err(e), Err(m)) => e@ == m,
                _ => false,
            },
    {
        match self {
            Commands::Pub { topic, .. } => {
                let is_f32 = starts_with_exec(topic.as_str(), "f32/");
                let is_string = starts_with_exec(topic.as_str(), "string/");
                if !(is_f32 || is_string) {
                    return Err(String::from_str("Unknown protocol"));
                }
                if is_f32 && !value_is_f32 {
                    return Err(String::from_str(
                        "When the topic starts with f32/ then the value must be a valid f32",
                    ));
                }
                Ok(())
            },
            _ => Ok(()),
        }
    }
}

/// How a received payload is shown, by the protocol its topic names.
#[derive(Clone, Copy, Debug, PartialEq, Eq)]
pub enum PayloadKind {
    F32,
    Text,
    Raw,
}

pub open spec fn payload_kind_of(topic: Seq<char>) -> PayloadKind {
    if starts_with(topic, "f32/"@) {
        PayloadKind::F32
    } else if starts_with(topic, "string/"@) {
        PayloadKind::Text
    } else {
        PayloadKind::Raw
    }
}

/// The protocol of a received topic: `f32/` topics carry numbers, `string/`
/// topics carry text, others raw bytes.
pub fn payload_kind(topic: &str) -> (r: PayloadKind)
    ensures
        r == payload_kind_of(topic@),
{
    if starts_with_exec(topic, "f32/") {
        PayloadKind::F32
    } else if starts_with_exec(topic, "string/") {
        PayloadKind::Text
    } else {
        PayloadKind::Raw
    }
}

/// The lower-case hexadecimal digit of `d`.
pub open spec fn hex_digit(d: nat) -> char {
    if d < 10 {
        crate::text::digit_char(d)
    } else if d == 10 {
        'a'
    } else if d == 11 {
        'b'
    } else if d == 12 {
        'c'
    } else if d == 13 {
        'd'
    } else if d == 14 {
        'e'
    } else {
        'f'
    }
}

/// The lower-case hexadecimal text of `bytes`, two digits per byte.
pub open spec fn hex_text(bytes: Seq<u8>) -> Seq<char>
    decreases bytes.len(),
{
    if bytes.len() == 0 {
        Seq::empty()
    } else {
        hex_text(bytes.drop_last()) + seq![
            hex_digit((bytes.last() / 16) as nat),
            hex_digit((bytes.last() % 16) as nat),
        ]
    }
}

fn hex_digit_str(d: u8) -> (r: &'static str)
    requires
        d < 16,
    ensures
        r@ == seq![hex_digit(d as nat)],
{
    proof {
        reveal_strlit("0");
        reveal_strlit("1");
        reveal_strlit("2");
        reveal_strlit("3");
        reveal_strlit("4");
        reveal_strlit("5");
        reveal_strlit("6");
        reveal_strlit("7");
        reveal_strlit("8");
        reveal_strlit("9");
        reveal_strlit("a");
        reveal_strlit("b");
        reveal_strlit("c");
        reveal_strlit("d");
        reveal_strlit("e");
        reveal_strlit("f");
    }
    let r = if d == 0 {
        "0"
    } else if d == 1 {
        "1"
    } else if d == 2 {
        "2"
    } else if d == 3 {
        "3"
    } else if d == 4 {
        "4"
    } else if d == 5 {
        "5"
    } else if d == 6 {
        "6"
    } else if d == 7 {
        "7"
    } else if d == 8 {
        "8"
    } else if d == 9 {
        "9"
    } else if d == 10 {
        "a"
    } else if d == 11 {
        "b"
    } else if d == 12 {
        "c"
    } else if d == 13 {
        "d"
    } else if d == 14 {
        "e"
    } else {
        "f"
    };
    assert(r@ =~= seq![hex_digit(d as nat)]);
    r
}

/// A raw payload shown as `0x` and its hexadecimal bytes.
pub fn raw_payload_text(bytes: &[u8]) -> (r: String)
    ensures
        r@ == "0x"@ + hex_text(bytes@),
{
    let mut r = String::from_str("0x");
    let mut i: usize = 0;
    assert(bytes@.take(0) =~= Seq::<u8>::empty());
    while i < bytes.len()
        invariant
            i <= bytes@.len(),
            r@ == "0x"@ + hex_text(bytes@.take(i as int)),
        decreases bytes@.len() - i,
    {
        let b = bytes[i];
        assert(bytes@.take(i + 1).drop_last() =~= bytes@.take(i as int));
        assert(bytes@.take(i + 1).last() == b);
        let ghost before = r@;
        r.append(hex_digit_str(b / 16));
        r.append(hex_digit_str(b % 16));
        assert(r@ =~= before + seq![hex_digit((b / 16) as nat), hex_digit((b % 16) as nat)]);
        i = i + 1;
    }
    assert(bytes@.take(bytes@.len() as int) =~= bytes@);
    r
}

/// One line of the registry text.
pub open spec fn entry_line(e: (Seq<char>, AddrView)) -> Seq<char> {
    e.0 + " "@ + addr_text(e.1)
}

/// An entry the registry text can hold faithfully: a valid name, and an
/// address without newlines.
pub open spec fn writable_entry(e: (Seq<char>, AddrView)) -> bool {
    &&& is_addr_name(e.0)
    &&& match e.1 {
        AddrView::Tcp(a) => !a.contains('\n'),
        AddrView::Unix(a) => !a.contains('\n'),
    }
}

proof fn lemma_first_sep_in_line(e: (Seq<char>, AddrView), j: int)
    requires
        writable_entry(e),
        1 <= j <= e.0.len(),
    ensures
        first_sep(entry_line(e), j) == Some(
            (
                e.0.len() as int,
                match e.1 {
                    AddrView::Tcp(_) => AddrKind::Tcp,
                    AddrView::Unix(_) => AddrKind::Unix,
                },
            ),
        ),
    decreases e.0.len() - j,
{
    reveal_strlit(" ");
    reveal_strlit("tcp:");
    reveal_strlit("unix:");
    reveal_strlit(" tcp:");
    reveal_strlit(" unix:");
    let line = entry_line(e);
    let k = e.0.len() as int;
    if j < k {
        assert(line[j] == e.0[j]);
        assert(line.skip(j)[0] == e.0[j]);
        assert(e.0[j] != ' ');
        assert(!starts_with(line.skip(j), " tcp:"@)) by {
            if starts_with(line.skip(j), " tcp:"@) {
                assert(line.skip(j).take(5)[0] == ' ');
            }
        }
        assert(!starts_with(line.skip(j), " unix:"@)) by {
            if starts_with(line.skip(j), " unix:"@) {
                assert(line.skip(j).take(6)[0] == ' ');
            }
        }
        lemma_first_sep_in_line(e, j + 1);
    } else {
        match e.1 {
            AddrView::Tcp(a) => {
                assert(line.skip(k).take(5) =~= " tcp:"@);
            },
            AddrView::Unix(a) => {
                assert(line.skip(k).take(5)[1] == 'u');
                assert(!starts_with(line.skip(k), " tcp:"@)) by {
                    if starts_with(line.skip(k), " tcp:"@) {
                        assert(line.skip(k).take(5)[1] == 't');
                    }
                }
                assert(line.skip(k).take(6) =~= " unix:"@);
            },
        }
    }
}

proof fn lemma_line_entry(e: (Seq<char>, AddrView))
    requires
        writable_entry(e),
    ensures
        line_entry(entry_line(e)) == Some(e),
{
    reveal_strlit(" ");
    reveal_strlit("tcp:");
    reveal_strlit("unix:");
    reveal_strlit(" tcp:");
    reveal_strlit(" unix:");
    lemma_first_sep_in_line(e, 1);
    let line = entry_line(e);
    let k = e.0.len() as int;
    assert(line.take(k) =~= e.0);
    match e.1 {
        AddrView::Tcp(a) => {
            assert(line.skip(k + 5) =~= a);
        },
        AddrView::Unix(a) => {
            assert(line.skip(k + 6) =~= a);
        },
    }
}

proof fn lemma_entry_line_no_newline(e: (Seq<char>, AddrView))
    requires
        writable_entry(e),
    ensures
        !entry_line(e).contains('\n'),
{
    reveal_strlit(" ");
    reveal_strlit("tcp:");
    reveal_strlit("unix:");
    let line = entry_line(e);
    if line.contains('\n') {
        let i = choose|i: int| 0 <= i < line.len() && line[i] == '\n';
        let k = e.0.len() as int;
        if i < k {
            assert(line[i] == e.0[i]);
        } else if i == k {
        } else {
            match e.1 {
                AddrView::Tcp(a) => {
                    if i >= k + 5 {
                        assert(line[i] == a[i - k - 5]);
                    }
                },
                AddrView::Unix(a) => {
                    if i >= k + 6 {
                        assert(line[i] == a[i - k - 6]);
                    }
                },
            }
        }
    }
}

proof fn lemma_split_config_text(c: Seq<(Seq<char>, AddrView)>)
    requires
        forall|i: int| 0 <= i < c.len() ==> writable_entry(#[trigger] c[i]),
    ensures
        split_chars(config_text(c), '\n') == c.map_values(|e: (Seq<char>, AddrView)| entry_line(e)).push(
            Seq::empty(),
        ),
    decreases c.len(),
{
    reveal_strlit("\n");
    if c.len() == 0 {
        assert(split_chars(config_text(c), '\n') =~= seq![Seq::<char>::empty()]);
        assert(c.map_values(|e: (Seq<char>, AddrView)| entry_line(e)).push(Seq::empty()) =~= seq![
            Seq::<char>::empty(),
        ]);
    } else {
        let init = c.drop_last();
        assert forall|i: int| 0 <= i < init.len() implies writable_entry(#[trigger] init[i]) by {
            assert(init[i] == c[i]);
        }
        lemma_split_config_text(init);
        let t0 = config_text(init);
        let e = c.last();
        assert(writable_entry(c[c.len() - 1]));
        let line = entry_line(e);
        lemma_entry_line_no_newline(e);
        lemma_split_append(t0, line, '\n');
        let t1 = t0 + line;
        assert(config_text(c) =~= t1.push('\n'));
        assert(t1.push('\n').drop_last() =~= t1);
        let lines0 = init.map_values(|e: (Seq<char>, AddrView)| entry_line(e));
        assert(Seq::<char>::empty() + line =~= line);
        assert(lines0.push(Seq::empty()).update(lines0.len() as int, Seq::<char>::empty() + line) =~= lines0.push(line));
        assert(c.map_values(|e: (Seq<char>, AddrView)| entry_line(e)) =~= lines0.push(line));
    }
}

proof fn lemma_entries_of_lines(c: Seq<(Seq<char>, AddrView)>, ls: Seq<Seq<char>>, k: int)
    requires
        forall|i: int| 0 <= i < c.len() ==> writable_entry(#[trigger] c[i]),
        0 <= k <= c.len(),
        c.len() <= ls.len(),
        forall|i: int| 0 <= i < c.len() ==> #[trigger] ls[i] == entry_line(c[i]),
    ensures
        entries(ls, k) == c.take(k),
    decreases k,
{
    if k > 0 {
        lemma_entries_of_lines(c, ls, k - 1);
        assert(ls[k - 1] == entry_line(c[k - 1]));
        lemma_line_entry(c[k - 1]);
        assert(c.take(k) =~= c.take(k - 1).push(c[k - 1]));
    } else {
        assert(c.take(0) =~= Seq::<(Seq<char>, AddrView)>::empty());
    }
}

/// Reading back what was written: the registry text of entries with valid
/// names and one-line addresses parses to the same entries.
pub proof fn lemma_config_round_trip(c: Seq<(Seq<char>, AddrView)>)
    requires
        forall|i: int| 0 <= i < c.len() ==> writable_entry(#[trigger] c[i]),
    ensures
        parse_config_spec(config_text(c)) == c,
{
    lemma_split_config_text(c);
    let ls = split_chars(config_text(c), '\n');
    let lines = c.map_values(|e: (Seq<char>, AddrView)| entry_line(e));
    assert forall|i: int| 0 <= i < c.len() implies #[trigger] ls[i] == entry_line(c[i]) by {
        assert(ls[i] == lines[i]);
    }
    lemma_entries_of_lines(c, ls, c.len() as int);
    assert(c.take(c.len() as int) =~= c);
}

proof fn lemma_without_name(c: Seq<(Seq<char>, AddrView)>, name: Seq<char>)
    ensures
        forall|i: int| 0 <= i < without_name(c, name).len() ==> (#[trigger] without_name(c, name)[i]).0 != name,
    decreases c.len(),
{
    if c.len() > 0 {
        lemma_without_name(c.drop_last(), name);
        let prev = without_name(c.drop_last(), name);
        let r = without_name(c, name);
        assert forall|i: int| 0 <= i < r.len() implies (#[trigger] r[i]).0 != name by {
            if i < prev.len() {
                assert(r[i] == prev[i]);
            }
        }
    }
}

proof fn lemma_find_entry_skips(c: Seq<(Seq<char>, AddrView)>, name: Seq<char>, i: int)
    requires
        0 <= i < c.len(),
        forall|j: int| i <= j < c.len() - 1 ==> (#[trigger] c[j]).0 != name,
        c.len() > 0,
        c.last().0 == name,
    ensures
        find_entry(c, name, i) == Some((c.len() - 1) as int),
    decreases c.len() - i,
{
    if i < c.len() - 1 {
        assert(c[i].0 != name);
        lemma_find_entry_skips(c, name, i + 1);
    } else {
        assert(c[c.len() - 1] == c.last());
    }
}

/// After registering `name` for `addr`, the address `name:<name>` resolves to `addr`.
pub proof fn lemma_register_then_resolve(
    c: Seq<(Seq<char>, AddrView)>,
    name: Seq<char>,
    addr: AddrView,
    default: bool,
)
    requires
        is_addr_name(name),
    ensures
        resolve(Some("name:"@ + name), registered(c, name, addr, default)) == Ok::<
            AddrView,
            Seq<char>,
        >(addr),
{
    reveal_strlit("name:");
    reveal_strlit("tcp:");
    reveal_strlit("unix:");
    let s = "name:"@ + name;
    assert(s.take(5) =~= "name:"@);
    assert(s.skip(5) =~= name);
    assert(!starts_with(s, "tcp:"@)) by {
        if starts_with(s, "tcp:"@) {
            assert(s.take(4)[0] == 't');
        }
    }
    assert(!starts_with(s, "unix:"@)) by {
        if starts_with(s, "unix:"@) {
            assert(s.take(5)[0] == 'u');
        }
    }
    assert(!name.contains('\n')) by {
        if name.contains('\n') {
            let i = choose|i: int| 0 <= i < name.len() && name[i] == '\n';
            assert(('a' <= name[i] && name[i] <= 'z') || name[i] == '_');
        }
    }
    assert(parse_bus_addr(s) == Some((AddrKind::Name, name)));
    let r = registered(c, name, addr, default);
    if default {
        assert(r[0] == (name, addr));
    } else {
        let rest = without_name(c, name);
        lemma_without_name(c, name);
        assert(r == rest.push((name, addr)));
        assert forall|j: int| 0 <= j < r.len() - 1 implies (#[trigger] r[j]).0 != name by {
            assert(r[j] == rest[j]);
        }
        lemma_find_entry_skips(r, name, 0);
    }
}

/// Whether a registry entry has a name other than `name`.
pub open spec fn other_name(name: Seq<char>) -> spec_fn((Seq<char>, AddrView)) -> bool {
    |e: (Seq<char>, AddrView)| e.0 != name
}

/// Removing a name keeps every entry of another name, in order, and only
/// those: an entry whose name merely starts with, or contains, the removed name
/// stays.
pub proof fn lemma_without_name_keeps_other_names(c: Seq<(Seq<char>, AddrView)>, name: Seq<char>)
    ensures
        without_name(c, name) == c.filter(other_name(name)),
        forall|e: (Seq<char>, AddrView)|
            #[trigger] without_name(c, name).contains(e) <==> (c.contains(e) && e.0 != name),
    decreases c.len(),
{
    let f = other_name(name);
    reveal(Seq::filter);
    if c.len() > 0 {
        lemma_without_name_keeps_other_names(c.drop_last(), name);
    }
    assert(without_name(c, name) =~= c.filter(f));
    c.filter_lemma(f);
    assert forall|e: (Seq<char>, AddrView)|
        #[trigger] without_name(c, name).contains(e) implies (c.contains(e) && e.0 != name) by {
        let k = choose|k: int| 0 <= k < c.filter(f).len() && c.filter(f)[k] == e;
        assert(f(c.filter(f)[k]));
        c.lemma_filter_contains_rev(f, e);
    }
    assert forall|e: (Seq<char>, AddrView)|
        c.contains(e) && e.0 != name implies #[trigger] without_name(c, name).contains(e) by {
        let k = choose|k: int| 0 <= k < c.len() && c[k] == e;
        assert(f(c[k]));
        assert(c.filter(f).contains(c[k]));
    }
}

/// Registering `name` leaves exactly one entry of that name, the new one, and
/// keeps every entry of another name, in order.
pub proof fn lemma_register_replaces_only_that_name(
    c: Seq<(Seq<char>, AddrView)>,
    name: Seq<char>,
    addr: AddrView,
    default: bool,
)
    ensures
        registered(c, name, addr, default).filter(other_name(name)) == c.filter(other_name(name)),
        registered(c, name, addr, default).contains((name, addr)),
        forall|e: (Seq<char>, AddrView)|
            #[trigger] registered(c, name, addr, default).contains(e) && e.0 == name ==> e == (
                name,
                addr,
            ),
{
    let f = other_name(name);
    reveal(Seq::filter);
    lemma_without_name_keeps_other_names(c, name);
    let rest = without_name(c, name);
    let r = registered(c, name, addr, default);
    lemma_without_name_keeps_other_names(rest, name);
    assert(rest.filter(f) =~= rest) by {
        assert forall|e: (Seq<char>, AddrView)| #[trigger] rest.contains(e) implies e.0 != name by {}
        lemma_filter_keeps_all(rest, f);
    }
    let head = seq![(name, addr)];
    assert(head.drop_last() =~= Seq::<(Seq<char>, AddrView)>::empty());
    assert(!f(head.last()));
    assert(Seq::<(Seq<char>, AddrView)>::empty().filter(f) =~= Seq::<(Seq<char>, AddrView)>::empty());
    assert(head.filter(f) =~= Seq::<(Seq<char>, AddrView)>::empty());
    if default {
        assert(r == head + rest);
        Seq::filter_distributes_over_add(head, rest, f);
        assert(Seq::<(Seq<char>, AddrView)>::empty() + rest =~= rest);
        assert(r[0] == (name, addr));
        assert forall|e: (Seq<char>, AddrView)| #[trigger] r.contains(e) && e.0 == name implies e == (
            name,
            addr,
        ) by {
            let k = choose|k: int| 0 <= k < r.len() && r[k] == e;
            if k > 0 {
                assert(rest.contains(r[k]));
            }
        }
    } else {
        assert(r == rest + head);
        Seq::filter_distributes_over_add(rest, head, f);
        assert(rest + Seq::<(Seq<char>, AddrView)>::empty() =~= rest);
        assert(r[r.len() - 1] == (name, addr));
        assert forall|e: (Seq<char>, AddrView)| #[trigger] r.contains(e) && e.0 == name implies e == (
            name,
            addr,
        ) by {
            let k = choose|k: int| 0 <= k < r.len() && r[k] == e;
            if k < r.len() - 1 {
                assert(rest.contains(r[k]));
            }
        }
    }
}

proof fn lemma_filter_keeps_all(s: Seq<(Seq<char>, AddrView)>, f: spec_fn((Seq<char>, AddrView)) -> bool)
    requires
        forall|e: (Seq<char>, AddrView)| #[trigger] s.contains(e) ==> f(e),
    ensures
        s.filter(f) == s,
    decreases s.len(),
{
    reveal(Seq::filter);
    if s.len() > 0 {
        let init = s.drop_last();
        assert forall|e: (Seq<char>, AddrView)| #[trigger] init.contains(e) implies f(e) by {
            let k = choose|k: int| 0 <= k < init.len() && init[k] == e;
            assert(s[k] == e);
            assert(s.contains(s[k]));
        }
        lemma_filter_keeps_all(init, f);
        assert(s.contains(s.last())) by {
            assert(s[s.len() - 1] == s.last());
        }
        assert(init.push(s.last()) =~= s);
    }
}

/// What the check of a `pub` command decides: a topic under `string/` takes any
/// value; a topic under `f32/` takes exactly the values that are numbers; any
/// other topic is refused as of an unknown protocol. Other commands always pass.
pub proof fn lemma_pub_validation(topic: String, value: String, addr: Option<String>, value_is_f32: bool)
    ensures
        starts_with(topic@, "string/"@) ==> validation(
            Commands::Pub { topic, value, addr },
            value_is_f32,
        ) is Ok,
        starts_with(topic@, "f32/"@) ==> (validation(Commands::Pub { topic, value, addr }, value_is_f32)
            is Ok <==> value_is_f32),
        starts_with(topic@, "f32/"@) && !value_is_f32 ==> validation(
            Commands::Pub { topic, value, addr },
            value_is_f32,
        ) == Err::<(), Seq<char>>("When the topic starts with f32/ then the value must be a valid f32"@),
        !starts_with(topic@, "string/"@) && !starts_with(topic@, "f32/"@) ==> validation(
            Commands::Pub { topic, value, addr },
            value_is_f32,
        ) == Err::<(), Seq<char>>("Unknown protocol"@),
{
    reveal_strlit("string/");
    reveal_strlit("f32/");
    if starts_with(topic@, "string/"@) && starts_with(topic@, "f32/"@) {
        assert(topic@[0] == "string/"@[0]);
        assert(topic@[0] == "f32/"@[0]);
    }
}

/// The address grammar, spelled out: `tcp:`, `unix:` or `name:` followed by a
/// non-empty text without a newline gives that kind and that text; a string
/// that begins with none of the three is no address.
pub proof fn lemma_bus_addr_grammar(rest: Seq<char>, s: Seq<char>)
    ensures
        rest.len() > 0 && !rest.contains('\n') ==> parse_bus_addr("tcp:"@ + rest) == Some((AddrKind::Tcp, rest))
            && parse_bus_addr("unix:"@ + rest) == Some((AddrKind::Unix, rest)) && parse_bus_addr(
            "name:"@ + rest,
        ) == Some((AddrKind::Name, rest)),
        (rest.len() == 0 || rest.contains('\n')) ==> parse_bus_addr("tcp:"@ + rest) is None
            && parse_bus_addr("unix:"@ + rest) is None && parse_bus_addr("name:"@ + rest) is None,
        !starts_with(s, "tcp:"@) && !starts_with(s, "unix:"@) && !starts_with(s, "name:"@)
            ==> parse_bus_addr(s) is None,
{
    reveal_strlit("tcp:");
    reveal_strlit("unix:");
    reveal_strlit("name:");
    let t = "tcp:"@ + rest;
    let u = "unix:"@ + rest;
    let n = "name:"@ + rest;
    assert(t.take(4) =~= "tcp:"@);
    assert(t.skip(4) =~= rest);
    assert(u.take(5) =~= "unix:"@);
    assert(u.skip(5) =~= rest);
    assert(n.take(5) =~= "name:"@);
    assert(n.skip(5) =~= rest);
    assert(u[0] == 'u');
    assert(n[0] == 'n');
    assert(!starts_with(u, "tcp:"@)) by {
        assert(u.take(4)[0] != "tcp:"@[0]);
    }
    assert(!starts_with(n, "tcp:"@)) by {
        assert(n.take(4)[0] != "tcp:"@[0]);
    }
    assert(!starts_with(n, "unix:"@)) by {
        assert(n.take(5)[0] != "unix:"@[0]);
    }
}

/// Registering with `--default` makes the new address the one used when no
/// address is given; without it, the default stays the first remaining entry.
pub proof fn lemma_register_default_then_resolve(
    c: Seq<(Seq<char>, AddrView)>,
    name: Seq<char>,
    addr: AddrView,
)
    ensures
        resolve(None, registered(c, name, addr, true)) == Ok::<AddrView, Seq<char>>(addr),
        c.len() > 0 && c[0].0 != name ==> resolve(None, registered(c, name, addr, false)) == Ok::<
            AddrView,
            Seq<char>,
        >(c[0].1),
{
    lemma_without_name_keeps_other_names(c, name);
    let rest = without_name(c, name);
    assert((seq![(name, addr)] + rest)[0] == (name, addr));
    if c.len() > 0 && c[0].0 != name {
        reveal(Seq::filter);
        lemma_without_name_first(c, name);
        assert(rest.len() > 0 && rest[0] == c[0]);
        assert(rest.push((name, addr))[0] == c[0]);
    }
}

proof fn lemma_without_name_first(c: Seq<(Seq<char>, AddrView)>, name: Seq<char>)
    requires
        c.len() > 0,
        c[0].0 != name,
    ensures
        without_name(c, name).len() > 0,
        without_name(c, name)[0] == c[0],
    decreases c.len(),
{
    let prev = without_name(c.drop_last(), name);
    if c.len() > 1 {
        lemma_without_name_first(c.drop_last(), name);
        assert(c.drop_last()[0] == c[0]);
        assert(prev.len() > 0 && prev[0] == c[0]);
        if c.last().0 != name {
            assert(prev.push(c.last())[0] == c[0]);
        }
    } else {
        assert(c.drop_last().len() == 0);
        assert(prev.len() == 0);
        assert(c.last() == c[0]);
        assert(prev.push(c.last())[0] == c[0]);
    }
}

/// The text of bytes shown raw: two lower-case hexadecimal digits per byte,
/// high nibble first, in the order of the bytes.
pub proof fn lemma_hex_text_digits(bytes: Seq<u8>)
    ensures
        hex_text(bytes).len() == 2 * bytes.len(),
        forall|i: int|
            0 <= i < bytes.len() ==> hex_text(bytes)[2 * i] == "0123456789abcdef"@[(#[trigger] bytes[i]
                / 16) as int] && hex_text(bytes)[2 * i + 1] == "0123456789abcdef"@[(bytes[i] % 16) as int],
    decreases bytes.len(),
{
    reveal_strlit("0123456789abcdef");
    if bytes.len() > 0 {
        let init = bytes.drop_last();
        lemma_hex_text_digits(init);
        let b = bytes.last();
        assert forall|d: nat| d < 16 implies hex_digit(d) == "0123456789abcdef"@[d as int] by {}
        assert(b / 16 < 16);
        assert forall|i: int| 0 <= i < bytes.len() implies hex_text(bytes)[2 * i] == "0123456789abcdef"@[(
            #[trigger] bytes[i] / 16) as int] && hex_text(bytes)[2 * i + 1] == "0123456789abcdef"@[(bytes[i]
            % 16) as int] by {
            if i < bytes.len() - 1 {
                assert(bytes[i] == init[i]);
            } else {
                assert(bytes[i] == b);
            }
        }
    }
}

} // verus!
