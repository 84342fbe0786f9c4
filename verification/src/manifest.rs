//! Package manifests and the capability policy.
//!
//! A Resid package is a directory containing `resid.toml`; build profiles
//! are debug (default), release and check. Capabilities are granted by
//! family (`filesystem`, `net`, ...), optionally narrowed to path scopes:
//! `filesystem(scope=["config/**"])`.

use vstd::prelude::*;

use crate::registry::path_join;
use crate::text::{
    chars_eq, chars_of, find_first, find_last, first_index, has_prefix, last_index, push_char,
    push_decimal, push_str, slice_to_vec, str_eq, string_of, string_of_chars, trim, trim_chars,
    trim_start, decimal,
};
use vstd::string::StringSliceAdditionalSpecFns;

verus! {

/// Build profile.
#[derive(Debug, Clone, Copy, PartialEq, Eq, Structural)]
pub enum Profile {
    Debug,
    Release,
    Check,
}

/// The name of a profile.
pub open spec fn profile_name(p: Profile) -> Seq<char> {
    match p {
        Profile::Debug => "debug"@,
        Profile::Release => "release"@,
        Profile::Check => "check"@,
    }
}

impl Profile {
    /// The profile a name denotes: `debug`, `release` or `check`.
    pub fn parse(s: &str) -> (r: Result<Profile, String>)
        ensures
            s@ == "debug"@ ==> r == Ok::<Profile, String>(Profile::Debug),
            s@ == "release"@ ==> r == Ok::<Profile, String>(Profile::Release),
            s@ == "check"@ ==> r == Ok::<Profile, String>(Profile::Check),
            s@ != "debug"@ && s@ != "release"@ && s@ != "check"@ ==> (r matches Err(e) && e@
                == "unknown profile `"@ + s@ + "` (expected debug | release | check)"@),
    {
        proof {
            reveal_strlit("debug");
            reveal_strlit("release");
            reveal_strlit("check");
            assert("debug"@[0] != "check"@[0]);
        }
        if str_eq(s, "debug") {
            Ok(Profile::Debug)
        } else if str_eq(s, "release") {
            Ok(Profile::Release)
        } else if str_eq(s, "check") {
            Ok(Profile::Check)
        } else {
            let mut m = string_of("unknown profile `");
            push_str(&mut m, s);
            push_str(&mut m, "` (expected debug | release | check)");
            Err(m)
        }
    }

    /// The name of this profile.
    pub fn as_str(&self) -> (s: &'static str)
        ensures
            s@ == profile_name(*self),
    {
        match self {
            Profile::Debug => "debug",
            Profile::Release => "release",
            Profile::Check => "check",
        }
    }
}

/// Parsing the name of a profile gives the profile back.
pub proof fn lemma_profile_name_roundtrip(p: Profile, q: Profile)
    ensures
        profile_name(p) == profile_name(q) ==> p == q,
        profile_name(p) == "debug"@ || profile_name(p) == "release"@ || profile_name(p)
            == "check"@,
{
    reveal_strlit("debug");
    reveal_strlit("release");
    reveal_strlit("check");
    assert("debug"@[0] != "check"@[0]);
    assert("debug"@ != "release"@);
    assert("check"@ != "release"@);
}

/// A dependency declared in `[dependencies.<name>]`.
#[derive(Debug)]
pub struct Dependency {
    pub name: String,
    /// Directory of the dependency package.
    pub manifest_path: String,
    /// Resolved root source of the dependency.
    pub path: String,
    /// Declared capability requirements.
    pub capabilities: Vec<String>,
}

/// A parsed capability grant: family plus optional scope globs.
#[derive(Debug)]
pub struct Grant {
    pub family: String,
    /// Scope patterns from `scope=["a/**", "b"]` when present.
    pub scopes: Vec<String>,
}

/// A parsed `resid.toml`.
#[derive(Debug)]
pub struct Manifest {
    pub name: String,
    pub version: String,
    /// Crate root source file, resolved relative to the package directory.
    pub root: String,
    pub target_triple: Option<String>,
    /// Dependencies, each after its own dependencies.
    pub dependencies: Vec<Dependency>,
    /// Granted capability families, from `[capabilities] grant`.
    pub granted_capabilities: Vec<String>,
    /// Parsed grant expressions (family + optional scope globs).
    pub grants: Vec<Grant>,
    /// Directory containing resid.toml.
    pub dir: String,
}

/// Why a manifest could not be loaded; the outside errors are carried as
/// their display text.
#[derive(Debug)]
pub enum LoadError {
    Read(String, String),
    Parse(String, String),
    /// Semantic problem with the manifest contents.
    Invalid(String),
}

impl LoadError {
    /// The message the error displays.
    pub fn message(&self) -> (s: String)
        ensures
            self matches LoadError::Read(p, e) ==> s@ == "cannot read '"@ + p@ + "': "@ + e@,
            self matches LoadError::Parse(p, e) ==> s@ == "invalid resid.toml at '"@ + p@ + "': "@
                + e@,
            self matches LoadError::Invalid(m) ==> s@ == "invalid resid.toml: "@ + m@,
    {
        match self {
            LoadError::Read(p, e) => {
                let mut s = string_of("cannot read '");
                push_str(&mut s, p.as_str());
                push_str(&mut s, "': ");
                push_str(&mut s, e.as_str());
                s
            },
            LoadError::Parse(p, e) => {
                let mut s = string_of("invalid resid.toml at '");
                push_str(&mut s, p.as_str());
                push_str(&mut s, "': ");
                push_str(&mut s, e.as_str());
                s
            },
            LoadError::Invalid(m) => {
                let mut s = string_of("invalid resid.toml: ");
                push_str(&mut s, m.as_str());
                s
            },
        }
    }
}

impl Manifest {
    /// Default output directory for build artifacts: `<dir>/target/resid`.
    pub fn out_dir(&self) -> (s: String)
        ensures
            s@ == path_join(path_join(self.dir@, "target"@), "resid"@),
    {
        let t = crate::registry::join_path(self.dir.as_str(), "target");
        crate::registry::join_path(t.as_str(), "resid")
    }
}

/// The message for a blank package name.
pub open spec fn empty_name_message() -> Seq<char> {
    "[package] name must not be empty"@
}

/// The message for a blank package version.
pub open spec fn empty_version_message() -> Seq<char> {
    "[package] version must not be empty"@
}

/// The message for a dependency that requires a capability family that is
/// not granted.
pub open spec fn ungranted_message(name: Seq<char>, cap: Seq<char>, granted: Seq<Seq<char>>) -> Seq<char> {
    "dependency '"@ + name + "` requires capability `"@ + cap
        + "`, which is not granted under [capabilities] grant (granted: "@ + granted_list(granted) + ")"@
}

/// The message for a registry version requested without a registry.
pub open spec fn no_registry_message(name: Seq<char>, version: Seq<char>) -> Seq<char> {
    "dependency '"@ + name + "': version '"@ + version + "' requested but no [registry] path is configured"@
}

/// The message for a dependency with neither a path nor a version.
pub open spec fn no_source_message(name: Seq<char>) -> Seq<char> {
    "dependency '"@ + name + "': needs either `path` or `version`"@
}

/// The message for a dependency chain that is too deep.
pub open spec fn too_deep_message(name: Seq<char>) -> Seq<char> {
    "dependency '"@ + name + "': dependency chain deeper than 32 (cycle?)"@
}

/// The message for a dependency name that two directories claim.
pub open spec fn claimed_twice_message(name: Seq<char>, prev: Seq<char>, dir: Seq<char>) -> Seq<char> {
    "dependency name '"@ + name + "' claimed by both '"@ + prev + "' and '"@ + dir + "'"@
}

/// The message for a package that two directories provide.
pub open spec fn provided_twice_message(pkg: Seq<char>, prev: Seq<char>, dir: Seq<char>) -> Seq<char> {
    "package '"@ + pkg + "' provided by both '"@ + prev + "' and '"@ + dir
        + "' — conflicting dependency versions are not supported"@
}

/// The package name and version must not be blank.
pub fn validate_package(name: &str, version: &str) -> (r: Result<(), LoadError>)
    ensures
        trim(name@).len() == 0 ==> (r matches Err(LoadError::Invalid(m)) && m@ == empty_name_message()),
        trim(name@).len() > 0 && trim(version@).len() == 0 ==> (r matches Err(LoadError::Invalid(m)) && m@
            == empty_version_message()),
        trim(name@).len() > 0 && trim(version@).len() > 0 ==> r is Ok,
{
    let n = trim_chars(chars_of(name).as_slice());
    if n.len() == 0 {
        return Err(LoadError::Invalid(string_of("[package] name must not be empty")));
    }
    let v = trim_chars(chars_of(version).as_slice());
    if v.len() == 0 {
        return Err(LoadError::Invalid(string_of("[package] version must not be empty")));
    }
    Ok(())
}

// ─── Capabilities ──────────────────────────────────────────────────

/// The capability family of a capability expression: the text before any
/// `(...)` arguments, trimmed — `filesystem(scope=["x"])` → `filesystem`.
pub open spec fn family_of(cap: Seq<char>) -> Seq<char> {
    match first_index(cap, '(') {
        Some(i) => trim(cap.take(i)),
        None => trim(cap),
    }
}

proof fn lemma_first_index_absent(s: Seq<char>, c: char)
    requires
        !s.contains(c),
    ensures
        first_index(s, c) is None,
    decreases s.len(),
{
    if s.len() > 0 {
        assert forall|k: int| 0 <= k < s.drop_last().len() implies s.drop_last()[k] != c by {
            assert(s.drop_last()[k] == s[k]);
        }
        lemma_first_index_absent(s.drop_last(), c);
        assert(s.last() == s[s.len() - 1]);
    }
}

proof fn lemma_first_index_extend(p: Seq<char>, q: Seq<char>, c: char)
    requires
        first_index(p, c) is Some,
    ensures
        first_index(p + q, c) == first_index(p, c),
    decreases q.len(),
{
    if q.len() == 0 {
        assert(p + q =~= p);
    } else {
        lemma_first_index_extend(p, q.drop_last(), c);
        assert((p + q).drop_last() =~= p + q.drop_last());
    }
}

/// The family of `F(args)` is `F` trimmed, whatever the arguments: two
/// capabilities with the same head and different arguments are of one
/// family.
pub proof fn lemma_family_ignores_args(f: Seq<char>, a: Seq<char>, b: Seq<char>)
    requires
        !f.contains('('),
    ensures
        family_of(f + seq!['('] + a) == trim(f),
        family_of(f + seq!['('] + a) == family_of(f + seq!['('] + b),
{
    let h = f + seq!['('];
    assert(h.drop_last() =~= f);
    lemma_first_index_absent(f, '(');
    assert(first_index(h, '(') == Some(f.len() as int));
    lemma_first_index_extend(h, a, '(');
    lemma_first_index_extend(h, b, '(');
    assert((h + a).take(f.len() as int) =~= f);
    assert((h + b).take(f.len() as int) =~= f);
}

/// The capability family of a capability expression.
pub fn cap_family(cap: &str) -> (s: String)
    ensures
        s@ == family_of(cap@),
{
    let cs = chars_of(cap);
    match find_first(cs.as_slice(), '(') {
        Some(i) => {
            let head = slice_to_vec(cs.as_slice(), 0, i);
            assert(head@ =~= cap@.take(i as int));
            string_of_chars(trim_chars(head.as_slice()).as_slice())
        },
        None => string_of_chars(trim_chars(cs.as_slice()).as_slice()),
    }
}

/// The state of scanning for double-quoted strings: the strings closed so
/// far, the one being read, whether inside quotes, whether after `\`.
pub open spec fn quote_scan(s: Seq<char>) -> (Seq<Seq<char>>, Seq<char>, bool, bool)
    decreases s.len(),
{
    if s.len() == 0 {
        (Seq::empty(), Seq::empty(), false, false)
    } else {
        let (out, cur, in_str, esc) = quote_scan(s.drop_last());
        let c = s.last();
        if in_str {
            if esc {
                (out, cur.push(c), true, false)
            } else if c == '\\' {
                (out, cur, true, true)
            } else if c == '"' {
                (out.push(cur), Seq::empty(), false, false)
            } else {
                (out, cur.push(c), true, false)
            }
        } else if c == '"' {
            (out, cur, true, esc)
        } else {
            (out, cur, in_str, esc)
        }
    }
}

/// The views of a vector of strings.
pub open spec fn string_views(v: Seq<String>) -> Seq<Seq<char>> {
    v.map_values(|s: String| s@)
}

/// Splits out the closed double-quoted string literals of an argument list
/// (`\` escapes the next character).
pub fn split_quoted(s: &str) -> (r: Vec<String>)
    ensures
        string_views(r@) == quote_scan(s@).0,
{
    let cs = chars_of(s);
    let mut out: Vec<String> = Vec::new();
    let mut cur: Vec<char> = Vec::new();
    let mut in_str = false;
    let mut esc = false;
    let mut i: usize = 0;
    assert(cs@.take(0) =~= Seq::<char>::empty());
    assert(string_views(out@) =~= Seq::<Seq<char>>::empty());
    while i < cs.len()
        invariant
            i <= cs@.len(),
            cs@ == s@,
            quote_scan(cs@.take(i as int)) == (string_views(out@), cur@, in_str, esc),
        decreases cs@.len() - i,
    {
        let c = cs[i];
        assert(cs@.take(i + 1).drop_last() =~= cs@.take(i as int));
        assert(cs@.take(i + 1).last() == c);
        let ghost before = string_views(out@);
        if in_str {
            if esc {
                cur.push(c);
                esc = false;
            } else if c == '\\' {
                esc = true;
            } else if c == '"' {
                in_str = false;
                let done = string_of_chars(cur.as_slice());
                out.push(done);
                cur = Vec::new();
                assert(string_views(out@) =~= before.push(done@));
            } else {
                cur.push(c);
            }
        } else if c == '"' {
            in_str = true;
        }
        i += 1;
    }
    assert(cs@.take(i as int) =~= s@);
    out
}

/// The scopes of a grant expression: the quoted strings inside its
/// parentheses when the arguments start with `scope` and there is at least
/// one, else none (an unscoped grant).
pub open spec fn scopes_of(cap: Seq<char>) -> Seq<Seq<char>> {
    match (first_index(cap, '('), last_index(cap, ')')) {
        (Some(o), Some(c)) => if c > o {
            let inner = cap.subrange(o + 1, c);
            let strs = quote_scan(inner).0;
            if has_prefix(trim_start(inner), "scope"@) && strs.len() > 0 {
                strs
            } else {
                Seq::empty()
            }
        } else {
            Seq::empty()
        },
        _ => Seq::empty(),
    }
}

fn trim_start_chars(s: &[char]) -> (r: Vec<char>)
    ensures
        r@ == trim_start(s@),
{
    let mut i: usize = 0;
    assert(s@.skip(0) =~= s@);
    while i < s.len() && crate::text::is_ws_char(s[i])
        invariant
            i <= s.len(),
            trim_start(s@) == trim_start(s@.skip(i as int)),
        decreases s.len() - i,
    {
        assert(s@.skip(i as int).drop_first() =~= s@.skip(i + 1));
        i += 1;
    }
    assert(s@.skip(i as int) =~= s@.subrange(i as int, s@.len() as int));
    slice_to_vec(s, i, s.len())
}

/// Parses a grant expression like `filesystem(scope=["config/**"])` or a
/// bare `git(readonly)`. Bare (unscoped) grants have no scopes, meaning
/// "all uses of this family".
pub fn parse_grant(cap: &str) -> (g: Grant)
    ensures
        g.family@ == family_of(cap@),
        string_views(g.scopes@) == scopes_of(cap@),
{
    let family = cap_family(cap);
    let cs = chars_of(cap);
    let open = find_first(cs.as_slice(), '(');
    let close = find_last(cs.as_slice(), ')');
    let scopes: Vec<String> = match (open, close) {
        (Some(o), Some(c)) => {
            if c > o {
                let inner = slice_to_vec(cs.as_slice(), o + 1, c);
                let inner_s = string_of_chars(inner.as_slice());
                let strings = split_quoted(inner_s.as_str());
                let lead = trim_start_chars(inner.as_slice());
                let word = chars_of("scope");
                proof {
                    reveal_strlit("scope");
                }
                let starts = lead.len() >= 5 && chars_eq(
                    slice_to_vec(lead.as_slice(), 0, 5).as_slice(),
                    word.as_slice(),
                );
                proof {
                    if lead@.len() >= 5 {
                        assert(lead@.subrange(0, 5) =~= lead@.take(5));
                    }
                }
                if starts && strings.len() > 0 {
                    strings
                } else {
                    Vec::new()
                }
            } else {
                Vec::new()
            }
        },
        _ => Vec::new(),
    };
    proof {
        if scopes@.len() == 0 {
            assert(string_views(scopes@) =~= Seq::<Seq<char>>::empty());
        }
    }
    Grant { family, scopes }
}

// ─── Glob scopes ───────────────────────────────────────────────────

/// No byte of `s` is `/`.
pub open spec fn no_slash(s: Seq<u8>) -> bool {
    forall|i: int| 0 <= i < s.len() ==> #[trigger] s[i] != 0x2f
}

/// The pattern after a leading `**`, and after the `/` that follows it.
pub open spec fn after_double_star(p: Seq<u8>) -> Seq<u8> {
    if p.len() > 2 && p[2] == 0x2f {
        p.skip(3)
    } else {
        p.skip(2)
    }
}

/// Glob matching of bytes: `**` matches any run (a `/` right after it is
/// swallowed), `*` any run within one segment, `?` one byte other than `/`,
/// any other byte itself.
pub open spec fn glob_spec(p: Seq<u8>, s: Seq<u8>) -> bool
    decreases p.len(),
{
    if p.len() == 0 {
        s.len() == 0
    } else if p[0] == 0x2a && p.len() > 1 && p[1] == 0x2a {
        exists|i: int| 0 <= i <= s.len() && glob_spec(after_double_star(p), #[trigger] s.skip(i))
    } else if p[0] == 0x2a {
        exists|i: int|
            0 <= i <= s.len() && no_slash(s.take(i)) && glob_spec(p.skip(1), #[trigger] s.skip(i))
    } else if p[0] == 0x3f {
        s.len() > 0 && s[0] != 0x2f && glob_spec(p.skip(1), s.skip(1))
    } else {
        s.len() > 0 && s[0] == p[0] && glob_spec(p.skip(1), s.skip(1))
    }
}

/// A pattern without `*` or `?` matches exactly the path equal to it.
pub proof fn lemma_glob_literal(p: Seq<u8>, s: Seq<u8>)
    requires
        forall|i: int| 0 <= i < p.len() ==> #[trigger] p[i] != 0x2a && p[i] != 0x3f,
    ensures
        glob_spec(p, s) <==> s == p,
    decreases p.len(),
{
    if p.len() == 0 {
        if s.len() == 0 {
            assert(s =~= p);
        }
    } else {
        let p1 = p.skip(1);
        assert forall|i: int| 0 <= i < p1.len() implies #[trigger] p1[i] != 0x2a && p1[i] != 0x3f by {
            assert(p1[i] == p[i + 1]);
        }
        if s.len() > 0 {
            lemma_glob_literal(p1, s.skip(1));
            if s.skip(1) == p1 && s[0] == p[0] {
                assert(s =~= p) by {
                    assert forall|k: int| 0 <= k < s.len() implies s[k] == p[k] by {
                        if k > 0 {
                            assert(s[k] == s.skip(1)[k - 1]);
                            assert(p[k] == p1[k - 1]);
                        }
                    }
                }
            }
            if s == p {
                assert(s.skip(1) =~= p1);
            }
        }
        assert(p[0] != 0x2a && p[0] != 0x3f);
    }
}

/// `**` matches every path.
pub proof fn lemma_glob_double_star(s: Seq<u8>)
    ensures
        glob_spec(seq![0x2au8, 0x2au8], s),
{
    let p = seq![0x2au8, 0x2au8];
    assert(after_double_star(p) =~= Seq::<u8>::empty());
    assert(s.skip(s.len() as int) =~= Seq::<u8>::empty());
    assert(glob_spec(after_double_star(p), s.skip(s.len() as int)));
}

/// Glob matching on bytes (see [`glob_spec`]).
pub fn glob_inner(p: &[u8], s: &[u8]) -> (r: bool)
    ensures
        r == glob_spec(p@, s@),
    decreases p@.len(),
{
    if p.len() == 0 {
        return s.len() == 0;
    }
    if p[0] == 0x2a && p.len() > 1 && p[1] == 0x2a {
        let rest = if p.len() > 2 && p[2] == 0x2f {
            vstd::slice::slice_subrange(p, 3, p.len())
        } else {
            vstd::slice::slice_subrange(p, 2, p.len())
        };
        let ghost rs = after_double_star(p@);
        assert(rest@ =~= rs);
        let mut i: usize = 0;
        loop
            invariant
                i <= s@.len(),
                rest@ == rs,
                rs.len() < p@.len(),
                p@.len() > 1 && p@[0] == 0x2a && p@[1] == 0x2a,
                rs == after_double_star(p@),
                forall|j: int| 0 <= j < i ==> !glob_spec(rs, #[trigger] s@.skip(j)),
            decreases s@.len() - i,
        {
            let tail = vstd::slice::slice_subrange(s, i, s.len());
            assert(tail@ =~= s@.skip(i as int));
            if glob_inner(rest, tail) {
                assert(glob_spec(after_double_star(p@), s@.skip(i as int)));
                assert(glob_spec(p@, s@));
                return true;
            }
            if i == s.len() {
                assert forall|j: int| 0 <= j <= s@.len() implies !glob_spec(
                    rs,
                    #[trigger] s@.skip(j),
                ) by {}
                return false;
            }
            i += 1;
        }
    }
    if p[0] == 0x2a {
        let rest = vstd::slice::slice_subrange(p, 1, p.len());
        assert(rest@ =~= p@.skip(1));
        let mut i: usize = 0;
        assert(s@.take(0) =~= Seq::<u8>::empty());
        loop
            invariant
                i <= s@.len(),
                rest@ == p@.skip(1),
                p@.len() > 0 && p@[0] == 0x2a,
                !(p@.len() > 1 && p@[1] == 0x2a),
                no_slash(s@.take(i as int)),
                forall|j: int|
                    0 <= j < i ==> !(no_slash(s@.take(j)) && glob_spec(
                        p@.skip(1),
                        #[trigger] s@.skip(j),
                    )),
            decreases s@.len() - i,
        {
            let tail = vstd::slice::slice_subrange(s, i, s.len());
            assert(tail@ =~= s@.skip(i as int));
            if glob_inner(rest, tail) {
                assert(no_slash(s@.take(i as int)) && glob_spec(p@.skip(1), s@.skip(i as int)));
                assert(glob_spec(p@, s@));
                return true;
            }
            if i == s.len() {
                assert forall|j: int|
                    0 <= j <= s@.len() implies !(no_slash(s@.take(j)) && glob_spec(
                        p@.skip(1),
                        #[trigger] s@.skip(j),
                    )) by {}
                return false;
            }
            if s[i] == 0x2f {
                assert(!glob_spec(p@.skip(1), s@.skip(i as int)));
                assert forall|j: int|
                    0 <= j <= s@.len() implies !(no_slash(s@.take(j)) && glob_spec(
                        p@.skip(1),
                        #[trigger] s@.skip(j),
                    )) by {
                    if j > i {
                        assert(s@.take(j)[i as int] == 0x2f);
                    }
                }
                return false;
            }
            assert(s@.take(i + 1) =~= s@.take(i as int).push(s@[i as int]));
            i += 1;
        }
    }
    if s.len() == 0 {
        return false;
    }
    let pr = vstd::slice::slice_subrange(p, 1, p.len());
    let sr = vstd::slice::slice_subrange(s, 1, s.len());
    assert(pr@ =~= p@.skip(1));
    assert(sr@ =~= s@.skip(1));
    if p[0] == 0x3f {
        s[0] != 0x2f && glob_inner(pr, sr)
    } else {
        s[0] == p[0] && glob_inner(pr, sr)
    }
}

/// Glob match of a path against a pattern, on their UTF-8 bytes.
pub fn glob_match(pattern: &str, path: &str) -> (r: bool)
    ensures
        r == glob_spec(pattern.spec_bytes(), path.spec_bytes()),
{
    glob_inner(pattern.as_bytes(), path.as_bytes())
}

// ─── Joining ───────────────────────────────────────────────────────

/// `slice::join`: the pieces with `sep` between them.
pub open spec fn join_seq(ss: Seq<Seq<char>>, sep: Seq<char>) -> Seq<char>
    decreases ss.len(),
{
    if ss.len() == 0 {
        Seq::empty()
    } else if ss.len() == 1 {
        ss[0]
    } else {
        join_seq(ss.drop_last(), sep) + sep + ss.last()
    }
}

/// The pieces of `v` joined with `sep`.
pub fn join_strings(v: &Vec<String>, sep: &str) -> (s: String)
    ensures
        s@ == join_seq(string_views(v@), sep@),
{
    let ghost vs = string_views(v@);
    let mut s = String::new();
    let mut i: usize = 0;
    assert(vs.take(0) =~= Seq::<Seq<char>>::empty());
    while i < v.len()
        invariant
            i <= v@.len(),
            vs == string_views(v@),
            s@ == join_seq(vs.take(i as int), sep@),
        decreases v@.len() - i,
    {
        assert(vs.take(i + 1).drop_last() =~= vs.take(i as int));
        assert(vs.take(i + 1).last() == v@[i as int]@);
        if i > 0 {
            push_str(&mut s, sep);
        } else {
            assert(vs.take(1) =~= seq![v@[0]@]);
        }
        push_str(&mut s, v[i].as_str());
        i += 1;
    }
    assert(vs.take(i as int) =~= vs);
    s
}

// ─── Dependency capabilities ───────────────────────────────────────

/// The (dependency name, capability) pairs of a dependency.
pub open spec fn pairs_of(d: Dependency) -> Seq<(Seq<char>, Seq<char>)> {
    d.capabilities@.map_values(|c: String| (d.name@, c@))
}

/// The (dependency name, capability) pairs of all dependencies, in order.
pub open spec fn all_pairs(ds: Seq<Dependency>) -> Seq<(Seq<char>, Seq<char>)>
    decreases ds.len(),
{
    if ds.len() == 0 {
        Seq::empty()
    } else {
        all_pairs(ds.drop_last()) + pairs_of(ds.last())
    }
}

/// The first pair whose capability family is not granted.
pub open spec fn first_ungranted(
    ps: Seq<(Seq<char>, Seq<char>)>,
    granted: Seq<Seq<char>>,
) -> Option<(Seq<char>, Seq<char>)>
    decreases ps.len(),
{
    if ps.len() == 0 {
        None
    } else {
        match first_ungranted(ps.drop_last(), granted) {
            Some(x) => Some(x),
            None => if granted.contains(family_of(ps.last().1)) {
                None
            } else {
                Some(ps.last())
            },
        }
    }
}

/// The capability check passes exactly when the family of every required
/// capability is granted; when it fails, it names a required pair whose
/// family is not granted, and every pair before it is granted.
pub proof fn lemma_first_ungranted(ps: Seq<(Seq<char>, Seq<char>)>, granted: Seq<Seq<char>>)
    ensures
        first_ungranted(ps, granted) is None <==> forall|i: int|
            0 <= i < ps.len() ==> granted.contains(family_of(#[trigger] ps[i].1)),
        first_ungranted(ps, granted) matches Some(x) ==> exists|i: int|
            0 <= i < ps.len() && ps[i] == x && !granted.contains(family_of(x.1)) && forall|j: int|
                0 <= j < i ==> granted.contains(family_of(#[trigger] ps[j].1)),
    decreases ps.len(),
{
    if ps.len() > 0 {
        let q = ps.drop_last();
        lemma_first_ungranted(q, granted);
        assert forall|i: int| 0 <= i < q.len() implies q[i] == ps[i] by {}
        if first_ungranted(q, granted) is None {
            if granted.contains(family_of(ps.last().1)) {
                assert forall|i: int| 0 <= i < ps.len() implies granted.contains(family_of(#[trigger] ps[i].1)) by {
                    if i < q.len() {
                        assert(q[i] == ps[i]);
                        assert(granted.contains(family_of(q[i].1)));
                    }
                }
            } else {
                let k = ps.len() - 1;
                assert(ps[k] == ps.last());
                assert forall|j: int| 0 <= j < k implies granted.contains(family_of(#[trigger] ps[j].1)) by {
                    assert(q[j] == ps[j]);
                    assert(granted.contains(family_of(q[j].1)));
                }
            }
        } else {
            let x = first_ungranted(q, granted)->Some_0;
            let i = choose|i: int|
                0 <= i < q.len() && q[i] == x && !granted.contains(family_of(x.1)) && forall|j: int|
                    0 <= j < i ==> granted.contains(family_of(#[trigger] q[j].1));
            assert(ps[i] == x);
            assert forall|j: int| 0 <= j < i implies granted.contains(family_of(#[trigger] ps[j].1)) by {
                assert(q[j] == ps[j]);
                assert(granted.contains(family_of(q[j].1)));
            }
            assert(!granted.contains(family_of(ps[i].1)));
        }
    }
}

/// The list of granted families as messages show it.
pub open spec fn granted_list(granted: Seq<Seq<char>>) -> Seq<char> {
    if granted.len() == 0 {
        "none"@
    } else {
        join_seq(granted, ", "@)
    }
}

proof fn lemma_first_ungranted_prefix(
    ps: Seq<(Seq<char>, Seq<char>)>,
    granted: Seq<Seq<char>>,
    k: int,
)
    requires
        0 <= k <= ps.len(),
        forall|j: int| 0 <= j < k ==> granted.contains(family_of(#[trigger] ps[j].1)),
    ensures
        first_ungranted(ps.take(k), granted) is None,
    decreases k,
{
    if k > 0 {
        assert(ps.take(k).drop_last() =~= ps.take(k - 1));
        lemma_first_ungranted_prefix(ps, granted, k - 1);
    }
}

proof fn lemma_first_ungranted_at(
    ps: Seq<(Seq<char>, Seq<char>)>,
    granted: Seq<Seq<char>>,
    k: int,
)
    requires
        0 <= k < ps.len(),
        !granted.contains(family_of(ps[k].1)),
        forall|j: int| 0 <= j < k ==> granted.contains(family_of(#[trigger] ps[j].1)),
    ensures
        first_ungranted(ps, granted) == Some(ps[k]),
    decreases ps.len(),
{
    if ps.len() - 1 > k {
        assert forall|j: int| 0 <= j < k implies granted.contains(
            family_of(#[trigger] ps.drop_last()[j].1),
        ) by {
            assert(ps.drop_last()[j] == ps[j]);
        }
        lemma_first_ungranted_at(ps.drop_last(), granted, k);
    } else {
        lemma_first_ungranted_prefix(ps, granted, k);
        assert(ps.take(k) =~= ps.drop_last());
    }
}

fn contains_string(v: &Vec<String>, s: &str) -> (r: bool)
    ensures
        r == string_views(v@).contains(s@),
{
    let mut i: usize = 0;
    while i < v.len()
        invariant
            i <= v@.len(),
            forall|j: int| 0 <= j < i ==> v@[j]@ != s@,
        decreases v@.len() - i,
    {
        if str_eq(v[i].as_str(), s) {
            assert(string_views(v@)[i as int] == s@);
            return true;
        }
        i += 1;
    }
    assert forall|j: int| 0 <= j < string_views(v@).len() implies string_views(v@)[j] != s@ by {
        assert(string_views(v@)[j] == v@[j]@);
    }
    false
}

fn dependency_pairs(deps: &Vec<Dependency>) -> (r: Vec<(String, String)>)
    ensures
        r@.map_values(|p: (String, String)| (p.0@, p.1@)) == all_pairs(deps@),
{
    let mut out: Vec<(String, String)> = Vec::new();
    let mut i: usize = 0;
    assert(deps@.take(0) =~= Seq::<Dependency>::empty());
    assert(out@.map_values(|p: (String, String)| (p.0@, p.1@)) =~= Seq::<
        (Seq<char>, Seq<char>),
    >::empty());
    while i < deps.len()
        invariant
            i <= deps@.len(),
            out@.map_values(|p: (String, String)| (p.0@, p.1@)) == all_pairs(deps@.take(i as int)),
        decreases deps@.len() - i,
    {
        let d = &deps[i];
        let ghost base = all_pairs(deps@.take(i as int));
        let mut j: usize = 0;
        assert(pairs_of(*d).take(0) =~= Seq::<(Seq<char>, Seq<char>)>::empty());
        assert(base + pairs_of(*d).take(0) =~= base);
        while j < d.capabilities.len()
            invariant
                j <= d.capabilities@.len(),
                out@.map_values(|p: (String, String)| (p.0@, p.1@)) == base + pairs_of(*d).take(
                    j as int,
                ),
            decreases d.capabilities@.len() - j,
        {
            let ghost before = out@.map_values(|p: (String, String)| (p.0@, p.1@));
            let pair = (d.name.clone(), d.capabilities[j].clone());
            out.push(pair);
            assert(pairs_of(*d).take(j + 1) =~= pairs_of(*d).take(j as int).push(
                (d.name@, d.capabilities@[j as int]@),
            ));
            assert(out@.map_values(|p: (String, String)| (p.0@, p.1@)) =~= before.push(
                (d.name@, d.capabilities@[j as int]@),
            ));
            j += 1;
        }
        assert(pairs_of(*d).take(j as int) =~= pairs_of(*d));
        assert(deps@.take(i + 1).drop_last() =~= deps@.take(i as int));
        assert(deps@.take(i + 1).last() == *d);
        i += 1;
    }
    assert(deps@.take(i as int) =~= deps@);
    out
}

/// Every capability a dependency requires must belong to a granted family;
/// the first one that does not is reported.
pub fn check_dependency_capabilities(deps: &Vec<Dependency>, granted: &Vec<String>) -> (r: Result<(), LoadError>)
    ensures
        match first_ungranted(all_pairs(deps@), string_views(granted@)) {
            None => r is Ok,
            Some((name, cap)) => (r matches Err(LoadError::Invalid(m)) && m@ == ungranted_message(
                name,
                cap,
                string_views(granted@),
            )),
        },
{
    let pairs = dependency_pairs(deps);
    let ghost ps = pairs@.map_values(|p: (String, String)| (p.0@, p.1@));
    let ghost gs = string_views(granted@);
    let mut k: usize = 0;
    while k < pairs.len()
        invariant
            k <= pairs@.len(),
            ps == pairs@.map_values(|p: (String, String)| (p.0@, p.1@)),
            ps == all_pairs(deps@),
            gs == string_views(granted@),
            forall|j: int| 0 <= j < k ==> gs.contains(family_of(#[trigger] ps[j].1)),
        decreases pairs@.len() - k,
    {
        let fam = cap_family(pairs[k].1.as_str());
        assert(ps[k as int] == (pairs@[k as int].0@, pairs@[k as int].1@));
        if !contains_string(granted, fam.as_str()) {
            proof {
                lemma_first_ungranted_at(ps, gs, k as int);
            }
            let mut m = string_of("dependency '");
            push_str(&mut m, pairs[k].0.as_str());
            push_str(&mut m, "` requires capability `");
            push_str(&mut m, pairs[k].1.as_str());
            push_str(&mut m, "`, which is not granted under [capabilities] grant (granted: ");
            if granted.len() == 0 {
                push_str(&mut m, "none");
            } else {
                let list = join_strings(granted, ", ");
                push_str(&mut m, list.as_str());
            }
            push_str(&mut m, ")");
            return Err(LoadError::Invalid(m));
        }
        k += 1;
    }
    proof {
        lemma_first_ungranted_prefix(ps, gs, k as int);
        assert(ps.take(k as int) =~= ps);
    }
    Ok(())
}

/// The grants of `[capabilities] grant` and their families.
pub fn grants_of(texts: &Vec<String>) -> (r: (Vec<Grant>, Vec<String>))
    ensures
        r.0@.len() == texts@.len(),
        string_views(r.1@) == texts@.map_values(|t: String| family_of(t@)),
        forall|i: int|
            0 <= i < texts@.len() ==> (#[trigger] r.0@[i]).family@ == family_of(texts@[i]@)
                && string_views(r.0@[i].scopes@) == scopes_of(texts@[i]@),
{
    let mut grants: Vec<Grant> = Vec::new();
    let mut families: Vec<String> = Vec::new();
    let mut i: usize = 0;
    while i < texts.len()
        invariant
            i <= texts@.len(),
            grants@.len() == i,
            string_views(families@) == texts@.take(i as int).map_values(|t: String| family_of(t@)),
            forall|j: int|
                0 <= j < i ==> (#[trigger] grants@[j]).family@ == family_of(texts@[j]@)
                    && string_views(grants@[j].scopes@) == scopes_of(texts@[j]@),
        decreases texts@.len() - i,
    {
        let g = parse_grant(texts[i].as_str());
        let f = g.family.clone();
        let ghost before = string_views(families@);
        families.push(f);
        grants.push(g);
        assert(string_views(families@) =~= before.push(family_of(texts@[i as int]@)));
        assert(texts@.take(i + 1).map_values(|t: String| family_of(t@)) =~= texts@.take(
            i as int,
        ).map_values(|t: String| family_of(t@)).push(family_of(texts@[i as int]@)));
        i += 1;
    }
    assert(texts@.take(i as int) =~= texts@);
    (grants, families)
}

// ─── Build capability policy ───────────────────────────────────────

/// Why a build failed.
#[derive(Debug)]
pub struct BuildError {
    pub message: String,
}

/// Outcome of a successful build.
#[derive(Debug)]
pub enum Artifact {
    /// Native binary path (debug / release profiles).
    Binary(String),
    /// Type checking passed; nothing emitted (check profile).
    Checked,
}

/// A failed build with the given message.
pub fn err<T>(msg: String) -> (r: Result<T, BuildError>)
    ensures
        r matches Err(e) && e.message@ == msg@,
{
    Err(BuildError { message: msg })
}

/// One provider call of a program: `provider.verb(...)` at a place in a
/// source file, with its first argument when that is a string literal.
pub struct ProviderUse {
    pub provider: String,
    pub verb: String,
    pub file: String,
    pub line: u64,
    pub col: u64,
    pub first_str_arg: Option<String>,
}

/// A grant as text: its family and its scopes.
pub open spec fn grant_view(g: Grant) -> (Seq<char>, Seq<Seq<char>>) {
    (g.family@, string_views(g.scopes@))
}

/// The views of a sequence of grants.
pub open spec fn grant_views(gs: Seq<Grant>) -> Seq<(Seq<char>, Seq<Seq<char>>)> {
    gs.map_values(|g: Grant| grant_view(g))
}

/// Some grant is for family `f`.
pub open spec fn has_family(gs: Seq<(Seq<char>, Seq<Seq<char>>)>, f: Seq<char>) -> bool {
    exists|i: int| 0 <= i < gs.len() && (#[trigger] gs[i]).0 == f
}

/// Some grant for family `f` has no scopes.
pub open spec fn has_unscoped(gs: Seq<(Seq<char>, Seq<Seq<char>>)>, f: Seq<char>) -> bool {
    exists|i: int| 0 <= i < gs.len() && (#[trigger] gs[i]).0 == f && gs[i].1.len() == 0
}

/// Some grant for family `f` has scopes.
pub open spec fn has_scoped(gs: Seq<(Seq<char>, Seq<Seq<char>>)>, f: Seq<char>) -> bool {
    exists|i: int| 0 <= i < gs.len() && (#[trigger] gs[i]).0 == f && gs[i].1.len() > 0
}

/// The scopes of the grants for family `f`, in order.
pub open spec fn scopes_for(gs: Seq<(Seq<char>, Seq<Seq<char>>)>, f: Seq<char>) -> Seq<Seq<char>>
    decreases gs.len(),
{
    if gs.len() == 0 {
        Seq::empty()
    } else {
        scopes_for(gs.drop_last(), f) + if gs.last().0 == f {
            gs.last().1
        } else {
            Seq::empty()
        }
    }
}

/// Some scope for family `f` matches `path`.
pub open spec fn scope_allows(gs: Seq<(Seq<char>, Seq<Seq<char>>)>, f: Seq<char>, path: Seq<char>) -> bool {
    exists|k: int|
        0 <= k < scopes_for(gs, f).len() && glob_spec(
            vstd::utf8::encode_utf8(#[trigger] scopes_for(gs, f)[k]),
            vstd::utf8::encode_utf8(path),
        )
}

/// A provider use as text: provider, verb, file, line, column, literal
/// first argument.
pub type UseView = (Seq<char>, Seq<char>, Seq<char>, nat, nat, Option<Seq<char>>);

/// The text view of a provider use.
pub open spec fn use_view(u: ProviderUse) -> UseView {
    (
        u.provider@,
        u.verb@,
        u.file@,
        u.line as nat,
        u.col as nat,
        match u.first_str_arg {
            Some(a) => Some(a@),
            None => None,
        },
    )
}

/// Where a violation is reported: `  file:line:col: `.
pub open spec fn use_place(u: UseView) -> Seq<char> {
    "  "@ + u.2 + ":"@ + decimal(u.3) + ":"@ + decimal(u.4) + ": "@
}

/// The policy violation of one provider use, if it is one: `args` is
/// exempt; a family without grants is denied; a `filesystem` use under
/// scoped grants only (no unscoped grant of the family) needs a literal path
/// that some scope matches.
pub open spec fn violation(gs: Seq<(Seq<char>, Seq<Seq<char>>)>, u: UseView) -> Option<Seq<char>> {
    let (p, v) = (u.0, u.1);
    if p == "args"@ {
        None
    } else if !has_family(gs, p) {
        Some(use_place(u) + p + "."@ + v + "() requires capability `"@ + p + "`, which is not granted"@)
    } else if p == "filesystem"@ && has_scoped(gs, p) && !has_unscoped(gs, p) {
        match u.5 {
            Some(path) => if scope_allows(gs, p, path) {
                None
            } else {
                Some(use_place(u) + p + "."@ + v + "(\""@ + path + "\") is outside the granted scopes ("@
                    + join_seq(scopes_for(gs, p), ", "@) + ")"@)
            },
            None => Some(use_place(u) + p + "."@ + v
                + "() uses a dynamic path; a scoped filesystem grant only covers string-literal paths"@),
        }
    } else {
        None
    }
}

/// The violations of a sequence of uses, in order.
pub open spec fn violations(gs: Seq<(Seq<char>, Seq<Seq<char>>)>, us: Seq<UseView>) -> Seq<Seq<char>>
    decreases us.len(),
{
    if us.len() == 0 {
        Seq::empty()
    } else {
        match violation(gs, us.last()) {
            Some(m) => violations(gs, us.drop_last()).push(m),
            None => violations(gs, us.drop_last()),
        }
    }
}

/// The message of a build refused by the capability policy.
pub open spec fn policy_message(vs: Seq<Seq<char>>) -> Seq<char> {
    "capability policy violations ("@ + decimal(vs.len()) + " call(s) not granted under [capabilities] grant):\n"@
        + join_seq(vs, "\n"@) + "\n"@
}

fn place_text(u: &ProviderUse) -> (s: String)
    ensures
        s@ == use_place(use_view(*u)),
{
    let mut s = string_of("  ");
    push_str(&mut s, u.file.as_str());
    push_str(&mut s, ":");
    push_decimal(&mut s, u.line as u128);
    push_str(&mut s, ":");
    push_decimal(&mut s, u.col as u128);
    push_str(&mut s, ": ");
    s
}

fn scopes_for_exec(grants: &Vec<Grant>, f: &str) -> (r: Vec<String>)
    ensures
        string_views(r@) == scopes_for(grant_views(grants@), f@),
{
    let ghost gs = grant_views(grants@);
    let mut out: Vec<String> = Vec::new();
    let mut i: usize = 0;
    assert(gs.take(0) =~= Seq::<(Seq<char>, Seq<Seq<char>>)>::empty());
    assert(string_views(out@) =~= Seq::<Seq<char>>::empty());
    while i < grants.len()
        invariant
            i <= grants@.len(),
            gs == grant_views(grants@),
            string_views(out@) == scopes_for(gs.take(i as int), f@),
        decreases grants@.len() - i,
    {
        let g = &grants[i];
        assert(gs.take(i + 1).drop_last() =~= gs.take(i as int));
        assert(gs.take(i + 1).last() == grant_view(*g));
        if str_eq(g.family.as_str(), f) {
            let ghost base = string_views(out@);
            let mut k: usize = 0;
            while k < g.scopes.len()
                invariant
                    k <= g.scopes@.len(),
                    string_views(out@) == base + string_views(g.scopes@).take(k as int),
                decreases g.scopes@.len() - k,
            {
                let ghost before = string_views(out@);
                out.push(g.scopes[k].clone());
                assert(string_views(g.scopes@).take(k + 1) =~= string_views(g.scopes@).take(
                    k as int,
                ).push(g.scopes@[k as int]@));
                assert(string_views(out@) =~= before.push(g.scopes@[k as int]@));
                k += 1;
            }
            assert(string_views(g.scopes@).take(k as int) =~= string_views(g.scopes@));
        } else {
            assert(scopes_for(gs.take(i + 1), f@) =~= scopes_for(gs.take(i as int), f@));
        }
        i += 1;
    }
    assert(gs.take(i as int) =~= gs);
    out
}

fn any_scope_matches(scopes: &Vec<String>, path: &str) -> (r: bool)
    ensures
        r == exists|k: int|
            0 <= k < scopes@.len() && glob_spec(
                vstd::utf8::encode_utf8(#[trigger] string_views(scopes@)[k]),
                vstd::utf8::encode_utf8(path@),
            ),
{
    let mut k: usize = 0;
    while k < scopes.len()
        invariant
            k <= scopes@.len(),
            forall|j: int|
                0 <= j < k ==> !glob_spec(
                    vstd::utf8::encode_utf8(#[trigger] string_views(scopes@)[j]),
                    vstd::utf8::encode_utf8(path@),
                ),
        decreases scopes@.len() - k,
    {
        assert(string_views(scopes@)[k as int] == scopes@[k as int]@);
        if glob_match(scopes[k].as_str(), path) {
            return true;
        }
        k += 1;
    }
    false
}

fn use_violation(grants: &Vec<Grant>, u: &ProviderUse) -> (r: Option<String>)
    ensures
        match violation(grant_views(grants@), use_view(*u)) {
            Some(m) => (r matches Some(s) && s@ == m),
            None => r is None,
        },
{
    let ghost gs = grant_views(grants@);
    let p = u.provider.as_str();
    if str_eq(p, "args") {
        return None;
    }
    let mut any = false;
    let mut unscoped = false;
    let mut scoped = false;
    let mut i: usize = 0;
    while i < grants.len()
        invariant
            i <= grants@.len(),
            gs == grant_views(grants@),
            any <==> exists|j: int| 0 <= j < i && (#[trigger] gs[j]).0 == p@,
            unscoped <==> exists|j: int| 0 <= j < i && (#[trigger] gs[j]).0 == p@ && gs[j].1.len() == 0,
            scoped <==> exists|j: int| 0 <= j < i && (#[trigger] gs[j]).0 == p@ && gs[j].1.len() > 0,
        decreases grants@.len() - i,
    {
        assert(gs[i as int] == grant_view(grants@[i as int]));
        if str_eq(grants[i].family.as_str(), p) {
            any = true;
            if grants[i].scopes.len() == 0 {
                unscoped = true;
            } else {
                scoped = true;
            }
        }
        i += 1;
    }
    if !any {
        let mut m = place_text(u);
        push_str(&mut m, p);
        push_str(&mut m, ".");
        push_str(&mut m, u.verb.as_str());
        push_str(&mut m, "() requires capability `");
        push_str(&mut m, p);
        push_str(&mut m, "`, which is not granted");
        return Some(m);
    }
    if str_eq(p, "filesystem") && scoped && !unscoped {
        let pats = scopes_for_exec(grants, p);
        match &u.first_str_arg {
            Some(path) => {
                if any_scope_matches(&pats, path.as_str()) {
                    return None;
                }
                let mut m = place_text(u);
                push_str(&mut m, p);
                push_str(&mut m, ".");
                push_str(&mut m, u.verb.as_str());
                push_str(&mut m, "(\"");
                push_str(&mut m, path.as_str());
                push_str(&mut m, "\") is outside the granted scopes (");
                let list = join_strings(&pats, ", ");
                push_str(&mut m, list.as_str());
                push_str(&mut m, ")");
                return Some(m);
            },
            None => {
                let mut m = place_text(u);
                push_str(&mut m, p);
                push_str(&mut m, ".");
                push_str(&mut m, u.verb.as_str());
                push_str(
                    &mut m,
                    "() uses a dynamic path; a scoped filesystem grant only covers string-literal paths",
                );
                return Some(m);
            },
        }
    }
    None
}

/// The capability policy of a build: every provider family a program
/// touches must be granted, and scoped `filesystem` grants must cover each
/// literal path; `args` is exempt. A refusal lists every violation.
pub fn check_capabilities(grants: &Vec<Grant>, uses: &Vec<ProviderUse>) -> (r: Result<(), BuildError>)
    ensures
        ({
            let vs = violations(grant_views(grants@), uses@.map_values(|u: ProviderUse| use_view(u)));
            &&& vs.len() == 0 ==> r is Ok
            &&& vs.len() > 0 ==> (r matches Err(e) && e.message@ == policy_message(vs))
        }),
{
    let ghost gs = grant_views(grants@);
    let ghost us = uses@.map_values(|u: ProviderUse| use_view(u));
    let mut found: Vec<String> = Vec::new();
    let mut i: usize = 0;
    assert(us.take(0) =~= Seq::<UseView>::empty());
    assert(string_views(found@) =~= Seq::<Seq<char>>::empty());
    while i < uses.len()
        invariant
            i <= uses@.len(),
            gs == grant_views(grants@),
            us == uses@.map_values(|u: ProviderUse| use_view(u)),
            string_views(found@) == violations(gs, us.take(i as int)),
        decreases uses@.len() - i,
    {
        assert(us.take(i + 1).drop_last() =~= us.take(i as int));
        assert(us.take(i + 1).last() == use_view(uses@[i as int]));
        match use_violation(grants, &uses[i]) {
            Some(m) => {
                let ghost before = string_views(found@);
                found.push(m);
                assert(string_views(found@) =~= before.push(found@.last()@));
            },
            None => {},
        }
        i += 1;
    }
    assert(us.take(i as int) =~= us);
    if found.len() == 0 {
        return Ok(());
    }
    let mut m = string_of("capability policy violations (");
    push_decimal(&mut m, found.len() as u128);
    push_str(&mut m, " call(s) not granted under [capabilities] grant):\n");
    let body = join_strings(&found, "\n");
    push_str(&mut m, body.as_str());
    push_str(&mut m, "\n");
    err(m)
}


// ─── Dependency resolution ─────────────────────────────────────────

/// The root source of a package: the manifest's `root`, or
/// `src/main.resid`.
pub fn root_or_default(root: Option<&str>) -> (s: String)
    ensures
        match root {
            Some(r) => s@ == r@,
            None => s@ == "src/main.resid"@,
        },
{
    match root {
        Some(r) => string_of(r),
        None => string_of("src/main.resid"),
    }
}

/// Where a dependency comes from.
#[derive(Debug, PartialEq, Eq)]
pub enum DepSource {
    /// This version, from the registry.
    Registry(String),
    /// The package directory at this path, relative to the depending
    /// package.
    Path(String),
}

/// Where the dependency `name` comes from: a requested version wins (it
/// needs a registry), else a path; a dependency with neither is refused.
pub fn dependency_source(name: &str, version: Option<&str>, path: Option<&str>, has_registry: bool) -> (r: Result<DepSource, LoadError>)
    ensures
        match (version, path) {
            (Some(v), _) => if has_registry {
                r matches Ok(DepSource::Registry(x)) && x@ == v@
            } else {
                r matches Err(LoadError::Invalid(m)) && m@ == no_registry_message(name@, v@)
            },
            (None, Some(p)) => (r matches Ok(DepSource::Path(x)) && x@ == p@),
            (None, None) => (r matches Err(LoadError::Invalid(m)) && m@ == no_source_message(name@)),
        },
{
    match version {
        Some(v) => {
            if has_registry {
                Ok(DepSource::Registry(string_of(v)))
            } else {
                let mut m = string_of("dependency '");
                push_str(&mut m, name);
                push_str(&mut m, "': version '");
                push_str(&mut m, v);
                push_str(&mut m, "' requested but no [registry] path is configured");
                Err(LoadError::Invalid(m))
            }
        },
        None => match path {
            Some(p) => Ok(DepSource::Path(string_of(p))),
            None => {
                let mut m = string_of("dependency '");
                push_str(&mut m, name);
                push_str(&mut m, "': needs either `path` or `version`");
                Err(LoadError::Invalid(m))
            },
        },
    }
}

/// The directory a registry dependency is extracted to:
/// `<root>/target/resid/deps/<name>-<version>`.
pub fn dependency_cache_dir(root: &str, name: &str, version: &str) -> (s: String)
    ensures
        s@ == path_join(
            path_join(path_join(path_join(root@, "target"@), "resid"@), "deps"@),
            name@ + seq!['-'] + version@,
        ),
{
    let a = crate::registry::join_path(root, "target");
    let b = crate::registry::join_path(a.as_str(), "resid");
    let c = crate::registry::join_path(b.as_str(), "deps");
    let mut leaf = string_of(name);
    push_char(&mut leaf, '-');
    push_str(&mut leaf, version);
    crate::registry::join_path(c.as_str(), leaf.as_str())
}

/// The deepest dependency chain that is followed.
pub const MAX_DEPENDENCY_DEPTH: usize = 32;

/// The directory recorded under `name` in `seen`, if any.
pub open spec fn seen_dir(seen: Seq<(String, String)>, name: Seq<char>) -> Option<Seq<char>>
    decreases seen.len(),
{
    if seen.len() == 0 {
        None
    } else if seen[0].0@ == name {
        Some(seen[0].1@)
    } else {
        seen_dir(seen.drop_first(), name)
    }
}

fn seen_lookup(seen: &Vec<(String, String)>, name: &str) -> (r: Option<String>)
    ensures
        match seen_dir(seen@, name@) {
            Some(d) => (r matches Some(x) && x@ == d),
            None => r is None,
        },
{
    let mut i: usize = 0;
    assert(seen@.skip(0) =~= seen@);
    while i < seen.len()
        invariant
            i <= seen@.len(),
            seen_dir(seen@, name@) == seen_dir(seen@.skip(i as int), name@),
        decreases seen@.len() - i,
    {
        assert(seen@.skip(i as int)[0] == seen@[i as int]);
        assert(seen@.skip(i as int).drop_first() =~= seen@.skip(i + 1));
        if str_eq(seen[i].0.as_str(), name) {
            return Some(string_of(seen[i].1.as_str()));
        }
        i += 1;
    }
    None
}

/// Whether a dependency is read or skipped.
#[derive(Debug, PartialEq, Eq)]
pub enum DepVisit {
    /// Read its manifest.
    Visit,
    /// Already resolved to the same directory.
    Skip,
}

/// Decides, before the manifest of dependency `name` (directory `dir`,
/// canonically `canonical` when it exists) is read: a chain deeper than
/// 32 is refused; a name already resolved is skipped when it resolved to
/// the same directory and refused otherwise.
pub fn visit_dependency(seen: &Vec<(String, String)>, name: &str, dir: &str, canonical: Option<&str>, depth: usize) -> (r: Result<DepVisit, LoadError>)
    ensures
        depth > 32 ==> (r matches Err(LoadError::Invalid(m)) && m@ == too_deep_message(name@)),
        depth <= 32 ==> match seen_dir(seen@, name@) {
            None => r == Ok::<DepVisit, LoadError>(DepVisit::Visit),
            Some(prev) => if canonical matches Some(c) && c@ == prev {
                r == Ok::<DepVisit, LoadError>(DepVisit::Skip)
            } else {
                r matches Err(LoadError::Invalid(m)) && m@ == claimed_twice_message(name@, prev, dir@)
            },
        },
{
    if depth > MAX_DEPENDENCY_DEPTH {
        let mut m = string_of("dependency '");
        push_str(&mut m, name);
        push_str(&mut m, "': dependency chain deeper than 32 (cycle?)");
        return Err(LoadError::Invalid(m));
    }
    match seen_lookup(seen, name) {
        None => Ok(DepVisit::Visit),
        Some(prev) => {
            let same = match canonical {
                Some(c) => str_eq(c, prev.as_str()),
                None => false,
            };
            if same {
                Ok(DepVisit::Skip)
            } else {
                let mut m = string_of("dependency name '");
                push_str(&mut m, name);
                push_str(&mut m, "' claimed by both '");
                push_str(&mut m, prev.as_str());
                push_str(&mut m, "' and '");
                push_str(&mut m, dir);
                push_str(&mut m, "'");
                Err(LoadError::Invalid(m))
            }
        },
    }
}

/// Records that package `pkg` lives in directory `dir`, unless another
/// directory already provides a package of that name, which is refused.
pub fn admit_package(seen: &mut Vec<(String, String)>, pkg: &str, dir: &str) -> (r: Result<(), LoadError>)
    ensures
        match seen_dir(old(seen)@, pkg@) {
            None => r is Ok && final(seen)@.len() == old(seen)@.len() + 1 && final(seen)@.take(
                old(seen)@.len() as int,
            ) == old(seen)@ && final(seen)@.last().0@ == pkg@ && final(seen)@.last().1@ == dir@,
            Some(prev) => *final(seen) == *old(seen) && (r matches Err(LoadError::Invalid(m)) && m@
                == provided_twice_message(pkg@, prev, dir@)),
        },
{
    match seen_lookup(seen, pkg) {
        Some(prev) => {
            let mut m = string_of("package '");
            push_str(&mut m, pkg);
            push_str(&mut m, "' provided by both '");
            push_str(&mut m, prev.as_str());
            push_str(&mut m, "' and '");
            push_str(&mut m, dir);
            push_str(&mut m, "' — conflicting dependency versions are not supported");
            Err(LoadError::Invalid(m))
        },
        None => {
            seen.push((string_of(pkg), string_of(dir)));
            assert(seen@.take(old(seen)@.len() as int) =~= old(seen)@);
            Ok(())
        },
    }
}

/// The names of the signed archive and its signature that a dependency
/// ships: `<name>.resid-pkg` and `<name>.resid-sig`.
pub fn signed_archive_names(name: &str) -> (r: (String, String))
    ensures
        r.0@ == name@ + ".resid-pkg"@,
        r.1@ == name@ + ".resid-sig"@,
{
    let mut a = string_of(name);
    push_str(&mut a, ".resid-pkg");
    let mut b = string_of(name);
    push_str(&mut b, ".resid-sig");
    (a, b)
}

/// The keyring directory of the signature policy: the manifest's
/// `keyring`, or `keys`.
pub fn keyring_or_default(keyring: Option<&str>) -> (s: String)
    ensures
        match keyring {
            Some(k) => s@ == k@,
            None => s@ == "keys"@,
        },
{
    match keyring {
        Some(k) => string_of(k),
        None => string_of("keys"),
    }
}

} // verus!
