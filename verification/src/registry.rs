//! Registry naming and index text: where the objects of a package version
//! live in a local or remote registry, and the signed index that lists
//! them. Reading files and speaking HTTP is left to the caller.

use vstd::prelude::*;

use crate::archive::{copy_range, from_utf8_lossy, utf8_lossy};
use crate::text::{
    decimal, find_first, find_last, first_index, last_index, chars_le, chars_of, has_prefix, is_ws, parse_u16, parse_u16_spec,
    parse_usize, parse_usize_spec, push_char, push_decimal, push_str, slice_to_vec, split_chars, split_on, split_words, str_le,
    string_of, string_of_chars, trim, trim_chars, views, words,
};

verus! {

/// Suffix of package archives.
pub const PKG_SUFFIX: &'static str = "-pkg";

/// Suffix of content-hash sidecars.
pub const SHA_SUFFIX: &'static str = "-sha256";

/// Suffix of signatures.
pub const SIG_SUFFIX: &'static str = "-sig";

/// Where archives come from.
#[derive(Debug)]
pub enum Registry {
    /// Directory containing `<name>-<version>.resid-pkg` etc.
    Local(String),
    /// Base URL like `http://host:port`.
    Remote(String),
}

/// `Path::join` on Unix paths: an absolute `b` replaces `a`; otherwise a
/// separator is put between them unless `a` is empty or ends with one.
pub open spec fn path_join(a: Seq<char>, b: Seq<char>) -> Seq<char> {
    if b.len() > 0 && b[0] == '/' {
        b
    } else if a.len() == 0 || a.last() == '/' {
        a + b
    } else {
        a + seq!['/'] + b
    }
}

/// `str::trim_end_matches('/')`.
pub open spec fn trim_slashes(s: Seq<char>) -> Seq<char>
    decreases s.len(),
{
    if s.len() > 0 && s.last() == '/' {
        trim_slashes(s.drop_last())
    } else {
        s
    }
}

/// The file name of an object: `<name>-<version>.resid<suffix>`.
pub open spec fn object_file(name: Seq<char>, version: Seq<char>, suffix: Seq<char>) -> Seq<char> {
    name + seq!['-'] + version + ".resid"@ + suffix
}

/// The file name of an object (see [`object_file`]).
/// An object's file name starts with the package name, then `-` and the
/// version, and ends with `.resid` and the suffix; so it reads back as the
/// name and version it was made from.
pub proof fn lemma_object_file_layout(name: Seq<char>, version: Seq<char>, suffix: Seq<char>)
    ensures
        ({
            let f = object_file(name, version, suffix);
            &&& f.take(name.len() as int) == name
            &&& f[name.len() as int] == '-'
            &&& f.subrange((name.len() + 1) as int, (name.len() + 1 + version.len()) as int) == version
            &&& f.skip((name.len() + 1 + version.len()) as int) == ".resid"@ + suffix
        }),
{
    let f = object_file(name, version, suffix);
    assert(f.take(name.len() as int) =~= name);
    assert(f.subrange((name.len() + 1) as int, (name.len() + 1 + version.len()) as int) =~= version);
    assert(f.skip((name.len() + 1 + version.len()) as int) =~= ".resid"@ + suffix);
}

pub fn object_file_name(name: &str, version: &str, suffix: &str) -> (s: String)
    ensures
        s@ == object_file(name@, version@, suffix@),
{
    let mut s = string_of(name);
    push_char(&mut s, '-');
    push_str(&mut s, version);
    push_str(&mut s, ".resid");
    push_str(&mut s, suffix);
    s
}

/// Joins two paths (see [`path_join`]).
pub fn join_path(a: &str, b: &str) -> (s: String)
    ensures
        s@ == path_join(a@, b@),
{
    let ac = chars_of(a);
    let bc = chars_of(b);
    if bc.len() > 0 && bc[0] == '/' {
        return string_of(b);
    }
    let mut s = string_of(a);
    if !(ac.len() == 0 || ac[ac.len() - 1] == '/') {
        push_char(&mut s, '/');
    }
    push_str(&mut s, b);
    s
}

fn trim_slashes_exec(s: &str) -> (r: String)
    ensures
        r@ == trim_slashes(s@),
{
    let cs = chars_of(s);
    let mut n: usize = cs.len();
    assert(cs@.take(n as int) =~= cs@);
    while n > 0 && cs[n - 1] == '/'
        invariant
            n <= cs@.len(),
            trim_slashes(s@) == trim_slashes(cs@.take(n as int)),
            cs@ == s@,
        decreases n,
    {
        assert(cs@.take(n as int).drop_last() =~= cs@.take(n - 1));
        n -= 1;
    }
    assert(cs@.take(0) =~= Seq::<char>::empty());
    let v = slice_to_vec(cs.as_slice(), 0, n);
    assert(v@ =~= cs@.take(n as int));
    string_of_chars(v.as_slice())
}

impl Registry {
    /// The URL of an object in a remote registry:
    /// `<base>/pkg/<name>-<version>.resid<suffix>`, the base without
    /// trailing slashes.
    pub fn url_for(&self, name: &str, version: &str, suffix: &str) -> (s: String)
        requires
            self is Remote,
        ensures
            self matches Registry::Remote(base) && s@ == trim_slashes(base@) + "/pkg/"@ + object_file(
                name@,
                version@,
                suffix@,
            ),
    {
        match self {
            Registry::Remote(base) => {
                let mut s = trim_slashes_exec(base.as_str());
                push_str(&mut s, "/pkg/");
                let f = object_file_name(name, version, suffix);
                push_str(&mut s, f.as_str());
                s
            },
            Registry::Local(_) => {
                assert(false);
                String::new()
            },
        }
    }

    /// The paths where a local registry may hold an object: under `pkg/`
    /// first, then at the top; none for a remote registry.
    pub fn local_candidates(&self, name: &str, version: &str, suffix: &str) -> (v: Vec<String>)
        ensures
            match self {
                Registry::Local(dir) => v@.len() == 2 && v@[0]@ == path_join(
                    path_join(dir@, "pkg"@),
                    object_file(name@, version@, suffix@),
                ) && v@[1]@ == path_join(dir@, object_file(name@, version@, suffix@)),
                Registry::Remote(_) => v@.len() == 0,
            },
    {
        let file = object_file_name(name, version, suffix);
        match self {
            Registry::Local(dir) => {
                let pkg = join_path(dir.as_str(), "pkg");
                let a = join_path(pkg.as_str(), file.as_str());
                let b = join_path(dir.as_str(), file.as_str());
                let mut v: Vec<String> = Vec::new();
                v.push(a);
                v.push(b);
                v
            },
            Registry::Remote(_) => Vec::new(),
        }
    }

    /// The canonical write location for a published object: `<dir>/pkg/`.
    pub fn local_write_path(&self, name: &str, version: &str, suffix: &str) -> (s: String)
        requires
            self is Local,
        ensures
            self matches Registry::Local(dir) && s@ == path_join(
                path_join(dir@, "pkg"@),
                object_file(name@, version@, suffix@),
            ),
    {
        let file = object_file_name(name, version, suffix);
        match self {
            Registry::Local(dir) => {
                let pkg = join_path(dir.as_str(), "pkg");
                join_path(pkg.as_str(), file.as_str())
            },
            Registry::Remote(_) => {
                assert(false);
                String::new()
            },
        }
    }
}

/// Minimal parsed HTTP response.
#[derive(Debug)]
pub struct HttpResponse {
    pub status: u16,
    pub body: Vec<u8>,
}

// ─── URLs ──────────────────────────────────────────────────────────

/// `http://host[:port][/prefix]` split into host, port and path (`/` when
/// absent), or the message for a URL that is not of that form.
pub open spec fn url_parts(url: Seq<char>) -> Result<(Seq<char>, u16, Seq<char>), Seq<char>> {
    if !has_prefix(url, "http://"@) {
        Err("only http:// URLs are supported: '"@ + url + "'"@)
    } else {
        let rest = url.skip(7);
        let (hostport, path) = match first_index(rest, '/') {
            Some(i) => (rest.take(i), rest.skip(i)),
            None => (rest, "/"@),
        };
        match last_index(hostport, ':') {
            Some(i) => match parse_u16_spec(hostport.skip(i + 1)) {
                Some(port) => Ok((hostport.take(i), port, path)),
                None => Err("bad port in '"@ + url + "'"@),
            },
            None => Ok((hostport, 80u16, path)),
        }
    }
}

fn quoted_message(prefix: &str, url: &str) -> (s: String)
    ensures
        s@ == prefix@ + url@ + "'"@,
{
    let mut s = string_of(prefix);
    push_str(&mut s, url);
    push_str(&mut s, "'");
    s
}

/// Parses `http://host[:port][/prefix]`.
pub fn parse_url(url: &str) -> (r: Result<(String, u16, String), String>)
    ensures
        match url_parts(url@) {
            Ok((h, p, path)) => (r matches Ok((rh, rp, rpath)) && rh@ == h && rp == p && rpath@
                == path),
            Err(m) => (r matches Err(e) && e@ == m),
        },
{
    let cs = chars_of(url);
    let scheme = chars_of("http://");
    proof {
        reveal_strlit("http://");
    }
    if cs.len() < 7 || !crate::text::chars_eq(slice_to_vec(cs.as_slice(), 0, 7).as_slice(), scheme.as_slice()) {
        proof {
            if cs@.len() >= 7 {
                assert(cs@.subrange(0, 7) =~= cs@.take(7));
            }
        }
        assert(!has_prefix(url@, "http://"@));
        return Err(quoted_message("only http:// URLs are supported: '", url));
    }
    assert(has_prefix(url@, "http://"@));
    assert(cs@.subrange(0, 7) =~= cs@.take(7));
    let rest = slice_to_vec(cs.as_slice(), 7, cs.len());
    assert(rest@ =~= url@.skip(7));
    let ghost hp_spec = match first_index(rest@, '/') {
        Some(i) => (rest@.take(i), rest@.skip(i)),
        None => (rest@, "/"@),
    };
    let slash = find_first(rest.as_slice(), '/');
    let hostport: Vec<char> = match slash {
        Some(i) => slice_to_vec(rest.as_slice(), 0, i),
        None => slice_to_vec(rest.as_slice(), 0, rest.len()),
    };
    let path: Vec<char> = match slash {
        Some(i) => slice_to_vec(rest.as_slice(), i, rest.len()),
        None => chars_of("/"),
    };
    proof {
        match first_index(rest@, '/') {
            Some(i) => {
                assert(hostport@ =~= rest@.take(i));
                assert(path@ =~= rest@.skip(i));
            },
            None => {
                assert(hostport@ =~= rest@);
            },
        }
    }
    assert(hostport@ == hp_spec.0 && path@ == hp_spec.1);
    match find_last(hostport.as_slice(), ':') {
        Some(i) => {
            let port_text = slice_to_vec(hostport.as_slice(), i + 1, hostport.len());
            assert(port_text@ =~= hostport@.skip(i + 1));
            match parse_u16(port_text.as_slice()) {
                Some(port) => {
                    let h = slice_to_vec(hostport.as_slice(), 0, i);
                    assert(h@ =~= hostport@.take(i as int));
                    Ok((string_of_chars(h.as_slice()), port, string_of_chars(path.as_slice())))
                },
                None => Err(quoted_message("bad port in '", url)),
            }
        },
        None => Ok((string_of_chars(hostport.as_slice()), 80, string_of_chars(path.as_slice()))),
    }
}

// ─── Signed index ──────────────────────────────────────────────────

/// One signed-index line: `<name> <version> <sha256-hex>`.
pub type IndexEntry = (String, String, String);

/// The text of an index entry.
pub type IndexView = (Seq<char>, Seq<char>, Seq<char>);

/// The views of a sequence of index entries.
pub open spec fn index_views(v: Seq<IndexEntry>) -> Seq<IndexView> {
    v.map_values(|e: IndexEntry| (e.0@, e.1@, e.2@))
}

/// The entry an index line holds: the first three words of a line that is
/// neither blank nor a comment (further words are ignored).
pub open spec fn index_line(line: Seq<char>) -> Option<IndexView> {
    let t = trim(line);
    if t.len() == 0 || t[0] == '#' {
        None
    } else {
        let w = words(t);
        if w.len() >= 3 {
            Some((w[0], w[1], w[2]))
        } else {
            None
        }
    }
}

/// The entries of a sequence of index lines, in order.
pub open spec fn index_lines(ls: Seq<Seq<char>>) -> Seq<IndexView>
    decreases ls.len(),
{
    if ls.len() == 0 {
        Seq::empty()
    } else {
        match index_line(ls.last()) {
            Some(e) => index_lines(ls.drop_last()).push(e),
            None => index_lines(ls.drop_last()),
        }
    }
}

fn index_line_exec(line: &[char]) -> (r: Option<IndexEntry>)
    ensures
        match index_line(line@) {
            Some(e) => (r matches Some(x) && (x.0@, x.1@, x.2@) == e),
            None => r is None,
        },
{
    let t = trim_chars(line);
    if t.len() == 0 || t[0] == '#' {
        return None;
    }
    let w = split_words(t.as_slice());
    if w.len() < 3 {
        return None;
    }
    assert(views(w@)[0] == w@[0]@);
    assert(views(w@)[1] == w@[1]@);
    assert(views(w@)[2] == w@[2]@);
    Some(
        (
            string_of_chars(w[0].as_slice()),
            string_of_chars(w[1].as_slice()),
            string_of_chars(w[2].as_slice()),
        ),
    )
}

/// Parses index text: one entry per line, blank and `#` lines skipped.
pub fn parse_index_entries(text: &str) -> (r: Vec<IndexEntry>)
    ensures
        index_views(r@) == index_lines(split_on(text@, '\n')),
{
    let cs = chars_of(text);
    let lines = split_chars(cs.as_slice(), '\n');
    let ghost ls = views(lines@);
    let mut out: Vec<IndexEntry> = Vec::new();
    let mut i: usize = 0;
    assert(ls.take(0) =~= Seq::<Seq<char>>::empty());
    assert(index_views(out@) =~= Seq::<IndexView>::empty());
    while i < lines.len()
        invariant
            i <= lines@.len(),
            ls == views(lines@),
            ls == split_on(text@, '\n'),
            index_views(out@) == index_lines(ls.take(i as int)),
        decreases lines@.len() - i,
    {
        assert(ls.take(i + 1).drop_last() =~= ls.take(i as int));
        assert(ls.take(i + 1).last() == lines@[i as int]@);
        match index_line_exec(lines[i].as_slice()) {
            Some(e) => {
                let ghost before = index_views(out@);
                out.push(e);
                assert(index_views(out@) =~= before.push((e.0@, e.1@, e.2@)));
            },
            None => {},
        }
        i += 1;
    }
    assert(ls.take(i as int) =~= ls);
    out
}

/// `a` sorts before or with `b`, comparing names, then versions, then
/// hashes.
pub open spec fn index_le(a: IndexView, b: IndexView) -> bool {
    if a.0 != b.0 {
        chars_le(a.0, b.0)
    } else if a.1 != b.1 {
        chars_le(a.1, b.1)
    } else {
        chars_le(a.2, b.2)
    }
}

/// Inserts `x` after every entry that sorts before or with it.
pub open spec fn insert_index(s: Seq<IndexView>, x: IndexView) -> Seq<IndexView>
    decreases s.len(),
{
    if s.len() == 0 {
        seq![x]
    } else if index_le(s.last(), x) {
        s.push(x)
    } else {
        insert_index(s.drop_last(), x).push(s.last())
    }
}

/// `s` sorted by [`index_le`].
pub open spec fn sort_index(s: Seq<IndexView>) -> Seq<IndexView>
    decreases s.len(),
{
    if s.len() == 0 {
        Seq::empty()
    } else {
        insert_index(sort_index(s.drop_last()), s.last())
    }
}

fn index_le_exec(a: &IndexEntry, b: &IndexEntry) -> (r: bool)
    ensures
        r == index_le((a.0@, a.1@, a.2@), (b.0@, b.1@, b.2@)),
{
    if !crate::text::str_eq(a.0.as_str(), b.0.as_str()) {
        str_le(a.0.as_str(), b.0.as_str())
    } else if !crate::text::str_eq(a.1.as_str(), b.1.as_str()) {
        str_le(a.1.as_str(), b.1.as_str())
    } else {
        str_le(a.2.as_str(), b.2.as_str())
    }
}

proof fn lemma_insert_index_split(s: Seq<IndexView>, x: IndexView, p: int)
    requires
        0 <= p <= s.len(),
        p == s.len() || !index_le(s[p], x),
        forall|j: int| p < j < s.len() ==> !index_le(#[trigger] s[j], x),
        p == 0 || index_le(s[p - 1], x),
    ensures
        insert_index(s, x) == s.take(p).push(x) + s.skip(p),
    decreases s.len(),
{
    if s.len() == 0 {
        assert(s.take(p).push(x) + s.skip(p) =~= seq![x]);
    } else if p == s.len() {
        assert(s.take(p) =~= s);
        assert(s.skip(p) =~= Seq::<IndexView>::empty());
        assert(s.take(p).push(x) + s.skip(p) =~= s.push(x));
    } else {
        let t = s.drop_last();
        assert forall|j: int| p < j < t.len() implies !index_le(#[trigger] t[j], x) by {
            assert(t[j] == s[j]);
        }
        if p > 0 {
            assert(t[p - 1] == s[p - 1]);
        }
        if p < t.len() {
            assert(t[p] == s[p]);
        }
        lemma_insert_index_split(t, x, p);
        assert(t.take(p) =~= s.take(p));
        assert(s.take(p).push(x) + s.skip(p) =~= (t.take(p).push(x) + t.skip(p)).push(s.last()));
    }
}

fn insert_index_exec(v: &mut Vec<IndexEntry>, x: IndexEntry)
    ensures
        index_views(final(v)@) == insert_index(index_views(old(v)@), (x.0@, x.1@, x.2@)),
{
    let ghost s = index_views(v@);
    let ghost xv = (x.0@, x.1@, x.2@);
    let mut p: usize = v.len();
    while p > 0 && !index_le_exec(&v[p - 1], &x)
        invariant
            p <= v@.len(),
            s == index_views(v@),
            s == index_views(old(v)@),
            xv == (x.0@, x.1@, x.2@),
            forall|j: int| p <= j < s.len() ==> !index_le(#[trigger] s[j], xv),
        decreases p,
    {
        p -= 1;
    }
    proof {
        lemma_insert_index_split(s, xv, p as int);
    }
    v.insert(p, x);
    assert(index_views(v@) =~= s.take(p as int).push(xv) + s.skip(p as int));
}

/// The header line of index text.
pub open spec fn index_header() -> Seq<char> {
    "# resid registry index"@
}

/// The lines written for index entries, each ending in a newline.
pub open spec fn index_body(es: Seq<IndexView>) -> Seq<char>
    decreases es.len(),
{
    if es.len() == 0 {
        Seq::empty()
    } else {
        index_body(es.drop_last()) + es.last().0 + seq![' '] + es.last().1 + seq![' ']
            + es.last().2 + seq!['\n']
    }
}

/// Canonical index text from entries: a comment header, then the entries
/// sorted by name, version and hash, one per line.
pub fn index_text(entries: Vec<IndexEntry>) -> (s: String)
    ensures
        s@ == index_header().push('\n') + index_body(sort_index(index_views(entries@))),
{
    let ghost src = index_views(entries@);
    let mut rest = entries;
    let mut sorted: Vec<IndexEntry> = Vec::new();
    let n = rest.len();
    let mut k: usize = 0;
    assert(src.take(0) =~= Seq::<IndexView>::empty());
    assert(src.skip(0) =~= src);
    while rest.len() > 0
        invariant
            k + rest@.len() == n,
            n == src.len(),
            index_views(rest@) == src.skip(k as int),
            index_views(sorted@) == sort_index(src.take(k as int)),
        decreases rest@.len(),
    {
        let ghost before = rest@;
        let x = rest.remove(0);
        assert(rest@ =~= before.drop_first());
        assert((x.0@, x.1@, x.2@) == src[k as int]) by {
            assert(src.skip(k as int)[0] == src[k as int]);
        }
        insert_index_exec(&mut sorted, x);
        proof {
            assert(src.take(k + 1).drop_last() =~= src.take(k as int));
            assert(src.skip(k as int).drop_first() =~= src.skip(k + 1));
            assert(index_views(rest@) =~= src.skip(k + 1)) by {
                assert forall|q: int| 0 <= q < rest@.len() implies #[trigger] index_views(rest@)[q]
                    == src.skip(k + 1)[q] by {
                    assert(rest@[q] == before[q + 1]);
                    assert(index_views(before)[q + 1] == src.skip(k as int)[q + 1]);
                }
            }
        }
        k += 1;
    }
    assert(src.take(k as int) =~= src);
    let ghost sv = index_views(sorted@);
    let mut out = string_of("# resid registry index");
    push_char(&mut out, '\n');
    let mut i: usize = 0;
    while i < sorted.len()
        invariant
            i <= sorted@.len(),
            sv == index_views(sorted@),
            out@ == index_header().push('\n') + index_body(sv.take(i as int)),
        decreases sorted@.len() - i,
    {
        let e = &sorted[i];
        let ghost before = out@;
        push_str(&mut out, e.0.as_str());
        push_char(&mut out, ' ');
        push_str(&mut out, e.1.as_str());
        push_char(&mut out, ' ');
        push_str(&mut out, e.2.as_str());
        push_char(&mut out, '\n');
        proof {
            assert(sv.take(i + 1).drop_last() =~= sv.take(i as int));
            assert(sv.take(i + 1).last() == (e.0@, e.1@, e.2@));
            assert(out@ =~= before + e.0@ + seq![' '] + e.1@ + seq![' '] + e.2@ + seq!['\n']);
        }
        i += 1;
    }
    assert(sv.take(i as int) =~= sv);
    out
}


// ─── HTTP ──────────────────────────────────────────────────────────

/// `\r\n\r\n` starts at `i` in `b`.
pub open spec fn blank_line_at(b: Seq<u8>, i: int) -> bool {
    0 <= i && i + 4 <= b.len() && b[i] == 13 && b[i + 1] == 10 && b[i + 2] == 13 && b[i + 3] == 10
}

/// The first position at or after `from` where `\r\n\r\n` starts in `b`.
pub open spec fn first_blank_line(b: Seq<u8>, from: int) -> Option<int>
    decreases b.len() - from,
{
    if from < 0 || from + 4 > b.len() {
        None
    } else if blank_line_at(b, from) {
        Some(from)
    } else {
        first_blank_line(b, from + 1)
    }
}

/// The first line of `t` as `str::lines` yields it: up to the first `\n`,
/// without a `\r` just before that `\n`.
pub open spec fn first_line(t: Seq<char>) -> Seq<char> {
    let p = split_on(t, '\n');
    if p.len() > 1 && p[0].len() > 0 && p[0].last() == '\r' {
        p[0].drop_last()
    } else {
        p[0]
    }
}

/// `c` with ASCII capitals made small.
pub open spec fn ascii_lower(c: char) -> char {
    if 'A' <= c && c <= 'Z' {
        ((c as u32) + 32) as char
    } else {
        c
    }
}

/// `k` names the `Content-Length` header, in any ASCII case.
pub open spec fn is_length_key(k: Seq<char>) -> bool {
    k.len() == 14 && forall|i: int| 0 <= i < 14 ==> ascii_lower(#[trigger] k[i]) == "content-length"@[i]
}

/// What a header line says of the body length: `None` for a line that is
/// no `Content-Length` header, else the value it gives (`None` when it is
/// not a number).
pub open spec fn length_header(line: Seq<char>) -> Option<Option<usize>> {
    match first_index(line, ':') {
        Some(i) => if is_length_key(line.take(i)) {
            Some(parse_usize_spec(trim(line.skip(i + 1))))
        } else {
            None
        },
        None => None,
    }
}

/// The body length the last `Content-Length` header of `lines` gives.
pub open spec fn content_length(lines: Seq<Seq<char>>) -> Option<usize>
    decreases lines.len(),
{
    if lines.len() == 0 {
        None
    } else {
        match length_header(lines.last()) {
            Some(v) => v,
            None => content_length(lines.drop_last()),
        }
    }
}

/// The status code and body of the raw response `raw`, or the message
/// for a malformed one: the head ends at the first blank line; the status
/// is the second word of the first line; the body is what follows the
/// head, cut to the announced length when that much arrived.
pub open spec fn http_response(raw: Seq<u8>) -> Result<(u16, Seq<u8>), Seq<char>> {
    match first_blank_line(raw, 0) {
        None => Err("malformed HTTP response (no header terminator)"@),
        Some(he) => {
            let head = utf8_lossy(raw.take(he));
            let line = first_line(head);
            let w = words(line);
            if w.len() >= 2 && parse_u16_spec(w[1]) is Some {
                let start = he + 4;
                let body = match content_length(split_on(head, '\n').skip(1)) {
                    Some(n) => if n <= raw.len() - start {
                        raw.subrange(start, start + n)
                    } else {
                        raw.skip(start)
                    },
                    None => raw.skip(start),
                };
                Ok((parse_u16_spec(w[1])->0, body))
            } else {
                Err("malformed HTTP status line: '"@ + line + "'"@)
            }
        },
    }
}

/// The position of the first `\r\n\r\n` in `b`, if any.
pub fn find_blank_line(b: &[u8]) -> (r: Option<usize>)
    ensures
        match first_blank_line(b@, 0) {
            Some(i) => (r matches Some(j) && j as int == i),
            None => r is None,
        },
        r matches Some(i) ==> blank_line_at(b@, i as int),
{
    if b.len() < 4 {
        return None;
    }
    let mut i: usize = 0;
    while i <= b.len() - 4
        invariant
            b@.len() >= 4,
            i <= b@.len() - 3,
            first_blank_line(b@, 0) == first_blank_line(b@, i as int),
        decreases b@.len() - i,
    {
        if b[i] == 13 && b[i + 1] == 10 && b[i + 2] == 13 && b[i + 3] == 10 {
            return Some(i);
        }
        i += 1;
    }
    None
}

fn is_length_key_exec(k: &[char]) -> (r: bool)
    ensures
        r == is_length_key(k@),
{
    let target: Vec<char> = vec!['c', 'o', 'n', 't', 'e', 'n', 't', '-', 'l', 'e', 'n', 'g', 't', 'h'];
    proof {
        reveal_strlit("content-length");
        assert(target@ =~= "content-length"@);
    }
    if k.len() != 14 {
        return false;
    }
    let mut i: usize = 0;
    while i < 14
        invariant
            k@.len() == 14,
            target@ == "content-length"@,
            target@.len() == 14,
            i <= 14,
            forall|j: int| 0 <= j < i ==> ascii_lower(#[trigger] k@[j]) == "content-length"@[j],
        decreases 14 - i,
    {
        let c = k[i];
        let lc = if 'A' <= c && c <= 'Z' {
            ((c as u32) + 32) as u8 as char
        } else {
            c
        };
        assert(lc == ascii_lower(c)) by {
            if 'A' <= c && c <= 'Z' {
                assert((c as u32) + 32 < 128);
            }
        }
        if lc != target[i] {
            return false;
        }
        i += 1;
    }
    true
}

fn length_header_exec(line: &[char]) -> (r: Option<Option<usize>>)
    ensures
        r == length_header(line@),
{
    match find_first(line, ':') {
        Some(i) => {
            let key = slice_to_vec(line, 0, i);
            assert(key@ =~= line@.take(i as int));
            if is_length_key_exec(key.as_slice()) {
                let v = slice_to_vec(line, i + 1, line.len());
                assert(v@ =~= line@.skip(i + 1));
                let t = trim_chars(v.as_slice());
                Some(parse_usize(t.as_slice()))
            } else {
                None
            }
        },
        None => None,
    }
}

/// Reads the status code and body out of a raw HTTP response (see
/// [`http_response`]).
pub fn parse_http_response(raw: &[u8]) -> (r: Result<HttpResponse, String>)
    ensures
        match http_response(raw@) {
            Ok((status, body)) => (r matches Ok(resp) && resp.status == status && resp.body@ == body),
            Err(m) => (r matches Err(e) && e@ == m),
        },
{
    let found = find_blank_line(raw);
    let he = match found {
        Some(i) => i,
        None => {
            return Err(string_of("malformed HTTP response (no header terminator)"));
        },
    };
    assert(blank_line_at(raw@, he as int));
    let n_raw = raw.len();
    let head_bytes = copy_range(raw, 0, he);
    assert(head_bytes@ =~= raw@.take(he as int));
    let head = from_utf8_lossy(head_bytes.as_slice());
    let cs = chars_of(head.as_str());
    let pieces = split_chars(cs.as_slice(), '\n');
    let ghost ps = views(pieces@);
    proof {
        crate::text::lemma_split_on_len(head@, '\n');
    }
    let p0 = &pieces[0];
    assert(p0@ == ps[0]);
    let line: Vec<char> = if pieces.len() > 1 && p0.len() > 0 && p0[p0.len() - 1] == '\r' {
        slice_to_vec(p0.as_slice(), 0, p0.len() - 1)
    } else {
        slice_to_vec(p0.as_slice(), 0, p0.len())
    };
    proof {
        if ps.len() > 1 && ps[0].len() > 0 && ps[0].last() == '\r' {
            assert(line@ =~= ps[0].drop_last());
        } else {
            assert(line@ =~= ps[0]);
        }
        assert(cs@ == head@);
        assert(head@ == utf8_lossy(raw@.take(he as int)));
        assert(ps == split_on(head@, '\n'));
        assert(line@ == first_line(head@));
        assert(first_blank_line(raw@, 0) == Some(he as int));
    }
    let w = split_words(line.as_slice());
    assert(views(w@) == words(line@));
    let status = if w.len() >= 2 {
        assert(views(w@)[1] == w@[1]@);
        parse_u16(w[1].as_slice())
    } else {
        None
    };
    let status = match status {
        Some(s) => s,
        None => {
            let mut m = string_of("malformed HTTP status line: '");
            let l = string_of_chars(line.as_slice());
            push_str(&mut m, l.as_str());
            push_str(&mut m, "'");
            return Err(m);
        },
    };
    let ghost hl = ps.skip(1);
    let mut cl: Option<usize> = None;
    let mut k: usize = 1;
    assert(hl.take(0) =~= Seq::<Seq<char>>::empty());
    while k < pieces.len()
        invariant
            1 <= k <= pieces@.len(),
            he + 4 <= n_raw,
            n_raw == raw@.len(),
            ps == views(pieces@),
            hl == ps.skip(1),
            cl == content_length(hl.take(k - 1)),
        decreases pieces@.len() - k,
    {
        assert(hl.take(k as int).drop_last() =~= hl.take(k - 1));
        assert(hl.take(k as int).last() == pieces@[k as int]@);
        match length_header_exec(pieces[k].as_slice()) {
            Some(v) => {
                cl = v;
            },
            None => {},
        }
        k += 1;
    }
    assert(hl.take(k - 1) =~= hl);
    let start = he + 4;
    let body = match cl {
        Some(n) => if n <= raw.len() - start {
            copy_range(raw, start, start + n)
        } else {
            copy_range(raw, start, raw.len())
        },
        None => copy_range(raw, start, raw.len()),
    };
    proof {
        assert(raw@.subrange(start as int, raw@.len() as int) =~= raw@.skip(start as int));
    }
    Ok(HttpResponse { status, body })
}

/// The GET request for `path` on `host:port`, closing the connection
/// after the answer.
pub open spec fn get_request_text(host: Seq<char>, port: u16, path: Seq<char>) -> Seq<char> {
    "GET "@ + path + " HTTP/1.1\r\nHost: "@ + host + ":"@ + decimal(port as nat)
        + "\r\nUser-Agent: resid-build\r\nAccept: */*\r\nConnection: close\r\n\r\n"@
}

/// The text of the GET request for `path` on `host:port`.
pub fn get_request(host: &str, port: u16, path: &str) -> (s: String)
    ensures
        s@ == get_request_text(host@, port, path@),
{
    let mut s = string_of("GET ");
    push_str(&mut s, path);
    push_str(&mut s, " HTTP/1.1\r\nHost: ");
    push_str(&mut s, host);
    push_str(&mut s, ":");
    push_decimal(&mut s, port as u128);
    push_str(&mut s, "\r\nUser-Agent: resid-build\r\nAccept: */*\r\nConnection: close\r\n\r\n");
    s
}

/// What the registry server does with a request.
#[derive(Debug, PartialEq, Eq)]
pub enum ServeAction {
    /// Answer 404: not a `GET` under `/pkg/`.
    NotFound,
    /// Answer 400: the object name could leave the package directory.
    BadRequest,
    /// Send the object of this name from the package directory (404 when
    /// it cannot be read).
    Send(String),
}

/// The request target: the second word of the request's first line, `/`
/// when there is none.
pub open spec fn request_target(head: Seq<char>) -> Seq<char> {
    let w = words(first_line(head));
    if w.len() >= 2 {
        w[1]
    } else {
        "/"@
    }
}

/// `s` holds `t` as a contiguous part.
pub open spec fn holds(s: Seq<char>, t: Seq<char>) -> bool {
    exists|i: int| 0 <= i && i + t.len() <= s.len() && #[trigger] s.subrange(i, i + t.len()) == t
}

/// What the server does with the request head `head`: `None` to answer
/// 404 (not a `GET` under `/pkg/`), `Some(None)` to answer 400 (the name
/// could leave the package directory), else the name of the object to
/// send. Only a plain object name under `/pkg/` is served.
pub open spec fn serve_name(head: Seq<char>) -> Option<Option<Seq<char>>> {
    let target = request_target(head);
    if !(has_prefix(head, "GET "@) && has_prefix(target, "/pkg/"@)) {
        None
    } else {
        let name = target.skip(5);
        if holds(name, ".."@) || holds(name, "/"@) || holds(name, "\\"@) {
            Some(None)
        } else {
            Some(Some(name))
        }
    }
}

fn prefix_exec(s: &[char], p: &str) -> (r: bool)
    ensures
        r == has_prefix(s@, p@),
{
    let pc = chars_of(p);
    if pc.len() > s.len() {
        return false;
    }
    let head = slice_to_vec(s, 0, pc.len());
    crate::text::chars_eq(head.as_slice(), pc.as_slice())
}

fn holds_exec(s: &[char], t: &str) -> (r: bool)
    ensures
        r == holds(s@, t@),
{
    let tc = chars_of(t);
    let n = tc.len();
    if n > s.len() {
        return false;
    }
    if n == 0 {
        assert(s@.subrange(0, 0 + t@.len() as int) =~= t@);
        return true;
    }
    let mut i: usize = 0;
    while i <= s.len() - n
        invariant
            tc@ == t@,
            n == tc@.len(),
            0 < n <= s@.len(),
            i <= s@.len() - n + 1,
            forall|j: int| 0 <= j < i ==> #[trigger] s@.subrange(j, j + n) != t@,
        decreases s@.len() - i,
    {
        let part = slice_to_vec(s, i, i + n);
        if crate::text::chars_eq(part.as_slice(), tc.as_slice()) {
            return true;
        }
        i += 1;
    }
    proof {
        assert forall|j: int| 0 <= j && j + t@.len() <= s@.len() implies #[trigger] s@.subrange(j, j + t@.len()) != t@ by {
            assert(j < i);
        }
    }
    false
}

/// Decides how the registry server answers the request head `head`.
pub fn serve_decision(head: &str) -> (a: ServeAction)
    ensures
        match serve_name(head@) {
            None => a == ServeAction::NotFound,
            Some(None) => a == ServeAction::BadRequest,
            Some(Some(name)) => (a matches ServeAction::Send(n) && n@ == name),
        },
{
    let cs = chars_of(head);
    let pieces = split_chars(cs.as_slice(), '\n');
    proof {
        crate::text::lemma_split_on_len(head@, '\n');
    }
    let ghost ps = views(pieces@);
    let p0 = &pieces[0];
    assert(p0@ == ps[0]);
    let line: Vec<char> = if pieces.len() > 1 && p0.len() > 0 && p0[p0.len() - 1] == '\r' {
        slice_to_vec(p0.as_slice(), 0, p0.len() - 1)
    } else {
        slice_to_vec(p0.as_slice(), 0, p0.len())
    };
    proof {
        if ps.len() > 1 && ps[0].len() > 0 && ps[0].last() == '\r' {
            assert(line@ =~= ps[0].drop_last());
        } else {
            assert(line@ =~= ps[0]);
        }
    }
    let w = split_words(line.as_slice());
    let target: Vec<char> = if w.len() >= 2 {
        assert(views(w@)[1] == w@[1]@);
        slice_to_vec(w[1].as_slice(), 0, w[1].len())
    } else {
        chars_of("/")
    };
    assert(target@ =~= request_target(head@));
    if !(prefix_exec(cs.as_slice(), "GET ") && prefix_exec(target.as_slice(), "/pkg/")) {
        return ServeAction::NotFound;
    }
    proof {
        reveal_strlit("/pkg/");
    }
    let name = slice_to_vec(target.as_slice(), 5, target.len());
    assert(name@ =~= target@.skip(5));
    if holds_exec(name.as_slice(), "..") || holds_exec(name.as_slice(), "/") || holds_exec(name.as_slice(), "\\") {
        return ServeAction::BadRequest;
    }
    ServeAction::Send(string_of_chars(name.as_slice()))
}

/// The head of a 200 answer carrying `len` bytes.
pub open spec fn ok_head_text(len: nat) -> Seq<char> {
    "HTTP/1.1 200 OK\r\nContent-Type: application/octet-stream\r\nContent-Length: "@ + decimal(len)
        + "\r\nConnection: close\r\n\r\n"@
}

/// The head of a 200 answer carrying `len` bytes.
pub fn ok_head(len: usize) -> (s: String)
    ensures
        s@ == ok_head_text(len as nat),
{
    let mut s = string_of("HTTP/1.1 200 OK\r\nContent-Type: application/octet-stream\r\nContent-Length: ");
    push_decimal(&mut s, len as u128);
    push_str(&mut s, "\r\nConnection: close\r\n\r\n");
    s
}

/// A bodiless answer with the status line `status` (such as `404 Not
/// Found`).
pub open spec fn empty_answer_text(status: Seq<char>) -> Seq<char> {
    "HTTP/1.1 "@ + status + "\r\nContent-Length: 0\r\nConnection: close\r\n\r\n"@
}

/// The 404 answer.
pub fn not_found_answer() -> (s: String)
    ensures
        s@ == empty_answer_text("404 Not Found"@),
{
    let mut s = string_of("HTTP/1.1 ");
    push_str(&mut s, "404 Not Found");
    push_str(&mut s, "\r\nContent-Length: 0\r\nConnection: close\r\n\r\n");
    s
}

/// The 400 answer.
pub fn bad_request_answer() -> (s: String)
    ensures
        s@ == empty_answer_text("400 Bad Request"@),
{
    let mut s = string_of("HTTP/1.1 ");
    push_str(&mut s, "400 Bad Request");
    push_str(&mut s, "\r\nContent-Length: 0\r\nConnection: close\r\n\r\n");
    s
}

/// Whether enough of a request has arrived to answer it: its head is
/// complete, or more than 16 KiB came.
pub fn request_head_done(buf: &[u8]) -> (r: bool)
    ensures
        r == (first_blank_line(buf@, 0) is Some || buf@.len() > 16384),
{
    find_blank_line(buf).is_some() || buf.len() > 16384
}

/// Whether text fetched as a registry index looks like one: it mentions
/// `name ` or spans more than one line.
pub fn index_present(text: &str) -> (r: bool)
    ensures
        r == (holds(text@, "name "@) || holds(text@, "\n"@)),
{
    let cs = chars_of(text);
    holds_exec(cs.as_slice(), "name ") || holds_exec(cs.as_slice(), "\n")
}

} // verus!
