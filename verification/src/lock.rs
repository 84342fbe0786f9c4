//! Dependency lockfiles (`resid.lock`): pin every registry dependency to
//! the exact content hash of its archive so rebuilds are reproducible and
//! tampering is detected.
//!
//! One line per dependency, `<name> <version> sha256:<hex>`; blank lines
//! and `#` comments are skipped.

use vstd::prelude::*;

use crate::text::{
    chars_le, chars_of, decimal, has_prefix, is_ws, lemma_chars_le_total, lemma_chars_le_trans, push_char, push_decimal, push_str, slice_to_vec,
    split_chars, split_on, split_words, str_eq, str_le, string_of, string_of_chars, trim,
    trim_chars, views, words,
};

verus! {

/// One pinned dependency: `<name> <version> sha256:<hex>`.
#[derive(Debug, PartialEq)]
pub struct LockEntry {
    pub name: String,
    pub version: String,
    pub sha256: String,
}

/// The (name, version, hash) text of a lock entry.
pub type EntryView = (Seq<char>, Seq<char>, Seq<char>);

impl View for LockEntry {
    type V = EntryView;

    open spec fn view(&self) -> EntryView {
        (self.name@, self.version@, self.sha256@)
    }
}

impl LockEntry {
    /// A copy of this entry.
    pub fn copy(&self) -> (r: LockEntry)
        ensures
            r@ == self@,
    {
        LockEntry {
            name: self.name.clone(),
            version: self.version.clone(),
            sha256: self.sha256.clone(),
        }
    }
}

/// A lockfile: its entries in file order (kept sorted by name by
/// [`LockFile::set`]).
#[derive(Debug, PartialEq)]
pub struct LockFile {
    pub entries: Vec<LockEntry>,
}

/// The views of a sequence of entries.
pub open spec fn entry_views(v: Seq<LockEntry>) -> Seq<EntryView> {
    v.map_values(|e: LockEntry| e@)
}

impl View for LockFile {
    type V = Seq<EntryView>;

    open spec fn view(&self) -> Seq<EntryView> {
        entry_views(self.entries@)
    }
}

impl Default for LockFile {
    fn default() -> (r: LockFile)
        ensures
            r@ == Seq::<EntryView>::empty(),
    {
        LockFile { entries: Vec::new() }
    }
}

/// The index of the first entry named `name`, if any.
pub open spec fn first_named(es: Seq<EntryView>, name: Seq<char>) -> Option<int>
    decreases es.len(),
{
    if es.len() == 0 {
        None
    } else {
        match first_named(es.drop_last(), name) {
            Some(i) => Some(i),
            None => if es.last().0 == name {
                Some(es.len() - 1)
            } else {
                None
            },
        }
    }
}

/// Inserts `x` after every entry whose name sorts before or with its own.
pub open spec fn insert_by_name(s: Seq<EntryView>, x: EntryView) -> Seq<EntryView>
    decreases s.len(),
{
    if s.len() == 0 {
        seq![x]
    } else if chars_le(s.last().0, x.0) {
        s.push(x)
    } else {
        insert_by_name(s.drop_last(), x).push(s.last())
    }
}

/// The stable sort of `s` by name.
pub open spec fn sort_by_name(s: Seq<EntryView>) -> Seq<EntryView>
    decreases s.len(),
{
    if s.len() == 0 {
        Seq::empty()
    } else {
        insert_by_name(sort_by_name(s.drop_last()), s.last())
    }
}

/// `es` with `e` in place of the first entry of the same name, or with `e`
/// appended when there is none.
pub open spec fn upsert(es: Seq<EntryView>, e: EntryView) -> Seq<EntryView> {
    match first_named(es, e.0) {
        Some(i) => es.update(i, e),
        None => es.push(e),
    }
}

proof fn lemma_first_named_prefix(es: Seq<EntryView>, name: Seq<char>, k: int)
    requires
        0 <= k <= es.len(),
        forall|j: int| 0 <= j < k ==> es[j].0 != name,
    ensures
        first_named(es.take(k), name) is None,
    decreases k,
{
    if k > 0 {
        assert(es.take(k).drop_last() =~= es.take(k - 1));
        lemma_first_named_prefix(es, name, k - 1);
    }
}

proof fn lemma_first_named_at(es: Seq<EntryView>, name: Seq<char>, k: int)
    requires
        0 <= k < es.len(),
        es[k].0 == name,
        forall|j: int| 0 <= j < k ==> es[j].0 != name,
    ensures
        first_named(es, name) == Some(k),
    decreases es.len(),
{
    if es.len() - 1 > k {
        assert(es.drop_last()[k] == es[k]);
        lemma_first_named_at(es.drop_last(), name, k);
    } else {
        lemma_first_named_prefix(es, name, k);
        assert(es.take(k) =~= es.drop_last());
    }
}

impl LockFile {
    /// The first entry named `name`.
    pub fn get(&self, name: &str) -> (r: Option<&LockEntry>)
        ensures
            match first_named(self@, name@) {
                Some(i) => (r matches Some(e) && e@ == self@[i]),
                None => r is None,
            },
    {
        let mut i: usize = 0;
        while i < self.entries.len()
            invariant
                i <= self.entries@.len(),
                forall|j: int| 0 <= j < i ==> self@[j].0 != name@,
            decreases self.entries@.len() - i,
        {
            if str_eq(self.entries[i].name.as_str(), name) {
                proof {
                    lemma_first_named_at(self@, name@, i as int);
                }
                return Some(&self.entries[i]);
            }
            i += 1;
        }
        proof {
            lemma_first_named_prefix(self@, name@, i as int);
            assert(self@.take(i as int) =~= self@);
        }
        None
    }

    /// Pins `entry`: it replaces the first entry of the same name, or is
    /// added; the entries are then stably sorted by name.
    pub fn set(&mut self, entry: LockEntry)
        ensures
            final(self)@ == sort_by_name(upsert(old(self)@, entry@)),
    {
        let ghost e = entry@;
        let mut found: bool = false;
        let mut i: usize = 0;
        while i < self.entries.len() && !found
            invariant
                i <= self.entries@.len(),
                forall|j: int| 0 <= j < i ==> self@[j].0 != e.0,
                found ==> i < self.entries@.len() && self@[i as int].0 == e.0,
                self@ == old(self)@,
                e == entry@,
            decreases self.entries@.len() - i + (if found { 0int } else { 1int }),
        {
            if str_eq(self.entries[i].name.as_str(), entry.name.as_str()) {
                found = true;
            } else {
                i += 1;
            }
        }
        let ghost target = upsert(old(self)@, e);
        if found {
            proof {
                lemma_first_named_at(self@, e.0, i as int);
            }
            self.entries.set(i, entry);
            assert(self@ =~= target);
        } else {
            proof {
                lemma_first_named_prefix(self@, e.0, i as int);
                assert(self@.take(i as int) =~= self@);
            }
            self.entries.push(entry);
            assert(self@ =~= target);
        }
        let mut unsorted: Vec<LockEntry> = Vec::new();
        std::mem::swap(&mut unsorted, &mut self.entries);
        let ghost src = entry_views(unsorted@);
        assert(src == target);
        let mut k: usize = 0;
        let n = unsorted.len();
        while unsorted.len() > 0
            invariant
                k + unsorted@.len() == n,
                n == src.len(),
                entry_views(unsorted@) == src.skip(k as int),
                self@ == sort_by_name(src.take(k as int)),
            decreases unsorted@.len(),
        {
            let ghost before = unsorted@;
            let x = unsorted.remove(0);
            let ghost xv = x@;
            assert(unsorted@ =~= before.drop_first());
            assert(xv == src[k as int]) by {
                assert(src.skip(k as int)[0] == src[k as int]);
            }
            insert_sorted(&mut self.entries, x);
            proof {
                assert(src.take(k + 1).drop_last() =~= src.take(k as int));
                assert(src.take(k + 1).last() == src[k as int]);
                assert(src.skip(k as int).drop_first() =~= src.skip(k + 1));
                assert(entry_views(unsorted@) =~= src.skip(k + 1)) by {
                    assert forall|q: int| 0 <= q < unsorted@.len() implies #[trigger] entry_views(unsorted@)[q] == src.skip(k + 1)[q] by {
                        assert(unsorted@[q] == before[q + 1]);
                        assert(entry_views(before)[q + 1] == src.skip(
                            k as int,
                        )[q + 1]);
                    }
                }
            }
            k += 1;
        }
        assert(src.take(k as int) =~= src);
    }
}

proof fn lemma_insert_by_name_split(s: Seq<EntryView>, x: EntryView, p: int)
    requires
        0 <= p <= s.len(),
        p == s.len() || !chars_le(s[p].0, x.0),
        forall|j: int| p < j < s.len() ==> !chars_le(#[trigger] s[j].0, x.0),
        p == 0 || chars_le(s[p - 1].0, x.0),
    ensures
        insert_by_name(s, x) == s.take(p).push(x) + s.skip(p),
    decreases s.len(),
{
    if s.len() == 0 {
        assert(s.take(p).push(x) + s.skip(p) =~= seq![x]);
    } else if p == s.len() {
        assert(s.take(p) =~= s);
        assert(s.skip(p) =~= Seq::<EntryView>::empty());
        assert(s.take(p).push(x) + s.skip(p) =~= s.push(x));
    } else {
        let t = s.drop_last();
        assert forall|j: int| p < j < t.len() implies !chars_le(#[trigger] t[j].0, x.0) by {
            assert(t[j] == s[j]);
        }
        if p > 0 {
            assert(t[p - 1] == s[p - 1]);
        }
        if p < t.len() {
            assert(t[p] == s[p]);
        }
        lemma_insert_by_name_split(t, x, p);
        assert(t.take(p) =~= s.take(p));
        assert(s.take(p).push(x) + s.skip(p) =~= (t.take(p).push(x) + t.skip(p)).push(s.last()));
    }
}

/// No two entries share a name.
pub open spec fn names_distinct(es: Seq<EntryView>) -> bool {
    forall|i: int, j: int| 0 <= i < j < es.len() ==> (#[trigger] es[i]).0 != (#[trigger] es[j]).0
}

/// The entries are in ascending name order.
pub open spec fn sorted_by_name(es: Seq<EntryView>) -> bool {
    forall|i: int, j: int| 0 <= i < j < es.len() ==> chars_le((#[trigger] es[i]).0, (#[trigger] es[j]).0)
}

proof fn lemma_first_named_spec(es: Seq<EntryView>, n: Seq<char>)
    ensures
        match first_named(es, n) {
            Some(i) => 0 <= i < es.len() && es[i].0 == n && forall|j: int| 0 <= j < i ==> es[j].0 != n,
            None => forall|j: int| 0 <= j < es.len() ==> es[j].0 != n,
        },
    decreases es.len(),
{
    if es.len() > 0 {
        lemma_first_named_spec(es.drop_last(), n);
        assert forall|j: int| 0 <= j < es.len() - 1 implies es[j] == es.drop_last()[j] by {}
    }
}

proof fn lemma_insert_by_name_facts(s: Seq<EntryView>, x: EntryView)
    ensures
        insert_by_name(s, x).len() == s.len() + 1,
        forall|y: EntryView| #[trigger] insert_by_name(s, x).contains(y) <==> (s.contains(y) || y == x),
        sorted_by_name(s) ==> sorted_by_name(insert_by_name(s, x)),
        names_distinct(s) && (forall|j: int| 0 <= j < s.len() ==> s[j].0 != x.0) ==> names_distinct(
            insert_by_name(s, x),
        ),
    decreases s.len(),
{
    let r = insert_by_name(s, x);
    if s.len() == 0 {
        assert forall|y: EntryView| r.contains(y) <==> (s.contains(y) || y == x) by {
            if r.contains(y) {
                assert(r[0] == x);
            }
            if y == x {
                assert(r[0] == x);
            }
        }
    } else if chars_le(s.last().0, x.0) {
        assert(r == s.push(x));
        assert forall|y: EntryView| r.contains(y) <==> (s.contains(y) || y == x) by {
            if r.contains(y) {
                let k = choose|k: int| 0 <= k < r.len() && r[k] == y;
                if k < s.len() {
                    assert(s[k] == y);
                }
            }
            if s.contains(y) {
                let k = choose|k: int| 0 <= k < s.len() && s[k] == y;
                assert(r[k] == y);
            }
            if y == x {
                assert(r[s.len() as int] == x);
            }
        }
        if sorted_by_name(s) {
            assert forall|i: int, j: int| 0 <= i < j < r.len() implies chars_le((#[trigger] r[i]).0, (#[trigger] r[j]).0) by {
                if j == s.len() {
                    if i < s.len() - 1 {
                        assert(chars_le(s[i].0, s[s.len() - 1].0));
                        lemma_chars_le_trans(s[i].0, s.last().0, x.0);
                    }
                } else {
                    assert(r[i] == s[i] && r[j] == s[j]);
                }
            }
        }
        if names_distinct(s) && (forall|j: int| 0 <= j < s.len() ==> s[j].0 != x.0) {
            assert forall|i: int, j: int| 0 <= i < j < r.len() implies (#[trigger] r[i]).0 != (#[trigger] r[j]).0 by {
                if j == s.len() {
                    assert(r[i] == s[i]);
                } else {
                    assert(r[i] == s[i] && r[j] == s[j]);
                }
            }
        }
    } else {
        let t = s.drop_last();
        let l = s.last();
        lemma_insert_by_name_facts(t, x);
        let it = insert_by_name(t, x);
        assert(r == it.push(l));
        assert forall|y: EntryView| r.contains(y) <==> (s.contains(y) || y == x) by {
            if r.contains(y) {
                let k = choose|k: int| 0 <= k < r.len() && r[k] == y;
                if k < it.len() {
                    assert(it[k] == y);
                    assert(it.contains(y));
                    if t.contains(y) {
                        let q = choose|q: int| 0 <= q < t.len() && t[q] == y;
                        assert(s[q] == y);
                    }
                } else {
                    assert(s[s.len() - 1] == y);
                }
            }
            if s.contains(y) {
                let k = choose|k: int| 0 <= k < s.len() && s[k] == y;
                if k < s.len() - 1 {
                    assert(t[k] == y);
                    assert(t.contains(y));
                    assert(it.contains(y));
                    let q = choose|q: int| 0 <= q < it.len() && it[q] == y;
                    assert(r[q] == y);
                } else {
                    assert(r[it.len() as int] == y);
                }
            }
            if y == x {
                assert(it.contains(x) <==> (t.contains(x) || x == x));
                let q = choose|q: int| 0 <= q < it.len() && it[q] == x;
                assert(r[q] == x);
            }
        }
        if sorted_by_name(s) {
            assert(sorted_by_name(t)) by {
                assert forall|i: int, j: int| 0 <= i < j < t.len() implies chars_le((#[trigger] t[i]).0, (#[trigger] t[j]).0) by {
                    assert(t[i] == s[i] && t[j] == s[j]);
                }
            }
            lemma_chars_le_total(l.0, x.0);
            assert forall|i: int, j: int| 0 <= i < j < r.len() implies chars_le((#[trigger] r[i]).0, (#[trigger] r[j]).0) by {
                if j == it.len() {
                    let y = it[i];
                    assert(it.contains(y));
                    if y == x {
                    } else {
                        assert(t.contains(y));
                        let q = choose|q: int| 0 <= q < t.len() && t[q] == y;
                        assert(chars_le(s[q].0, s[s.len() - 1].0));
                    }
                } else {
                    assert(r[i] == it[i] && r[j] == it[j]);
                }
            }
        }
        if names_distinct(s) && (forall|j: int| 0 <= j < s.len() ==> s[j].0 != x.0) {
            assert(names_distinct(t)) by {
                assert forall|i: int, j: int| 0 <= i < j < t.len() implies (#[trigger] t[i]).0 != (#[trigger] t[j]).0 by {
                    assert(t[i] == s[i] && t[j] == s[j]);
                }
            }
            assert forall|j: int| 0 <= j < t.len() implies t[j].0 != x.0 by {
                assert(t[j] == s[j]);
            }
            assert forall|i: int, j: int| 0 <= i < j < r.len() implies (#[trigger] r[i]).0 != (#[trigger] r[j]).0 by {
                if j == it.len() {
                    let y = it[i];
                    assert(it.contains(y));
                    if y == x {
                        assert(s[s.len() - 1].0 != x.0);
                    } else {
                        assert(t.contains(y));
                        let q = choose|q: int| 0 <= q < t.len() && t[q] == y;
                        assert(s[q].0 != s[s.len() - 1].0);
                    }
                } else {
                    assert(r[i] == it[i] && r[j] == it[j]);
                }
            }
        }
    }
}

proof fn lemma_sort_by_name_facts(s: Seq<EntryView>)
    ensures
        sort_by_name(s).len() == s.len(),
        forall|y: EntryView| #[trigger] sort_by_name(s).contains(y) <==> s.contains(y),
        sorted_by_name(sort_by_name(s)),
        names_distinct(s) ==> names_distinct(sort_by_name(s)),
    decreases s.len(),
{
    if s.len() > 0 {
        let t = s.drop_last();
        lemma_sort_by_name_facts(t);
        let st = sort_by_name(t);
        lemma_insert_by_name_facts(st, s.last());
        assert forall|y: EntryView| sort_by_name(s).contains(y) <==> s.contains(y) by {
            if t.contains(y) {
                let q = choose|q: int| 0 <= q < t.len() && t[q] == y;
                assert(s[q] == y);
            }
            if s.contains(y) {
                let q = choose|q: int| 0 <= q < s.len() && s[q] == y;
                if q < s.len() - 1 {
                    assert(t[q] == y);
                }
            }
        }
        if names_distinct(s) {
            assert(names_distinct(t)) by {
                assert forall|i: int, j: int| 0 <= i < j < t.len() implies (#[trigger] t[i]).0 != (#[trigger] t[j]).0 by {
                    assert(t[i] == s[i] && t[j] == s[j]);
                }
            }
            assert forall|j: int| 0 <= j < st.len() implies st[j].0 != s.last().0 by {
                let y = st[j];
                assert(st.contains(y));
                assert(t.contains(y));
                let q = choose|q: int| 0 <= q < t.len() && t[q] == y;
                assert(s[q].0 != s[s.len() - 1].0);
            }
        }
    }
}

/// Pinning an entry in a lockfile whose names are distinct: afterwards the
/// entry is what its name finds, the entries are in strictly ascending name
/// order, every other entry is kept, and there is one entry more exactly
/// when the name was new.
pub proof fn lemma_set_law(old: Seq<EntryView>, e: EntryView)
    requires
        names_distinct(old),
    ensures
        ({
            let r = sort_by_name(upsert(old, e));
            &&& first_named(r, e.0) matches Some(i) && r[i] == e
            &&& forall|i: int, j: int|
                0 <= i < j < r.len() ==> chars_le((#[trigger] r[i]).0, (#[trigger] r[j]).0) && r[i].0 != r[j].0
            &&& forall|x: EntryView| old.contains(x) && x.0 != e.0 ==> r.contains(x)
            &&& r.len() == old.len() + if first_named(old, e.0) is Some {
                0int
            } else {
                1int
            }
        }),
{
    let u = upsert(old, e);
    lemma_first_named_spec(old, e.0);
    assert(names_distinct(u) && u.contains(e) && forall|x: EntryView| old.contains(x) && x.0 != e.0 ==> u.contains(x))
        by {
        match first_named(old, e.0) {
            Some(i) => {
                assert(u[i] == e);
                assert forall|a: int, b: int| 0 <= a < b < u.len() implies (#[trigger] u[a]).0 != (#[trigger] u[b]).0 by {
                    assert(old[a].0 != old[b].0);
                }
                assert forall|x: EntryView| old.contains(x) && x.0 != e.0 implies u.contains(x) by {
                    let q = choose|q: int| 0 <= q < old.len() && old[q] == x;
                    assert(q != i);
                    assert(u[q] == x);
                }
            },
            None => {
                assert(u[old.len() as int] == e);
                assert forall|a: int, b: int| 0 <= a < b < u.len() implies (#[trigger] u[a]).0 != (#[trigger] u[b]).0 by {
                    if b < old.len() {
                        assert(old[a].0 != old[b].0);
                    } else {
                        assert(u[a] == old[a]);
                    }
                }
                assert forall|x: EntryView| old.contains(x) && x.0 != e.0 implies u.contains(x) by {
                    let q = choose|q: int| 0 <= q < old.len() && old[q] == x;
                    assert(u[q] == x);
                }
            },
        }
    }
    lemma_sort_by_name_facts(u);
    let r = sort_by_name(u);
    assert(r.contains(e));
    let k = choose|k: int| 0 <= k < r.len() && r[k] == e;
    assert forall|j: int| 0 <= j < k implies r[j].0 != e.0 by {
        assert(r[j].0 != r[k].0);
    }
    lemma_first_named_at(r, e.0, k);
}

fn insert_sorted(v: &mut Vec<LockEntry>, x: LockEntry)
    ensures
        entry_views(final(v)@) == insert_by_name(
            entry_views(old(v)@),
            x@,
        ),
{
    let ghost s = entry_views(v@);
    let mut p: usize = v.len();
    while p > 0 && !str_le(v[p - 1].name.as_str(), x.name.as_str())
        invariant
            p <= v@.len(),
            s == entry_views(v@),
            s == entry_views(old(v)@),
            forall|j: int| p <= j < s.len() ==> !chars_le(#[trigger] s[j].0, x@.0),
        decreases p,
    {
        p -= 1;
    }
    proof {
        lemma_insert_by_name_split(s, x@, p as int);
    }
    let ghost xv = x@;
    v.insert(p, x);
    assert(entry_views(v@) =~= s.take(p as int).push(xv) + s.skip(p as int));
}

// ─── Text form ─────────────────────────────────────────────────────

/// What a line of `resid.lock` holds: `None` for a malformed line, else
/// `Some(None)` for a blank or comment line, or the entry it pins.
pub open spec fn classify(line: Seq<char>) -> Option<Option<EntryView>> {
    let t = trim(line);
    if t.len() == 0 || t[0] == '#' {
        Some(None)
    } else {
        let w = words(t);
        if w.len() == 3 && has_prefix(w[2], "sha256:"@) {
            Some(Some((w[0], w[1], w[2].skip(7))))
        } else {
            None
        }
    }
}

/// The entries of a sequence of lines, or the index of the first
/// malformed line.
pub open spec fn parse_lines(ls: Seq<Seq<char>>) -> Result<Seq<EntryView>, nat>
    decreases ls.len(),
{
    if ls.len() == 0 {
        Ok(Seq::empty())
    } else {
        match parse_lines(ls.drop_last()) {
            Err(i) => Err(i),
            Ok(es) => match classify(ls.last()) {
                None => Err((ls.len() - 1) as nat),
                Some(None) => Ok(es),
                Some(Some(e)) => Ok(es.push(e)),
            },
        }
    }
}

/// The message for a malformed line (numbered from 1).
pub open spec fn lock_error(n: nat) -> Seq<char> {
    "resid.lock line "@ + decimal(n) + ": expected '<name> <version> sha256:<hex>'"@
}

fn classify_line(line: &[char]) -> (r: Option<Option<LockEntry>>)
    ensures
        match classify(line@) {
            None => r is None,
            Some(None) => r matches Some(None),
            Some(Some(e)) => (r matches Some(Some(x)) && x@ == e),
        },
{
    let t = trim_chars(line);
    if t.len() == 0 || t[0] == '#' {
        return Some(None);
    }
    let w = split_words(t.as_slice());
    if w.len() != 3 {
        return None;
    }
    let prefix = chars_of("sha256:");
    proof {
        reveal_strlit("sha256:");
    }
    if w[2].len() < 7 {
        return None;
    }
    let head = slice_to_vec(w[2].as_slice(), 0, 7);
    assert(views(w@)[2] == w@[2]@);
    if !crate::text::chars_eq(head.as_slice(), prefix.as_slice()) {
        assert(!has_prefix(views(w@)[2], "sha256:"@)) by {
            assert(w@[2]@.take(7) =~= head@);
        }
        return None;
    }
    assert(w@[2]@.take(7) =~= head@);
    let hash = slice_to_vec(w[2].as_slice(), 7, w[2].len());
    assert(hash@ =~= w@[2]@.skip(7));
    assert(views(w@)[0] == w@[0]@);
    assert(views(w@)[1] == w@[1]@);
    Some(
        Some(
            LockEntry {
                name: string_of_chars(w[0].as_slice()),
                version: string_of_chars(w[1].as_slice()),
                sha256: string_of_chars(hash.as_slice()),
            },
        ),
    )
}

/// Parses `resid.lock` text. Blank lines and `#` comments are skipped;
/// a malformed line is an error that names it (a lockfile is
/// machine-written, so hand edits should fail loudly).
pub fn parse(text: &str) -> (r: Result<LockFile, String>)
    ensures
        match parse_lines(split_on(text@, '\n')) {
            Ok(es) => (r matches Ok(lf) && lf@ == es),
            Err(i) => (r matches Err(e) && e@ == lock_error(i + 1)),
        },
{
    let cs = chars_of(text);
    let lines = split_chars(cs.as_slice(), '\n');
    let ghost ls = views(lines@);
    let mut entries: Vec<LockEntry> = Vec::new();
    let mut idx: usize = 0;
    assert(ls.take(0) =~= Seq::<Seq<char>>::empty());
    assert(entry_views(entries@) =~= Seq::<EntryView>::empty());
    while idx < lines.len()
        invariant
            idx <= lines@.len(),
            ls == views(lines@),
            ls == split_on(text@, '\n'),
            parse_lines(ls.take(idx as int)) == Ok::<Seq<EntryView>, nat>(
                entry_views(entries@),
            ),
        decreases lines@.len() - idx,
    {
        let ghost pre = ls.take(idx as int);
        assert(ls.take(idx + 1).drop_last() =~= pre);
        assert(ls.take(idx + 1).last() == lines@[idx as int]@);
        match classify_line(lines[idx].as_slice()) {
            None => {
                let mut m = string_of("resid.lock line ");
                push_decimal(&mut m, (idx as u128) + 1);
                push_str(&mut m, ": expected '<name> <version> sha256:<hex>'");
                proof {
                    lemma_parse_error_stays(ls, (idx + 1) as int, idx as nat);
                }
                return Err(m);
            },
            Some(None) => {},
            Some(Some(e)) => {
                let ghost before = entry_views(entries@);
                entries.push(e);
                assert(entry_views(entries@) =~= before.push(e@));
            },
        }
        idx += 1;
    }
    assert(ls.take(idx as int) =~= ls);
    Ok(LockFile { entries })
}

proof fn lemma_parse_error_stays(ls: Seq<Seq<char>>, k: int, m: nat)
    requires
        0 < k <= ls.len(),
        parse_lines(ls.take(k)) == Err::<Seq<EntryView>, nat>(m),
    ensures
        parse_lines(ls) == Err::<Seq<EntryView>, nat>(m),
    decreases ls.len() - k,
{
    if k < ls.len() {
        assert(ls.take(k + 1).drop_last() =~= ls.take(k));
        lemma_parse_error_stays(ls, k + 1, m);
    } else {
        assert(ls.take(k) =~= ls);
    }
}

/// The comment written as the first line of a lockfile.
pub open spec fn lock_comment() -> Seq<char> {
    "# resid.lock — generated; dependency content hashes"@
}

/// The text of the line written for one entry (without its newline).
pub open spec fn line_body(e: EntryView) -> Seq<char> {
    e.0 + " "@ + e.1 + " sha256:"@ + e.2
}

/// The lines written for a list of entries, each ending in a newline.
pub open spec fn entry_lines(es: Seq<EntryView>) -> Seq<char>
    decreases es.len(),
{
    if es.len() == 0 {
        Seq::empty()
    } else {
        entry_lines(es.drop_last()) + line_body(es.last()).push('\n')
    }
}

/// Writes the text of a lockfile: a comment header, then one line per
/// entry in order.
pub fn to_text(lock: &LockFile) -> (s: String)
    ensures
        s@ == lock_comment().push('\n') + entry_lines(lock@),
{
    let mut out = string_of("# resid.lock — generated; dependency content hashes");
    push_char(&mut out, '\n');
    let mut i: usize = 0;
    while i < lock.entries.len()
        invariant
            i <= lock@.len(),
            out@ == lock_comment().push('\n') + entry_lines(lock@.take(i as int)),
        decreases lock@.len() - i,
    {
        let e = &lock.entries[i];
        let ghost before = out@;
        push_str(&mut out, e.name.as_str());
        push_str(&mut out, " ");
        push_str(&mut out, e.version.as_str());
        push_str(&mut out, " sha256:");
        push_str(&mut out, e.sha256.as_str());
        push_char(&mut out, '\n');
        proof {
            assert(lock@.take(i + 1).drop_last() =~= lock@.take(i as int));
            assert(lock@.take(i + 1).last() == e@);
            assert(out@ =~= before + line_body(e@).push('\n'));
        }
        i += 1;
    }
    assert(lock@.take(i as int) =~= lock@);
    out
}

// ─── Round trip ────────────────────────────────────────────────────

/// No character of `s` is whitespace.
pub open spec fn no_ws(s: Seq<char>) -> bool {
    forall|i: int| 0 <= i < s.len() ==> !is_ws(#[trigger] s[i])
}

/// An entry that its written line gives back: name and version are
/// non-empty, nothing holds whitespace, and the name does not start a
/// comment.
pub open spec fn writable(e: EntryView) -> bool {
    &&& e.0.len() > 0
    &&& e.1.len() > 0
    &&& e.0[0] != '#'
    &&& no_ws(e.0)
    &&& no_ws(e.1)
    &&& no_ws(e.2)
}

proof fn lemma_split_append(s: Seq<char>, t: Seq<char>, sep: char)
    requires
        forall|i: int| 0 <= i < t.len() ==> t[i] != sep,
    ensures
        split_on(s + t, sep) == split_on(s, sep).update(
            split_on(s, sep).len() - 1,
            split_on(s, sep).last() + t,
        ),
    decreases t.len(),
{
    crate::text::lemma_split_on_len(s, sep);
    if t.len() == 0 {
        assert(s + t =~= s);
        assert(split_on(s, sep).last() + t =~= split_on(s, sep).last());
        assert(split_on(s, sep).update(split_on(s, sep).len() - 1, split_on(s, sep).last())
            =~= split_on(s, sep));
    } else {
        let u = t.drop_last();
        lemma_split_append(s, u, sep);
        assert((s + t).drop_last() =~= s + u);
        assert((s + t).last() == t.last());
        crate::text::lemma_split_on_len(s + u, sep);
        assert(split_on(s + t, sep) =~~= split_on(s, sep).update(
            split_on(s, sep).len() - 1,
            split_on(s, sep).last() + t,
        )) by {
            assert(split_on(s, sep).last() + u + seq![t.last()] =~= split_on(s, sep).last() + t);
        }
    }
}

proof fn lemma_split_line(s: Seq<char>, line: Seq<char>)
    requires
        split_on(s, '\n').last() == Seq::<char>::empty(),
        forall|i: int| 0 <= i < line.len() ==> line[i] != '\n',
    ensures
        split_on(s + line.push('\n'), '\n') == split_on(s, '\n').drop_last().push(line).push(
            Seq::<char>::empty(),
        ),
{
    lemma_split_append(s, line, '\n');
    crate::text::lemma_split_on_len(s, '\n');
    assert((s + line.push('\n')).drop_last() =~= s + line);
    assert(split_on(s, '\n').last() + line =~= line);
    assert(split_on(s, '\n').update(split_on(s, '\n').len() - 1, line) =~= split_on(
        s,
        '\n',
    ).drop_last().push(line));
}

proof fn lemma_words_word(s: Seq<char>, w: Seq<char>)
    requires
        w.len() > 0,
        no_ws(w),
        s.len() == 0 || is_ws(s.last()),
    ensures
        words(s + w) == words(s).push(w),
    decreases w.len(),
{
    let u = w.drop_last();
    assert((s + w).drop_last() =~= s + u);
    assert((s + w).last() == w.last());
    if u.len() == 0 {
        assert(s + u =~= s);
        assert(seq![w.last()] =~= w);
    } else {
        lemma_words_word(s, u);
        assert((s + w)[(s + w).len() - 2] == u.last());
        assert(u.push(w.last()) =~= w);
    }
}

proof fn lemma_body_words(e: EntryView)
    requires
        writable(e),
    ensures
        trim(line_body(e)) == line_body(e),
        words(line_body(e)) == seq![e.0, e.1, "sha256:"@ + e.2],
{
    reveal_strlit(" ");
    reveal_strlit(" sha256:");
    reveal_strlit("sha256:");
    let c = "sha256:"@ + e.2;
    let b = line_body(e);
    assert(b =~= e.0 + seq![' '] + e.1 + seq![' '] + c);
    assert(no_ws(c)) by {
        assert forall|i: int| 0 <= i < c.len() implies !is_ws(#[trigger] c[i]) by {
            if i >= 7 {
                assert(c[i] == e.2[i - 7]);
            }
        }
    }
    let e0 = Seq::<char>::empty();
    assert(e0 + e.0 =~= e.0);
    lemma_words_word(e0, e.0);
    assert(words(e0) =~= Seq::<Seq<char>>::empty());
    let s1 = e.0 + seq![' '];
    assert(s1.drop_last() =~= e.0);
    assert(words(s1) == words(e.0));
    lemma_words_word(s1, e.1);
    let s2 = s1 + e.1 + seq![' '];
    assert(s2.drop_last() =~= s1 + e.1);
    lemma_words_word(s2, c);
    assert(words(b) =~= seq![e.0, e.1, c]);
    assert(b[0] == e.0[0]);
    assert(!is_ws(b[0]));
    assert(b.last() == c.last());
    assert(!is_ws(b.last()));
    assert(crate::text::trim_start(b) == b);
    assert(crate::text::trim_end(b) == b);
}

proof fn lemma_classify_body(e: EntryView)
    requires
        writable(e),
    ensures
        classify(line_body(e)) == Some(Some(e)),
{
    lemma_body_words(e);
    reveal_strlit("sha256:");
    let c = "sha256:"@ + e.2;
    assert(c.take(7) =~= "sha256:"@);
    assert(c.skip(7) =~= e.2);
    assert(line_body(e)[0] == e.0[0]);
}

proof fn lemma_lines_of_text(es: Seq<EntryView>)
    requires
        forall|i: int| 0 <= i < es.len() ==> writable(#[trigger] es[i]),
    ensures
        split_on(lock_comment().push('\n') + entry_lines(es), '\n') == seq![lock_comment()]
            + es.map_values(|e: EntryView| line_body(e)) + seq![Seq::<char>::empty()],
    decreases es.len(),
{
    reveal_strlit("# resid.lock — generated; dependency content hashes");
    if es.len() == 0 {
        let h = lock_comment();
        let empty = Seq::<char>::empty();
        assert(forall|i: int| 0 <= i < h.len() ==> h[i] != '\n');
        assert(split_on(empty, '\n') =~= seq![empty]);
        lemma_split_line(empty, h);
        assert(empty + h.push('\n') =~= h.push('\n'));
        assert(h.push('\n') + entry_lines(es) =~= h.push('\n'));
        assert(es.map_values(|e: EntryView| line_body(e)) =~= Seq::<Seq<char>>::empty());
        assert(seq![empty].drop_last().push(h).push(empty) =~= seq![h] + es.map_values(
            |e: EntryView| line_body(e),
        ) + seq![empty]);
    } else {
        let front = es.drop_last();
        assert forall|i: int| 0 <= i < front.len() implies writable(#[trigger] front[i]) by {
            assert(front[i] == es[i]);
        }
        lemma_lines_of_text(front);
        let pre = lock_comment().push('\n') + entry_lines(front);
        let e = es.last();
        assert(writable(e));
        reveal_strlit(" ");
        reveal_strlit(" sha256:");
        assert forall|i: int| 0 <= i < line_body(e).len() implies line_body(e)[i] != '\n' by {
            let b = line_body(e);
            assert(b =~= e.0 + " "@ + e.1 + " sha256:"@ + e.2);
            if i < e.0.len() {
                assert(b[i] == e.0[i]);
                assert(!is_ws(e.0[i]));
            } else if i < e.0.len() + 1 {
            } else if i < e.0.len() + 1 + e.1.len() {
                assert(b[i] == e.1[i - e.0.len() - 1]);
                assert(!is_ws(e.1[i - e.0.len() - 1]));
            } else if i < e.0.len() + 1 + e.1.len() + 8 {
            } else {
                assert(b[i] == e.2[i - e.0.len() - 1 - e.1.len() - 8]);
                assert(!is_ws(e.2[i - e.0.len() - 1 - e.1.len() - 8]));
            }
        }
        lemma_split_line(pre, line_body(e));
        assert(pre + line_body(e).push('\n') =~= lock_comment().push('\n') + entry_lines(es));
        let bodies = es.map_values(|x: EntryView| line_body(x));
        assert(bodies =~= front.map_values(|x: EntryView| line_body(x)).push(line_body(e)));
        assert((seq![lock_comment()] + front.map_values(|x: EntryView| line_body(x)) + seq![
            Seq::<char>::empty(),
        ]).drop_last().push(line_body(e)).push(Seq::<char>::empty()) =~= seq![lock_comment()]
            + bodies + seq![Seq::<char>::empty()]);
    }
}

proof fn lemma_parse_bodies(es: Seq<EntryView>)
    requires
        forall|i: int| 0 <= i < es.len() ==> writable(#[trigger] es[i]),
    ensures
        parse_lines(seq![lock_comment()] + es.map_values(|e: EntryView| line_body(e))) == Ok::<
            Seq<EntryView>,
            nat,
        >(es),
    decreases es.len(),
{
    let ls = seq![lock_comment()] + es.map_values(|e: EntryView| line_body(e));
    if es.len() == 0 {
        reveal_strlit("# resid.lock — generated; dependency content hashes");
        let h = lock_comment();
        assert(ls =~= seq![h]);
        assert(ls.drop_last() =~= Seq::<Seq<char>>::empty());
        assert(!is_ws(h[0]));
        assert(crate::text::trim_start(h) == h);
        assert(!is_ws(h.last()));
        assert(crate::text::trim_end(h) == h);
        assert(classify(h) == Some(None::<EntryView>));
        assert(es =~= Seq::<EntryView>::empty());
        assert(parse_lines(ls.drop_last()) == Ok::<Seq<EntryView>, nat>(Seq::empty()));
        assert(parse_lines(ls) == Ok::<Seq<EntryView>, nat>(es));
    } else {
        let front = es.drop_last();
        assert forall|i: int| 0 <= i < front.len() implies writable(#[trigger] front[i]) by {
            assert(front[i] == es[i]);
        }
        lemma_parse_bodies(front);
        assert(ls.drop_last() =~= seq![lock_comment()] + front.map_values(
            |e: EntryView| line_body(e),
        ));
        assert(ls.last() == line_body(es.last()));
        lemma_classify_body(es.last());
        assert(front.push(es.last()) =~= es);
        assert(parse_lines(ls) == Ok::<Seq<EntryView>, nat>(es));
    }
}

/// Parsing the text written for a lockfile gives back the same entries in
/// the same order, for entries that can be written (non-empty name and
/// version without whitespace, a name that does not start with `#`, a hash
/// without whitespace).
pub proof fn lemma_lock_roundtrip(es: Seq<EntryView>)
    requires
        forall|i: int| 0 <= i < es.len() ==> writable(#[trigger] es[i]),
    ensures
        parse_lines(split_on(lock_comment().push('\n') + entry_lines(es), '\n')) == Ok::<
            Seq<EntryView>,
            nat,
        >(es),
{
    lemma_lines_of_text(es);
    lemma_parse_bodies(es);
    let ls = seq![lock_comment()] + es.map_values(|e: EntryView| line_body(e));
    let all = ls + seq![Seq::<char>::empty()];
    assert(all.drop_last() =~= ls);
    assert(all.last() == Seq::<char>::empty());
    assert(classify(Seq::<char>::empty()) == Some(None::<EntryView>)) by {
        assert(trim(Seq::<char>::empty()) == Seq::<char>::empty());
    }
}

} // verus!
