//! Filesystem entries as listing and walking produce them, and the filters
//! that narrow a list of entries down.
use vstd::prelude::*;
use crate::paths::{extension_of, file_name_of, opt_view, path_extension, path_file_name, paths_equal, same_path};
use crate::text::{ascii_lower, to_ascii_lowercase};

verus! {

/// What a listing records of an entry's metadata. Times are nanoseconds
/// since the Unix epoch (negative before it).
#[derive(Clone, Copy, Debug, PartialEq, Eq, Structural)]
pub struct EntryMetadata {
    pub is_dir: bool,
    pub is_file: bool,
    pub len: u64,
    pub modified: Option<i128>,
}

/// A path together with the metadata captured when it was listed.
#[derive(Clone, Debug)]
pub struct PathEntry {
    pub path: String,
    pub metadata: EntryMetadata,
}

impl PathEntry {
    pub fn new(path: String, metadata: EntryMetadata) -> (e: PathEntry)
        ensures
            e.path == path,
            e.metadata == metadata,
    {
        PathEntry { path, metadata }
    }

    pub fn is_dir(&self) -> (b: bool)
        ensures
            b == self.metadata.is_dir,
    {
        self.metadata.is_dir
    }

    pub fn is_file(&self) -> (b: bool)
        ensures
            b == self.metadata.is_file,
    {
        self.metadata.is_file
    }

    /// The final component of the entry's path.
    pub fn file_name(&self) -> (name: Option<String>)
        ensures
            opt_view(name) == file_name_of(self.path@),
    {
        path_file_name(self.path.as_str())
    }

    /// The extension of the entry's file name.
    pub fn extension(&self) -> (ext: Option<String>)
        ensures
            opt_view(ext) == extension_of(self.path@),
    {
        path_extension(self.path.as_str())
    }

    /// Size in bytes.
    pub fn size(&self) -> (n: u64)
        ensures
            n == self.metadata.len,
    {
        self.metadata.len
    }

    /// Last modification time, when the platform reports one.
    pub fn modified(&self) -> (t: Option<i128>)
        ensures
            t == self.metadata.modified,
    {
        self.metadata.modified
    }

    /// Whether two entries stand for the same observation: the same path (as
    /// paths compare), size, kind (directory or not) and modification time.
    pub open spec fn same_as(self, other: PathEntry) -> bool {
        &&& same_path(self.path@, other.path@)
        &&& self.metadata.len == other.metadata.len
        &&& self.metadata.is_dir == other.metadata.is_dir
        &&& self.metadata.modified == other.metadata.modified
    }
}

impl PartialEq for PathEntry {
    fn eq(&self, other: &Self) -> (r: bool) {
        let same_time = match (self.metadata.modified, other.metadata.modified) {
            (Some(a), Some(b)) => a == b,
            (None, None) => true,
            _ => false,
        };
        paths_equal(self.path.as_str(), other.path.as_str()) && self.metadata.len == other.metadata.len
            && self.metadata.is_dir == other.metadata.is_dir && same_time
    }
}

impl vstd::std_specs::cmp::PartialEqSpecImpl for PathEntry {
    open spec fn obeys_eq_spec() -> bool {
        true
    }

    open spec fn eq_spec(&self, other: &Self) -> bool {
        self.same_as(*other)
    }
}

impl Eq for PathEntry {}

/// Whether an entry's extension equals `needle` once ASCII case is ignored.
pub open spec fn extension_matches(e: PathEntry, needle: Seq<char>) -> bool {
    match extension_of(e.path@) {
        Some(x) => ascii_lower(x) == ascii_lower(needle),
        None => false,
    }
}

/// Whether an entry is at least `min_bytes` long.
pub open spec fn size_at_least(e: PathEntry, min_bytes: u64) -> bool {
    e.metadata.len >= min_bytes
}

/// Whether an entry was modified at or after `since`; entries without a
/// modification time never are.
pub open spec fn modified_since(e: PathEntry, since: i128) -> bool {
    match e.metadata.modified {
        Some(t) => t >= since,
        None => false,
    }
}

/// Whether an entry is a regular file.
pub open spec fn is_file_entry(e: PathEntry) -> bool {
    e.metadata.is_file
}

/// Keeps the entries whose extension equals `ext`, ignoring ASCII case.
pub fn filter_extension(entries: Vec<PathEntry>, ext: &str) -> (kept: Vec<PathEntry>)
    ensures
        kept@ == entries@.filter(|e: PathEntry| extension_matches(e, ext@)),
        forall|i: int| 0 <= i < kept@.len() ==> (extension_of(#[trigger] kept@[i].path@) matches Some(x)
            && ascii_lower(x) == ascii_lower(ext@) && x.len() == ext@.len()),
        forall|j: int| 0 <= j < entries@.len() ==> (extension_of(#[trigger] entries@[j].path@) matches Some(x)
            && ascii_lower(x) == ascii_lower(ext@) ==> kept@.contains(entries@[j])),
        forall|i: int| 0 <= i < kept@.len() ==> entries@.contains(#[trigger] kept@[i]),
{
    proof {
        lemma_filter_extension_exact(entries@, ext@);
    }
    let needle = to_ascii_lowercase(ext);
    let ghost all = entries@;
    let ghost pred = |e: PathEntry| extension_matches(e, ext@);
    let mut kept: Vec<PathEntry> = Vec::new();
    for e in it: entries
        invariant
            it.seq() == all,
            pred == (|e: PathEntry| extension_matches(e, ext@)),
            needle@ == ascii_lower(ext@),
            kept@ == all.take(it.index() as int).filter(pred),
    {
        let ghost i = it.index();
        let keep = match e.extension() {
            Some(x) => to_ascii_lowercase(x.as_str()) == needle,
            None => false,
        };
        proof {
            reveal(Seq::filter);
            assert(all.take(i + 1).drop_last() == all.take(i as int));
            assert(all.take(i + 1).last() == e);
        }
        if keep {
            kept.push(e);
        }
    }
    assert(all.take(all.len() as int) == all);
    kept
}


/// Keeps the entries at least `min_bytes` long.
pub fn filter_size(entries: Vec<PathEntry>, min_bytes: u64) -> (kept: Vec<PathEntry>)
    ensures
        kept@ == entries@.filter(|e: PathEntry| size_at_least(e, min_bytes)),
        forall|i: int| 0 <= i < kept@.len() ==> (#[trigger] kept@[i]).metadata.len >= min_bytes,
        forall|j: int| 0 <= j < entries@.len() && (#[trigger] entries@[j]).metadata.len >= min_bytes
            ==> kept@.contains(entries@[j]),
        forall|i: int| 0 <= i < kept@.len() ==> entries@.contains(#[trigger] kept@[i]),
{
    proof {
        lemma_filter_size_exact(entries@, min_bytes);
    }
    let ghost all = entries@;
    let mut kept: Vec<PathEntry> = Vec::new();
    for e in it: entries
        invariant
            it.seq() == all,
            kept@ == all.take(it.index() as int).filter(|e: PathEntry| size_at_least(e, min_bytes)),
    {
        let ghost i = it.index();
        proof {
            reveal(Seq::filter);
            assert(all.take(i + 1).drop_last() == all.take(i as int));
            assert(all.take(i + 1).last() == e);
        }
        if e.size() >= min_bytes {
            kept.push(e);
        }
    }
    assert(all.take(all.len() as int) == all);
    kept
}

/// Keeps the entries modified at or after `since` (nanoseconds since the
/// Unix epoch); entries without a modification time are dropped.
pub fn filter_modified_since(entries: Vec<PathEntry>, since: i128) -> (kept: Vec<PathEntry>)
    ensures
        kept@ == entries@.filter(|e: PathEntry| modified_since(e, since)),
        forall|i: int| 0 <= i < kept@.len() ==> ((#[trigger] kept@[i]).metadata.modified matches Some(t) && t >= since),
        forall|j: int| 0 <= j < entries@.len() && ((#[trigger] entries@[j]).metadata.modified matches Some(t)
            && t >= since) ==> kept@.contains(entries@[j]),
        forall|i: int| 0 <= i < kept@.len() ==> entries@.contains(#[trigger] kept@[i]),
{
    proof {
        lemma_filter_modified_since_exact(entries@, since);
    }
    let ghost all = entries@;
    let mut kept: Vec<PathEntry> = Vec::new();
    for e in it: entries
        invariant
            it.seq() == all,
            kept@ == all.take(it.index() as int).filter(|e: PathEntry| modified_since(e, since)),
    {
        let ghost i = it.index();
        proof {
            reveal(Seq::filter);
            assert(all.take(i + 1).drop_last() == all.take(i as int));
            assert(all.take(i + 1).last() == e);
        }
        let keep = match e.modified() {
            Some(t) => t >= since,
            None => false,
        };
        if keep {
            kept.push(e);
        }
    }
    assert(all.take(all.len() as int) == all);
    kept
}

/// Keeps the regular files.
pub fn filter_files(entries: Vec<PathEntry>) -> (kept: Vec<PathEntry>)
    ensures
        kept@ == entries@.filter(|e: PathEntry| is_file_entry(e)),
{
    let ghost all = entries@;
    let mut kept: Vec<PathEntry> = Vec::new();
    for e in it: entries
        invariant
            it.seq() == all,
            kept@ == all.take(it.index() as int).filter(|e: PathEntry| is_file_entry(e)),
    {
        let ghost i = it.index();
        proof {
            reveal(Seq::filter);
            assert(all.take(i + 1).drop_last() == all.take(i as int));
            assert(all.take(i + 1).last() == e);
        }
        if e.is_file() {
            kept.push(e);
        }
    }
    assert(all.take(all.len() as int) == all);
    kept
}

/// Filtering by one predicate and then another is filtering by both.
pub proof fn lemma_filter_twice<A>(s: Seq<A>, p: spec_fn(A) -> bool, q: spec_fn(A) -> bool)
    ensures
        s.filter(p).filter(q) == s.filter(|x: A| p(x) && q(x)),
    decreases s.len(),
{
    reveal(Seq::filter);
    if s.len() > 0 {
        lemma_filter_twice(s.drop_last(), p, q);
        if p(s.last()) {
            assert(s.filter(p).drop_last() == s.drop_last().filter(p));
            assert(s.filter(p).last() == s.last());
        }
    }
}

/// The extension filter ignores ASCII case in the extension asked for.
pub proof fn lemma_filter_extension_ignores_case(entries: Seq<PathEntry>, a: Seq<char>, b: Seq<char>)
    requires
        ascii_lower(a) == ascii_lower(b),
    ensures
        entries.filter(|e: PathEntry| extension_matches(e, a))
            == entries.filter(|e: PathEntry| extension_matches(e, b)),
{
    assert((|e: PathEntry| extension_matches(e, a)) =~= (|e: PathEntry| extension_matches(e, b)));
}

/// Two size filters in a row keep what one filter with the larger bound
/// keeps.
pub proof fn lemma_filter_size_twice(entries: Seq<PathEntry>, a: u64, b: u64)
    ensures
        entries.filter(|e: PathEntry| size_at_least(e, a)).filter(|e: PathEntry| size_at_least(e, b))
            == entries.filter(|e: PathEntry| size_at_least(e, if a >= b { a } else { b })),
{
    let p = |e: PathEntry| size_at_least(e, a);
    let q = |e: PathEntry| size_at_least(e, b);
    lemma_filter_twice(entries, p, q);
    assert((|x: PathEntry| p(x) && q(x)) =~= (|e: PathEntry| size_at_least(e, if a >= b { a } else { b })));
}

/// What filtering keeps: exactly the items that satisfy the predicate, each
/// of them taken from the input.
pub proof fn lemma_filter_keeps<A>(s: Seq<A>, p: spec_fn(A) -> bool)
    ensures
        forall|i: int| 0 <= i < s.filter(p).len() ==> p(#[trigger] s.filter(p)[i]) && s.contains(s.filter(p)[i]),
        forall|j: int| 0 <= j < s.len() && p(#[trigger] s[j]) ==> s.filter(p).contains(s[j]),
{
    broadcast use vstd::seq_lib::group_filter_ensures;
    assert forall|i: int| 0 <= i < s.filter(p).len() implies p(#[trigger] s.filter(p)[i]) && s.contains(s.filter(p)[i]) by {
        s.lemma_filter_pred(p, i);
        s.lemma_filter_contains_rev(p, s.filter(p)[i]);
    }
    assert forall|j: int| 0 <= j < s.len() && p(#[trigger] s[j]) implies s.filter(p).contains(s[j]) by {
        s.lemma_filter_contains(p, j);
    }
}

/// The extension filter keeps an entry exactly when the entry has an
/// extension equal to the one asked for once ASCII case is ignored; so a
/// kept extension is as long as the one asked for (filtering by `c` drops
/// `a.cpp`), and every kept entry comes from the input.
pub proof fn lemma_filter_extension_exact(entries: Seq<PathEntry>, ext: Seq<char>)
    ensures
        ({
            let kept = entries.filter(|e: PathEntry| extension_matches(e, ext));
            &&& forall|i: int| 0 <= i < kept.len() ==> (extension_of(#[trigger] kept[i].path@) matches Some(x)
                && ascii_lower(x) == ascii_lower(ext) && x.len() == ext.len())
            &&& forall|j: int| 0 <= j < entries.len() ==> (extension_of(#[trigger] entries[j].path@) matches Some(x)
                && ascii_lower(x) == ascii_lower(ext) ==> kept.contains(entries[j]))
            &&& forall|i: int| 0 <= i < kept.len() ==> entries.contains(#[trigger] kept[i])
        }),
{
    let p = |e: PathEntry| extension_matches(e, ext);
    lemma_filter_keeps(entries, p);
    let kept = entries.filter(p);
    assert forall|i: int| 0 <= i < kept.len() implies (extension_of(#[trigger] kept[i].path@) matches Some(x)
        && ascii_lower(x) == ascii_lower(ext) && x.len() == ext.len()) by {
        assert(p(kept[i]));
        let x = extension_of(kept[i].path@)->Some_0;
        assert(ascii_lower(x).len() == x.len());
        assert(ascii_lower(ext).len() == ext.len());
    }
    assert forall|j: int| 0 <= j < entries.len() implies (extension_of(#[trigger] entries[j].path@) matches Some(x)
        && ascii_lower(x) == ascii_lower(ext) ==> kept.contains(entries[j])) by {
        if extension_of(entries[j].path@) matches Some(x) && ascii_lower(x) == ascii_lower(ext) {
            assert(p(entries[j]));
        }
    }
}

/// The size filter keeps an entry exactly when it is at least `min_bytes`
/// long, whatever its kind, and every kept entry comes from the input.
pub proof fn lemma_filter_size_exact(entries: Seq<PathEntry>, min_bytes: u64)
    ensures
        ({
            let kept = entries.filter(|e: PathEntry| size_at_least(e, min_bytes));
            &&& forall|i: int| 0 <= i < kept.len() ==> (#[trigger] kept[i]).metadata.len >= min_bytes
            &&& forall|j: int| 0 <= j < entries.len() && (#[trigger] entries[j]).metadata.len >= min_bytes
                ==> kept.contains(entries[j])
            &&& forall|i: int| 0 <= i < kept.len() ==> entries.contains(#[trigger] kept[i])
        }),
{
    let p = |e: PathEntry| size_at_least(e, min_bytes);
    lemma_filter_keeps(entries, p);
    let kept = entries.filter(p);
    assert forall|i: int| 0 <= i < kept.len() implies (#[trigger] kept[i]).metadata.len >= min_bytes by {
        assert(p(kept[i]));
    }
    assert forall|j: int| 0 <= j < entries.len() && (#[trigger] entries[j]).metadata.len >= min_bytes
        implies kept.contains(entries[j]) by {
        assert(p(entries[j]));
    }
}

/// The modification filter keeps an entry exactly when it has a
/// modification time at or after `since`, and every kept entry comes from
/// the input.
pub proof fn lemma_filter_modified_since_exact(entries: Seq<PathEntry>, since: i128)
    ensures
        ({
            let kept = entries.filter(|e: PathEntry| modified_since(e, since));
            &&& forall|i: int| 0 <= i < kept.len() ==> ((#[trigger] kept[i]).metadata.modified matches Some(t) && t >= since)
            &&& forall|j: int| 0 <= j < entries.len() && ((#[trigger] entries[j]).metadata.modified matches Some(t)
                && t >= since) ==> kept.contains(entries[j])
            &&& forall|i: int| 0 <= i < kept.len() ==> entries.contains(#[trigger] kept[i])
        }),
{
    let p = |e: PathEntry| modified_since(e, since);
    lemma_filter_keeps(entries, p);
    let kept = entries.filter(p);
    assert forall|i: int| 0 <= i < kept.len() implies ((#[trigger] kept[i]).metadata.modified matches Some(t) && t >= since) by {
        assert(p(kept[i]));
    }
    assert forall|j: int| 0 <= j < entries.len() && ((#[trigger] entries[j]).metadata.modified matches Some(t)
        && t >= since) implies kept.contains(entries[j]) by {
        assert(p(entries[j]));
    }
}

} // verus!
