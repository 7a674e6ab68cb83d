//! Glob patterns: compiling them, matching paths against them, and expanding
//! them against the filesystem.
use vstd::prelude::*;
use crate::error::Error;

verus! {

/// `glob::Pattern`, a compiled pattern, carried through opaquely.
#[verifier::external_type_specification]
#[verifier::external_body]
pub struct ExPattern(glob::Pattern);

/// `glob::PatternError`, why a pattern did not compile.
#[verifier::external_type_specification]
#[verifier::external_body]
pub struct ExPatternError(glob::PatternError);

/// `glob::Paths`, an expansion in progress.
#[verifier::external_type_specification]
#[verifier::external_body]
pub struct ExPaths(glob::Paths);

/// `std::path::PathBuf`, which the items of `glob::Paths` hold.
#[verifier::external_type_specification]
#[verifier::external_body]
pub struct ExPathBuf(std::path::PathBuf);

/// `glob::GlobError`, a directory that could not be read while expanding.
#[verifier::external_type_specification]
#[verifier::external_body]
pub struct ExGlobError(glob::GlobError);

/// Whether `glob::Pattern::new` compiles `text`.
pub uninterp spec fn pattern_compiles(text: Seq<char>) -> bool;

/// Whether a path matches a pattern, as `glob::Pattern::matches_path` decides
/// for the pattern compiled from `pattern`.
pub uninterp spec fn pattern_matches(pattern: Seq<char>, path: Seq<char>) -> bool;

/// Whether `glob::glob` accepts `pattern`.
pub uninterp spec fn glob_accepts(pattern: Seq<char>) -> bool;

/// `glob::Pattern::new`: compiles a Unix shell style pattern; fails exactly
/// when `pattern_compiles` does not hold.
#[verifier::external_body]
fn compile_pattern(text: &str) -> (r: std::result::Result<glob::Pattern, glob::PatternError>)
    ensures
        r is Ok <==> pattern_compiles(text@),
{
    glob::Pattern::new(text)
}

/// The position and message that a `glob::PatternError` carries, as the
/// toolkit's error.
#[verifier::external_body]
fn pattern_error(e: glob::PatternError) -> (r: Error)
    ensures
        r is Pattern,
{
    Error::Pattern { pos: e.pos, message: e.msg.to_string() }
}

/// `glob::glob`: starts expanding `pattern`; fails exactly when
/// `glob_accepts` does not hold. Nothing is read from the filesystem yet.
#[verifier::external_body]
fn start_glob(pattern: &str) -> (r: std::result::Result<glob::Paths, glob::PatternError>)
    ensures
        r is Ok <==> glob_accepts(pattern@),
{
    glob::glob(pattern)
}

/// One item of a glob expansion, as plain values.
#[derive(Debug)]
pub enum GlobItem {
    /// A matching path.
    Path(String),
    /// A matching path that is not valid Unicode, shown with the invalid
    /// parts replaced.
    NonUtf8(String),
    /// A directory that could not be read, as an `Error::Glob`.
    Unreadable(Error),
}

/// `Iterator::next` on `glob::Paths`: the next item of the expansion, or
/// `None` at its end, converted to plain values: a matching path as its text
/// (`Path::to_str`), or, when it is not valid Unicode, as its lossy text; a
/// `glob::GlobError` as an `Error::Glob` holding its path and I/O error
/// message. Which items come depends on the filesystem, so nothing more is
/// stated.
#[verifier::external_body]
fn next_glob_item(paths: &mut glob::Paths) -> (item: Option<GlobItem>)
    ensures
        item matches Some(GlobItem::Unreadable(e)) ==> e is Glob,
{
    match paths.next() {
        Some(Ok(p)) => match p.to_str() {
            Some(s) => Some(GlobItem::Path(s.to_owned())),
            None => Some(GlobItem::NonUtf8(p.to_string_lossy().into_owned())),
        },
        Some(Err(e)) => Some(GlobItem::Unreadable(
            Error::Glob { path: e.path().to_string_lossy().into_owned(), message: e.error().to_string() },
        )),
        None => None,
    }
}

/// A compiled glob pattern together with its source text.
pub struct GlobPattern {
    compiled: glob::Pattern,
    text: String,
}

impl View for GlobPattern {
    type V = Seq<char>;

    closed spec fn view(&self) -> Seq<char> {
        self.text@
    }
}

impl GlobPattern {
    /// Compiles `text`; a pattern that does not compile is an
    /// `Error::Pattern`.
    pub fn new(text: &str) -> (r: std::result::Result<GlobPattern, Error>)
        ensures
            r is Ok <==> pattern_compiles(text@),
            r matches Ok(p) ==> p@ == text@,
            r matches Err(e) ==> e is Pattern,
    {
        match compile_pattern(text) {
            Ok(compiled) => Ok(GlobPattern { compiled, text: text.to_owned() }),
            Err(e) => Err(pattern_error(e)),
        }
    }

    /// The source text of the pattern.
    pub fn as_str(&self) -> (s: &str)
        ensures
            s@ == self@,
    {
        self.text.as_str()
    }

    /// `glob::Pattern::matches_path`: whether `path` matches the pattern.
    /// The compiled pattern was built from the text that `self@` gives, by
    /// the one constructor `GlobPattern::new`.
    #[verifier::external_body]
    pub fn matches_path(&self, path: &str) -> (b: bool)
        ensures
            b == pattern_matches(self@, path@),
    {
        self.compiled.matches_path(std::path::Path::new(path))
    }
}

/// What expanding a glob gives for the items the expansion produced, in
/// order: the paths, or the first error.
pub open spec fn gathered(items: Seq<std::result::Result<String, Error>>) -> std::result::Result<Seq<String>, Error>
    decreases items.len(),
{
    if items.len() == 0 {
        Ok(seq![])
    } else {
        match gathered(items.drop_last()) {
            Err(e) => Err(e),
            Ok(paths) => match items.last() {
                Ok(p) => Ok(paths.push(p)),
                Err(e) => Err(e),
            },
        }
    }
}

/// The view of a list of paths or an error.
pub open spec fn paths_view(r: std::result::Result<Vec<String>, Error>) -> std::result::Result<Seq<String>, Error> {
    match r {
        Ok(v) => Ok(v@),
        Err(e) => Err(e),
    }
}

/// Gathers the items of a glob expansion: all the paths when there is no
/// error, else the first error.
pub fn collect_matches(items: Vec<std::result::Result<String, Error>>) -> (r: std::result::Result<Vec<String>, Error>)
    ensures
        paths_view(r) == gathered(items@),
{
    let ghost all = items@;
    let mut paths: Vec<String> = Vec::new();
    for item in it: items
        invariant
            it.seq() == all,
            gathered(all.take(it.index() as int)) == Ok::<Seq<String>, Error>(paths@),
    {
        let ghost i = it.index();
        proof {
            assert(all.take(i + 1).drop_last() == all.take(i as int));
            assert(all.take(i + 1).last() == item);
        }
        match item {
            Ok(p) => paths.push(p),
            Err(e) => {
                proof {
                    lemma_gathered_stops(all, i + 1);
                }
                return Err(e);
            },
        }
    }
    assert(all.take(all.len() as int) == all);
    Ok(paths)
}

proof fn lemma_gathered_stops(items: Seq<std::result::Result<String, Error>>, k: int)
    requires
        0 <= k <= items.len(),
        gathered(items.take(k)) is Err,
    ensures
        gathered(items) == gathered(items.take(k)),
    decreases items.len() - k,
{
    if k < items.len() {
        assert(items.take(k + 1).drop_last() == items.take(k));
        lemma_gathered_stops(items, k + 1);
    } else {
        assert(items.take(k) == items);
    }
}

proof fn lemma_gathered_error(items: Seq<std::result::Result<String, Error>>)
    ensures
        gathered(items) is Err ==> exists|i: int| 0 <= i < items.len() && #[trigger] items[i] == Err::<String, Error>(gathered(items)->Err_0),
    decreases items.len(),
{
    if items.len() > 0 {
        let p = items.drop_last();
        lemma_gathered_error(p);
        if gathered(p) is Err {
            let i = choose|i: int| 0 <= i < p.len() && #[trigger] p[i] == Err::<String, Error>(gathered(p)->Err_0);
            assert(items[i] == p[i]);
        } else if items.last() is Err {
            assert(items[items.len() - 1] == items.last());
        }
    }
}

/// What a glob item amounts to: a path, or the error it stands for.
pub open spec fn item_result(item: GlobItem) -> std::result::Result<String, Error> {
    match item {
        GlobItem::Path(p) => Ok(p),
        GlobItem::NonUtf8(lossy) => Err(Error::NonUtf8Path { lossy }),
        GlobItem::Unreadable(e) => Err(e),
    }
}

/// What glob items amount to, item by item.
pub open spec fn item_results(items: Seq<GlobItem>) -> Seq<std::result::Result<String, Error>> {
    items.map_values(|i: GlobItem| item_result(i))
}

/// What expanding a glob gives for the items it produced: all the paths when
/// every item is one, else the error the first other item stands for (an
/// `Error::NonUtf8Path` for a path that is not valid Unicode, or the error of
/// a directory that could not be read).
pub fn expansion_result(items: Vec<GlobItem>) -> (r: std::result::Result<Vec<String>, Error>)
    ensures
        paths_view(r) == gathered(item_results(items@)),
{
    let ghost all = items@;
    let mut results: Vec<std::result::Result<String, Error>> = Vec::new();
    for item in it: items
        invariant
            it.seq() == all,
            results@ == item_results(all.take(it.index() as int)),
    {
        let ghost i = it.index();
        let r = match item {
            GlobItem::Path(p) => Ok(p),
            GlobItem::NonUtf8(lossy) => Err(Error::NonUtf8Path { lossy }),
            GlobItem::Unreadable(e) => Err(e),
        };
        results.push(r);
        assert(item_results(all.take(i + 1)) == item_results(all.take(i as int)).push(item_result(all[i as int])));
    }
    assert(all.take(all.len() as int) == all);
    collect_matches(results)
}

/// The path an item stands for (nothing meaningful for other items).
pub open spec fn item_path(item: GlobItem) -> String {
    match item {
        GlobItem::Path(p) => p,
        _ => arbitrary(),
    }
}

/// When every item of an expansion is a path, the result is those paths,
/// one for one and in order: nothing is added, dropped, repeated or moved.
/// When some item is not a path, the result is the error of the first such
/// item.
pub proof fn lemma_expansion_one_for_one(items: Seq<GlobItem>)
    ensures
        (forall|i: int| 0 <= i < items.len() ==> (#[trigger] items[i]) is Path) ==> gathered(item_results(items))
            == Ok::<Seq<String>, Error>(items.map_values(|i: GlobItem| item_path(i))),
        forall|k: int| 0 <= k < items.len() && !(#[trigger] items[k] is Path) && (forall|i: int| 0 <= i < k ==> (
        #[trigger] items[i]) is Path) ==> gathered(item_results(items)) == Err::<Seq<String>, Error>(item_result(items[k])->Err_0),
    decreases items.len(),
{
    if items.len() > 0 {
        let init = items.drop_last();
        lemma_expansion_one_for_one(init);
        assert(item_results(items).drop_last() == item_results(init));
        assert(item_results(items).last() == item_result(items.last()));
        if forall|i: int| 0 <= i < items.len() ==> (#[trigger] items[i]) is Path {
            assert forall|i: int| 0 <= i < init.len() implies (#[trigger] init[i]) is Path by {
                assert(init[i] == items[i]);
            }
            assert(items.map_values(|i: GlobItem| item_path(i)) == init.map_values(|i: GlobItem| item_path(i)).push(
                item_path(items.last()),
            ));
        }
        assert forall|k: int| 0 <= k < items.len() && !(#[trigger] items[k] is Path) && (forall|i: int| 0 <= i < k ==> (
        #[trigger] items[i]) is Path) implies gathered(item_results(items)) == Err::<Seq<String>, Error>(item_result(items[k])->Err_0) by {
            if k < init.len() {
                assert(init[k] == items[k]);
                assert forall|i: int| 0 <= i < k implies (#[trigger] init[i]) is Path by {
                    assert(init[i] == items[i]);
                }
            } else {
                assert forall|i: int| 0 <= i < init.len() implies (#[trigger] init[i]) is Path by {
                    assert(init[i] == items[i]);
                }
            }
        }
    } else {
        assert(items.map_values(|i: GlobItem| item_path(i)) == Seq::<String>::empty());
    }
}

/// Expands `pattern` against the filesystem into the paths that match it.
/// A pattern that `glob` refuses is an `Error::Pattern`. Otherwise the items
/// of the expansion are taken up to its end or up to the first item that is
/// not a path, and the result is what `expansion_result` makes of them: all
/// the matching paths, or an `Error::NonUtf8Path` for a matching path that
/// is not valid Unicode, or an `Error::Glob` for a directory that could not
/// be read.
pub fn glob(pattern: &str) -> (r: std::result::Result<Vec<String>, Error>)
    ensures
        !glob_accepts(pattern@) <==> (r matches Err(e) && e is Pattern),
        glob_accepts(pattern@) ==> exists|items: Seq<GlobItem>|
            {
                &&& forall|i: int| 0 <= i < items.len() - 1 ==> (#[trigger] items[i]) is Path
                &&& forall|i: int| 0 <= i < items.len() && (#[trigger] items[i]) is Unreadable ==> items[i]->Unreadable_0 is Glob
                &&& paths_view(r) == gathered(item_results(items))
            },
{
    let mut paths = match start_glob(pattern) {
        Ok(p) => p,
        Err(e) => return Err(pattern_error(e)),
    };
    let mut items: Vec<GlobItem> = Vec::new();
    loop
        invariant_except_break
            forall|i: int| 0 <= i < items@.len() ==> (#[trigger] items@[i]) is Path,
        invariant
            glob_accepts(pattern@),
        ensures
            glob_accepts(pattern@),
            forall|i: int| 0 <= i < items@.len() - 1 ==> (#[trigger] items@[i]) is Path,
            forall|i: int| 0 <= i < items@.len() && (#[trigger] items@[i]) is Unreadable ==> items@[i]->Unreadable_0 is Glob,
        decreases usize::MAX - items.len(),
    {
        match next_glob_item(&mut paths) {
            Some(GlobItem::Path(p)) => {
                items.push(GlobItem::Path(p));
                assert(items.len() <= usize::MAX);
            },
            Some(other) => {
                items.push(other);
                break;
            },
            None => break,
        }
    }
    let ghost produced = items@;
    let r = expansion_result(items);
    proof {
        lemma_gathered_error(item_results(produced));
    }
    r
}

} // verus!
