//! The decisions behind file operations: what removing a path does, where a
//! copied entry lands, how a failed rename falls back, the order of a
//! directory walk, and how temporary files are named and retried.
use vstd::prelude::*;
use crate::error::Error;
use crate::paths::{
    joined, lies_under, opt_view, parent_of, path_join, path_parent, path_starts_with, path_strip_prefix, stripped_prefix,
};

verus! {

/// What removing a path does.
#[derive(Clone, Copy, Debug, PartialEq, Eq, Structural)]
pub enum Removal {
    /// Remove the directory and everything below it.
    Tree,
    /// Remove the single file.
    File,
    /// Nothing is there; nothing to do.
    Nothing,
}

/// Removing a directory removes its whole tree; removing anything else that
/// exists removes it; a path that does not exist is left alone.
pub open spec fn removal_for(is_dir: bool, exists: bool) -> Removal {
    if is_dir {
        Removal::Tree
    } else if exists {
        Removal::File
    } else {
        Removal::Nothing
    }
}

/// What removing a path does, given whether it is a directory and whether
/// it exists.
pub fn rm_action(is_dir: bool, exists: bool) -> (r: Removal)
    ensures
        r == removal_for(is_dir, exists),
        is_dir ==> r == Removal::Tree,
        !is_dir && exists ==> r == Removal::File,
        !is_dir && !exists ==> r == Removal::Nothing,
{
    if is_dir {
        Removal::Tree
    } else if exists {
        Removal::File
    } else {
        Removal::Nothing
    }
}

/// What copying one entry into a destination tree does.
#[derive(Debug)]
pub enum CopyStep {
    /// Create this directory (and any missing parents).
    CreateDir(String),
    /// Create `parent` (when there is one) and copy the file to `target`.
    CopyFile { target: String, parent: Option<String> },
}

/// Where an entry lands below `destination`, given its path relative to the
/// root it is copied from.
pub open spec fn copy_target(destination: Seq<char>, relative: Seq<char>) -> Seq<char> {
    joined(destination, relative)
}

/// The path a copy step writes to.
pub open spec fn step_target(step: CopyStep) -> Seq<char> {
    match step {
        CopyStep::CreateDir(dir) => dir@,
        CopyStep::CopyFile { target, parent: _ } => target@,
    }
}

/// Whether a copy step is the one for an entry of kind `is_dir` whose place
/// is `target`.
pub open spec fn is_copy_step(step: CopyStep, target: Seq<char>, is_dir: bool) -> bool {
    match step {
        CopyStep::CreateDir(dir) => is_dir && dir@ == target,
        CopyStep::CopyFile { target: t, parent } => !is_dir && t@ == target && opt_view(parent) == parent_of(target),
    }
}

/// The part of `path` below `root`, or the whole `path` when it does not lie
/// below `root`.
pub open spec fn relative_part(path: Seq<char>, root: Seq<char>) -> Seq<char> {
    match stripped_prefix(path, root) {
        Some(rest) => rest,
        None => path,
    }
}

/// Whether the place of an entry at `path` below `destination` does lie
/// below `destination`: it does not when the part taken as relative is in
/// fact absolute, as an absolute path outside `root` is.
pub open spec fn copyable(root: Seq<char>, destination: Seq<char>, path: Seq<char>) -> bool {
    lies_under(copy_target(destination, relative_part(path, root)), destination)
}

fn plan_step(target: String, is_dir: bool) -> (step: CopyStep)
    ensures
        is_copy_step(step, target@, is_dir),
        step_target(step) == target@,
{
    if is_dir {
        CopyStep::CreateDir(target)
    } else {
        let parent = path_parent(target.as_str());
        CopyStep::CopyFile { target, parent }
    }
}

/// The step that copies the entry at `path`, found under `root`, to the same
/// place below `destination`: a directory is created there; a file is copied
/// there after its parent directory is created. An entry that does not lie
/// below `root` keeps its whole path below `destination`. An entry whose
/// place would not lie below `destination` (an absolute path outside `root`)
/// is an `Error::OutsideRoot`: nothing is ever written outside
/// `destination`.
pub fn copy_entry_step(root: &str, destination: &str, path: &str, is_dir: bool) -> (r: std::result::Result<CopyStep, Error>)
    ensures
        r is Ok <==> copyable(root@, destination@, path@),
        r matches Err(e) ==> e is OutsideRoot,
        r matches Ok(step) ==> is_copy_step(step, copy_target(destination@, relative_part(path@, root@)), is_dir),
        r matches Ok(step) ==> lies_under(step_target(step), destination@),
{
    let relative = match path_strip_prefix(path, root) {
        Some(rest) => rest,
        None => path.to_owned(),
    };
    let target = path_join(destination, relative.as_str());
    if !path_starts_with(target.as_str(), destination) {
        return Err(Error::OutsideRoot { path: path.to_owned() });
    }
    Ok(plan_step(target, is_dir))
}

/// The step that copies the entry at `path` of a tree rooted at `from` into
/// the tree rooted at `to`; `None` for the root itself, whose copy `to`
/// already is. As with `copy_entry_step`, an entry outside `from` keeps its
/// whole path below `to`, and an entry that would be written outside `to`
/// is an `Error::OutsideRoot`.
pub fn copy_dir_step(from: &str, to: &str, path: &str, is_dir: bool) -> (r: std::result::Result<Option<CopyStep>, Error>)
    ensures
        r is Ok <==> (copyable(from@, to@, path@) || relative_part(path@, from@).len() == 0),
        r matches Err(e) ==> e is OutsideRoot,
        r matches Ok(None) ==> relative_part(path@, from@).len() == 0,
        r matches Ok(Some(step)) ==> relative_part(path@, from@).len() > 0
            && is_copy_step(step, copy_target(to@, relative_part(path@, from@)), is_dir)
            && lies_under(step_target(step), to@),
{
    let relative = match path_strip_prefix(path, from) {
        Some(rest) => rest,
        None => path.to_owned(),
    };
    if relative.as_str().is_empty() {
        return Ok(None);
    }
    let target = path_join(to, relative.as_str());
    if !path_starts_with(target.as_str(), to) {
        return Err(Error::OutsideRoot { path: path.to_owned() });
    }
    Ok(Some(plan_step(target, is_dir)))
}

/// How a move proceeds when renaming failed.
#[derive(Debug)]
pub enum MoveFallback {
    /// Copy the directory tree, then remove the original tree.
    CopyTree,
    /// Create `parent` (when there is one), copy the file, then remove it.
    CopyFile { parent: Option<String> },
}

/// The fallback for moving `from` to `to` once renaming failed: a directory
/// is copied as a tree and removed; a file is copied next to a freshly
/// created parent of `to` and removed.
pub fn move_fallback(to: &str, from_is_dir: bool) -> (f: MoveFallback)
    ensures
        from_is_dir ==> f is CopyTree,
        !from_is_dir ==> (f matches MoveFallback::CopyFile { parent } && opt_view(parent) == parent_of(to@)),
{
    if from_is_dir {
        MoveFallback::CopyTree
    } else {
        MoveFallback::CopyFile { parent: path_parent(to) }
    }
}

/// A depth-first walk of a directory tree, including its root: the paths
/// still to visit, kept as a stack, and the paths visited so far.
pub struct TreeWalk {
    stack: Vec<String>,
    visited: Vec<String>,
}

impl TreeWalk {
    /// The paths still to visit; the last one is visited next.
    pub closed spec fn pending(&self) -> Seq<Seq<char>> {
        self.stack@.map_values(|p: String| p@)
    }

    /// The paths visited so far, in order.
    pub closed spec fn visited(&self) -> Seq<Seq<char>> {
        self.visited@.map_values(|p: String| p@)
    }

    /// A walk that will visit `root` first.
    pub fn new(root: &str) -> (w: TreeWalk)
        ensures
            w.pending() == seq![root@],
            w.visited() == Seq::<Seq<char>>::empty(),
    {
        let mut stack: Vec<String> = Vec::new();
        stack.push(root.to_owned());
        let w = TreeWalk { stack, visited: Vec::new() };
        assert(w.pending() =~= seq![root@]);
        assert(w.visited() =~= Seq::<Seq<char>>::empty());
        w
    }

    /// Takes the most recently found path still to visit and records it as
    /// visited; `None` when the walk is over.
    pub fn next_path(&mut self) -> (p: Option<String>)
        ensures
            old(self).pending().len() == 0 ==> p is None && final(self).pending() == old(self).pending()
                && final(self).visited() == old(self).visited(),
            old(self).pending().len() > 0 ==> (p matches Some(path) && path@ == old(self).pending().last()
                && final(self).pending() == old(self).pending().drop_last()
                && final(self).visited() == old(self).visited().push(path@)),
    {
        match self.stack.pop() {
            Some(path) => {
                let ghost old_visited = self.visited@;
                self.visited.push(path.clone());
                assert(self.visited@.map_values(|p: String| p@)
                    == old_visited.map_values(|p: String| p@).push(path@));
                assert(self.stack@.map_values(|p: String| p@)
                    == old(self).stack@.map_values(|p: String| p@).drop_last());
                Some(path)
            },
            None => None,
        }
    }

    /// Records the entries of the directory just visited as still to visit,
    /// in the order the directory listed them.
    pub fn push_children(&mut self, children: Vec<String>)
        ensures
            final(self).pending() == old(self).pending() + children@.map_values(|p: String| p@),
            final(self).visited() == old(self).visited(),
    {
        let ghost start = self.stack@;
        let ghost all = children@;
        for c in it: children
            invariant
                it.seq() == all,
                self.stack@ == start + all.take(it.index() as int),
                self.visited@ == old(self).visited@,
        {
            let ghost i = it.index();
            self.stack.push(c);
            assert(all.take(i + 1) == all.take(i as int).push(c));
        }
        assert(all.take(all.len() as int) == all);
        assert(self.stack@.map_values(|p: String| p@)
            == start.map_values(|p: String| p@) + all.map_values(|p: String| p@));
    }

    /// The paths visited, in order.
    pub fn into_visited(self) -> (v: Vec<String>)
        ensures
            v@.map_values(|p: String| p@) == self.visited(),
    {
        self.visited
    }
}

/// The entries a directory listing gives for `path`: nothing for a path that
/// is not a listed directory.
pub open spec fn listing(children: Map<Seq<char>, Seq<Seq<char>>>, path: Seq<char>) -> Seq<Seq<char>> {
    if children.dom().contains(path) {
        children[path]
    } else {
        seq![]
    }
}

/// `n` steps of a walk whose paths still to visit are `stack`: each step
/// visits the most recently found path and then adds its listing. Gives the
/// paths visited and the paths still to visit afterwards.
pub open spec fn walk_steps(stack: Seq<Seq<char>>, children: Map<Seq<char>, Seq<Seq<char>>>, n: nat) -> (Seq<
    Seq<char>,
>, Seq<Seq<char>>)
    decreases n,
{
    if n == 0 || stack.len() == 0 {
        (seq![], stack)
    } else {
        let top = stack.last();
        let after = walk_steps(stack.drop_last() + listing(children, top), children, (n - 1) as nat);
        (seq![top] + after.0, after.1)
    }
}

/// Whether the tree below `path` is at most `depth` levels deep.
pub open spec fn finite_tree(path: Seq<char>, children: Map<Seq<char>, Seq<Seq<char>>>, depth: nat) -> bool
    decreases depth,
{
    depth > 0 && forall|i: int|
        0 <= i < listing(children, path).len() ==> finite_tree(
            #[trigger] listing(children, path)[i],
            children,
            (depth - 1) as nat,
        )
}

/// The tree below `path` in depth-first pre-order as the walk lists it: the
/// path, then the subtrees of its entries, the last-listed entry first.
pub open spec fn preorder(path: Seq<char>, children: Map<Seq<char>, Seq<Seq<char>>>, depth: nat) -> Seq<Seq<char>>
    decreases depth, 0nat,
{
    if depth == 0 {
        seq![path]
    } else {
        seq![path] + subtrees(listing(children, path), children, (depth - 1) as nat)
    }
}

/// The subtrees of `entries` in pre-order, the last entry's first.
pub open spec fn subtrees(entries: Seq<Seq<char>>, children: Map<Seq<char>, Seq<Seq<char>>>, depth: nat) -> Seq<Seq<char>>
    decreases depth, entries.len(),
{
    if entries.len() == 0 {
        seq![]
    } else {
        preorder(entries.last(), children, depth) + subtrees(entries.drop_last(), children, depth)
    }
}

proof fn lemma_walk_compose(stack: Seq<Seq<char>>, children: Map<Seq<char>, Seq<Seq<char>>>, a: nat, b: nat)
    ensures
        walk_steps(stack, children, a + b) == ({
            let first = walk_steps(stack, children, a);
            let second = walk_steps(first.1, children, b);
            (first.0 + second.0, second.1)
        }),
    decreases a,
{
    if a == 0 {
        assert(walk_steps(stack, children, 0).0 + walk_steps(stack, children, b).0 == walk_steps(stack, children, b).0);
    } else if stack.len() == 0 {
        assert(walk_steps(stack, children, a + b) == (Seq::<Seq<char>>::empty(), stack));
        assert(walk_steps(stack, children, b) == (Seq::<Seq<char>>::empty(), stack));
    } else {
        let next = stack.drop_last() + listing(children, stack.last());
        lemma_walk_compose(next, children, (a - 1) as nat, b);
        assert((a + b - 1) as nat == ((a - 1) as nat + b));
        let first = walk_steps(next, children, (a - 1) as nat);
        let second = walk_steps(first.1, children, b);
        assert(seq![stack.last()] + (first.0 + second.0) == (seq![stack.last()] + first.0) + second.0);
    }
}

proof fn lemma_walk_subtree(path: Seq<char>, children: Map<Seq<char>, Seq<Seq<char>>>, depth: nat, rest: Seq<Seq<char>>)
    requires
        finite_tree(path, children, depth),
    ensures
        walk_steps(rest.push(path), children, preorder(path, children, depth).len()) == (
            preorder(path, children, depth),
            rest,
        ),
    decreases depth, 0nat,
{
    let entries = listing(children, path);
    let d = (depth - 1) as nat;
    assert forall|i: int| 0 <= i < entries.len() implies finite_tree(#[trigger] entries[i], children, d) by {}
    lemma_walk_entries(entries, children, d, rest);
    let stack = rest.push(path);
    assert(stack.last() == path);
    assert(stack.drop_last() == rest);
    let sub = subtrees(entries, children, d);
    assert(preorder(path, children, depth).len() == 1 + sub.len());
    assert(((1 + sub.len()) - 1) as nat == sub.len());
}

proof fn lemma_walk_entries(entries: Seq<Seq<char>>, children: Map<Seq<char>, Seq<Seq<char>>>, depth: nat, rest: Seq<Seq<char>>)
    requires
        forall|i: int| 0 <= i < entries.len() ==> finite_tree(#[trigger] entries[i], children, depth),
    ensures
        walk_steps(rest + entries, children, subtrees(entries, children, depth).len()) == (
            subtrees(entries, children, depth),
            rest,
        ),
    decreases depth, entries.len(),
{
    if entries.len() == 0 {
        assert(rest + entries == rest);
    } else {
        let last = entries.last();
        let init = entries.drop_last();
        assert(finite_tree(entries[entries.len() - 1], children, depth));
        assert forall|i: int| 0 <= i < init.len() implies finite_tree(#[trigger] init[i], children, depth) by {
            assert(init[i] == entries[i]);
        }
        assert(rest + entries == (rest + init).push(last));
        let first = preorder(last, children, depth);
        let others = subtrees(init, children, depth);
        lemma_walk_subtree(last, children, depth, rest + init);
        lemma_walk_entries(init, children, depth, rest);
        lemma_walk_compose(rest + entries, children, first.len(), others.len());
    }
}

/// A walk of a finite tree visits it in depth-first pre-order: the root,
/// then the subtree of each listed entry in turn, each subtree right after
/// its own root and before anything else; after that nothing is left to
/// visit.
pub proof fn lemma_walk_preorder(root: Seq<char>, children: Map<Seq<char>, Seq<Seq<char>>>, depth: nat)
    requires
        finite_tree(root, children, depth),
    ensures
        walk_steps(seq![root], children, preorder(root, children, depth).len()) == (
            preorder(root, children, depth),
            Seq::<Seq<char>>::empty(),
        ),
{
    lemma_walk_subtree(root, children, depth, Seq::<Seq<char>>::empty());
    assert(Seq::<Seq<char>>::empty().push(root) == seq![root]);
}

} // verus!
