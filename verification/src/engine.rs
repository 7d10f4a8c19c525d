//! Copying a template into a workspace.
//!
//! A copy is a list of steps, one for the workspace directory and one for
//! each entry of the template, carried out in order against a tree. A step
//! that finds a file where it wants a directory, or a directory where it
//! wants a file, ends the copy; what earlier steps wrote stays.

use vstd::prelude::*;
use vstd::string::*;
use crate::context::Context;
use crate::error::CoreError;
use crate::render::{render, render_bytes, render_content, render_text};
use crate::tree::{lemma_path_push, path_of, views_of, Content, Entry, FileTree, Node, PathState};

verus! {

/// Where a template is materialized: the directory `name` inside
/// `directory`. With `replace`, files that are already there are overwritten;
/// without it they are kept.
pub struct WorkspaceTarget {
    pub directory: String,
    pub name: String,
    pub replace: bool,
}

impl WorkspaceTarget {
    /// The path of the workspace directory.
    pub open spec fn root(&self) -> Seq<Seq<char>> {
        seq![self.directory@, self.name@]
    }

    /// The path of the workspace directory.
    pub fn root_path(&self) -> (path: Vec<String>)
        ensures
            path_of(path@) == self.root(),
    {
        let mut path: Vec<String> = Vec::new();
        path.push(self.directory.clone());
        path.push(self.name.clone());
        assert(path_of(path@) =~= self.root());
        path
    }
}

/// The path `path` with every segment rendered.
pub open spec fn rendered_path(bindings: Map<Seq<char>, Seq<char>>, path: Seq<Seq<char>>) -> Seq<
    Seq<char>,
> {
    path.map_values(|segment: Seq<char>| render(bindings, segment))
}

/// The step that materializes the template entry `entry` below `root`: the
/// rendered path below the root, and a directory or the rendered content.
pub open spec fn step_of(
    bindings: Map<Seq<char>, Seq<char>>,
    root: Seq<Seq<char>>,
    entry: (Seq<Seq<char>>, Content),
) -> (Seq<Seq<char>>, Content) {
    (
        root + rendered_path(bindings, entry.0),
        match entry.1 {
            Content::Directory => Content::Directory,
            Content::File(bytes) => Content::File(render_bytes(bindings, bytes)),
        },
    )
}

/// The steps of a copy: the workspace directory first, then the entries of
/// the template in their order.
pub open spec fn plan(
    bindings: Map<Seq<char>, Seq<char>>,
    root: Seq<Seq<char>>,
    entries: Seq<(Seq<Seq<char>>, Content)>,
) -> Seq<(Seq<Seq<char>>, Content)> {
    seq![(root, Content::Directory)] + entries.map_values(
        |entry: (Seq<Seq<char>>, Content)| step_of(bindings, root, entry),
    )
}

/// Whether `tree` lets the step go on: the step's path is free, or holds
/// what the step wants, a directory for a directory and a file for a file.
pub open spec fn admits(tree: Map<Seq<Seq<char>>, Content>, step: (Seq<Seq<char>>, Content)) -> bool {
    tree.contains_key(step.0) ==> (tree[step.0] is Directory <==> step.1 is Directory)
}

/// Whether the step writes: its path is free, or it holds a file, the
/// step brings a file and files are replaced.
pub open spec fn writes(
    tree: Map<Seq<Seq<char>>, Content>,
    step: (Seq<Seq<char>>, Content),
    replace: bool,
) -> bool {
    if tree.contains_key(step.0) {
        tree[step.0] is File && step.1 is File && replace
    } else {
        true
    }
}

/// The tree after the step.
pub open spec fn apply(
    tree: Map<Seq<Seq<char>>, Content>,
    step: (Seq<Seq<char>>, Content),
    replace: bool,
) -> Map<Seq<Seq<char>>, Content> {
    if writes(tree, step, replace) {
        tree.insert(step.0, step.1)
    } else {
        tree
    }
}

/// The tree after the first `n` steps.
pub open spec fn tree_after(
    tree: Map<Seq<Seq<char>>, Content>,
    steps: Seq<(Seq<Seq<char>>, Content)>,
    replace: bool,
    n: int,
) -> Map<Seq<Seq<char>>, Content>
    decreases n,
{
    if n <= 0 {
        tree
    } else {
        apply(tree_after(tree, steps, replace, n - 1), steps[n - 1], replace)
    }
}

/// What the first `n` steps write, in order.
pub open spec fn written(
    tree: Map<Seq<Seq<char>>, Content>,
    steps: Seq<(Seq<Seq<char>>, Content)>,
    replace: bool,
    n: int,
) -> Seq<(Seq<Seq<char>>, Content)>
    decreases n,
{
    if n <= 0 {
        Seq::empty()
    } else if writes(tree_after(tree, steps, replace, n - 1), steps[n - 1], replace) {
        written(tree, steps, replace, n - 1).push(steps[n - 1])
    } else {
        written(tree, steps, replace, n - 1)
    }
}

/// How many steps are carried out when the copy has come to step `i`: the
/// index of the first step from `i` on that the tree does not admit, or the
/// number of steps where it admits them all.
pub open spec fn halt_from(
    tree: Map<Seq<Seq<char>>, Content>,
    steps: Seq<(Seq<Seq<char>>, Content)>,
    replace: bool,
    i: int,
) -> int
    decreases steps.len() - i,
{
    if i >= steps.len() {
        steps.len() as int
    } else if !admits(tree_after(tree, steps, replace, i), steps[i]) {
        i
    } else {
        halt_from(tree, steps, replace, i + 1)
    }
}

/// How many steps of a copy are carried out.
pub open spec fn halt(
    tree: Map<Seq<Seq<char>>, Content>,
    steps: Seq<(Seq<Seq<char>>, Content)>,
    replace: bool,
) -> int {
    halt_from(tree, steps, replace, 0)
}

/// How a copy ends that carried out `done` of `total` steps: well where it
/// carried out all; obstructed where the workspace directory itself could
/// not be had; failed where a later step could not go on.
pub open spec fn outcome(done: int, total: int) -> Result<(), CoreError> {
    if done >= total {
        Ok(())
    } else if done <= 0 {
        Err(CoreError::TargetObstructed)
    } else {
        Err(CoreError::CopyFailed)
    }
}

/// What `halt_from` finds: every step before it is admitted, and the step
/// at it, if there is one, is not.
pub proof fn lemma_halt_found(
    tree: Map<Seq<Seq<char>>, Content>,
    steps: Seq<(Seq<Seq<char>>, Content)>,
    replace: bool,
    i: int,
)
    requires
        0 <= i <= steps.len(),
    ensures
        i <= halt_from(tree, steps, replace, i) <= steps.len(),
        forall|j: int|
            i <= j < halt_from(tree, steps, replace, i) ==> admits(
                #[trigger] tree_after(tree, steps, replace, j),
                steps[j],
            ),
        halt_from(tree, steps, replace, i) < steps.len() ==> !admits(
            tree_after(tree, steps, replace, halt_from(tree, steps, replace, i)),
            steps[halt_from(tree, steps, replace, i)],
        ),
    decreases steps.len() - i,
{
    if i < steps.len() && admits(tree_after(tree, steps, replace, i), steps[i]) {
        lemma_halt_found(tree, steps, replace, i + 1);
    }
}

/// The first step that is not admitted is where `halt_from` stops.
pub proof fn lemma_halt_is(
    tree: Map<Seq<Seq<char>>, Content>,
    steps: Seq<(Seq<Seq<char>>, Content)>,
    replace: bool,
    i: int,
    n: int,
)
    requires
        0 <= i <= n <= steps.len(),
        forall|j: int|
            i <= j < n ==> admits(#[trigger] tree_after(tree, steps, replace, j), steps[j]),
        n < steps.len() ==> !admits(tree_after(tree, steps, replace, n), steps[n]),
    ensures
        halt_from(tree, steps, replace, i) == n,
    decreases n - i,
{
    if i < n {
        assert(admits(tree_after(tree, steps, replace, i), steps[i]));
        lemma_halt_is(tree, steps, replace, i + 1, n);
    }
}

/// Without `replace`, whatever a path held before the copy it holds after
/// any number of steps: a file that was there keeps its content.
pub proof fn lemma_kept_without_replace(
    tree: Map<Seq<Seq<char>>, Content>,
    steps: Seq<(Seq<Seq<char>>, Content)>,
    n: int,
    path: Seq<Seq<char>>,
)
    requires
        tree.contains_key(path),
    ensures
        tree_after(tree, steps, false, n).contains_key(path),
        tree_after(tree, steps, false, n)[path] == tree[path],
    decreases n,
{
    if n > 0 {
        lemma_kept_without_replace(tree, steps, n - 1, path);
    }
}

/// A path that holds something keeps holding something of the same kind,
/// a directory or a file, through any number of further steps.
pub proof fn lemma_kind_stays(
    tree: Map<Seq<Seq<char>>, Content>,
    steps: Seq<(Seq<Seq<char>>, Content)>,
    replace: bool,
    i: int,
    j: int,
    path: Seq<Seq<char>>,
)
    requires
        0 <= i <= j,
        tree_after(tree, steps, replace, i).contains_key(path),
    ensures
        tree_after(tree, steps, replace, j).contains_key(path),
        tree_after(tree, steps, replace, j)[path] is Directory <==> tree_after(
            tree,
            steps,
            replace,
            i,
        )[path] is Directory,
    decreases j - i,
{
    if i < j {
        lemma_kind_stays(tree, steps, replace, i, j - 1, path);
    }
}

/// After a step that the tree admits, the step's path holds what the step
/// wants: a directory for a directory, a file for a file.
pub proof fn lemma_step_lands(
    tree: Map<Seq<Seq<char>>, Content>,
    step: (Seq<Seq<char>>, Content),
    replace: bool,
)
    requires
        admits(tree, step),
    ensures
        apply(tree, step, replace).contains_key(step.0),
        apply(tree, step, replace)[step.0] is Directory <==> step.1 is Directory,
{
}

/// Whether the entries of a template come top-down: every entry has a
/// path of at least one segment, and an entry below the template's root
/// comes after the directory that it lies in.
pub open spec fn top_down(entries: Seq<(Seq<Seq<char>>, Content)>) -> bool {
    forall|i: int|
        0 <= i < entries.len() ==> (#[trigger] entries[i]).0.len() >= 1 && (entries[i].0.len() == 1
            || exists|j: int|
            0 <= j < i && (#[trigger] entries[j]).0 == entries[i].0.drop_last()
                && entries[j].1 is Directory)
}

/// Where the entries come top-down, every entry that a copy has carried
/// out lies in a directory: the path above its destination holds a
/// directory from then on.
pub proof fn lemma_parent_is_directory(
    tree: Map<Seq<Seq<char>>, Content>,
    bindings: Map<Seq<char>, Seq<char>>,
    root: Seq<Seq<char>>,
    entries: Seq<(Seq<Seq<char>>, Content)>,
    replace: bool,
    i: int,
    n: int,
)
    requires
        top_down(entries),
        1 <= i < n <= halt(tree, plan(bindings, root, entries), replace),
    ensures
        ({
            let steps = plan(bindings, root, entries);
            let after = tree_after(tree, steps, replace, n);
            after.contains_key(steps[i].0.drop_last()) && after[steps[i].0.drop_last()] is Directory
        }),
{
    let steps = plan(bindings, root, entries);
    lemma_halt_found(tree, steps, replace, 0);
    let entry = entries[i - 1];
    let rendered = rendered_path(bindings, entry.0);
    assert(steps[i] == step_of(bindings, root, entry));
    assert(entry.0.len() >= 1);
    let above = steps[i].0.drop_last();
    assert(above =~= root + rendered.drop_last());
    let k = if entry.0.len() == 1 {
        0
    } else {
        1 + choose|j: int|
            0 <= j < i - 1 && (#[trigger] entries[j]).0 == entry.0.drop_last()
                && entries[j].1 is Directory
    };
    assert(steps[k].0 == above && steps[k].1 is Directory) by {
        if entry.0.len() == 1 {
            assert(above =~= root);
        } else {
            assert(steps[k] == step_of(bindings, root, entries[k - 1]));
            assert(rendered_path(bindings, entry.0.drop_last()) =~= rendered.drop_last());
        }
    }
    assert(admits(tree_after(tree, steps, replace, k), steps[k]));
    lemma_step_lands(tree_after(tree, steps, replace, k), steps[k], replace);
    lemma_kind_stays(tree, steps, replace, k + 1, n, above);
}

/// Whether one of the first `i` steps goes to `path`.
pub open spec fn touched(steps: Seq<(Seq<Seq<char>>, Content)>, i: int, path: Seq<Seq<char>>) -> bool {
    exists|j: int| 0 <= j < i && (#[trigger] steps[j]).0 == path
}

/// How the tree of a second copy, after `i` steps, relates to the tree of
/// the first copy after `i` steps and to the tree `once` that the first
/// copy left: a path that a step has gone to holds what it held at this
/// point of the first copy, every other path what the first copy left in it.
pub open spec fn retraces(
    again: Map<Seq<Seq<char>>, Content>,
    first: Map<Seq<Seq<char>>, Content>,
    once: Map<Seq<Seq<char>>, Content>,
    steps: Seq<(Seq<Seq<char>>, Content)>,
    i: int,
) -> bool {
    forall|path: Seq<Seq<char>>|
        if touched(steps, i, path) {
            #[trigger] again.contains_key(path) && first.contains_key(path) && again[path]
                == first[path]
        } else {
            again.contains_key(path) == once.contains_key(path) && (once.contains_key(path)
                ==> again[path] == once[path])
        }
}

/// A second copy with `replace` retraces the first one, step by step.
proof fn lemma_retraces(
    tree: Map<Seq<Seq<char>>, Content>,
    steps: Seq<(Seq<Seq<char>>, Content)>,
    n: int,
    i: int,
)
    requires
        0 <= i <= n <= steps.len(),
        forall|j: int| 0 <= j < n ==> admits(#[trigger] tree_after(tree, steps, true, j), steps[j]),
    ensures
        forall|j: int|
            0 <= j < i ==> admits(
                #[trigger] tree_after(tree_after(tree, steps, true, n), steps, true, j),
                steps[j],
            ),
        retraces(
            tree_after(tree_after(tree, steps, true, n), steps, true, i),
            tree_after(tree, steps, true, i),
            tree_after(tree, steps, true, n),
            steps,
            i,
        ),
    decreases i,
{
    let once = tree_after(tree, steps, true, n);
    if i > 0 {
        let k = i - 1;
        lemma_retraces(tree, steps, n, k);
        let first = tree_after(tree, steps, true, k);
        let again = tree_after(once, steps, true, k);
        let step = steps[k];
        assert(admits(first, step));
        assert(tree_after(tree, steps, true, k + 1).contains_key(step.0));
        lemma_kind_stays(tree, steps, true, k + 1, n, step.0);
        assert(again.contains_key(step.0));
        assert(admits(again, step));
        let first_next = tree_after(tree, steps, true, i);
        let again_next = tree_after(once, steps, true, i);
        assert forall|path: Seq<Seq<char>>|
            if touched(steps, i, path) {
                #[trigger] again_next.contains_key(path) && first_next.contains_key(path)
                    && again_next[path] == first_next[path]
            } else {
                again_next.contains_key(path) == once.contains_key(path) && (once.contains_key(path)
                    ==> again_next[path] == once[path])
            } by {
            assert(again.contains_key(path) || !again.contains_key(path));
            if path == step.0 {
                assert(steps[k].0 == path);
                assert(touched(steps, i, path));
            } else {
                if touched(steps, i, path) {
                    let j = choose|j: int| 0 <= j < i && (#[trigger] steps[j]).0 == path;
                    assert(j < k);
                    assert(touched(steps, k, path));
                } else {
                    if touched(steps, k, path) {
                        let j = choose|j: int| 0 <= j < k && (#[trigger] steps[j]).0 == path;
                        assert(0 <= j < i && steps[j].0 == path);
                    }
                }
            }
        }
    } else {
        assert forall|path: Seq<Seq<char>>|
            if touched(steps, 0, path) {
                #[trigger] once.contains_key(path) && tree.contains_key(path) && once[path]
                    == tree[path]
            } else {
                once.contains_key(path) == once.contains_key(path) && (once.contains_key(path)
                    ==> once[path] == once[path])
            } by {}
    }
}

/// With `replace`, a second copy of the same template into what the first
/// copy left carries out as many steps as the first and leaves the tree as
/// it found it: both copies end alike, with the same tree.
pub proof fn lemma_copy_again_same(
    tree: Map<Seq<Seq<char>>, Content>,
    steps: Seq<(Seq<Seq<char>>, Content)>,
)
    ensures
        ({
            let done = halt(tree, steps, true);
            let once = tree_after(tree, steps, true, done);
            &&& halt(once, steps, true) == done
            &&& tree_after(once, steps, true, done) == once
        }),
{
    let done = halt(tree, steps, true);
    let once = tree_after(tree, steps, true, done);
    lemma_halt_found(tree, steps, true, 0);
    lemma_retraces(tree, steps, done, done);
    let again = tree_after(once, steps, true, done);
    assert(again =~= once) by {
        assert forall|path: Seq<Seq<char>>|
            again.contains_key(path) == once.contains_key(path) && (once.contains_key(path)
                ==> again[path] == once[path]) by {
            assert(again.contains_key(path) || !again.contains_key(path));
        }
    }
    lemma_halt_is(once, steps, true, 0, done);
}

/// Where the template path `path` goes below `root`.
pub fn destination(context: &Context, root: &Vec<String>, path: &Vec<String>) -> (out: Vec<String>)
    ensures
        path_of(out@) == path_of(root@) + rendered_path(context.bindings(), path_of(path@)),
{
    let mut out: Vec<String> = Vec::new();
    let mut i: usize = 0;
    while i < root.len()
        invariant
            i <= root.len(),
            path_of(out@) == path_of(root@).take(i as int),
        decreases root.len() - i,
    {
        let segment = root[i].clone();
        proof {
            lemma_path_push(out@, segment);
        }
        out.push(segment);
        i += 1;
        assert(path_of(root@).take(i as int) =~= path_of(root@).take(i - 1).push(root@[i - 1]@));
    }
    assert(path_of(root@).take(root.len() as int) == path_of(root@));
    let ghost rendered = rendered_path(context.bindings(), path_of(path@));
    let mut k: usize = 0;
    assert(path_of(out@) =~= path_of(root@) + rendered.take(0));
    while k < path.len()
        invariant
            k <= path.len(),
            rendered == rendered_path(context.bindings(), path_of(path@)),
            path_of(out@) == path_of(root@) + rendered.take(k as int),
        decreases path.len() - k,
    {
        let segment = render_text(context, path[k].as_str());
        proof {
            lemma_path_push(out@, segment);
        }
        out.push(segment);
        k += 1;
        assert(rendered.take(k as int) =~= rendered.take(k - 1).push(segment@));
        assert(path_of(out@) =~= path_of(root@) + rendered.take(k as int));
    }
    assert(rendered.take(path.len() as int) == rendered);
    out
}

/// Carries out one step against `tree`, and says whether the tree let it
/// go on.
pub fn carry_out(tree: &mut FileTree, path: Vec<String>, node: Node, replace: bool) -> (ok: bool)
    ensures
        ok == admits(old(tree)@, (path_of(path@), node@)),
        final(tree)@ == (if ok {
            apply(old(tree)@, (path_of(path@), node@), replace)
        } else {
            old(tree)@
        }),
        final(tree).history() == (if ok && writes(old(tree)@, (path_of(path@), node@), replace) {
            old(tree).history().push((path_of(path@), node@))
        } else {
            old(tree).history()
        }),
{
    let found = tree.state(&path);
    let wants_directory = match node {
        Node::Directory => true,
        Node::File(_) => false,
    };
    match found {
        PathState::Absent => {
            tree.insert(path, node);
            true
        },
        PathState::Directory => wants_directory,
        PathState::File => {
            if wants_directory {
                false
            } else {
                if replace {
                    tree.insert(path, node);
                }
                true
            }
        },
    }
}

/// Whether `above` is the path of the directory that `path` lies in.
pub fn is_parent(above: &Vec<String>, path: &Vec<String>) -> (r: bool)
    ensures
        r == (path.len() >= 1 && path_of(above@) == path_of(path@).drop_last()),
{
    if path.len() == 0 {
        return false;
    }
    if above.len() != path.len() - 1 {
        assert(path_of(above@).len() != path_of(path@).drop_last().len());
        return false;
    }
    let mut i: usize = 0;
    while i < above.len()
        invariant
            i <= above.len(),
            above.len() == path.len() - 1,
            forall|k: int| 0 <= k < i ==> above@[k]@ == path@[k]@,
        decreases above.len() - i,
    {
        if above[i] != path[i] {
            assert(path_of(above@)[i as int] != path_of(path@).drop_last()[i as int]);
            return false;
        }
        i += 1;
    }
    assert(path_of(above@) =~= path_of(path@).drop_last());
    true
}

/// Whether the entries of a template come top-down.
pub fn is_top_down(files: &Vec<Entry>) -> (r: bool)
    ensures
        r == top_down(views_of(files@)),
{
    let ghost entries = views_of(files@);
    let mut i: usize = 0;
    while i < files.len()
        invariant
            i <= files.len(),
            entries == views_of(files@),
            top_down(entries.take(i as int)),
        decreases files.len() - i,
    {
        assert(entries[i as int] == files@[i as int]@);
        if files[i].path.len() == 0 {
            return false;
        }
        let mut found = files[i].path.len() == 1;
        let mut j: usize = 0;
        while !found && j < i
            invariant
                j <= i < files.len(),
                entries == views_of(files@),
                entries[i as int] == files@[i as int]@,
                files@[i as int].path.len() >= 1,
                !found ==> entries[i as int].0.len() != 1,
                !found ==> forall|k: int|
                    0 <= k < j ==> !((#[trigger] entries[k]).0 == entries[i as int].0.drop_last()
                        && entries[k].1 is Directory),
                found ==> entries[i as int].0.len() >= 1 && (entries[i as int].0.len() == 1
                    || exists|k: int|
                    0 <= k < i && (#[trigger] entries[k]).0 == entries[i as int].0.drop_last()
                        && entries[k].1 is Directory),
            decreases i - j,
        {
            let is_directory = match files[j].node {
                Node::Directory => true,
                Node::File(_) => false,
            };
            assert(entries[j as int] == files@[j as int]@);
            if is_directory && is_parent(&files[j].path, &files[i].path) {
                assert(entries[j as int].0 == entries[i as int].0.drop_last() && entries[j as int].1 is Directory);
                found = true;
            }
            j += 1;
        }
        if !found {
            assert(!top_down(entries)) by {
                if top_down(entries) {
                    assert(entries[i as int].0.len() >= 1);
                    let k = choose|k: int|
                        0 <= k < i && (#[trigger] entries[k]).0 == entries[i as int].0.drop_last()
                            && entries[k].1 is Directory;
                    assert(false);
                }
            }
            return false;
        }
        proof {
            let now = entries.take(i + 1);
            assert forall|a: int| 0 <= a < now.len() implies (#[trigger] now[a]).0.len() >= 1 && (
                now[a].0.len() == 1 || exists|b: int|
                    0 <= b < a && (#[trigger] now[b]).0 == now[a].0.drop_last()
                        && now[b].1 is Directory) by {
                if a < i {
                    let before = entries.take(i as int);
                    assert(before[a] == now[a]);
                    if now[a].0.len() != 1 {
                        let b = choose|b: int|
                            0 <= b < a && (#[trigger] before[b]).0 == before[a].0.drop_last()
                                && before[b].1 is Directory;
                        assert(now[b] == before[b]);
                    }
                } else {
                    if now[a].0.len() != 1 {
                        let b = choose|b: int|
                            0 <= b < i && (#[trigger] entries[b]).0 == entries[i as int].0.drop_last()
                                && entries[b].1 is Directory;
                        assert(now[b] == entries[b]);
                    }
                }
            }
        }
        i += 1;
    }
    assert(entries.take(files.len() as int) == entries);
    true
}

/// How a materialization ends once what the copy wrote to the tree has
/// been written to disk: `stored` says whether every write went well. A
/// write that failed makes the whole operation fail with `CopyFailed`;
/// otherwise it ends as the copy did.
pub fn conclude(copied: Result<(), CoreError>, stored: bool) -> (r: Result<(), CoreError>)
    ensures
        r == (if stored {
            copied
        } else {
            Err(CoreError::CopyFailed)
        }),
{
    if stored {
        copied
    } else {
        Err(CoreError::CopyFailed)
    }
}

/// Copies the template `files` into the workspace `target` of `tree`,
/// rendering paths and contents with `context`.
///
/// The copy starts pending. Its first step ensures the workspace directory:
/// it makes the directory, or finds it there. The following steps walk the
/// entries of the template in their order. The copy is completed when the
/// last step is done, and aborted at the first step that cannot go on. The
/// tree then holds what the steps before it wrote, and its history has grown
/// by exactly those writes: nothing is taken back.
pub fn copy(
    files: &Vec<Entry>,
    target: &WorkspaceTarget,
    context: &Context,
    tree: &mut FileTree,
) -> (r: Result<(), CoreError>)
    ensures
        ({
            let steps = plan(context.bindings(), target.root(), views_of(files@));
            let done = halt(old(tree)@, steps, target.replace);
            &&& r == outcome(done, steps.len() as int)
            &&& final(tree)@ == tree_after(old(tree)@, steps, target.replace, done)
            &&& final(tree).history() == old(tree).history() + written(
                old(tree)@,
                steps,
                target.replace,
                done,
            )
        }),
{
    let ghost bindings = context.bindings();
    let ghost steps = plan(bindings, target.root(), views_of(files@));
    let ghost start = tree@;
    let ghost start_history = tree.history();
    let replace = target.replace;
    let root = target.root_path();
    assert(steps[0] == (target.root(), Content::Directory));
    assert(tree_after(start, steps, replace, 0) == start);
    assert(written(start, steps, replace, 0) == Seq::<(Seq<Seq<char>>, Content)>::empty());
    if !carry_out(tree, target.root_path(), Node::Directory, replace) {
        assert(tree.history() =~= start_history + written(start, steps, replace, 0));
        return Err(CoreError::TargetObstructed);
    }
    assert(tree.history() =~= start_history + written(start, steps, replace, 1));
    let mut i: usize = 0;
    while i < files.len()
        invariant
            i <= files.len(),
            bindings == context.bindings(),
            steps == plan(bindings, target.root(), views_of(files@)),
            steps.len() == files.len() + 1,
            replace == target.replace,
            start == old(tree)@,
            start_history == old(tree).history(),
            path_of(root@) == target.root(),
            tree@ == tree_after(start, steps, replace, i + 1),
            tree.history() == start_history + written(start, steps, replace, i + 1),
            halt(start, steps, replace) == halt_from(start, steps, replace, i + 1),
        decreases files.len() - i,
    {
        let dest = destination(context, &root, &files[i].path);
        let node = match &files[i].node {
            Node::Directory => Node::Directory,
            Node::File(bytes) => Node::File(render_content(context, bytes)),
        };
        assert(steps[i + 1] == (path_of(dest@), node@)) by {
            assert(views_of(files@)[i as int] == files@[i as int]@);
        }
        if !carry_out(tree, dest, node, replace) {
            assert(halt_from(start, steps, replace, i + 1) == i + 1);
            return Err(CoreError::CopyFailed);
        }
        assert(tree.history() =~= start_history + written(start, steps, replace, i + 2));
        i += 1;
    }
    Ok(())
}

} // verus!
