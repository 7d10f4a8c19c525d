//! An in-memory picture of the part of the file system that a
//! materialization reads and writes.

use vstd::prelude::*;
use vstd::string::*;
use crate::text::texts_of;

verus! {

/// What a path holds, with a file's bytes as a sequence.
pub enum Content {
    Directory,
    File(Seq<u8>),
}

/// What a path holds.
pub enum Node {
    Directory,
    File(Vec<u8>),
}

impl View for Node {
    type V = Content;

    open spec fn view(&self) -> Content {
        match self {
            Node::Directory => Content::Directory,
            Node::File(bytes) => Content::File(bytes@),
        }
    }
}

/// A path and what it holds. The path is a list of segments; in a template
/// it is relative to the template's root.
pub struct Entry {
    pub path: Vec<String>,
    pub node: Node,
}

/// A path as the sequence of its segments' characters.
pub open spec fn path_of(segments: Seq<String>) -> Seq<Seq<char>> {
    texts_of(segments)
}

/// The path of a list of segments with one more segment.
pub proof fn lemma_path_push(segments: Seq<String>, last: String)
    ensures
        path_of(segments.push(last)) == path_of(segments).push(last@),
{
    assert(path_of(segments.push(last)) =~= path_of(segments).push(last@));
}

impl View for Entry {
    type V = (Seq<Seq<char>>, Content);

    open spec fn view(&self) -> (Seq<Seq<char>>, Content) {
        (path_of(self.path@), self.node@)
    }
}

/// The entries of `log` as paths and contents.
pub open spec fn views_of(log: Seq<Entry>) -> Seq<(Seq<Seq<char>>, Content)> {
    log.map_values(|e: Entry| e@)
}

/// The tree that a history of writes leaves: each path holds what was
/// written to it last.
pub open spec fn tree_of(history: Seq<(Seq<Seq<char>>, Content)>) -> Map<Seq<Seq<char>>, Content>
    decreases history.len(),
{
    if history.len() == 0 {
        Map::empty()
    } else {
        tree_of(history.drop_last()).insert(history.last().0, history.last().1)
    }
}

/// Whether two paths have the same segments.
pub fn same_path(a: &Vec<String>, b: &Vec<String>) -> (r: bool)
    ensures
        r == (path_of(a@) == path_of(b@)),
{
    if a.len() != b.len() {
        assert(path_of(a@).len() != path_of(b@).len());
        return false;
    }
    let mut i: usize = 0;
    while i < a.len()
        invariant
            i <= a.len(),
            a.len() == b.len(),
            forall|k: int| 0 <= k < i ==> a@[k]@ == b@[k]@,
        decreases a.len() - i,
    {
        if a[i] != b[i] {
            assert(path_of(a@)[i as int] != path_of(b@)[i as int]);
            return false;
        }
        i += 1;
    }
    assert(path_of(a@) =~= path_of(b@));
    true
}

/// What a probe of a path finds.
#[derive(Debug, Clone, Copy, PartialEq, Eq, Structural)]
pub enum PathState {
    Absent,
    Directory,
    File,
}

/// What a probe of `path` finds in `tree`.
pub open spec fn state_of(tree: Map<Seq<Seq<char>>, Content>, path: Seq<Seq<char>>) -> PathState {
    if !tree.contains_key(path) {
        PathState::Absent
    } else if tree[path] is Directory {
        PathState::Directory
    } else {
        PathState::File
    }
}

/// A tree of directories and files, kept as the history of what was
/// written to it.
pub struct FileTree {
    log: Vec<Entry>,
}

impl View for FileTree {
    type V = Map<Seq<Seq<char>>, Content>;

    open spec fn view(&self) -> Map<Seq<Seq<char>>, Content> {
        tree_of(self.history())
    }
}

impl FileTree {
    /// Everything that was written to the tree, oldest first.
    pub closed spec fn history(&self) -> Seq<(Seq<Seq<char>>, Content)> {
        views_of(self.log@)
    }

    /// A tree in which no path holds anything.
    pub fn new() -> (tree: FileTree)
        ensures
            tree.history() == Seq::<(Seq<Seq<char>>, Content)>::empty(),
            tree@ == Map::<Seq<Seq<char>>, Content>::empty(),
    {
        let tree = FileTree { log: Vec::new() };
        assert(tree.history() =~= Seq::empty());
        tree
    }

    /// How many writes the tree has seen.
    pub fn len(&self) -> (n: usize)
        ensures
            n == self.history().len(),
    {
        self.log.len()
    }

    /// The write of index `i`, counted from the oldest.
    pub fn entry(&self, i: usize) -> (e: &Entry)
        requires
            i < self.history().len(),
        ensures
            e@ == self.history()[i as int],
    {
        &self.log[i]
    }

    /// Writes `node` to `path`, whatever the path held before.
    pub fn insert(&mut self, path: Vec<String>, node: Node)
        ensures
            final(self).history() == old(self).history().push((path_of(path@), node@)),
            final(self)@ == old(self)@.insert(path_of(path@), node@),
    {
        let ghost before = self.log@;
        let entry = Entry { path, node };
        self.log.push(entry);
        proof {
            assert(views_of(self.log@) =~= views_of(before).push(entry@));
            assert(self.history().drop_last() =~= views_of(before));
        }
    }

    /// Whether `path` is absent, a directory or a file.
    pub fn state(&self, path: &Vec<String>) -> (r: PathState)
        ensures
            r == state_of(self@, path_of(path@)),
    {
        match self.get(path) {
            None => PathState::Absent,
            Some(Node::Directory) => PathState::Directory,
            Some(Node::File(_)) => PathState::File,
        }
    }

    /// What `path` holds, or `None` where it holds nothing.
    pub fn get(&self, path: &Vec<String>) -> (r: Option<&Node>)
        ensures
            match r {
                Some(node) => self@.contains_key(path_of(path@)) && self@[path_of(path@)] == node@,
                None => !self@.contains_key(path_of(path@)),
            },
    {
        let ghost key = path_of(path@);
        let mut i: usize = self.log.len();
        assert(self.history().take(i as int) == self.history());
        while i > 0
            invariant
                i <= self.log.len(),
                key == path_of(path@),
                self@.contains_key(key) == tree_of(self.history().take(i as int)).contains_key(key),
                self@.contains_key(key) ==> self@[key] == tree_of(self.history().take(i as int))[key],
            decreases i,
        {
            i -= 1;
            proof {
                let prefix = self.history().take(i + 1);
                assert(prefix.drop_last() == self.history().take(i as int));
                assert(prefix.last() == self.log@[i as int]@);
            }
            if same_path(&self.log[i].path, path) {
                return Some(&self.log[i].node);
            }
        }
        None
    }
}

} // verus!
