//! The ownership tree: files with their owner strings, grouped by
//! directory, and for every directory the one owner that all of it shares,
//! if there is one.
//!
//! Directories and files appear in the order in which the input first
//! names them.

use crate::path::RelPath;
use crate::text::{string_of, views};
use crate::tree_laws::{
    lemma_insert_keeps_tidy, lemma_settle_keeps_tidy, lemma_settle_settles, settled_below, tidy,
};
use vstd::prelude::*;

verus! {

/// A file and the display string of its owners (empty for "unowned").
#[derive(Clone, Debug, PartialEq, Eq)]
pub struct FileOwners {
    pub name: String,
    pub owner: String,
}

/// One file to put into the tree: where it is and the display string of its
/// owners.
#[derive(Debug)]
pub struct FileEntry {
    pub path: RelPath,
    pub owner: String,
}

/// A directory of the ownership tree.
#[derive(Debug, PartialEq, Eq)]
pub struct DirectoryNode {
    /// The name of the directory; empty for the root and for no other.
    pub name: String,
    /// The directories directly inside, no two with the same name.
    pub subdirectories: Vec<DirectoryNode>,
    /// The files directly inside.
    pub files: Vec<FileOwners>,
    /// The owner string that every file and every directory directly
    /// inside shares, if there is one and it is not empty; never set for
    /// the root.
    pub consensus_owner: Option<String>,
}

/// The mathematical content of a [`FileOwners`].
pub struct FileModel {
    pub name: Seq<char>,
    pub owner: Seq<char>,
}

/// The mathematical content of a [`DirectoryNode`].
pub struct DirModel {
    pub name: Seq<char>,
    pub dirs: Seq<DirModel>,
    pub files: Seq<FileModel>,
    pub consensus: Option<Seq<char>>,
}

/// One file to put into the tree: where it is and who owns it.
pub struct EntryModel {
    pub path: Seq<Seq<char>>,
    pub owner: Seq<char>,
}

impl View for FileOwners {
    type V = FileModel;

    open spec fn view(&self) -> FileModel {
        FileModel { name: self.name@, owner: self.owner@ }
    }
}

impl View for FileEntry {
    type V = EntryModel;

    open spec fn view(&self) -> EntryModel {
        EntryModel { path: self.path@, owner: self.owner@ }
    }
}

/// The contents of a vector of entries.
pub open spec fn entry_views(v: Seq<FileEntry>) -> Seq<EntryModel> {
    Seq::new(v.len(), |i: int| v[i]@)
}

/// The contents of a vector of files.
pub open spec fn file_views(v: Seq<FileOwners>) -> Seq<FileModel> {
    Seq::new(v.len(), |i: int| v[i]@)
}

/// The content of an optional string.
pub open spec fn option_view(o: Option<String>) -> Option<Seq<char>> {
    match o {
        Some(s) => Some(s@),
        None => None,
    }
}

/// The content of a directory: its own and, through its directories, that
/// of everything below it.
pub open spec fn dir_model(node: DirectoryNode) -> DirModel
    decreases node,
{
    DirModel {
        name: node.name@,
        dirs: Seq::new(
            node.subdirectories@.len(),
            |i: int|
                if 0 <= i < node.subdirectories@.len() {
                    dir_model(node.subdirectories@[i])
                } else {
                    empty_dir(Seq::<char>::empty())
                },
        ),
        files: file_views(node.files@),
        consensus: option_view(node.consensus_owner),
    }
}

impl View for DirectoryNode {
    type V = DirModel;

    open spec fn view(&self) -> DirModel {
        dir_model(*self)
    }
}

/// The contents of a vector of directories.
pub open spec fn dir_views(v: Seq<DirectoryNode>) -> Seq<DirModel> {
    Seq::new(v.len(), |i: int| v[i]@)
}

/// A directory with nothing inside.
pub open spec fn empty_dir(name: Seq<char>) -> DirModel {
    DirModel {
        name,
        dirs: Seq::<DirModel>::empty(),
        files: Seq::<FileModel>::empty(),
        consensus: None,
    }
}

/// The index of the first directory of `dirs` called `name`; the length of
/// `dirs` if there is none.
pub open spec fn child_index(dirs: Seq<DirModel>, name: Seq<char>) -> int
    decreases dirs.len(),
{
    if dirs.len() == 0 {
        0
    } else {
        let before = child_index(dirs.drop_last(), name);
        if before < dirs.len() - 1 {
            before
        } else if dirs.last().name == name {
            dirs.len() - 1
        } else {
            dirs.len() as int
        }
    }
}

/// The directory `node` after the file at `path` below it is added with
/// its owner string: the directories on the way are entered, and made where
/// they are missing; the file is added after the files that its directory
/// already has.
pub open spec fn insert_spec(node: DirModel, path: Seq<Seq<char>>, owner: Seq<char>) -> DirModel
    decreases path.len(),
{
    if path.len() == 0 {
        node
    } else if path.len() == 1 {
        DirModel { files: node.files.push(FileModel { name: path[0], owner }), ..node }
    } else {
        let k = child_index(node.dirs, path[0]);
        if k < node.dirs.len() {
            DirModel {
                dirs: node.dirs.update(k, insert_spec(node.dirs[k], path.skip(1), owner)),
                ..node
            }
        } else {
            DirModel {
                dirs: node.dirs.push(insert_spec(empty_dir(path[0]), path.skip(1), owner)),
                ..node
            }
        }
    }
}

/// The root after all of `entries` are added, first to last.
pub open spec fn build_spec(entries: Seq<EntryModel>) -> DirModel
    decreases entries.len(),
{
    if entries.len() == 0 {
        empty_dir(Seq::<char>::empty())
    } else {
        insert_spec(build_spec(entries.drop_last()), entries.last().path, entries.last().owner)
    }
}

/// What the files and the directories directly inside a directory say of
/// their owner: a file its owner string, a directory its consensus.
pub open spec fn votes(files: Seq<FileModel>, dirs: Seq<DirModel>) -> Seq<Option<Seq<char>>> {
    Seq::new(files.len(), |i: int| Some(files[i].owner)) + Seq::new(
        dirs.len(),
        |i: int| dirs[i].consensus,
    )
}

/// The consensus of a directory with these files and directories directly
/// inside: the owner string that all of them name, if there is at least one
/// of them, all name the same, and it is not empty.
pub open spec fn consensus_of(files: Seq<FileModel>, dirs: Seq<DirModel>) -> Option<Seq<char>> {
    let v = votes(files, dirs);
    if v.len() > 0 && v[0] is Some && v[0]->0.len() > 0 && (forall|i: int|
        0 <= i < v.len() ==> #[trigger] v[i] == v[0]) {
        v[0]
    } else {
        None
    }
}

/// The directory with the consensus of every directory below it worked
/// out, innermost first, and its own too unless it is the root.
pub open spec fn settle_spec(node: DirModel, is_root: bool) -> DirModel
    decreases node,
{
    let dirs = Seq::new(
        node.dirs.len(),
        |i: int|
            if 0 <= i < node.dirs.len() {
                settle_spec(node.dirs[i], false)
            } else {
                node
            },
    );
    DirModel {
        name: node.name,
        dirs,
        files: node.files,
        consensus: if is_root {
            None
        } else {
            consensus_of(node.files, dirs)
        },
    }
}

/// The ownership tree of `entries`.
pub open spec fn aggregate_spec(entries: Seq<EntryModel>) -> DirModel {
    settle_spec(build_spec(entries), true)
}

/// What [`child_index`] finds: the first directory with that name.
pub proof fn lemma_child_index(dirs: Seq<DirModel>, name: Seq<char>)
    ensures
        0 <= child_index(dirs, name) <= dirs.len(),
        child_index(dirs, name) < dirs.len() ==> dirs[child_index(dirs, name)].name == name,
        forall|j: int| 0 <= j < child_index(dirs, name) ==> (#[trigger] dirs[j]).name != name,
    decreases dirs.len(),
{
    if dirs.len() > 0 {
        let init = dirs.drop_last();
        lemma_child_index(init, name);
        assert forall|j: int| 0 <= j < child_index(dirs, name) implies (#[trigger] dirs[j]).name
            != name by {
            if j < init.len() {
                assert(dirs[j] == init[j]);
            }
        }
        if child_index(init, name) < init.len() {
            assert(dirs[child_index(init, name)] == init[child_index(init, name)]);
        }
    }
}

/// The position of the first directory called `name`, or the number of
/// directories if there is none.
fn find_child(dirs: &Vec<DirectoryNode>, name: &String) -> (k: usize)
    ensures
        k == child_index(dir_views(dirs@), name@),
        k <= dirs.len(),
{
    let mut k: usize = 0;
    while k < dirs.len()
        invariant
            k <= dirs.len(),
            forall|j: int| 0 <= j < k ==> (#[trigger] dir_views(dirs@)[j]).name != name@,
        decreases dirs.len() - k,
    {
        assert(dir_views(dirs@)[k as int].name == dirs[k as int].name@);
        if dirs[k].name == *name {
            proof {
                lemma_child_index(dir_views(dirs@), name@);
            }
            return k;
        }
        k += 1;
    }
    proof {
        lemma_child_index(dir_views(dirs@), name@);
    }
    k
}

impl DirectoryNode {
    /// A root with nothing inside.
    pub fn root() -> (node: DirectoryNode)
        ensures
            node@ == empty_dir(Seq::<char>::empty()),
    {
        let node = DirectoryNode {
            name: String::new(),
            subdirectories: Vec::new(),
            files: Vec::new(),
            consensus_owner: None,
        };
        assert(node@.dirs =~= Seq::<DirModel>::empty());
        assert(node@.files =~= Seq::<FileModel>::empty());
        node
    }

    /// Adds the file at `path` with its owner string. Consensus owners are
    /// left as they are: call [`DirectoryNode::settle`] after the last
    /// file.
    pub fn insert(&mut self, path: &RelPath, owner: &str)
        ensures
            final(self)@ == insert_spec(old(self)@, path@, owner@),
            final(self)@.name == old(self)@.name,
            tidy(old(self)@) ==> tidy(final(self)@),
    {
        let names = path.segments();
        proof {
            assert(views(names@).skip(0) =~= views(names@));
            if tidy(self@) {
                lemma_insert_keeps_tidy(self@, path@, owner@);
            }
        }
        insert_at(self, names, 0, owner);
    }

    /// Works out the consensus owner of every directory below this root,
    /// innermost first. The root itself gets none.
    pub fn settle(&mut self)
        ensures
            final(self)@ == settle_spec(old(self)@, true),
            final(self)@.name == old(self)@.name,
            final(self).consensus_owner is None,
            settled_below(final(self)@),
            tidy(old(self)@) ==> tidy(final(self)@),
    {
        proof {
            lemma_settle_settles(self@, true);
            if tidy(self@) {
                lemma_settle_keeps_tidy(self@, true);
            }
        }
        settle_node(self, true);
    }
}

/// The ownership tree of `entries`: every file under its directory, and the
/// consensus owner of every directory but the root. The tree is tidy, and
/// settled below its root.
pub fn aggregate(entries: &Vec<FileEntry>) -> (root: DirectoryNode)
    ensures
        root@ == aggregate_spec(entry_views(entries@)),
        root@.name.len() == 0,
        root.consensus_owner is None,
        tidy(root@),
        settled_below(root@),
{
    let mut root = DirectoryNode::root();
    let mut i: usize = 0;
    while i < entries.len()
        invariant
            i <= entries.len(),
            root@ == build_spec(entry_views(entries@).take(i as int)),
            root@.name.len() == 0,
            tidy(root@),
        decreases entries.len() - i,
    {
        proof {
            let prefix = entry_views(entries@).take(i + 1);
            assert(prefix.drop_last() =~= entry_views(entries@).take(i as int));
            assert(prefix.last() == entries[i as int]@);
        }
        root.insert(&entries[i].path, entries[i].owner.as_str());
        i += 1;
    }
    assert(entry_views(entries@).take(entries.len() as int) =~= entry_views(entries@));
    root.settle();
    root
}

/// The consensus of a directory with these files and directories directly
/// inside.
fn consensus(files: &Vec<FileOwners>, dirs: &Vec<DirectoryNode>) -> (r: Option<String>)
    ensures
        option_view(r) == consensus_of(file_views(files@), dir_views(dirs@)),
{
    let ghost v = votes(file_views(files@), dir_views(dirs@));
    let candidate: &String = if files.len() > 0 {
        &files[0].owner
    } else if dirs.len() > 0 {
        match &dirs[0].consensus_owner {
            Some(owner) => owner,
            None => {
                assert(v[0] is None);
                return None;
            },
        }
    } else {
        return None;
    };
    assert(v[0] == Some(candidate@));
    if candidate.as_str().is_empty() {
        return None;
    }
    let mut i: usize = 0;
    while i < files.len()
        invariant
            i <= files.len(),
            v == votes(file_views(files@), dir_views(dirs@)),
            v.len() > 0,
            v[0] == Some(candidate@),
            forall|j: int| 0 <= j < i ==> #[trigger] v[j] == v[0],
        decreases files.len() - i,
    {
        assert(v[i as int] == Some(files[i as int].owner@));
        if !(files[i].owner == *candidate) {
            return None;
        }
        i += 1;
    }
    let mut k: usize = 0;
    while k < dirs.len()
        invariant
            k <= dirs.len(),
            v == votes(file_views(files@), dir_views(dirs@)),
            v.len() > 0,
            v[0] == Some(candidate@),
            forall|j: int| 0 <= j < files.len() + k ==> #[trigger] v[j] == v[0],
        decreases dirs.len() - k,
    {
        assert(v[files.len() + k] == option_view(dirs[k as int].consensus_owner));
        match &dirs[k].consensus_owner {
            Some(owner) => {
                if !(*owner == *candidate) {
                    return None;
                }
            },
            None => {
                return None;
            },
        }
        k += 1;
    }
    Some(candidate.clone())
}

/// Works out the consensus owner of every directory below `node`, and of
/// `node` itself unless it is the root.
fn settle_node(node: &mut DirectoryNode, is_root: bool)
    ensures
        final(node)@ == settle_spec(old(node)@, is_root),
        is_root ==> final(node).consensus_owner is None,
    decreases *old(node),
{
    let ghost start = *node;
    let n = node.subdirectories.len();
    let mut i: usize = 0;
    while i < n
        invariant
            i <= n,
            n == start.subdirectories.len(),
            node.subdirectories.len() == n,
            node.name == start.name,
            node.files == start.files,
            start == *old(node),
            forall|j: int|
                i <= j < n ==> #[trigger] node.subdirectories[j] == start.subdirectories[j],
            forall|j: int|
                0 <= j < i ==> (#[trigger] node.subdirectories[j])@ == settle_spec(
                    start.subdirectories[j]@,
                    false,
                ),
        decreases n - i,
    {
        settle_node(&mut node.subdirectories[i], false);
        i += 1;
    }
    let ghost settled = dir_views(node.subdirectories@);
    assert(settled =~= settle_spec(start@, is_root).dirs);
    if is_root {
        node.consensus_owner = None;
    } else {
        node.consensus_owner = consensus(&node.files, &node.subdirectories);
    }
    assert(node@.dirs =~= settled);
}

/// Adds the file at `names[from..]` below `node`.
fn insert_at(node: &mut DirectoryNode, names: &Vec<Vec<char>>, from: usize, owner: &str)
    requires
        from < names.len(),
    ensures
        final(node)@ == insert_spec(old(node)@, views(names@).skip(from as int), owner@),
    decreases names.len() - from,
{
    let ghost path = views(names@).skip(from as int);
    assert(path[0] == names[from as int]@);
    let name = string_of(&names[from]);
    if from + 1 == names.len() {
        let ghost before = node@;
        node.files.push(FileOwners { name, owner: owner.to_owned() });
        assert(node@.files =~= before.files.push(FileModel { name: path[0], owner: owner@ }));
        assert(node@.dirs =~= before.dirs);
    } else {
        assert(path.skip(1) =~= views(names@).skip(from + 1));
        let ghost before = node@;
        let k = find_child(&node.subdirectories, &name);
        assert(dir_views(node.subdirectories@) =~= before.dirs);
        if k == node.subdirectories.len() {
            let fresh = DirectoryNode {
                name,
                subdirectories: Vec::new(),
                files: Vec::new(),
                consensus_owner: None,
            };
            assert(fresh@.dirs =~= Seq::<DirModel>::empty());
            assert(fresh@.files =~= Seq::<FileModel>::empty());
            node.subdirectories.push(fresh);
            insert_at(&mut node.subdirectories[k], names, from + 1, owner);
            assert(node@.dirs =~= before.dirs.push(
                insert_spec(empty_dir(path[0]), path.skip(1), owner@),
            ));
            assert(node@.files =~= before.files);
        } else {
            insert_at(&mut node.subdirectories[k], names, from + 1, owner);
            assert(node@.dirs =~= before.dirs.update(
                k as int,
                insert_spec(before.dirs[k as int], path.skip(1), owner@),
            ));
            assert(node@.files =~= before.files);
        }
    }
}

} // verus!
