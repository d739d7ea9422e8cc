//! What holds of every ownership tree: its shape, what it lists, and what a
//! consensus owner says about the files beneath a directory.

use crate::path::{clean_name, valid_segments};
use crate::tree::{
    aggregate_spec, build_spec, child_index, consensus_of, empty_dir, insert_spec,
    lemma_child_index, settle_spec, votes, DirModel, EntryModel, FileModel,
};
use vstd::prelude::*;

verus! {

/// Whether no two of the directories have the same name.
pub open spec fn distinct_names(dirs: Seq<DirModel>) -> bool {
    forall|i: int, j: int|
        0 <= i < j < dirs.len() ==> (#[trigger] dirs[i]).name != (#[trigger] dirs[j]).name
}

/// Whether the directory holds anything.
pub open spec fn inhabited(node: DirModel) -> bool {
    node.dirs.len() + node.files.len() > 0
}

/// Whether the tree below `node` is in order: in every directory the
/// directories directly inside have different names, and every directory
/// and file below `node` has a name and every such directory holds
/// something.
pub open spec fn tidy(node: DirModel) -> bool
    decreases node,
{
    &&& distinct_names(node.dirs)
    &&& forall|i: int| 0 <= i < node.files.len() ==> (#[trigger] node.files[i]).name.len() > 0
    &&& forall|i: int|
        0 <= i < node.dirs.len() ==> {
            &&& (#[trigger] node.dirs[i]).name.len() > 0
            &&& inhabited(node.dirs[i])
            &&& tidy(node.dirs[i])
        }
}

/// Whether `node` and every directory below it carry the consensus of what
/// is directly inside them.
pub open spec fn settled(node: DirModel) -> bool
    decreases node,
{
    &&& node.consensus == consensus_of(node.files, node.dirs)
    &&& forall|i: int| 0 <= i < node.dirs.len() ==> settled(#[trigger] node.dirs[i])
}

/// Whether every directory directly inside `node` is settled.
pub open spec fn settled_below(node: DirModel) -> bool {
    forall|i: int| 0 <= i < node.dirs.len() ==> settled(#[trigger] node.dirs[i])
}

/// Whether every file beneath `node`, at any depth, has the owner string
/// `owner`.
pub open spec fn all_owned_by(node: DirModel, owner: Seq<char>) -> bool
    decreases node,
{
    &&& forall|i: int| 0 <= i < node.files.len() ==> (#[trigger] node.files[i]).owner == owner
    &&& forall|i: int| 0 <= i < node.dirs.len() ==> all_owned_by(#[trigger] node.dirs[i], owner)
}

/// Whether the tree below `node` lists a file at `path` with the owner
/// string `owner`.
pub open spec fn lists(node: DirModel, path: Seq<Seq<char>>, owner: Seq<char>) -> bool
    decreases path.len(),
{
    if path.len() == 0 {
        false
    } else if path.len() == 1 {
        exists|i: int|
            0 <= i < node.files.len() && #[trigger] node.files[i] == (FileModel {
                name: path[0],
                owner,
            })
    } else {
        exists|j: int|
            0 <= j < node.dirs.len() && (#[trigger] node.dirs[j]).name == path[0] && lists(
                node.dirs[j],
                path.skip(1),
                owner,
            )
    }
}

/// The consensus of a directory is `owner` exactly when `owner` is not
/// empty, the directory holds something, every file directly inside has
/// that owner string and every directory directly inside has that
/// consensus.
pub proof fn lemma_consensus_unanimous(
    files: Seq<FileModel>,
    dirs: Seq<DirModel>,
    owner: Seq<char>,
)
    ensures
        consensus_of(files, dirs) == Some(owner) <==> {
            &&& owner.len() > 0
            &&& files.len() + dirs.len() > 0
            &&& forall|i: int| 0 <= i < files.len() ==> (#[trigger] files[i]).owner == owner
            &&& forall|j: int| 0 <= j < dirs.len() ==> (#[trigger] dirs[j]).consensus == Some(owner)
        },
{
    let v = votes(files, dirs);
    if consensus_of(files, dirs) == Some(owner) {
        assert forall|i: int| 0 <= i < files.len() implies (#[trigger] files[i]).owner == owner by {
            assert(v[i] == Some(files[i].owner));
        }
        assert forall|j: int| 0 <= j < dirs.len() implies (#[trigger] dirs[j]).consensus == Some(
            owner,
        ) by {
            assert(v[files.len() + j] == dirs[j].consensus);
        }
    }
    if owner.len() > 0 && files.len() + dirs.len() > 0 && (forall|i: int|
        0 <= i < files.len() ==> (#[trigger] files[i]).owner == owner) && (forall|j: int|
        0 <= j < dirs.len() ==> (#[trigger] dirs[j]).consensus == Some(owner)) {
        assert forall|i: int| 0 <= i < v.len() implies #[trigger] v[i] == Some(owner) by {
            if i < files.len() {
                assert(v[i] == Some(files[i].owner));
            } else {
                assert(v[i] == dirs[i - files.len()].consensus);
            }
        }
        assert(v[0] == Some(owner));
    }
}

/// A directory without directories inside whose files all have the same
/// owner string, not the empty one, has that string as its consensus.
pub proof fn lemma_uniform_files_agree(files: Seq<FileModel>, owner: Seq<char>)
    requires
        files.len() > 0,
        owner.len() > 0,
        forall|i: int| 0 <= i < files.len() ==> (#[trigger] files[i]).owner == owner,
    ensures
        consensus_of(files, Seq::<DirModel>::empty()) == Some(owner),
{
    lemma_consensus_unanimous(files, Seq::<DirModel>::empty(), owner);
}

/// A directory with a file that nobody owns has no consensus.
pub proof fn lemma_unowned_file_breaks_consensus(
    files: Seq<FileModel>,
    dirs: Seq<DirModel>,
    i: int,
)
    requires
        0 <= i < files.len(),
        files[i].owner.len() == 0,
    ensures
        consensus_of(files, dirs) is None,
{
    if consensus_of(files, dirs) is Some {
        lemma_consensus_unanimous(files, dirs, consensus_of(files, dirs)->0);
    }
}

/// Two files with different owner strings in one directory leave it
/// without consensus.
pub proof fn lemma_mixed_files_break_consensus(
    files: Seq<FileModel>,
    dirs: Seq<DirModel>,
    i: int,
    j: int,
)
    requires
        0 <= i < files.len(),
        0 <= j < files.len(),
        files[i].owner != files[j].owner,
    ensures
        consensus_of(files, dirs) is None,
{
    if consensus_of(files, dirs) is Some {
        lemma_consensus_unanimous(files, dirs, consensus_of(files, dirs)->0);
    }
}

/// Settling changes consensus owners only: names, files and the number
/// and order of directories stay, at every depth.
pub proof fn lemma_settle_keeps_shape(node: DirModel, is_root: bool)
    ensures
        settle_spec(node, is_root).name == node.name,
        settle_spec(node, is_root).files == node.files,
        settle_spec(node, is_root).dirs.len() == node.dirs.len(),
        forall|i: int|
            0 <= i < node.dirs.len() ==> #[trigger] settle_spec(node, is_root).dirs[i]
                == settle_spec(node.dirs[i], false),
        is_root ==> settle_spec(node, is_root).consensus is None,
{
}

/// Settling a root settles every directory below it and leaves the root
/// without consensus; settling any other directory settles it too.
pub proof fn lemma_settle_settles(node: DirModel, is_root: bool)
    ensures
        settled_below(settle_spec(node, is_root)),
        !is_root ==> settled(settle_spec(node, is_root)),
        is_root ==> settle_spec(node, is_root).consensus is None,
    decreases node,
{
    let out = settle_spec(node, is_root);
    assert forall|i: int| 0 <= i < out.dirs.len() implies settled(#[trigger] out.dirs[i]) by {
        lemma_settle_settles(node.dirs[i], false);
    }
}

/// Settling keeps a tidy tree tidy.
pub proof fn lemma_settle_keeps_tidy(node: DirModel, is_root: bool)
    requires
        tidy(node),
    ensures
        tidy(settle_spec(node, is_root)),
    decreases node,
{
    let out = settle_spec(node, is_root);
    lemma_settle_keeps_shape(node, is_root);
    assert forall|i: int| 0 <= i < out.dirs.len() implies {
        &&& (#[trigger] out.dirs[i]).name.len() > 0
        &&& inhabited(out.dirs[i])
        &&& tidy(out.dirs[i])
    } by {
        assert(tidy(node.dirs[i]));
        lemma_settle_keeps_tidy(node.dirs[i], false);
        lemma_settle_keeps_shape(node.dirs[i], false);
    }
    assert forall|i: int, j: int| 0 <= i < j < out.dirs.len() implies (#[trigger] out.dirs[i]).name
        != (#[trigger] out.dirs[j]).name by {
        lemma_settle_keeps_shape(node.dirs[i], false);
        lemma_settle_keeps_shape(node.dirs[j], false);
        assert(node.dirs[i].name != node.dirs[j].name);
    }
}

/// Adding a file at a valid path keeps a tidy tree tidy, keeps the name of
/// the directory, and leaves the directory with something inside.
pub proof fn lemma_insert_keeps_tidy(node: DirModel, path: Seq<Seq<char>>, owner: Seq<char>)
    requires
        tidy(node),
        valid_segments(path),
    ensures
        tidy(insert_spec(node, path, owner)),
        inhabited(insert_spec(node, path, owner)),
        insert_spec(node, path, owner).name == node.name,
    decreases path.len(),
{
    let out = insert_spec(node, path, owner);
    assert(clean_name(path[0]));
    if path.len() > 1 {
        let rest = path.skip(1);
        assert forall|i: int| 0 <= i < rest.len() implies clean_name(#[trigger] rest[i]) by {
            assert(rest[i] == path[i + 1]);
        }
        let k = child_index(node.dirs, path[0]);
        lemma_child_index(node.dirs, path[0]);
        let child = if k < node.dirs.len() {
            node.dirs[k]
        } else {
            empty_dir(path[0])
        };
        assert(tidy(child));
        lemma_insert_keeps_tidy(child, rest, owner);
        let grown = insert_spec(child, rest, owner);
        assert forall|i: int| 0 <= i < out.dirs.len() implies {
            &&& (#[trigger] out.dirs[i]).name.len() > 0
            &&& inhabited(out.dirs[i])
            &&& tidy(out.dirs[i])
        } by {
            if i != k {
                assert(out.dirs[i] == node.dirs[i]);
            }
        }
        assert forall|i: int, j: int| 0 <= i < j < out.dirs.len() implies (#[trigger] out.dirs[
            i
        ]).name != (#[trigger] out.dirs[j]).name by {
            if i != k && j != k {
                assert(out.dirs[i] == node.dirs[i]);
                assert(out.dirs[j] == node.dirs[j]);
            } else if k < node.dirs.len() {
                if i == k {
                    assert(out.dirs[j] == node.dirs[j]);
                    assert(node.dirs[i].name != node.dirs[j].name);
                } else {
                    assert(out.dirs[i] == node.dirs[i]);
                    assert(node.dirs[i].name != node.dirs[j].name);
                }
            } else {
                assert(out.dirs[i] == node.dirs[i]);
            }
        }
    }
}

/// The tree built from entries with valid paths is tidy.
pub proof fn lemma_build_is_tidy(entries: Seq<EntryModel>)
    requires
        forall|e: int| 0 <= e < entries.len() ==> valid_segments((#[trigger] entries[e]).path),
    ensures
        tidy(build_spec(entries)),
        tidy(aggregate_spec(entries)),
        build_spec(entries).name.len() == 0,
        aggregate_spec(entries).name.len() == 0,
    decreases entries.len(),
{
    if entries.len() > 0 {
        let init = entries.drop_last();
        assert forall|e: int| 0 <= e < init.len() implies valid_segments(
            (#[trigger] init[e]).path,
        ) by {
            assert(init[e] == entries[e]);
        }
        lemma_build_is_tidy(init);
        assert(entries.last() == entries[entries.len() - 1]);
        lemma_insert_keeps_tidy(build_spec(init), entries.last().path, entries.last().owner);
    }
    lemma_settle_keeps_tidy(build_spec(entries), true);
}

/// The ownership tree of any entries is settled below its root, and its
/// root has no consensus.
pub proof fn lemma_aggregate_is_settled(entries: Seq<EntryModel>)
    ensures
        settled_below(aggregate_spec(entries)),
        aggregate_spec(entries).consensus is None,
{
    lemma_settle_settles(build_spec(entries), true);
}

/// The ownership tree is a function of what the entries hold: the same
/// entries give the same tree, however often it is built.
pub proof fn lemma_aggregate_is_a_function(a: Seq<EntryModel>, b: Seq<EntryModel>)
    requires
        a =~= b,
    ensures
        aggregate_spec(a) == aggregate_spec(b),
{
}

/// Settling a settled directory changes nothing: the consensus pass need
/// not be run twice.
pub proof fn lemma_settle_is_idempotent(node: DirModel)
    requires
        settled(node),
    ensures
        settle_spec(node, false) == node,
    decreases node,
{
    let out = settle_spec(node, false);
    assert forall|i: int| 0 <= i < node.dirs.len() implies #[trigger] out.dirs[i]
        == node.dirs[i] by {
        lemma_settle_is_idempotent(node.dirs[i]);
    }
    assert(out.dirs =~= node.dirs);
}

/// In a tidy and settled tree the consensus of a directory that holds
/// something is `owner` exactly when `owner` is not empty and every file
/// beneath the directory, at any depth, has that owner string.
pub proof fn lemma_consensus_means_uniform_subtree(node: DirModel, owner: Seq<char>)
    requires
        tidy(node),
        settled(node),
        inhabited(node),
    ensures
        node.consensus == Some(owner) <==> owner.len() > 0 && all_owned_by(node, owner),
    decreases node,
{
    lemma_consensus_unanimous(node.files, node.dirs, owner);
    assert forall|j: int| 0 <= j < node.dirs.len() implies ((#[trigger] node.dirs[j]).consensus
        == Some(owner) <==> owner.len() > 0 && all_owned_by(node.dirs[j], owner)) by {
        lemma_consensus_means_uniform_subtree(node.dirs[j], owner);
    }
}

/// After a file is added the tree lists what it listed before, and that
/// file, and nothing else.
pub proof fn lemma_insert_lists(
    node: DirModel,
    path: Seq<Seq<char>>,
    owner: Seq<char>,
    other: Seq<Seq<char>>,
    other_owner: Seq<char>,
)
    requires
        path.len() >= 1,
    ensures
        lists(insert_spec(node, path, owner), other, other_owner) <==> lists(
            node,
            other,
            other_owner,
        ) || (other == path && other_owner == owner),
    decreases path.len(),
{
    let out = insert_spec(node, path, owner);
    let added = FileModel { name: path[0], owner };
    if path.len() == 1 {
        assert(out.files == node.files.push(added));
        assert(out.dirs == node.dirs);
        if other.len() == 1 {
            let wanted = FileModel { name: other[0], owner: other_owner };
            if lists(out, other, other_owner) {
                let i = choose|i: int|
                    0 <= i < out.files.len() && #[trigger] out.files[i] == wanted;
                if i < node.files.len() {
                    assert(node.files[i] == wanted);
                } else {
                    assert(other =~= path);
                }
            }
            if lists(node, other, other_owner) {
                let i = choose|i: int|
                    0 <= i < node.files.len() && #[trigger] node.files[i] == wanted;
                assert(out.files[i] == wanted);
            }
            if other == path && other_owner == owner {
                assert(out.files[node.files.len() as int] == wanted);
            }
        }
    } else {
        let rest = path.skip(1);
        let k = child_index(node.dirs, path[0]);
        lemma_child_index(node.dirs, path[0]);
        let child = if k < node.dirs.len() {
            node.dirs[k]
        } else {
            empty_dir(path[0])
        };
        let grown = insert_spec(child, rest, owner);
        lemma_insert_names(child, rest, owner);
        assert(out.files == node.files);
        assert(out.dirs.len() > k && out.dirs[k] == grown);
        if other.len() == 1 {
            assert(lists(out, other, other_owner) == lists(node, other, other_owner));
            assert(other != path);
        } else if other.len() > 1 {
            let other_rest = other.skip(1);
            lemma_insert_lists(child, rest, owner, other_rest, other_owner);
            if k >= node.dirs.len() {
                assert(!lists(child, other_rest, other_owner)) by {
                    lemma_empty_lists_nothing(path[0], other_rest, other_owner);
                }
            }
            if lists(out, other, other_owner) {
                let j = choose|j: int|
                    0 <= j < out.dirs.len() && (#[trigger] out.dirs[j]).name == other[0] && lists(
                        out.dirs[j],
                        other_rest,
                        other_owner,
                    );
                if j == k {
                    if lists(child, other_rest, other_owner) {
                        assert(node.dirs[k].name == other[0]);
                    } else {
                        assert(other_rest == rest && other_owner == owner);
                        assert(other[0] == path[0]);
                        assert(other =~= seq![other[0]] + other_rest);
                        assert(path =~= seq![path[0]] + rest);
                    }
                } else {
                    assert(out.dirs[j] == node.dirs[j]);
                }
            }
            if lists(node, other, other_owner) {
                let j = choose|j: int|
                    0 <= j < node.dirs.len() && (#[trigger] node.dirs[j]).name == other[0] && lists(
                        node.dirs[j],
                        other_rest,
                        other_owner,
                    );
                if j == k {
                    assert(out.dirs[j].name == other[0] && lists(
                        out.dirs[j],
                        other_rest,
                        other_owner,
                    ));
                } else {
                    assert(out.dirs[j] == node.dirs[j]);
                }
            }
            if other == path && other_owner == owner {
                assert(out.dirs[k].name == other[0] && lists(out.dirs[k], other_rest, other_owner));
            }
        }
    }
}

/// Adding a file below a directory keeps the directory's name.
proof fn lemma_insert_names(node: DirModel, path: Seq<Seq<char>>, owner: Seq<char>)
    ensures
        insert_spec(node, path, owner).name == node.name,
{
}

/// An empty directory lists nothing.
proof fn lemma_empty_lists_nothing(name: Seq<char>, path: Seq<Seq<char>>, owner: Seq<char>)
    ensures
        !lists(empty_dir(name), path, owner),
{
}

/// The tree built from entries lists exactly the entries: a file at a path
/// with an owner string is listed exactly when an entry says so.
pub proof fn lemma_build_lists(entries: Seq<EntryModel>, path: Seq<Seq<char>>, owner: Seq<char>)
    requires
        forall|e: int| 0 <= e < entries.len() ==> (#[trigger] entries[e]).path.len() >= 1,
    ensures
        lists(build_spec(entries), path, owner) <==> exists|e: int|
            0 <= e < entries.len() && #[trigger] entries[e] == (EntryModel { path, owner }),
    decreases entries.len(),
{
    let wanted = EntryModel { path, owner };
    if entries.len() == 0 {
        lemma_empty_lists_nothing(Seq::<char>::empty(), path, owner);
    } else {
        let init = entries.drop_last();
        let last = entries.last();
        assert(last == entries[entries.len() - 1]);
        assert forall|e: int| 0 <= e < init.len() implies (#[trigger] init[e]).path.len() >= 1 by {
            assert(init[e] == entries[e]);
        }
        lemma_build_lists(init, path, owner);
        lemma_insert_lists(build_spec(init), last.path, last.owner, path, owner);
        if exists|e: int| 0 <= e < init.len() && #[trigger] init[e] == wanted {
            let e = choose|e: int| 0 <= e < init.len() && #[trigger] init[e] == wanted;
            assert(entries[e] == wanted);
        }
        if exists|e: int| 0 <= e < entries.len() && #[trigger] entries[e] == wanted {
            let e = choose|e: int| 0 <= e < entries.len() && #[trigger] entries[e] == wanted;
            if e < init.len() {
                assert(init[e] == wanted);
            }
        }
    }
}

/// Settling does not change what a tree lists.
pub proof fn lemma_settle_lists(
    node: DirModel,
    is_root: bool,
    path: Seq<Seq<char>>,
    owner: Seq<char>,
)
    ensures
        lists(settle_spec(node, is_root), path, owner) <==> lists(node, path, owner),
    decreases path.len(),
{
    let out = settle_spec(node, is_root);
    lemma_settle_keeps_shape(node, is_root);
    if path.len() > 1 {
        let rest = path.skip(1);
        assert forall|j: int| 0 <= j < node.dirs.len() implies (lists(
            #[trigger] out.dirs[j],
            rest,
            owner,
        ) <==> lists(node.dirs[j], rest, owner)) && out.dirs[j].name == node.dirs[j].name by {
            lemma_settle_lists(node.dirs[j], false, rest, owner);
            lemma_settle_keeps_shape(node.dirs[j], false);
        }
        if lists(out, path, owner) {
            let j = choose|j: int|
                0 <= j < out.dirs.len() && (#[trigger] out.dirs[j]).name == path[0] && lists(
                    out.dirs[j],
                    rest,
                    owner,
                );
            assert(node.dirs[j].name == path[0] && lists(node.dirs[j], rest, owner));
        }
        if lists(node, path, owner) {
            let j = choose|j: int|
                0 <= j < node.dirs.len() && (#[trigger] node.dirs[j]).name == path[0] && lists(
                    node.dirs[j],
                    rest,
                    owner,
                );
            assert(out.dirs[j].name == path[0] && lists(out.dirs[j], rest, owner));
        }
    }
}

/// The ownership tree lists exactly the entries it was made from.
pub proof fn lemma_aggregate_lists(
    entries: Seq<EntryModel>,
    path: Seq<Seq<char>>,
    owner: Seq<char>,
)
    requires
        forall|e: int| 0 <= e < entries.len() ==> (#[trigger] entries[e]).path.len() >= 1,
    ensures
        lists(aggregate_spec(entries), path, owner) <==> exists|e: int|
            0 <= e < entries.len() && #[trigger] entries[e] == (EntryModel { path, owner }),
{
    lemma_build_lists(entries, path, owner);
    lemma_settle_lists(build_spec(entries), true, path, owner);
}

/// The files that the entries put directly into the root, in their order.
pub open spec fn top_files(entries: Seq<EntryModel>) -> Seq<FileModel>
    decreases entries.len(),
{
    if entries.len() == 0 {
        Seq::<FileModel>::empty()
    } else {
        let before = top_files(entries.drop_last());
        let last = entries.last();
        if last.path.len() == 1 {
            before.push(FileModel { name: last.path[0], owner: last.owner })
        } else {
            before
        }
    }
}

/// The entries that lie beneath the directory `name` of the root, in their
/// order, each with its path from that directory on.
pub open spec fn beneath(entries: Seq<EntryModel>, name: Seq<char>) -> Seq<EntryModel>
    decreases entries.len(),
{
    if entries.len() == 0 {
        Seq::<EntryModel>::empty()
    } else {
        let before = beneath(entries.drop_last(), name);
        let last = entries.last();
        if last.path.len() > 1 && last.path[0] == name {
            before.push(EntryModel { path: last.path.skip(1), owner: last.owner })
        } else {
            before
        }
    }
}

/// The names of the directories that the entries put directly into the
/// root, each once, in the order in which the entries first name them.
pub open spec fn top_directories(entries: Seq<EntryModel>) -> Seq<Seq<char>>
    decreases entries.len(),
{
    if entries.len() == 0 {
        Seq::<Seq<char>>::empty()
    } else {
        let before = top_directories(entries.drop_last());
        let last = entries.last();
        if last.path.len() > 1 && !before.contains(last.path[0]) {
            before.push(last.path[0])
        } else {
            before
        }
    }
}

/// Whether `dir` is the tree of the entries that lie beneath the directory
/// of its name.
pub open spec fn is_tree_beneath(dir: DirModel, entries: Seq<EntryModel>) -> bool {
    dir == with_name(build_spec(beneath(entries, dir.name)), dir.name)
}

/// The directory `node` under another name.
pub open spec fn with_name(node: DirModel, name: Seq<char>) -> DirModel {
    DirModel { name, ..node }
}

/// The names of the directories, in their order.
pub open spec fn names_of(dirs: Seq<DirModel>) -> Seq<Seq<char>> {
    Seq::new(dirs.len(), |i: int| dirs[i].name)
}

/// What is added below a directory does not depend on the directory's own
/// name.
proof fn lemma_insert_under_name(
    node: DirModel,
    name: Seq<char>,
    path: Seq<Seq<char>>,
    owner: Seq<char>,
)
    ensures
        insert_spec(with_name(node, name), path, owner) == with_name(
            insert_spec(node, path, owner),
            name,
        ),
{
}

/// The directories named by the entries before the last are still named
/// when the last is added, and so is the directory that the last entry
/// lies in, if it lies in one.
proof fn lemma_top_directories_grow(entries: Seq<EntryModel>)
    requires
        entries.len() > 0,
    ensures
        forall|name: Seq<char>|
            top_directories(entries.drop_last()).contains(name) ==> #[trigger] top_directories(
                entries,
            ).contains(name),
        entries.last().path.len() > 1 ==> top_directories(entries).contains(
            entries.last().path[0],
        ),
{
    let before = top_directories(entries.drop_last());
    let after = top_directories(entries);
    let last = entries.last();
    assert forall|name: Seq<char>| before.contains(name) implies #[trigger] after.contains(
        name,
    ) by {
        let j = choose|j: int| 0 <= j < before.len() && before[j] == name;
        assert(after[j] == name);
    }
    if last.path.len() > 1 && !before.contains(last.path[0]) {
        assert(after[before.len() as int] == last.path[0]);
    }
}

/// The tree of entries, directory by directory: the root holds the files
/// of the entries with a path of one name, in their order, and one
/// directory for every first name of a longer path, in the order of their
/// first mention; and every such directory is the tree of the entries
/// beneath it.
pub proof fn lemma_tree_by_directory(entries: Seq<EntryModel>)
    requires
        forall|e: int| 0 <= e < entries.len() ==> (#[trigger] entries[e]).path.len() >= 1,
    ensures
        build_spec(entries).files == top_files(entries),
        names_of(build_spec(entries).dirs) == top_directories(entries),
        distinct_names(build_spec(entries).dirs),
        forall|k: int|
            0 <= k < build_spec(entries).dirs.len() ==> is_tree_beneath(
                #[trigger] build_spec(entries).dirs[k],
                entries,
            ),
        forall|name: Seq<char>|
            !top_directories(entries).contains(name) ==> (#[trigger] beneath(entries, name)).len()
                == 0,
    decreases entries.len(),
{
    let tree = build_spec(entries);
    if entries.len() == 0 {
        assert(names_of(tree.dirs) =~= top_directories(entries));
    } else {
        let init = entries.drop_last();
        let last = entries.last();
        let old = build_spec(init);
        assert(last == entries[entries.len() - 1]);
        assert forall|e: int| 0 <= e < init.len() implies (#[trigger] init[e]).path.len() >= 1 by {
            assert(init[e] == entries[e]);
        }
        lemma_tree_by_directory(init);
        if last.path.len() == 1 {
            assert(tree.dirs == old.dirs);
            assert forall|k: int| 0 <= k < tree.dirs.len() implies is_tree_beneath(
                #[trigger] tree.dirs[k],
                entries,
            ) by {
                assert(is_tree_beneath(old.dirs[k], init));
                assert(beneath(entries, old.dirs[k].name) == beneath(init, old.dirs[k].name));
            }
        } else {
            let first = last.path[0];
            let rest = last.path.skip(1);
            let added = EntryModel { path: rest, owner: last.owner };
            let k = child_index(old.dirs, first);
            lemma_child_index(old.dirs, first);
            assert(tree.files == old.files);
            if k < old.dirs.len() {
                // The directory is there already: the file goes into it.
                let below = beneath(init, first);
                assert(names_of(old.dirs)[k] == first);
                assert(top_directories(init).contains(first));
                assert(is_tree_beneath(old.dirs[k], init));
                lemma_insert_under_name(build_spec(below), first, rest, last.owner);
                assert(below.push(added).drop_last() =~= below);
                assert(tree.dirs[k] == with_name(build_spec(below.push(added)), first));
                assert(names_of(tree.dirs) =~= names_of(old.dirs));
                assert forall|j: int| 0 <= j < tree.dirs.len() implies is_tree_beneath(
                    #[trigger] tree.dirs[j],
                    entries,
                ) by {
                    if j != k {
                        assert(tree.dirs[j] == old.dirs[j]);
                        assert(is_tree_beneath(old.dirs[j], init));
                        if j < k {
                            assert(old.dirs[j].name != old.dirs[k].name);
                        } else {
                            assert(old.dirs[k].name != old.dirs[j].name);
                        }
                        assert(beneath(entries, old.dirs[j].name) == beneath(
                            init,
                            old.dirs[j].name,
                        ));
                    }
                }
                assert forall|i: int, j: int|
                    0 <= i < j < tree.dirs.len() implies (#[trigger] tree.dirs[i]).name != (
                    #[trigger] tree.dirs[j]).name by {
                    assert(names_of(tree.dirs)[i] == names_of(old.dirs)[i]);
                    assert(names_of(tree.dirs)[j] == names_of(old.dirs)[j]);
                    assert(old.dirs[i].name != old.dirs[j].name);
                }
            } else {
                // The directory is new: it holds this file and nothing else.
                assert(!top_directories(init).contains(first)) by {
                    if top_directories(init).contains(first) {
                        let j = choose|j: int|
                            0 <= j < top_directories(init).len() && top_directories(init)[j]
                                == first;
                        assert(names_of(old.dirs)[j] == old.dirs[j].name);
                    }
                }
                assert(beneath(init, first).len() == 0);
                assert(beneath(entries, first) =~= seq![added]);
                let fresh = empty_dir(first);
                assert(fresh == with_name(build_spec(Seq::<EntryModel>::empty()), first));
                lemma_insert_under_name(
                    build_spec(Seq::<EntryModel>::empty()),
                    first,
                    rest,
                    last.owner,
                );
                assert(seq![added].drop_last() =~= Seq::<EntryModel>::empty());
                assert(tree.dirs[k] == with_name(build_spec(seq![added]), first));
                assert(names_of(tree.dirs) =~= names_of(old.dirs).push(first));
                assert forall|j: int| 0 <= j < tree.dirs.len() implies is_tree_beneath(
                    #[trigger] tree.dirs[j],
                    entries,
                ) by {
                    if j != k {
                        assert(tree.dirs[j] == old.dirs[j]);
                        assert(is_tree_beneath(old.dirs[j], init));
                        assert(beneath(entries, old.dirs[j].name) == beneath(
                            init,
                            old.dirs[j].name,
                        ));
                    }
                }
                assert forall|i: int, j: int|
                    0 <= i < j < tree.dirs.len() implies (#[trigger] tree.dirs[i]).name != (
                    #[trigger] tree.dirs[j]).name by {
                    assert(tree.dirs[i] == old.dirs[i]);
                    if j < k {
                        assert(tree.dirs[j] == old.dirs[j]);
                    }
                }
            }
        }
        lemma_top_directories_grow(entries);
        assert forall|name: Seq<char>| !top_directories(entries).contains(name) implies (
        #[trigger] beneath(entries, name)).len() == 0 by {
            assert(!top_directories(init).contains(name));
            assert(beneath(init, name).len() == 0);
        }
    }
}

} // verus!
