//! Reports over many paths at once: the ownership tree of a set of files,
//! and the files grouped by the display string of their owners.

use crate::listing::{first_fault, listed, listed_paths, parse_paths, path_views, pieces_of_all};
use crate::path::{PathError, RelPath};
use crate::resolve::{display_spec, owner_string, resolve_spec};
use crate::rules::{rule_views, Rule, RuleModel};
use crate::text::{chars_of, joined, same_text, string_views, text_before, text_less};
use crate::text_laws::{
    lemma_text_order_irreflexive, lemma_text_order_total, lemma_text_order_transitive,
};
use crate::tree::{aggregate_spec, build_spec, DirectoryNode, EntryModel};
use crate::tree_laws::{settled_below, tidy};
use vstd::prelude::*;

verus! {

/// The files that share one owner display string.
#[derive(Clone, Debug, PartialEq, Eq)]
pub struct FrontendCodeowner {
    /// The display string of the owners; empty for files without owner.
    pub owners: String,
    /// The paths of the files, as text, in the order they were given.
    pub files: Vec<String>,
}

/// The mathematical content of a [`FrontendCodeowner`].
pub struct GroupModel {
    pub owners: Seq<char>,
    pub files: Seq<Seq<char>>,
}

impl View for FrontendCodeowner {
    type V = GroupModel;

    open spec fn view(&self) -> GroupModel {
        GroupModel { owners: self.owners@, files: string_views(self.files@) }
    }
}

/// The contents of a vector of groups.
pub open spec fn group_views(v: Seq<FrontendCodeowner>) -> Seq<GroupModel> {
    Seq::new(v.len(), |i: int| v[i]@)
}

/// A path as text: its names with `/` between them.
pub open spec fn path_text(path: Seq<Seq<char>>) -> Seq<char> {
    joined(path, seq!['/'])
}

/// Every path with the display string of its owners under `rules`.
pub open spec fn resolved_entries(rules: Seq<RuleModel>, paths: Seq<Seq<Seq<char>>>) -> Seq<
    EntryModel,
> {
    Seq::new(
        paths.len(),
        |i: int| EntryModel { path: paths[i], owner: display_spec(resolve_spec(rules, paths[i])) },
    )
}

/// The paths of the entries owned by `owner`, as text, in their order.
pub open spec fn files_owned_by(entries: Seq<EntryModel>, owner: Seq<char>) -> Seq<Seq<char>>
    decreases entries.len(),
{
    if entries.len() == 0 {
        Seq::<Seq<char>>::empty()
    } else {
        let before = files_owned_by(entries.drop_last(), owner);
        if entries.last().owner == owner {
            before.push(path_text(entries.last().path))
        } else {
            before
        }
    }
}

/// Whether one of the groups is that of `owner`.
pub open spec fn has_group(groups: Seq<GroupModel>, owner: Seq<char>) -> bool {
    exists|g: int| 0 <= g < groups.len() && (#[trigger] groups[g]).owners == owner
}

/// Whether the groups come in strictly growing order of their owner
/// strings.
pub open spec fn sorted_by_owner(groups: Seq<GroupModel>) -> bool {
    forall|i: int, j: int|
        0 <= i < j < groups.len() ==> text_less(
            (#[trigger] groups[i]).owners,
            (#[trigger] groups[j]).owners,
        )
}

/// Whether `groups` is the grouping of `entries` by owner: one group for
/// every owner string that occurs, none for any other, each with all the
/// files of its owner in their order, and the groups sorted by owner
/// string.
pub open spec fn is_grouping(entries: Seq<EntryModel>, groups: Seq<GroupModel>) -> bool {
    &&& sorted_by_owner(groups)
    &&& forall|g: int|
        0 <= g < groups.len() ==> (#[trigger] groups[g]).files.len() > 0 && groups[g].files
            == files_owned_by(entries, groups[g].owners)
    &&& forall|e: int| 0 <= e < entries.len() ==> has_group(groups, (#[trigger] entries[e]).owner)
}

/// An owner without entries has no files.
proof fn lemma_no_entry_no_file(entries: Seq<EntryModel>, owner: Seq<char>)
    requires
        forall|e: int| 0 <= e < entries.len() ==> (#[trigger] entries[e]).owner != owner,
    ensures
        files_owned_by(entries, owner).len() == 0,
    decreases entries.len(),
{
    if entries.len() > 0 {
        let init = entries.drop_last();
        assert forall|e: int| 0 <= e < init.len() implies (#[trigger] init[e]).owner != owner by {
            assert(init[e] == entries[e]);
        }
        lemma_no_entry_no_file(init, owner);
        assert(entries.last() == entries[entries.len() - 1]);
    }
}

/// Two groupings of the same entries are the same: the grouping is a
/// function of the entries.
pub proof fn lemma_grouping_is_unique(
    entries: Seq<EntryModel>,
    a: Seq<GroupModel>,
    b: Seq<GroupModel>,
)
    requires
        is_grouping(entries, a),
        is_grouping(entries, b),
    ensures
        a =~= b,
{
    lemma_groups_embed(entries, a, b);
    lemma_groups_embed(entries, b, a);
    lemma_sorted_same_keys(a, b, 0);
    assert forall|i: int| 0 <= i < a.len() implies a[i] == b[i] by {
        assert(a[i].owners == b[i].owners);
        assert(a[i].files == files_owned_by(entries, a[i].owners));
        assert(b[i].files == files_owned_by(entries, b[i].owners));
    }
}

/// Every owner of a group of `a` has a group in `b`.
proof fn lemma_groups_embed(entries: Seq<EntryModel>, a: Seq<GroupModel>, b: Seq<GroupModel>)
    requires
        is_grouping(entries, a),
        is_grouping(entries, b),
    ensures
        forall|g: int| 0 <= g < a.len() ==> has_group(b, (#[trigger] a[g]).owners),
{
    assert forall|g: int| 0 <= g < a.len() implies has_group(b, (#[trigger] a[g]).owners) by {
        if forall|e: int| 0 <= e < entries.len() ==> (#[trigger] entries[e]).owner != a[g].owners {
            lemma_no_entry_no_file(entries, a[g].owners);
        } else {
            let e = choose|e: int|
                0 <= e < entries.len() && (#[trigger] entries[e]).owner == a[g].owners;
            assert(has_group(b, entries[e].owner));
        }
    }
}

/// Two strictly sorted lists of groups with the same owners agree on their
/// owners, position by position.
proof fn lemma_sorted_same_keys(a: Seq<GroupModel>, b: Seq<GroupModel>, n: int)
    requires
        sorted_by_owner(a),
        sorted_by_owner(b),
        forall|g: int| 0 <= g < a.len() ==> has_group(b, (#[trigger] a[g]).owners),
        forall|g: int| 0 <= g < b.len() ==> has_group(a, (#[trigger] b[g]).owners),
        0 <= n <= a.len(),
        n <= b.len(),
        forall|i: int| 0 <= i < n ==> (#[trigger] a[i]).owners == b[i].owners,
    ensures
        a.len() == b.len(),
        forall|i: int| 0 <= i < a.len() ==> (#[trigger] a[i]).owners == b[i].owners,
    decreases a.len() - n,
{
    if n == a.len() {
        lemma_key_beyond(b, a, n);
    } else if n == b.len() {
        lemma_key_beyond(a, b, n);
    } else {
        lemma_next_key(a, b, n);
        lemma_sorted_same_keys(a, b, n + 1);
    }
}

/// A list ends where the other ends, when the other has all its owners
/// and agrees with it up to there.
proof fn lemma_key_beyond(long: Seq<GroupModel>, short: Seq<GroupModel>, n: int)
    requires
        sorted_by_owner(long),
        sorted_by_owner(short),
        forall|g: int| 0 <= g < long.len() ==> has_group(short, (#[trigger] long[g]).owners),
        n == short.len(),
        n <= long.len(),
        forall|i: int| 0 <= i < n ==> (#[trigger] long[i]).owners == short[i].owners,
    ensures
        long.len() == n,
{
    if n < long.len() {
        assert(has_group(short, long[n].owners));
        let g = choose|g: int|
            0 <= g < short.len() && (#[trigger] short[g]).owners == long[n].owners;
        assert(long[g].owners == short[g].owners);
        assert(text_less(long[g].owners, long[n].owners));
        lemma_text_order_irreflexive(long[n].owners);
    }
}

/// Two lists that agree before `n` and both go on agree at `n` too.
proof fn lemma_next_key(a: Seq<GroupModel>, b: Seq<GroupModel>, n: int)
    requires
        sorted_by_owner(a),
        sorted_by_owner(b),
        forall|g: int| 0 <= g < a.len() ==> has_group(b, (#[trigger] a[g]).owners),
        forall|g: int| 0 <= g < b.len() ==> has_group(a, (#[trigger] b[g]).owners),
        0 <= n < a.len(),
        n < b.len(),
        forall|i: int| 0 <= i < n ==> (#[trigger] a[i]).owners == b[i].owners,
    ensures
        a[n].owners == b[n].owners,
{
    // Where a[n] stands in b, and where b[n] stands in a.
    assert(has_group(b, a[n].owners));
    let p = choose|p: int| 0 <= p < b.len() && (#[trigger] b[p]).owners == a[n].owners;
    assert(has_group(a, b[n].owners));
    let q = choose|q: int| 0 <= q < a.len() && (#[trigger] a[q]).owners == b[n].owners;
    lemma_text_order_irreflexive(a[n].owners);
    lemma_text_order_irreflexive(b[n].owners);
    if p < n {
        assert(a[p].owners == b[p].owners);
        assert(text_less(a[p].owners, a[n].owners));
    } else if q < n {
        assert(a[q].owners == b[q].owners);
        assert(text_less(b[q].owners, b[n].owners));
    } else if p > n && q > n {
        assert(text_less(b[n].owners, b[p].owners));
        assert(text_less(a[n].owners, a[q].owners));
        lemma_text_order_total(a[n].owners, b[n].owners);
    }
}

/// Puts `file` into the group of `owner`, which is made if it is missing.
fn add_file(
    groups: &mut Vec<FrontendCodeowner>,
    owner: String,
    file: String,
    Ghost(before): Ghost<Seq<EntryModel>>,
    Ghost(entry): Ghost<EntryModel>,
)
    requires
        is_grouping(before, group_views(old(groups)@)),
        entry.owner == owner@,
        path_text(entry.path) == file@,
    ensures
        is_grouping(before.push(entry), group_views(final(groups)@)),
{
    let ghost old_groups = group_views(groups@);
    let ghost after = before.push(entry);
    assert(after.drop_last() =~= before);
    let key = chars_of(owner.as_str());
    let mut p: usize = 0;
    while p < groups.len() && text_before(&chars_of(groups[p].owners.as_str()), &key)
        invariant
            p <= groups.len(),
            key@ == owner@,
            group_views(groups@) == old_groups,
            forall|j: int| 0 <= j < p ==> text_less((#[trigger] old_groups[j]).owners, owner@),
        decreases groups.len() - p,
    {
        assert(old_groups[p as int].owners == groups[p as int].owners@);
        p += 1;
    }
    let hit = p < groups.len() && same_text(&chars_of(groups[p].owners.as_str()), &key);
    if hit {
        assert(old_groups[p as int].owners == owner@);
        groups[p].files.push(file);
        let ghost new_groups = group_views(groups@);
        proof {
            assert(new_groups.len() == old_groups.len());
            assert forall|g: int| 0 <= g < new_groups.len() implies (#[trigger] new_groups[
                g
            ]).owners == old_groups[g].owners by {}
            assert(new_groups[p as int].files =~= old_groups[p as int].files.push(file@));
            assert forall|g: int| 0 <= g < new_groups.len() implies (#[trigger] new_groups[
                g
            ]).files.len() > 0 && new_groups[g].files == files_owned_by(
                after,
                new_groups[g].owners,
            ) by {
                assert(old_groups[g].files == files_owned_by(before, old_groups[g].owners));
                if g != p {
                    assert(new_groups[g].files =~= old_groups[g].files);
                    lemma_text_order_irreflexive(owner@);
                    if g < p {
                        assert(text_less(old_groups[g].owners, old_groups[p as int].owners));
                    } else {
                        assert(text_less(old_groups[p as int].owners, old_groups[g].owners));
                    }
                }
            }
            assert forall|e: int| 0 <= e < after.len() implies has_group(
                new_groups,
                (#[trigger] after[e]).owner,
            ) by {
                if e < before.len() {
                    assert(after[e] == before[e]);
                    assert(has_group(old_groups, before[e].owner));
                    let g = choose|g: int|
                        0 <= g < old_groups.len() && (#[trigger] old_groups[g]).owners
                            == before[e].owner;
                    assert(new_groups[g].owners == before[e].owner);
                } else {
                    assert(new_groups[p as int].owners == owner@);
                }
            }
            assert forall|i: int, j: int| 0 <= i < j < new_groups.len() implies text_less(
                (#[trigger] new_groups[i]).owners,
                (#[trigger] new_groups[j]).owners,
            ) by {
                assert(text_less(old_groups[i].owners, old_groups[j].owners));
            }
        }
    } else {
        let mut files: Vec<String> = Vec::new();
        files.push(file);
        let ghost fresh = GroupModel { owners: owner@, files: seq![file@] };
        let ghost old_vec = groups@;
        let group = FrontendCodeowner { owners: owner, files };
        assert(group@.files =~= fresh.files);
        groups.insert(p, group);
        let ghost new_groups = group_views(groups@);
        proof {
            assert(groups@ == old_vec.insert(p as int, group));
            assert forall|g: int| 0 <= g < new_groups.len() implies #[trigger] new_groups[g]
                == old_groups.insert(p as int, fresh)[g] by {
                if g < p {
                    assert(groups@[g] == old_vec[g]);
                } else if g > p {
                    assert(groups@[g] == old_vec[g - 1]);
                }
            }
            assert(new_groups =~= old_groups.insert(p as int, fresh));
            // The owner has no group yet, so none of the entries is of that owner.
            assert forall|g: int| 0 <= g < old_groups.len() implies (#[trigger] old_groups[
                g
            ]).owners != owner@ by {
                lemma_text_order_irreflexive(owner@);
                if g < p {
                } else if g == p {
                } else {
                    assert(text_less(old_groups[p as int].owners, old_groups[g].owners));
                    lemma_text_order_total(old_groups[p as int].owners, owner@);
                }
            }
            assert forall|e: int| 0 <= e < before.len() implies (#[trigger] before[e]).owner
                != owner@ by {
                assert(has_group(old_groups, before[e].owner));
            }
            lemma_no_entry_no_file(before, owner@);
            assert(files_owned_by(after, owner@) =~= seq![file@]);
            // The owner stands before every group from `p` on.
            assert forall|g: int| p <= g < old_groups.len() implies text_less(
                owner@,
                (#[trigger] old_groups[g]).owners,
            ) by {
                lemma_text_order_total(old_groups[p as int].owners, owner@);
                if g > p {
                    assert(text_less(old_groups[p as int].owners, old_groups[g].owners));
                    lemma_text_order_transitive(
                        owner@,
                        old_groups[p as int].owners,
                        old_groups[g].owners,
                    );
                }
            }
            assert forall|i: int, j: int| 0 <= i < j < new_groups.len() implies text_less(
                (#[trigger] new_groups[i]).owners,
                (#[trigger] new_groups[j]).owners,
            ) by {
                let oi = if i < p { i } else { i - 1 };
                let oj = if j < p { j } else { j - 1 };
                if i == p {
                    assert(new_groups[j] == old_groups[oj]);
                } else if j == p {
                    assert(new_groups[i] == old_groups[oi]);
                } else {
                    assert(new_groups[i] == old_groups[oi]);
                    assert(new_groups[j] == old_groups[oj]);
                    assert(text_less(old_groups[oi].owners, old_groups[oj].owners));
                }
            }
            assert forall|g: int| 0 <= g < new_groups.len() implies (#[trigger] new_groups[
                g
            ]).files.len() > 0 && new_groups[g].files == files_owned_by(
                after,
                new_groups[g].owners,
            ) by {
                if g != p {
                    let og = if g < p { g } else { g - 1 };
                    assert(new_groups[g] == old_groups[og]);
                    assert(old_groups[og].files == files_owned_by(before, old_groups[og].owners));
                }
            }
            assert forall|e: int| 0 <= e < after.len() implies has_group(
                new_groups,
                (#[trigger] after[e]).owner,
            ) by {
                if e < before.len() {
                    assert(after[e] == before[e]);
                    assert(has_group(old_groups, before[e].owner));
                    let g = choose|g: int|
                        0 <= g < old_groups.len() && (#[trigger] old_groups[g]).owners
                            == before[e].owner;
                    let ng = if g < p { g } else { g + 1 };
                    assert(new_groups[ng] == old_groups[g]);
                } else {
                    assert(new_groups[p as int].owners == owner@);
                }
            }
        }
    }
}

/// The paths grouped by the display string of their owners under `rules`,
/// the groups sorted by that string. Paths without owner come under the
/// empty string.
pub fn group_by_owner(rules: &Vec<Rule>, paths: &Vec<RelPath>) -> (groups: Vec<FrontendCodeowner>)
    ensures
        is_grouping(
            resolved_entries(rule_views(rules@), path_views(paths@)),
            group_views(groups@),
        ),
{
    let ghost entries = resolved_entries(rule_views(rules@), path_views(paths@));
    let mut groups: Vec<FrontendCodeowner> = Vec::new();
    let mut i: usize = 0;
    while i < paths.len()
        invariant
            i <= paths.len(),
            entries == resolved_entries(rule_views(rules@), path_views(paths@)),
            is_grouping(entries.take(i as int), group_views(groups@)),
        decreases paths.len() - i,
    {
        let owner = owner_string(rules, &paths[i]);
        let file = paths[i].as_str().to_owned();
        proof {
            assert(entries.take(i + 1) =~= entries.take(i as int).push(entries[i as int]));
        }
        add_file(&mut groups, owner, file, Ghost(entries.take(i as int)), Ghost(entries[i as int]));
        i += 1;
    }
    assert(entries.take(paths.len() as int) =~= entries);
    groups
}

/// The ownership tree of `paths`, each file with the display string of its
/// owners under `rules`.
pub fn ownership_tree(rules: &Vec<Rule>, paths: &Vec<RelPath>) -> (root: DirectoryNode)
    ensures
        root@ == aggregate_spec(resolved_entries(rule_views(rules@), path_views(paths@))),
        root@.name.len() == 0,
        root.consensus_owner is None,
        tidy(root@),
        settled_below(root@),
{
    let ghost entries = resolved_entries(rule_views(rules@), path_views(paths@));
    let mut root = DirectoryNode::root();
    let mut i: usize = 0;
    while i < paths.len()
        invariant
            i <= paths.len(),
            entries == resolved_entries(rule_views(rules@), path_views(paths@)),
            root@ == build_spec(entries.take(i as int)),
            root@.name.len() == 0,
            tidy(root@),
        decreases paths.len() - i,
    {
        let owner = owner_string(rules, &paths[i]);
        proof {
            let prefix = entries.take(i + 1);
            assert(prefix.drop_last() =~= entries.take(i as int));
            assert(prefix.last() == entries[i as int]);
        }
        root.insert(&paths[i], owner.as_str());
        i += 1;
    }
    assert(entries.take(paths.len() as int) =~= entries);
    root.settle();
    root
}

/// The files that a listing names, grouped by owner as
/// [`group_by_owner`] does; the first fault if a line is not a relative
/// path.
pub fn changed_owners(rules: &Vec<Rule>, listing: &str) -> (r: Result<
    Vec<FrontendCodeowner>,
    PathError,
>)
    ensures
        match r {
            Ok(groups) => first_fault(listed(listing@)) is None && is_grouping(
                resolved_entries(rule_views(rules@), pieces_of_all(listed(listing@))),
                group_views(groups@),
            ),
            Err(e) => first_fault(listed(listing@)) == Some(e),
        },
{
    let texts = listed_paths(listing);
    match parse_paths(&texts) {
        Ok(paths) => Ok(group_by_owner(rules, &paths)),
        Err(e) => Err(e),
    }
}

/// The ownership tree of the files that a listing names; the first fault
/// if a line is not a relative path.
pub fn tree_of_listing(rules: &Vec<Rule>, listing: &str) -> (r: Result<DirectoryNode, PathError>)
    ensures
        match r {
            Ok(root) => first_fault(listed(listing@)) is None && root@ == aggregate_spec(
                resolved_entries(rule_views(rules@), pieces_of_all(listed(listing@))),
            ) && root@.name.len() == 0 && root.consensus_owner is None && tidy(root@)
                && settled_below(root@),
            Err(e) => first_fault(listed(listing@)) == Some(e),
        },
{
    let texts = listed_paths(listing);
    match parse_paths(&texts) {
        Ok(paths) => Ok(ownership_tree(rules, &paths)),
        Err(e) => Err(e),
    }
}

} // verus!
