//! The ownership resolver: of all the rules that match a path, the one
//! written last decides who owns it.

use crate::path::RelPath;
use crate::pattern::pattern_matches;
use crate::rules::{rule_views, Owner, Rule, RuleModel};
use crate::text::{joined, string_views};
use vstd::prelude::*;
use vstd::string::StringExecFns;

verus! {

/// Who owns one path.
#[derive(Clone, Debug, PartialEq, Eq)]
pub enum ResolvedOwnership {
    /// No rule matched, or the rule that decided names no owner.
    Unowned,
    /// The owners that the deciding rule names, in the order written; at
    /// least one.
    Owned(Vec<Owner>),
}

impl View for ResolvedOwnership {
    type V = Option<Seq<Seq<char>>>;

    open spec fn view(&self) -> Option<Seq<Seq<char>>> {
        match self {
            ResolvedOwnership::Unowned => None,
            ResolvedOwnership::Owned(owners) => Some(string_views(owners@)),
        }
    }
}

/// What stands between two owners in a display string.
pub open spec fn owner_separator() -> Seq<char> {
    seq![',', ' ']
}

/// The index of the last rule that matches `path`, if any rule does.
pub open spec fn last_match(rules: Seq<RuleModel>, path: Seq<Seq<char>>) -> Option<int>
    decreases rules.len(),
{
    if rules.len() == 0 {
        None
    } else if pattern_matches(rules.last().compiled, path) {
        Some(rules.len() - 1)
    } else {
        last_match(rules.drop_last(), path)
    }
}

/// The owner list of the rule that decides for `path`, which may be empty;
/// `None` if no rule matches.
pub open spec fn deciding_owners(rules: Seq<RuleModel>, path: Seq<Seq<char>>) -> Option<
    Seq<Seq<char>>,
> {
    match last_match(rules, path) {
        Some(i) => Some(rules[i].owners),
        None => None,
    }
}

/// Who owns `path` under `rules`: the owners of the last matching rule if it
/// names any, and nobody otherwise.
pub open spec fn resolve_spec(rules: Seq<RuleModel>, path: Seq<Seq<char>>) -> Option<
    Seq<Seq<char>>,
> {
    match deciding_owners(rules, path) {
        Some(owners) => if owners.len() > 0 {
            Some(owners)
        } else {
            None
        },
        None => None,
    }
}

/// The display string of an ownership: the owners with `", "` between
/// them, and the empty string for "unowned".
pub open spec fn display_spec(owned: Option<Seq<Seq<char>>>) -> Seq<char> {
    match owned {
        Some(owners) => joined(owners, owner_separator()),
        None => Seq::<char>::empty(),
    }
}

/// What [`last_match`] finds is a matching rule, and no rule after it
/// matches; when it finds none, no rule matches.
pub proof fn lemma_last_match(rules: Seq<RuleModel>, path: Seq<Seq<char>>)
    ensures
        match last_match(rules, path) {
            Some(i) => {
                &&& 0 <= i < rules.len()
                &&& pattern_matches(rules[i].compiled, path)
                &&& forall|j: int|
                    i < j < rules.len() ==> !pattern_matches((#[trigger] rules[j]).compiled, path)
            },
            None => forall|j: int|
                0 <= j < rules.len() ==> !pattern_matches((#[trigger] rules[j]).compiled, path),
        },
    decreases rules.len(),
{
    if rules.len() > 0 && !pattern_matches(rules.last().compiled, path) {
        let init = rules.drop_last();
        lemma_last_match(init, path);
        match last_match(init, path) {
            Some(i) => {
                assert(rules[i] == init[i]);
                assert forall|j: int| i < j < rules.len() implies !pattern_matches(
                    (#[trigger] rules[j]).compiled,
                    path,
                ) by {
                    if j < init.len() {
                        assert(rules[j] == init[j]);
                    }
                }
            },
            None => {
                assert forall|j: int| 0 <= j < rules.len() implies !pattern_matches(
                    (#[trigger] rules[j]).compiled,
                    path,
                ) by {
                    if j < init.len() {
                        assert(rules[j] == init[j]);
                    }
                }
            },
        }
    }
}

/// Resolution is a function of what the rules and the path hold: two rule
/// lists with the same content give the same answer for the same path.
pub proof fn lemma_resolve_is_a_function(
    rules_a: Seq<RuleModel>,
    rules_b: Seq<RuleModel>,
    path_a: Seq<Seq<char>>,
    path_b: Seq<Seq<char>>,
)
    requires
        rules_a =~= rules_b,
        path_a =~= path_b,
    ensures
        resolve_spec(rules_a, path_a) == resolve_spec(rules_b, path_b),
        display_spec(resolve_spec(rules_a, path_a)) == display_spec(resolve_spec(rules_b, path_b)),
{
}

/// The last matching rule wins: when rule `later` matches `path` and no
/// rule after it does, its owner list decides, whatever matched before it.
pub proof fn lemma_last_match_wins(rules: Seq<RuleModel>, path: Seq<Seq<char>>, later: int)
    requires
        0 <= later < rules.len(),
        pattern_matches(rules[later].compiled, path),
        forall|j: int|
            later < j < rules.len() ==> !pattern_matches((#[trigger] rules[j]).compiled, path),
    ensures
        last_match(rules, path) == Some(later),
        deciding_owners(rules, path) == Some(rules[later].owners),
        resolve_spec(rules, path) == if rules[later].owners.len() > 0 {
            Some(rules[later].owners)
        } else {
            None
        },
{
    lemma_last_match(rules, path);
}

/// Of two matching rules the earlier one never decides: the rule that
/// decides stands at or after the later of the two.
pub proof fn lemma_earlier_match_loses(
    rules: Seq<RuleModel>,
    path: Seq<Seq<char>>,
    earlier: int,
    later: int,
)
    requires
        0 <= earlier < later < rules.len(),
        pattern_matches(rules[earlier].compiled, path),
        pattern_matches(rules[later].compiled, path),
    ensures
        last_match(rules, path) is Some,
        last_match(rules, path)->0 >= later,
{
    lemma_last_match(rules, path);
}

/// Without a matching rule, and so without any rule at all, a path is
/// unowned.
pub proof fn lemma_no_match_is_unowned(rules: Seq<RuleModel>, path: Seq<Seq<char>>)
    requires
        forall|j: int|
            0 <= j < rules.len() ==> !pattern_matches((#[trigger] rules[j]).compiled, path),
    ensures
        resolve_spec(rules, path) is None,
        display_spec(resolve_spec(rules, path)).len() == 0,
{
    lemma_last_match(rules, path);
}

/// A deciding rule without owners leaves the path unowned, whatever the
/// rules before it say.
pub proof fn lemma_empty_owner_list_overrides(
    rules: Seq<RuleModel>,
    path: Seq<Seq<char>>,
    later: int,
)
    requires
        0 <= later < rules.len(),
        pattern_matches(rules[later].compiled, path),
        rules[later].owners.len() == 0,
        forall|j: int|
            later < j < rules.len() ==> !pattern_matches((#[trigger] rules[j]).compiled, path),
    ensures
        resolve_spec(rules, path) is None,
{
    lemma_last_match_wins(rules, path, later);
}

/// The owner list of the rule that decides for `path`: that of the last
/// rule that matches. The list may be empty. `None` if no rule matches.
pub fn owners_of<'a>(rules: &'a Vec<Rule>, path: &RelPath) -> (r: Option<&'a Vec<Owner>>)
    ensures
        match r {
            Some(owners) => deciding_owners(rule_views(rules@), path@) == Some(
                string_views(owners@),
            ),
            None => deciding_owners(rule_views(rules@), path@) is None,
        },
{
    let mut k: usize = rules.len();
    assert(rule_views(rules@).take(k as int) =~= rule_views(rules@));
    while k > 0
        invariant
            k <= rules.len(),
            last_match(rule_views(rules@), path@) == last_match(
                rule_views(rules@).take(k as int),
                path@,
            ),
        decreases k,
    {
        let ghost prefix = rule_views(rules@).take(k as int);
        assert(prefix.last() == rules[k - 1]@);
        assert(prefix.drop_last() =~= rule_views(rules@).take(k - 1));
        if rules[k - 1].compiled_pattern.matches(path) {
            return Some(&rules[k - 1].owners);
        }
        k -= 1;
    }
    None
}

/// Who owns `path` under `rules`.
pub fn resolve(rules: &Vec<Rule>, path: &RelPath) -> (r: ResolvedOwnership)
    ensures
        r@ == resolve_spec(rule_views(rules@), path@),
{
    match owners_of(rules, path) {
        Some(owners) => {
            if owners.len() > 0 {
                ResolvedOwnership::Owned(copy_strings(owners))
            } else {
                ResolvedOwnership::Unowned
            }
        },
        None => ResolvedOwnership::Unowned,
    }
}

/// A copy of every string of `v`.
fn copy_strings(v: &Vec<String>) -> (out: Vec<String>)
    ensures
        string_views(out@) =~= string_views(v@),
{
    let mut out: Vec<String> = Vec::new();
    let mut i: usize = 0;
    while i < v.len()
        invariant
            i <= v.len(),
            out.len() == i,
            forall|k: int| 0 <= k < i ==> (#[trigger] out[k])@ == v[k]@,
        decreases v.len() - i,
    {
        out.push(v[i].clone());
        i += 1;
    }
    out
}

/// The owners written one after the other with `", "` between them.
pub fn join_owners(owners: &Vec<Owner>) -> (s: String)
    ensures
        s@ == joined(string_views(owners@), owner_separator()),
{
    let mut out = String::new();
    let mut i: usize = 0;
    while i < owners.len()
        invariant
            i <= owners.len(),
            out@ == joined(string_views(owners@).take(i as int), owner_separator()),
        decreases owners.len() - i,
    {
        proof {
            let prefix = string_views(owners@).take(i + 1);
            assert(prefix.drop_last() =~= string_views(owners@).take(i as int));
            assert(prefix.last() == owners[i as int]@);
            reveal_strlit(", ");
            assert(", "@ =~= owner_separator());
        }
        if i > 0 {
            out.append(", ");
        }
        out.append(owners[i].as_str());
        proof {
            if i == 0 {
                assert(out@ =~= owners[i as int]@);
            }
        }
        i += 1;
    }
    assert(string_views(owners@).take(owners.len() as int) =~= string_views(owners@));
    out
}

/// The display string of an owner list, if there is a list: its owners with
/// `", "` between them. The list of a rule without owners gives the empty
/// string.
pub fn get_joined_codeowners(owners_vec: Option<&Vec<Owner>>) -> (r: Option<String>)
    ensures
        match owners_vec {
            Some(owners) => r is Some && r->0@ == joined(
                string_views(owners@),
                owner_separator(),
            ),
            None => r is None,
        },
{
    match owners_vec {
        None => None,
        Some(owners) => Some(join_owners(owners)),
    }
}

/// The display string of an ownership: the empty string for "unowned".
pub fn owner_display(owned: &ResolvedOwnership) -> (s: String)
    ensures
        s@ == display_spec(owned@),
{
    match owned {
        ResolvedOwnership::Unowned => String::new(),
        ResolvedOwnership::Owned(owners) => join_owners(owners),
    }
}

/// The display string of the owners of `path` under `rules`.
pub fn owner_string(rules: &Vec<Rule>, path: &RelPath) -> (s: String)
    ensures
        s@ == display_spec(resolve_spec(rule_views(rules@), path@)),
{
    match get_joined_codeowners(owners_of(rules, path)) {
        Some(s) => s,
        None => String::new(),
    }
}

} // verus!
