//! The rule compiler: from the text of an ownership file to its
//! ordered list of rules.
//!
//! A line whose first field starts with `#`, or that has no field at all,
//! gives no rule. Every other line gives one: its first field is the
//! pattern, the fields after it are the owners.

use crate::pattern::{compile_spec, CompiledPattern, PatternModel};
use crate::text::{
    chars_of, fields, fields_of, split, split_chars, string_of, string_views, strings_of,
    trim_start, views, Delimiter,
};
use crate::text_laws::lemma_first_field;
use vstd::prelude::*;
use vstd::utf8::{decode_utf8, valid_utf8};

verus! {

/// An owner as written in a rule: a team, a user, an address. It is never
/// interpreted; two owners are the same when their texts are.
pub type Owner = String;

/// One line of an ownership file.
#[derive(Clone, Debug, PartialEq, Eq)]
pub struct Rule {
    /// The pattern as written.
    pub pattern: String,
    /// The pattern in the form that paths are tested against.
    pub compiled_pattern: CompiledPattern,
    /// The owners, in the order written; none means "explicitly unowned".
    pub owners: Vec<Owner>,
    /// The zero-based number of the line that the rule was read from.
    pub order_index: usize,
}

/// The mathematical content of a [`Rule`].
pub struct RuleModel {
    pub pattern: Seq<char>,
    pub compiled: PatternModel,
    pub owners: Seq<Seq<char>>,
    pub order_index: nat,
}

impl View for Rule {
    type V = RuleModel;

    open spec fn view(&self) -> RuleModel {
        RuleModel {
            pattern: self.pattern@,
            compiled: self.compiled_pattern@,
            owners: string_views(self.owners@),
            order_index: self.order_index as nat,
        }
    }
}

impl Rule {
    /// Whether the compiled pattern is the one that the written pattern
    /// compiles to.
    pub open spec fn well_formed(&self) -> bool {
        self.compiled_pattern@ == compile_spec(self.pattern@)
    }

    /// The rule that a pattern and its owners make.
    pub fn new(pattern: &str, owners: Vec<Owner>, order_index: usize) -> (rule: Rule)
        ensures
            rule.well_formed(),
            rule.pattern@ == pattern@,
            rule.owners == owners,
            rule.order_index == order_index,
    {
        Rule {
            pattern: pattern.to_owned(),
            compiled_pattern: CompiledPattern::compile(pattern),
            owners,
            order_index,
        }
    }
}

/// The contents of a vector of rules.
pub open spec fn rule_views(v: Seq<Rule>) -> Seq<RuleModel> {
    Seq::new(v.len(), |i: int| v[i]@)
}

/// The lines of a text: its pieces between line feeds.
pub open spec fn lines_of(text: Seq<char>) -> Seq<Seq<char>> {
    split(text, Delimiter::Char('\n'))
}

/// Whether a line gives a rule: it has a field, and its first field does
/// not start a comment.
pub open spec fn is_rule_line(line: Seq<char>) -> bool {
    fields(line).len() > 0 && fields(line)[0][0] != '#'
}

/// A line gives a rule exactly when, once the white space at its start is
/// taken away, something is left and it does not start with `#`.
pub proof fn lemma_rule_line_by_trimming(line: Seq<char>)
    ensures
        is_rule_line(line) <==> trim_start(line).len() > 0 && trim_start(line)[0] != '#',
{
    lemma_first_field(line);
}

/// The rule that line number `index` gives.
pub open spec fn rule_of_line(line: Seq<char>, index: nat) -> RuleModel
    recommends
        is_rule_line(line),
{
    RuleModel {
        pattern: fields(line)[0],
        compiled: compile_spec(fields(line)[0]),
        owners: fields(line).skip(1),
        order_index: index,
    }
}

/// The rules that the lines give, in the order of the lines.
pub open spec fn rules_of_lines(lines: Seq<Seq<char>>) -> Seq<RuleModel>
    decreases lines.len(),
{
    if lines.len() == 0 {
        Seq::<RuleModel>::empty()
    } else {
        let before = rules_of_lines(lines.drop_last());
        if is_rule_line(lines.last()) {
            before.push(rule_of_line(lines.last(), (lines.len() - 1) as nat))
        } else {
            before
        }
    }
}

/// The rules of an ownership file.
pub open spec fn rules_of_text(text: Seq<char>) -> Seq<RuleModel> {
    rules_of_lines(lines_of(text))
}

/// Every rule read from lines comes from a rule line, keeps that line's
/// number, and the numbers grow along the list.
pub proof fn lemma_rules_follow_lines(lines: Seq<Seq<char>>)
    ensures
        rules_of_lines(lines).len() <= lines.len(),
        forall|i: int|
            0 <= i < rules_of_lines(lines).len() ==> {
                let r = #[trigger] rules_of_lines(lines)[i];
                &&& r.order_index < lines.len()
                &&& is_rule_line(lines[r.order_index as int])
                &&& r == rule_of_line(lines[r.order_index as int], r.order_index)
            },
        forall|i: int, j: int|
            0 <= i < j < rules_of_lines(lines).len() ==> (#[trigger] rules_of_lines(
                lines,
            )[i]).order_index < (#[trigger] rules_of_lines(lines)[j]).order_index,
    decreases lines.len(),
{
    if lines.len() > 0 {
        let init = lines.drop_last();
        lemma_rules_follow_lines(init);
        let before = rules_of_lines(init);
        let all = rules_of_lines(lines);
        assert forall|i: int| 0 <= i < all.len() implies {
            let r = #[trigger] all[i];
            &&& r.order_index < lines.len()
            &&& is_rule_line(lines[r.order_index as int])
            &&& r == rule_of_line(lines[r.order_index as int], r.order_index)
        } by {
            if i < before.len() {
                assert(all[i] == before[i]);
                assert(init[before[i].order_index as int] == lines[before[i].order_index as int]);
            }
        }
        assert forall|i: int, j: int| 0 <= i < j < all.len() implies (#[trigger] all[i]).order_index
            < (#[trigger] all[j]).order_index by {
            assert(all[i] == before[i]);
            if j < before.len() {
                assert(all[j] == before[j]);
            }
        }
    }
}

/// Every rule line gives a rule: one that carries the line's number.
pub proof fn lemma_rule_lines_are_kept(lines: Seq<Seq<char>>, k: int)
    requires
        0 <= k < lines.len(),
        is_rule_line(lines[k]),
    ensures
        exists|i: int|
            0 <= i < rules_of_lines(lines).len() && #[trigger] rules_of_lines(lines)[i]
                == rule_of_line(lines[k], k as nat),
    decreases lines.len(),
{
    let init = lines.drop_last();
    let before = rules_of_lines(init);
    let all = rules_of_lines(lines);
    if k == lines.len() - 1 {
        assert(all[all.len() - 1] == rule_of_line(lines[k], k as nat));
    } else {
        lemma_rule_lines_are_kept(init, k);
        let i = choose|i: int|
            0 <= i < before.len() && #[trigger] before[i] == rule_of_line(init[k], k as nat);
        assert(all[i] == before[i]);
    }
}

/// Reads the rules of an ownership file. Every text is accepted;
/// one without rule lines gives no rules.
pub fn compile_rules(text: &str) -> (rules: Vec<Rule>)
    ensures
        rule_views(rules@) == rules_of_text(text@),
        forall|i: int| 0 <= i < rules.len() ==> (#[trigger] rules[i]).well_formed(),
        forall|i: int, j: int|
            0 <= i < j < rules.len() ==> (#[trigger] rules[i]).order_index
                < (#[trigger] rules[j]).order_index,
{
    let chars = chars_of(text);
    let lines = split_chars(&chars, Delimiter::Char('\n'));
    let mut rules: Vec<Rule> = Vec::new();
    let mut k: usize = 0;
    while k < lines.len()
        invariant
            k <= lines.len(),
            rule_views(rules@) == rules_of_lines(views(lines@).take(k as int)),
            forall|i: int| 0 <= i < rules.len() ==> (#[trigger] rules[i]).well_formed(),
        decreases lines.len() - k,
    {
        proof {
            let prefix = views(lines@).take(k + 1);
            assert(prefix.drop_last() =~= views(lines@).take(k as int));
            assert(prefix.last() == lines[k as int]@);
        }
        let parts = fields_of(&lines[k]);
        if parts.len() > 0 {
            assert(views(parts@)[0] == parts[0]@);
            if parts[0][0] != '#' {
                let ghost before = rule_views(rules@);
                let rule = Rule {
                    pattern: string_of(&parts[0]),
                    compiled_pattern: CompiledPattern::compile_chars(&parts[0]),
                    owners: strings_of(&parts, 1),
                    order_index: k,
                };
                assert(rule@ == rule_of_line(lines[k as int]@, k as nat));
                rules.push(rule);
                assert(rule_views(rules@) =~= before.push(rule@));
            }
        }
        k += 1;
    }
    proof {
        assert(views(lines@).take(lines.len() as int) =~= views(lines@));
        lemma_rules_follow_lines(views(lines@));
        assert forall|i: int, j: int| 0 <= i < j < rules.len() implies (#[trigger] rules[
            i
        ]).order_index < (#[trigger] rules[j]).order_index by {
            assert(rule_views(rules@)[i] == rules[i]@);
            assert(rule_views(rules@)[j] == rules[j]@);
        }
    }
    rules
}

/// The text that a byte sequence is read as: its UTF-8 decoding, with every
/// malformed part replaced by the replacement character.
pub uninterp spec fn lossy_text(bytes: Seq<u8>) -> Seq<char>;

/// Reads bytes as text without ever failing.
///
/// Trusted: stands for `String::from_utf8_lossy`. The result is
/// [`lossy_text`] of the bytes, which for well-formed UTF-8 is the text that
/// the bytes encode.
#[verifier::external_body]
fn decode_lossy(bytes: &[u8]) -> (text: String)
    ensures
        text@ == lossy_text(bytes@),
        valid_utf8(bytes@) ==> text@ == decode_utf8(bytes@),
{
    String::from_utf8_lossy(bytes).into_owned()
}

/// Reads the rules of an ownership file given as bytes. Bytes that
/// are not UTF-8 are replaced, never refused.
pub fn compile_rules_from_bytes(bytes: &[u8]) -> (rules: Vec<Rule>)
    ensures
        rule_views(rules@) == rules_of_text(lossy_text(bytes@)),
        valid_utf8(bytes@) ==> rule_views(rules@) == rules_of_text(decode_utf8(bytes@)),
        forall|i: int| 0 <= i < rules.len() ==> (#[trigger] rules[i]).well_formed(),
        forall|i: int, j: int|
            0 <= i < j < rules.len() ==> (#[trigger] rules[i]).order_index
                < (#[trigger] rules[j]).order_index,
{
    let text = decode_lossy(bytes);
    compile_rules(text.as_str())
}

} // verus!
