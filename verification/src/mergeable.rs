//! Whether a rule list holds rules that can be merged at all.
use crate::context::can_reuse_style_declarations;
use crate::context::may_reuse;
use crate::context::media_key;
use crate::context::normalize_media_key;
use crate::context::MinifyContext;
use crate::context::MinifyError;
use crate::rules::AtRuleView;
use crate::rules::CssRule;
use crate::rules::CssRuleList;
use crate::rules::RuleView;
use vstd::prelude::*;

verus! {

/// Whether two rules, the second right behind the first, can be merged. Where
/// both are `@media` rules and the query of one cannot be normalized, the error
/// of the first such query.
pub open spec fn adjacent<T>(
    a: RuleView<T>,
    b: RuleView<T>,
    context: MinifyContext,
) -> Result<bool, MinifyError> {
    match (a, b) {
        (
            RuleView::AtRule { prelude: AtRuleView::Media(first), rules: _, loc: first_loc },
            RuleView::AtRule { prelude: AtRuleView::Media(second), rules: _, loc: second_loc },
        ) => match media_key(first, first_loc, context) {
            Ok(first_key) => match media_key(second, second_loc, context) {
                Ok(second_key) => Ok(first_key == second_key),
                Err(error) => Err(error),
            },
            Err(error) => Err(error),
        },
        (
            RuleView::AtRule { prelude: first, rules: _, loc: _ },
            RuleView::AtRule { prelude: second, rules: _, loc: _ },
        ) => Ok(first == second),
        (RuleView::Style { .. }, RuleView::Style { .. }) => Ok(
            a->selectors == b->selectors && a->vendor_prefix == b->vendor_prefix
                && a->Style_loc.source_index == b->Style_loc.source_index && (may_reuse(context)
                || a->Style_block.is_empty() || b->Style_block.is_empty()),
        ),
        _ => Ok(false),
    }
}

/// The first answer other than "no" for the neighbours from `start` on.
pub open spec fn neighbours_from<T>(
    rules: Seq<RuleView<T>>,
    start: int,
    context: MinifyContext,
) -> Result<bool, MinifyError>
    decreases rules.len() - start,
{
    if start < 0 || start + 1 >= rules.len() {
        Ok(false)
    } else {
        match adjacent(rules[start], rules[start + 1], context) {
            Ok(false) => neighbours_from(rules, start + 1, context),
            answer => answer,
        }
    }
}

/// The rules nested in the rule, where it is of a kind that is merged.
pub open spec fn nested_rules<T>(rule: RuleView<T>) -> Option<Seq<RuleView<T>>> {
    match rule {
        RuleView::AtRule { prelude: _, rules, loc: _ } => Some(rules),
        RuleView::Style { selectors: _, vendor_prefix: _, block: _, rules, loc: _ } => Some(rules),
        _ => None,
    }
}

/// The first answer other than "no" for the lists nested in the rules from
/// `start` on.
pub open spec fn nested_from<T>(
    rules: Seq<RuleView<T>>,
    start: int,
    context: MinifyContext,
) -> Result<bool, MinifyError>
    decreases rules, 0nat, rules.len() - start,
{
    if start < 0 || start >= rules.len() {
        Ok(false)
    } else {
        match nested_rules(rules[start]) {
            Some(nested) => match mergeable(nested, context) {
                Ok(false) => nested_from(rules, start + 1, context),
                answer => answer,
            },
            None => nested_from(rules, start + 1, context),
        }
    }
}

/// Whether two neighbours can be merged, in the list or in one nested in it.
/// The list's own neighbours come first, and the first answer other than "no"
/// counts, be it "yes" or an error.
pub open spec fn mergeable<T>(rules: Seq<RuleView<T>>, context: MinifyContext) -> Result<
    bool,
    MinifyError,
>
    decreases rules, 1nat, 0int,
{
    match neighbours_from(rules, 0, context) {
        Ok(false) => nested_from(rules, 0, context),
        answer => answer,
    }
}

/// Whether two rules, the second right behind the first, can be merged: see
/// [`adjacent`].
pub fn adjacent_rules_can_merge<T>(
    a: &CssRule<T>,
    b: &CssRule<T>,
    context: &MinifyContext,
) -> (answer: Result<bool, MinifyError>)
    ensures
        answer == adjacent(a@, b@, *context),
{
    match (a, b) {
        (CssRule::Media(a), CssRule::Media(b)) => {
            match normalize_media_key(a, context) {
                Ok(first) => match normalize_media_key(b, context) {
                    Ok(second) => Ok(first == second),
                    Err(error) => Err(error),
                },
                Err(error) => Err(error),
            }
        },
        (CssRule::Supports(a), CssRule::Supports(b)) => Ok(a.condition == b.condition),
        (CssRule::Container(a), CssRule::Container(b)) => {
            Ok(a.name == b.name && a.condition == b.condition)
        },
        (CssRule::Scope(a), CssRule::Scope(b)) => {
            Ok(a.scope_start == b.scope_start && a.scope_end == b.scope_end)
        },
        (CssRule::StartingStyle(_), CssRule::StartingStyle(_)) => Ok(true),
        (CssRule::MozDocument(_), CssRule::MozDocument(_)) => Ok(true),
        (CssRule::Style(a), CssRule::Style(b)) => {
            Ok(
                a.selectors == b.selectors && a.vendor_prefix == b.vendor_prefix
                    && a.loc.source_index == b.loc.source_index && (can_reuse_style_declarations(
                    context,
                ) || a.declarations.is_empty() || b.declarations.is_empty()),
            )
        },
        _ => Ok(false),
    }
}

/// Whether the list, or a list nested in it, holds neighbours that can be
/// merged: see [`mergeable`].
pub fn should_merge_rule_list<T>(rules: &CssRuleList<T>, context: &MinifyContext) -> (answer:
    Result<bool, MinifyError>)
    ensures
        answer == mergeable(rules@, *context),
    decreases rules, 1nat,
{
    if rules.0.len() < 2 {
        return should_merge_nested_rule_list(rules, context);
    }
    let mut i: usize = 0;
    while i + 1 < rules.0.len()
        invariant
            i < rules.0.len(),
            neighbours_from(rules@, 0, *context) == neighbours_from(rules@, i as int, *context),
        decreases rules.0.len() - i,
    {
        match adjacent_rules_can_merge(&rules.0[i], &rules.0[i + 1], context) {
            Ok(false) => {},
            answer => {
                return answer;
            },
        }
        i = i + 1;
    }
    should_merge_nested_rule_list(rules, context)
}

/// Whether a list nested in one of the rules holds neighbours that can be
/// merged: the first answer other than "no" counts.
pub fn should_merge_nested_rule_list<T>(rules: &CssRuleList<T>, context: &MinifyContext) -> (answer:
    Result<bool, MinifyError>)
    ensures
        answer == nested_from(rules@, 0, *context),
    decreases rules, 0nat,
{
    let mut i: usize = 0;
    while i < rules.0.len()
        invariant
            i <= rules.0.len(),
            nested_from(rules@, 0, *context) == nested_from(rules@, i as int, *context),
        decreases rules.0.len() - i,
    {
        let rule = &rules.0[i];
        let nested = match rule {
            CssRule::Media(rule) => Some(&rule.rules),
            CssRule::Supports(rule) => Some(&rule.rules),
            CssRule::Container(rule) => Some(&rule.rules),
            CssRule::Scope(rule) => Some(&rule.rules),
            CssRule::StartingStyle(rule) => Some(&rule.rules),
            CssRule::MozDocument(rule) => Some(&rule.rules),
            CssRule::Style(rule) => Some(&rule.rules),
            _ => None,
        };
        if let Some(nested) = nested {
            match should_merge_rule_list(nested, context) {
                Ok(false) => {},
                answer => {
                    return answer;
                },
            }
        }
        i = i + 1;
    }
    Ok(false)
}

} // verus!
