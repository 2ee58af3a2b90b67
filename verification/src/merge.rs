//! Merging a rule list.
use crate::context::can_reuse_style_declarations;
use crate::context::may_reuse;
use crate::context::MinifyContext;
use crate::context::MinifyError;
use crate::mergeable::mergeable;
use crate::mergeable::should_merge_rule_list;
use crate::model::TreeView;
use crate::rules::lemma_list_view;
use crate::rules::CssRule;
use crate::rules::CssRuleList;
use crate::rules::RuleView;
use crate::trie::RuleTrie;
use vstd::prelude::*;

verus! {

/// The rules as one tree, up to the first media query that cannot be
/// normalized, and that query's error.
pub open spec fn rule_tree<T>(rules: Seq<RuleView<T>>, context: MinifyContext) -> (
    TreeView<T>,
    Result<(), MinifyError>,
) {
    TreeView::root().insert_rules(rules, rules.len(), may_reuse(context), context)
}

/// The tree that is printed. Where declarations may be joined, the runs of a
/// node are, and what that brings together.
pub open spec fn finished<T>(tree: TreeView<T>, context: MinifyContext) -> TreeView<T> {
    if may_reuse(context) {
        tree.joined()
    } else {
        tree
    }
}

/// What merging a rule list returns, and the list that it leaves behind.
///
/// With CSS modules, and where no neighbours can be merged, the list stays as it
/// is. Otherwise it becomes the printed tree of its rules, in which runs of
/// declarations have joined earlier ones. Where a query that is looked at on the
/// way cannot be normalized, its error is returned: while looking for neighbours
/// the list stays as it is, while building the tree it is lost.
pub open spec fn merged<T>(rules: Seq<RuleView<T>>, context: MinifyContext) -> (
    Result<(), MinifyError>,
    Seq<RuleView<T>>,
) {
    if context.css_modules {
        (Ok(()), rules)
    } else {
        match mergeable(rules, context) {
            Ok(true) => {
                let (tree, result) = rule_tree(rules, context);
                match result {
                    Ok(()) => (Ok(()), finished(tree, context).print_all()),
                    Err(error) => (Err(error), seq![]),
                }
            },
            Ok(false) => (Ok(()), rules),
            Err(error) => (Err(error), rules),
        }
    }
}

/// Merges the rules of the list that can be merged: see [`merged`].
pub fn merge_rule_list<T>(rules: &mut CssRuleList<T>, context: &mut MinifyContext) -> (result:
    Result<(), MinifyError>)
    ensures
        (result, final(rules)@) == merged(old(rules)@, *old(context)),
        *final(context) == *old(context),
{
    if context.css_modules {
        return Ok(());
    }
    if !should_merge_rule_list(rules, context)? {
        return Ok(());
    }
    let mut trie: RuleTrie<T> = RuleTrie::new(can_reuse_style_declarations(context));
    let mut taken: Vec<CssRule<T>> = Vec::new();
    std::mem::swap(&mut rules.0, &mut taken);
    assert(rules@ =~= seq![]);
    let list = CssRuleList(taken);
    assert(list@ =~= old(rules)@);
    trie.insert_rule_list(0, list, context)?;
    if can_reuse_style_declarations(context) {
        trie = trie.joined();
    }
    let ghost end = trie.nodes@.len() as int;
    rules.0 = trie.emit_rule_list(0, false, Ghost(end));
    proof {
        lemma_list_view(*rules);
    }
    Ok(())
}

} // verus!
