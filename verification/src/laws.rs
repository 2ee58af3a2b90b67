//! What holds of merging as a whole.
use crate::arena::TrieView;
use crate::cascade::barriers;
use crate::cascade::consistent;
use crate::cascade::declares;
use crate::cascade::events;
use crate::cascade::last_declaration;
use crate::cascade::order_matters;
use crate::cascade::reduces;
use crate::cascade::reduces_in;
use crate::cascade::winner;
use crate::cascade::EventView;
use crate::context::may_reuse;
use crate::context::MinifyContext;
use crate::context::MinifyError;
use crate::declaration::conflict;
use crate::declaration::lists;
use crate::declaration::BlockView;
use crate::declaration::PropertyIdView;
use crate::declaration::PropertyKey;
use crate::declaration_set::lemma_last_slot;
use crate::merge::finished;
use crate::merge::merged;
use crate::merge::rule_tree;
use crate::mergeable::adjacent;
use crate::mergeable::mergeable;
use crate::mergeable::neighbours_from;
use crate::mergeable::nested_from;
use crate::mergeable::nested_rules;
use crate::model::at_rule_key;
use crate::model::in_slot;
use crate::model::insert_declaration;
use crate::model::last_slot;
use crate::model::leading;
use crate::model::lemma_earlier_run;
use crate::model::lemma_leading_push;
use crate::model::of_importance;
use crate::model::run_block;
use crate::model::DeclarationView;
use crate::model::ItemView;
use crate::model::KeyView;
use crate::model::TreeView;
use crate::names::related;
use crate::names::share_word;
use crate::names::words;
use crate::preservation::all_events;
use crate::preservation::lemma_insert_list_coherent;
use crate::preservation::lemma_insert_list_events;
use crate::preservation::lemma_insert_list_keeps_head;
use crate::preservation::lemma_joined_events;
use crate::preservation::lemma_of_importance_push;
use crate::preservation::lemma_of_importance_update;
use crate::preservation::lemma_print_events;
use crate::preservation::lemma_take_in_coherent;
use crate::reduction::follows;
use crate::reduction::lemma_follows_refl;
use crate::reduction::lemma_follows_trans;
use crate::reduction::lemma_reduces_keeps;
use crate::reduction::lemma_reduces_keeps_last;
use crate::reduction::lemma_reduces_keeps_order;
use crate::reduction::lemma_reduces_winner;
use crate::rules::RuleView;
use crate::settled::blocks_settled;
use crate::settled::lemma_apart_is_not_mergeable;
use crate::settled::lemma_blocks_settled;
use crate::settled::lemma_insert_list_apart;
use crate::settled::lemma_insert_list_full;
use crate::settled::lemma_insert_prints;
use crate::settled::lemma_nothing_to_merge;
use crate::settled::lemma_printed_apart;
use crate::settled::lemma_printed_tidy;
use crate::settled::lemma_rule_step;
use crate::settled::lemma_take_in_apart;
use crate::settled::lemma_take_in_full;
use crate::settled::lemma_tidy_never_fails;
use crate::settled::rule_key;
use crate::settled::tidy_list;
use crate::soundness::lemma_insert_list_sound;
use crate::soundness::lemma_root_sound;
use crate::soundness::sound;
use crate::terms::lemma_step;
use crate::terms::query_error;
use crate::terms::silent;
use crate::terms::untargeted;
use vstd::prelude::*;

verus! {

/// What merging does to the events of a list.
proof fn lemma_merged_follows<T>(
    rules: Seq<RuleView<T>>,
    important: bool,
    context: MinifyContext,
)
    requires
        merged(rules, context).0 is Ok,
    ensures
        follows(
            may_reuse(context),
            events(rules, important, context),
            events(merged(rules, context).1, important, context),
        ),
{
    let before = events(rules, important, context);
    lemma_follows_refl(may_reuse(context), before);
    if merged(rules, context).1 != rules {
        let root = TreeView::<T>::root();
        let dedupe = may_reuse(context);
        let tree = rule_tree(rules, context).0;
        assert(all_events(root, seq![], important) + before =~= before);
        lemma_insert_list_coherent(root, rules, rules.len(), dedupe, context);
        lemma_insert_list_events(
            root,
            rules,
            rules.len(),
            dedupe,
            seq![],
            important,
            context,
        );
        let printed = finished(tree, context);
        if dedupe {
            lemma_take_in_coherent(tree.hollow(), tree, tree.items.len(), context);
            lemma_joined_events(tree, seq![], important);
            lemma_follows_trans(
                dedupe,
                before,
                all_events(tree, seq![], important),
                all_events(printed, seq![], important),
            );
        }
        lemma_print_events(printed, printed.items.len(), seq![], important, context);
    }
}

/// Merging changes what a list says to the cascade in two ways only. A
/// declaration may move up across declarations of the same importance that have
/// nothing to do with it, and it may take the place of an earlier one of the same
/// property and importance at the same path, where only declarations at that path
/// that do not conflict with it lie between.
pub proof fn law_merging_only_moves_and_collapses<T>(
    rules: Seq<RuleView<T>>,
    important: bool,
    context: MinifyContext,
)
    requires
        merged(rules, context).0 is Ok,
    ensures
        reduces(
            events(rules, important, context),
            events(merged(rules, context).1, important, context),
        ),
{
    lemma_merged_follows(rules, important, context);
    lemma_follows_refl(true, events(rules, important, context));
}

/// With targets of any kind, or CSS modules, merging keeps every declaration, in
/// order.
pub proof fn law_targets_keep_every_declaration<T>(
    rules: Seq<RuleView<T>>,
    important: bool,
    context: MinifyContext,
)
    requires
        merged(rules, context).0 is Ok,
        context.targets.current.browsers is Some || context.targets.current.included != 0
            || context.targets.current.excluded != 0 || context.css_modules,
    ensures
        events(merged(rules, context).1, important, context) == events(rules, important, context),
{
    lemma_merged_follows(rules, important, context);
}

/// Merging changes the outcome of the cascade for no property: whichever paths
/// apply, and whichever rules of other kinds bear on the property, the last
/// event that bears on it is the same. A declaration bears on its own property,
/// on the longhands that it lists and, for `all`, on every property.
pub proof fn law_winners_are_kept<T>(
    rules: Seq<RuleView<T>>,
    important: bool,
    context: MinifyContext,
    key: PropertyKey,
    applies: spec_fn(Seq<KeyView>) -> bool,
    touches: spec_fn(T) -> bool,
)
    requires
        merged(rules, context).0 is Ok,
        consistent(events(rules, important, context)),
    ensures
        winner(events(merged(rules, context).1, important, context), key, applies, touches)
            == winner(events(rules, important, context), key, applies, touches),
{
    let before = events(rules, important, context);
    let after = events(merged(rules, context).1, important, context);
    law_merging_only_moves_and_collapses(rules, important, context);
    let count = choose|count: nat| reduces_in(before, after, count);
    lemma_reduces_winner(before, after, count, key, applies, touches);
}

/// After merging, the same properties are declared at the same paths with the
/// same importance, and no declaration is there that was not there before.
pub proof fn law_declared_properties_are_kept<T>(
    rules: Seq<RuleView<T>>,
    important: bool,
    context: MinifyContext,
    path: Seq<KeyView>,
    key: PropertyKey,
    event: EventView<T>,
)
    requires
        merged(rules, context).0 is Ok,
    ensures
        declares(events(merged(rules, context).1, important, context), path, key) == declares(
            events(rules, important, context),
            path,
            key,
        ),
        events(merged(rules, context).1, important, context).contains(event) ==> events(
            rules,
            important,
            context,
        ).contains(event),
{
    let before = events(rules, important, context);
    let after = events(merged(rules, context).1, important, context);
    law_merging_only_moves_and_collapses(rules, important, context);
    let count = choose|count: nat| reduces_in(before, after, count);
    lemma_reduces_keeps(before, after, count);
}

/// Merging keeps the last declaration of every property at every path, and the
/// order of such declarations where they conflict, or stand at different paths
/// and may have to do with each other.
pub proof fn law_last_declarations_are_kept<T>(
    rules: Seq<RuleView<T>>,
    important: bool,
    context: MinifyContext,
    path: Seq<KeyView>,
    key: PropertyKey,
    other_path: Seq<KeyView>,
    other_key: PropertyKey,
)
    requires
        merged(rules, context).0 is Ok,
    ensures
        ({
            let before = events(rules, important, context);
            let after = events(merged(rules, context).1, important, context);
            let one = last_declaration(before, path, key);
            let other = last_declaration(before, other_path, other_key);
            let new_one = last_declaration(after, path, key);
            let new_other = last_declaration(after, other_path, other_key);
            &&& one >= 0 <==> new_one >= 0
            &&& one >= 0 ==> after[new_one] == before[one]
            &&& one >= 0 && other >= 0 && order_matters(before[one], before[other]) ==> (one < other <==> new_one < new_other)
        }),
{
    let before = events(rules, important, context);
    let after = events(merged(rules, context).1, important, context);
    law_merging_only_moves_and_collapses(rules, important, context);
    let count = choose|count: nat| reduces_in(before, after, count);
    lemma_reduces_keeps_last(before, after, count, path, key);
    let one = last_declaration(before, path, key);
    let other = last_declaration(before, other_path, other_key);
    if one >= 0 && other >= 0 && order_matters(before[one], before[other]) {
        lemma_reduces_keeps_order(before, after, count, path, key, other_path, other_key);
    }
}

/// Merging keeps the rules that it does not look into, each at its path, in
/// order.
pub proof fn law_other_rules_are_kept<T>(
    rules: Seq<RuleView<T>>,
    important: bool,
    context: MinifyContext,
)
    requires
        merged(rules, context).0 is Ok,
    ensures
        barriers(events(merged(rules, context).1, important, context)) == barriers(
            events(rules, important, context),
        ),
{
    let before = events(rules, important, context);
    let after = events(merged(rules, context).1, important, context);
    law_merging_only_moves_and_collapses(rules, important, context);
    let count = choose|count: nat| reduces_in(before, after, count);
    lemma_reduces_keeps(before, after, count);
}

/// A rule is inserted into nothing but what stands right in front of it: of the
/// items that a node has, none but the last changes. Where the last item is a
/// rule that nothing is merged across, that one stays as it is too. That holds
/// whether or not the rule can be inserted as a whole.
pub proof fn law_only_the_last_item_changes<T>(
    node: TreeView<T>,
    rule: RuleView<T>,
    dedupe: bool,
    context: MinifyContext,
)
    ensures
        ({
            let after = node.insert_rule(rule, dedupe, context).0;
            &&& node.items.len() <= after.items.len() <= node.items.len() + 1
            &&& forall|i: int|
                0 <= i < node.items.len() - 1 ==> #[trigger] after.items[i] == node.items[i]
            &&& after.items.len() > node.items.len() && node.items.len() > 0
                ==> after.items[node.items.len() - 1] == node.items.last()
            &&& node.items.len() > 0 && node.items.last() is Barrier
                ==> after.items[node.items.len() - 1] == node.items.last()
        }),
{
}

/// Two rules that can be merged, the second right behind the first, become one
/// node. Where declarations may not be joined, a style rule with declarations
/// does so only if the node of the first holds none.
pub proof fn law_neighbours_become_one_node<T>(
    node: TreeView<T>,
    first: RuleView<T>,
    second: RuleView<T>,
    dedupe: bool,
    context: MinifyContext,
)
    requires
        adjacent(first, second, context) == Ok::<bool, MinifyError>(true),
        second is Style && !untargeted(context) && !silent(second->Style_block) ==> !(
        node.insert_rule(first, dedupe, context).0.items.last()->Child_0.has_declarations()),
    ensures
        ({
            let between = node.insert_rule(first, dedupe, context).0;
            between.insert_rule(second, dedupe, context).0.items.len() == between.items.len()
        }),
{
    if first is Style {
        let key = KeyView::Selector {
            selectors: first->selectors,
            vendor_prefix: first->vendor_prefix,
            source_index: first->Style_loc.source_index,
        };
        let block = first->Style_block;
        let reuse = node.reuses_style(key, block, context);
        let child = node.target(reuse, key, first->Style_loc).with_block(block, dedupe);
        let rules = first->Style_rules;
        lemma_insert_list_keeps_head(child, rules, rules.len(), dedupe, context);
    } else {
        let key = at_rule_key(first->prelude, first->AtRule_loc, context)->Ok_0;
        let reuse = node.ends_with(key);
        let child = node.target(reuse, key, first->AtRule_loc).with_query(first->prelude);
        let rules = first->AtRule_rules;
        lemma_insert_list_keeps_head(child, rules, rules.len(), dedupe, context);
    }
}

/// Where declarations may be joined, two rules with a key, the second right
/// behind the first, become one node exactly if they can be merged.
pub proof fn law_exactly_neighbours_become_one_node<T>(
    node: TreeView<T>,
    first: RuleView<T>,
    second: RuleView<T>,
    dedupe: bool,
    context: MinifyContext,
)
    requires
        untargeted(context),
        rule_key(first, context) is Some,
        rule_key(second, context) is Some,
    ensures
        adjacent(first, second, context) == Ok::<bool, MinifyError>(true) <==> ({
            let between = node.insert_rule(first, dedupe, context).0;
            between.insert_rule(second, dedupe, context).0.items.len() == between.items.len()
        }),
{
    lemma_rule_step(first, context);
    lemma_rule_step(second, context);
    if first is Style {
        let key = KeyView::Selector {
            selectors: first->selectors,
            vendor_prefix: first->vendor_prefix,
            source_index: first->Style_loc.source_index,
        };
        let block = first->Style_block;
        let reuse = node.reuses_style(key, block, context);
        let child = node.target(reuse, key, first->Style_loc).with_block(block, dedupe);
        let rules = first->Style_rules;
        lemma_insert_list_keeps_head(child, rules, rules.len(), dedupe, context);
    } else {
        let key = at_rule_key(first->prelude, first->AtRule_loc, context)->Ok_0;
        let reuse = node.ends_with(key);
        let child = node.target(reuse, key, first->AtRule_loc).with_query(first->prelude);
        let rules = first->AtRule_rules;
        lemma_insert_list_keeps_head(child, rules, rules.len(), dedupe, context);
    }
}

/// Style rules from different sources never become one node, and are no reason
/// to merge.
pub proof fn law_sources_stay_apart<T>(
    node: TreeView<T>,
    first: RuleView<T>,
    second: RuleView<T>,
    dedupe: bool,
    context: MinifyContext,
)
    requires
        first is Style,
        second is Style,
        first->Style_loc.source_index != second->Style_loc.source_index,
    ensures
        adjacent(first, second, context) == Ok::<bool, MinifyError>(false),
        ({
            let between = node.insert_rule(first, dedupe, context).0;
            between.insert_rule(second, dedupe, context).0.items.len() == between.items.len() + 1
        }),
{
    let key = KeyView::Selector {
        selectors: first->selectors,
        vendor_prefix: first->vendor_prefix,
        source_index: first->Style_loc.source_index,
    };
    let block = first->Style_block;
    let reuse = node.reuses_style(key, block, context);
    let child = node.target(reuse, key, first->Style_loc).with_block(block, dedupe);
    let rules = first->Style_rules;
    lemma_insert_list_keeps_head(child, rules, rules.len(), dedupe, context);
}

/// With CSS modules, the list stays as it is.
pub proof fn law_css_modules_keep_the_list<T>(rules: Seq<RuleView<T>>, context: MinifyContext)
    requires
        context.css_modules,
    ensures
        merged(rules, context) == (Ok::<(), MinifyError>(()), rules),
{
}

/// A node keeps the key, the query and the location that the first rule gave
/// it, whatever is merged into it.
pub proof fn law_first_rule_names_the_node<T>(
    node: TreeView<T>,
    rules: Seq<RuleView<T>>,
    count: nat,
    dedupe: bool,
    context: MinifyContext,
)
    ensures
        ({
            let after = node.insert_rules(rules, count, dedupe, context).0;
            &&& after.key == node.key
            &&& after.media_query == node.media_query
            &&& after.loc == node.loc
        }),
{
    lemma_insert_list_keeps_head(node, rules, count, dedupe, context);
}

/// Declarations make no node: with a block, the items of a node stay what they
/// are, except that the last one grows or one run of declarations is added.
pub proof fn law_declarations_make_no_node<T>(
    node: TreeView<T>,
    block: BlockView,
    dedupe: bool,
)
    ensures
        node.items.len() <= node.with_block(block, dedupe).items.len() <= node.items.len() + 1,
        forall|i: int|
            0 <= i < node.items.len() && node.items[i] !is Declarations
                ==> #[trigger] node.with_block(block, dedupe).items[i] == node.items[i],
        forall|i: int|
            node.items.len() <= i < node.with_block(block, dedupe).items.len()
                ==> #[trigger] node.with_block(block, dedupe).items[i] is Declarations,
{
}

/// A declaration that is `!important` overwrites none that is not, nor the
/// other way round.
pub proof fn law_importance_stays_apart(
    run: Seq<DeclarationView>,
    declaration: DeclarationView,
    dedupe: bool,
)
    ensures
        of_importance(
            insert_declaration(run, declaration, dedupe),
            !declaration.important,
            insert_declaration(run, declaration, dedupe).len(),
        ) == of_importance(run, !declaration.important, run.len()),
{
    let key = declaration.property.id.key;
    let position = last_slot(run, key, declaration.important, run.len());
    lemma_last_slot(run, key, declaration.important, run.len());
    let after = insert_declaration(run, declaration, dedupe);
    if after == run.push(declaration) {
        lemma_of_importance_push(run, declaration, !declaration.important);
    } else {
        lemma_of_importance_update(
            run,
            position,
            declaration,
            !declaration.important,
            run.len(),
        );
    }
}

/// The last declaration of a property and importance in a run is the one that
/// was added last.
pub proof fn law_last_declaration_counts(
    run: Seq<DeclarationView>,
    declaration: DeclarationView,
    dedupe: bool,
)
    ensures
        ({
            let after = insert_declaration(run, declaration, dedupe);
            let position = last_slot(
                after,
                declaration.property.id.key,
                declaration.important,
                after.len(),
            );
            0 <= position < after.len() && after[position] == declaration
        }),
{
    let key = declaration.property.id.key;
    let flag = declaration.important;
    let after = insert_declaration(run, declaration, dedupe);
    let before = last_slot(run, key, flag, run.len());
    lemma_last_slot(run, key, flag, run.len());
    lemma_last_slot(after, key, flag, after.len());
    let position = last_slot(after, key, flag, after.len());
    if after == run.push(declaration) {
        assert(in_slot(after[run.len() as int], key, flag));
    } else {
        assert(in_slot(after[before], key, flag));
        if position > before {
            assert(after[position] == run[position]);
        }
    }
}

/// Whether two properties conflict does not depend on which comes first.
pub proof fn law_conflict_is_symmetric(a: PropertyIdView, b: PropertyIdView)
    ensures
        conflict(a, b) == conflict(b, a),
{
    if conflict(a, b) && (exists|key: PropertyKey|
        #[trigger] lists(a, key) && lists(b, key)) {
        let key = choose|key: PropertyKey|
            #[trigger] lists(a, key) && lists(b, key);
        assert(lists(b, key) && lists(a, key));
    }
    if conflict(b, a) && (exists|key: PropertyKey|
        #[trigger] lists(b, key) && lists(a, key)) {
        let key = choose|key: PropertyKey|
            #[trigger] lists(b, key) && lists(a, key);
        assert(lists(a, key) && lists(b, key));
    }
}

/// Whether two properties may have to do with each other does not depend on which
/// comes first.
pub proof fn law_related_is_symmetric(a: PropertyIdView, b: PropertyIdView)
    ensures
        related(a, b) == related(b, a),
{
    law_conflict_is_symmetric(a, b);
    if share_word(a.key.0, b.key.0) {
        lemma_share_word_symmetric(a.key.0, b.key.0);
    }
    if share_word(b.key.0, a.key.0) {
        lemma_share_word_symmetric(b.key.0, a.key.0);
    }
}

proof fn lemma_share_word_symmetric(a: Seq<char>, b: Seq<char>)
    requires
        share_word(a, b),
    ensures
        share_word(b, a),
{
    let (i, j) = choose|i: int, j: int|
        0 <= i < words(a).len() && 0 <= j < words(b).len() && (#[trigger] words(a)[i]).len() > 0
            && words(a)[i] == #[trigger] words(b)[j];
    assert(words(b)[j].len() > 0 && words(b)[j] == words(a)[i]);
}

/// Merging never makes a list longer.
pub proof fn law_list_never_grows<T>(rules: Seq<RuleView<T>>, context: MinifyContext)
    ensures
        merged(rules, context).1.len() <= rules.len(),
{
    let root = TreeView::<T>::root();
    let tree = rule_tree(rules, context).0;
    let printed = finished(tree, context);
    lemma_no_more_items(root, rules, rules.len(), may_reuse(context), context);
    lemma_takes_no_more(tree.hollow(), tree, tree.items.len());
    lemma_no_more_rules(printed, printed.items.len());
}

pub proof fn lemma_takes_no_more<T>(node: TreeView<T>, other: TreeView<T>, count: nat)
    ensures
        node.take_in(other, count).items.len() <= node.items.len() + count,
    decreases count,
{
    if count > 0 && count <= other.items.len() {
        let before = node.take_in(other, (count - 1) as nat);
        lemma_takes_no_more(node, other, (count - 1) as nat);
        if let ItemView::Declarations(run) = other.items[count - 1] {
            lemma_earlier_run(before.items, run, before.items.len());
        }
    }
}

proof fn lemma_no_more_items<T>(
    node: TreeView<T>,
    rules: Seq<RuleView<T>>,
    count: nat,
    dedupe: bool,
    context: MinifyContext,
)
    ensures
        node.insert_rules(rules, count, dedupe, context).0.items.len() <= node.items.len() + count,
    decreases count,
{
    if count > 0 && count <= rules.len() {
        lemma_no_more_items(node, rules, (count - 1) as nat, dedupe, context);
        let before = node.insert_rules(rules, (count - 1) as nat, dedupe, context).0;
        law_only_the_last_item_changes(before, rules[count - 1], dedupe, context);
    }
}

pub proof fn lemma_no_more_rules<T>(node: TreeView<T>, count: nat)
    ensures
        node.print_items(count).len() <= count,
    decreases count,
{
    if count > 0 && count <= node.items.len() {
        lemma_no_more_rules(node, (count - 1) as nat);
    }
}

/// Whether the rule says something, and so do all rules in it.
pub open spec fn substantial<T>(rule: RuleView<T>) -> bool
    decreases rule,
{
    match rule {
        RuleView::AtRule { prelude: _, rules, loc: _ } => {
            &&& rules.len() > 0
            &&& forall|i: int| 0 <= i < rules.len() ==> substantial(#[trigger] rules[i])
        },
        RuleView::Style { selectors, vendor_prefix: _, block, rules, loc: _ } => {
            &&& selectors.len() > 0
            &&& !silent(block) || rules.len() > 0
            &&& forall|i: int| 0 <= i < rules.len() ==> substantial(#[trigger] rules[i])
        },
        RuleView::NestedDeclarations { block, loc: _ } => !silent(block),
        RuleView::Other(_) => true,
    }
}

/// A list that has been merged holds no empty rule, at any depth.
pub proof fn law_nothing_empty_is_printed<T>(rules: Seq<RuleView<T>>, context: MinifyContext)
    requires
        !context.css_modules,
        mergeable(rules, context) == Ok::<bool, MinifyError>(true),
    ensures
        forall|i: int|
            0 <= i < merged(rules, context).1.len() ==> substantial(
                #[trigger] merged(rules, context).1[i],
            ),
{
    let tree = finished(rule_tree(rules, context).0, context);
    lemma_printed_items_substantial(tree, tree.items.len());
    assert(tree.print_all() == tree.print_items(tree.items.len()));
}

proof fn lemma_printed_items_substantial<T>(node: TreeView<T>, count: nat)
    ensures
        forall|i: int|
            0 <= i < node.print_items(count).len() ==> substantial(
                #[trigger] node.print_items(count)[i],
            ),
    decreases node, count,
{
    if count > 0 && count <= node.items.len() {
        let before = node.print_items((count - 1) as nat);
        lemma_printed_items_substantial(node, (count - 1) as nat);
        match node.items[count - 1] {
            ItemView::Declarations(run) => {
                if run.len() > 0 {
                    lemma_run_block_not_empty(run, run.len());
                    let rule = RuleView::<T>::NestedDeclarations {
                        block: run_block(run),
                        loc: node.loc,
                    };
                    assert(substantial(rule));
                    assert(node.print_items(count) == before.push(rule));
                }
            },
            ItemView::Child(child) => {
                lemma_printed_substantial(child);
            },
            ItemView::Barrier(payload) => {
                assert(substantial(RuleView::Other(payload)));
            },
        }
    }
}

proof fn lemma_printed_substantial<T>(node: TreeView<T>)
    ensures
        node.print() matches Some(rule) ==> substantial(rule),
    decreases node, node.items.len() + 1,
{
    lemma_printed_items_substantial(node, node.items.len());
    let printed = node.print_all();
    assert(printed == node.print_items(node.items.len()));
    match node.print() {
        Some(RuleView::Style { selectors: _, vendor_prefix: _, block: _, rules, loc: _ }) => {
            let start = leading(printed);
            lemma_leading_push(
                printed,
                RuleView::NestedDeclarations { block: BlockView::empty(), loc: node.loc },
            );
            assert forall|i: int| 0 <= i < rules.len() implies substantial(#[trigger] rules[i]) by {
                assert(rules[i] == printed[i + start]);
            }
        },
        _ => {},
    }
}

/// A run with declarations is no empty block.
pub proof fn lemma_run_block_not_empty(run: Seq<DeclarationView>, count: nat)
    requires
        0 < count <= run.len(),
    ensures
        of_importance(run, true, count).len() + of_importance(run, false, count).len() > 0,
{
    assert(run[count - 1].important || !run[count - 1].important);
}

/// Where there is nothing to merge, and the rules are written as they would be
/// printed, inserting them and printing the tree gives the list back.
pub proof fn law_nothing_to_merge_nothing_changes<T>(
    rules: Seq<RuleView<T>>,
    context: MinifyContext,
)
    requires
        mergeable(rules, context) == Ok::<bool, MinifyError>(false),
        tidy_list(rules, TreeView::<T>::root().loc, context),
        forall|i: int|
            0 <= i < rules.len() ==> blocks_settled(#[trigger] rules[i], untargeted(context)),
    ensures
        rule_tree(rules, context).1 == Ok::<(), MinifyError>(()),
        rule_tree(rules, context).0.print_all() == rules,
{
    let root = TreeView::<T>::root();
    lemma_nothing_to_merge(rules, context);
    lemma_insert_prints(root, rules, rules.len(), context);
    assert(root.print_items(0) + rules.take(rules.len() as int) =~= rules);
}

/// Of a list without empty rules, a second merge changes nothing. Where
/// declarations may be joined, merging leaves nothing that could be merged.
pub proof fn law_second_merge_changes_nothing<T>(
    rules: Seq<RuleView<T>>,
    context: MinifyContext,
)
    requires
        merged(rules, context).0 is Ok,
        forall|i: int| 0 <= i < rules.len() ==> substantial(#[trigger] rules[i]),
    ensures
        untargeted(context) ==> mergeable(merged(rules, context).1, context) == Ok::<
            bool,
            MinifyError,
        >(false),
        merged(merged(rules, context).1, context) == (
            Ok::<(), MinifyError>(()),
            merged(rules, context).1,
        ),
{
    let dedupe = may_reuse(context);
    let once = merged(rules, context).1;
    assert(merged(rules, context).0->Ok_0 == ());
    if !context.css_modules && mergeable(rules, context) == Ok::<bool, MinifyError>(true) {
        let root = TreeView::<T>::root();
        let tree = rule_tree(rules, context).0;
        let printed = finished(tree, context);
        lemma_insert_list_full(root, rules, rules.len(), dedupe, context);
        lemma_insert_list_apart(root, rules, rules.len(), dedupe, context);
        lemma_insert_list_coherent(root, rules, rules.len(), dedupe, context);
        lemma_insert_list_keeps_head(root, rules, rules.len(), dedupe, context);
        if dedupe {
            lemma_take_in_full(tree.hollow(), tree, tree.items.len());
            lemma_take_in_apart(tree.hollow(), tree, tree.items.len(), context);
            lemma_take_in_coherent(tree.hollow(), tree, tree.items.len(), context);
        }
        lemma_printed_tidy(printed, context);
        lemma_printed_apart(printed, context);
        if dedupe {
            lemma_apart_is_not_mergeable(once, printed.loc, context);
        } else {
            assert forall|i: int| 0 <= i < once.len() implies blocks_settled(
                #[trigger] once[i],
                dedupe,
            ) by {
                lemma_blocks_settled(once[i]);
            }
            lemma_insert_prints(root, once, once.len(), context);
            assert(root.print_items(0) + once.take(once.len() as int) =~= once);
            lemma_mergeable_error(once, context);
            if let Err(error) = mergeable(once, context) {
                let i = choose|i: int| 0 <= i < once.len() && fails(#[trigger] once[i], error, context);
                lemma_tidy_never_fails(once[i], printed.loc, error, context);
            }
        }
    }
}

/// Whether the rule at `index` and the next one can be merged.
pub open spec fn joins_next<T>(
    rules: Seq<RuleView<T>>,
    index: int,
    context: MinifyContext,
) -> bool {
    0 <= index < rules.len() - 1 && adjacent(rules[index], rules[index + 1], context) == Ok::<
        bool,
        MinifyError,
    >(true)
}

/// Whether two neighbours can be merged, in the list or in one nested in it.
pub open spec fn holds_neighbours<T>(rules: Seq<RuleView<T>>, context: MinifyContext) -> bool
    decreases rules,
{
    ||| exists|i: int| #[trigger] joins_next(rules, i, context)
    ||| exists|i: int|
        0 <= i < rules.len() && (match nested_rules(#[trigger] rules[i]) {
            Some(nested) => holds_neighbours(nested, context),
            None => false,
        })
}

/// Where no query on the way fails, the question whether to merge is answered
/// by whether there are neighbours that can be merged, at any depth.
pub proof fn law_mergeable_means_neighbours<T>(
    rules: Seq<RuleView<T>>,
    context: MinifyContext,
)
    ensures
        mergeable(rules, context) matches Ok(answer) ==> answer == holds_neighbours(
            rules,
            context,
        ),
    decreases rules, 1nat, 0int,
{
    lemma_neighbours(rules, 0, context);
    lemma_nested(rules, 0, context);
}

proof fn lemma_neighbours<T>(rules: Seq<RuleView<T>>, start: int, context: MinifyContext)
    requires
        0 <= start,
    ensures
        neighbours_from(rules, start, context) == Ok::<bool, MinifyError>(true) ==> exists|i: int|
            #[trigger] joins_next(rules, i, context),
        neighbours_from(rules, start, context) == Ok::<bool, MinifyError>(false) ==> forall|i: int|
            start <= i ==> !#[trigger] joins_next(rules, i, context),
    decreases rules.len() - start,
{
    if start + 1 < rules.len() {
        lemma_neighbours(rules, start + 1, context);
        if adjacent(rules[start], rules[start + 1], context) == Ok::<bool, MinifyError>(true) {
            assert(joins_next(rules, start, context));
        }
    }
}

proof fn lemma_nested<T>(rules: Seq<RuleView<T>>, start: int, context: MinifyContext)
    requires
        0 <= start,
    ensures
        nested_from(rules, start, context) == Ok::<bool, MinifyError>(true) ==> exists|i: int|
            0 <= i < rules.len() && (match nested_rules(#[trigger] rules[i]) {
                Some(nested) => holds_neighbours(nested, context),
                None => false,
            }),
        nested_from(rules, start, context) == Ok::<bool, MinifyError>(false) ==> forall|i: int|
            start <= i < rules.len() ==> !(match nested_rules(#[trigger] rules[i]) {
                Some(nested) => holds_neighbours(nested, context),
                None => false,
            }),
    decreases rules, 0nat, rules.len() - start,
{
    if start < rules.len() {
        lemma_nested(rules, start + 1, context);
        if let Some(nested) = nested_rules(rules[start]) {
            law_mergeable_means_neighbours(nested, context);
        }
    }
}

/// Whether the rule, or one in it, is an `@media` rule whose query cannot be
/// normalized, for this reason.
pub open spec fn fails<T>(rule: RuleView<T>, error: MinifyError, context: MinifyContext) -> bool
    decreases rule,
{
    ||| rule is AtRule && query_error(rule->prelude, rule->AtRule_loc, context) == Some(error)
    ||| nested_rules(rule) matches Some(nested) && exists|i: int|
        0 <= i < nested.len() && fails(#[trigger] nested[i], error, context)
}

/// An error comes from a query in the list that cannot be normalized.
pub proof fn law_errors_come_from_queries<T>(
    rules: Seq<RuleView<T>>,
    error: MinifyError,
    context: MinifyContext,
)
    requires
        merged(rules, context).0 == Err::<(), MinifyError>(error),
    ensures
        exists|i: int| 0 <= i < rules.len() && fails(#[trigger] rules[i], error, context),
{
    lemma_mergeable_error(rules, context);
    lemma_insert_list_error(
        TreeView::<T>::root(),
        rules,
        rules.len(),
        may_reuse(context),
        context,
    );
}

/// Of the arenas of every tree that rules were inserted into: the root alone has
/// no key; every other node is an item of exactly one node, which has a smaller
/// index; every node lists the nodes among its items as its children, in order
/// and with their keys; every index in a run is that of a declaration and stands
/// in no other place; no run is empty, and no two runs follow each other. That
/// holds whether or not the rules could be inserted as a whole.
pub proof fn law_reached_arenas_are_sound<T>(
    trie: TrieView<T>,
    node: int,
    rules: Seq<RuleView<T>>,
    count: nat,
    dedupe: bool,
    context: MinifyContext,
)
    requires
        sound(trie),
        0 <= node < trie.nodes.len(),
    ensures
        sound(TrieView::<T>::root(dedupe)),
        sound(trie.insert_rules(node, rules, count, context).0),
{
    lemma_root_sound::<T>(dedupe);
    lemma_insert_list_sound(trie, node, rules, count, context);
}

/// Without custom media, merging never fails.
pub proof fn law_no_custom_media_no_error<T>(rules: Seq<RuleView<T>>, context: MinifyContext)
    requires
        context.custom_media is None,
    ensures
        merged(rules, context).0 == Ok::<(), MinifyError>(()),
{
    if let Err(error) = merged(rules, context).0 {
        law_errors_come_from_queries(rules, error, context);
        let i = choose|i: int| 0 <= i < rules.len() && fails(#[trigger] rules[i], error, context);
        lemma_never_fails(rules[i], error, context);
    }
}

proof fn lemma_never_fails<T>(rule: RuleView<T>, error: MinifyError, context: MinifyContext)
    requires
        context.custom_media is None,
    ensures
        !fails(rule, error, context),
    decreases rule,
{
    if let Some(nested) = nested_rules(rule) {
        assert forall|i: int| 0 <= i < nested.len() implies !fails(
            #[trigger] nested[i],
            error,
            context,
        ) by {
            lemma_never_fails(nested[i], error, context);
        }
    }
}

proof fn lemma_mergeable_error<T>(rules: Seq<RuleView<T>>, context: MinifyContext)
    ensures
        mergeable(rules, context) matches Err(error) ==> exists|i: int|
            0 <= i < rules.len() && fails(#[trigger] rules[i], error, context),
    decreases rules, 1nat, 0int,
{
    lemma_neighbours_error(rules, 0, context);
    lemma_nested_error(rules, 0, context);
}

proof fn lemma_neighbours_error<T>(rules: Seq<RuleView<T>>, start: int, context: MinifyContext)
    requires
        0 <= start,
    ensures
        neighbours_from(rules, start, context) matches Err(error) ==> exists|i: int|
            0 <= i < rules.len() && fails(#[trigger] rules[i], error, context),
    decreases rules.len() - start,
{
    if start + 1 < rules.len() {
        lemma_neighbours_error(rules, start + 1, context);
        lemma_rule_step(rules[start], context);
        lemma_rule_step(rules[start + 1], context);
        if let Err(error) = adjacent(rules[start], rules[start + 1], context) {
            assert(fails(rules[start], error, context) || fails(rules[start + 1], error, context));
        }
    }
}

proof fn lemma_nested_error<T>(rules: Seq<RuleView<T>>, start: int, context: MinifyContext)
    requires
        0 <= start,
    ensures
        nested_from(rules, start, context) matches Err(error) ==> exists|i: int|
            0 <= i < rules.len() && fails(#[trigger] rules[i], error, context),
    decreases rules, 0nat, rules.len() - start,
{
    if start < rules.len() {
        lemma_nested_error(rules, start + 1, context);
        if let Some(nested) = nested_rules(rules[start]) {
            lemma_mergeable_error(nested, context);
            if let Err(error) = mergeable(nested, context) {
                assert(fails(rules[start], error, context));
            }
        }
    }
}

proof fn lemma_insert_error<T>(
    node: TreeView<T>,
    rule: RuleView<T>,
    dedupe: bool,
    context: MinifyContext,
)
    ensures
        node.insert_rule(rule, dedupe, context).1 matches Err(error) ==> fails(
            rule,
            error,
            context,
        ),
    decreases rule, 0nat,
{
    match rule {
        RuleView::AtRule { prelude, rules, loc } => {
            lemma_step(prelude, loc, context);
            if let Ok(key) = at_rule_key(prelude, loc, context) {
                let child = node.target(node.ends_with(key), key, loc).with_query(prelude);
                lemma_insert_list_error(child, rules, rules.len(), dedupe, context);
                if let Err(error) = child.insert_rules(rules, rules.len(), dedupe, context).1 {
                    assert(nested_rules(rule) matches Some(nested) && exists|i: int|
                        0 <= i < nested.len() && fails(#[trigger] nested[i], error, context));
                }
            }
        },
        RuleView::Style { selectors, vendor_prefix, block, rules, loc } => {
            let key = KeyView::Selector {
                selectors,
                vendor_prefix,
                source_index: loc.source_index,
            };
            let reuse = node.reuses_style(key, block, context);
            let child = node.target(reuse, key, loc).with_block(block, dedupe);
            lemma_insert_list_error(child, rules, rules.len(), dedupe, context);
        },
        _ => {},
    }
}

proof fn lemma_insert_list_error<T>(
    node: TreeView<T>,
    rules: Seq<RuleView<T>>,
    count: nat,
    dedupe: bool,
    context: MinifyContext,
)
    ensures
        node.insert_rules(rules, count, dedupe, context).1 matches Err(error) ==> exists|i: int|
            0 <= i < rules.len() && fails(#[trigger] rules[i], error, context),
    decreases rules, count,
{
    if count > 0 && count <= rules.len() {
        lemma_insert_list_error(node, rules, (count - 1) as nat, dedupe, context);
        let before = node.insert_rules(rules, (count - 1) as nat, dedupe, context).0;
        lemma_insert_error(before, rules[count - 1], dedupe, context);
    }
}

} // verus!
