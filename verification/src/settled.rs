//! Lists that inserting and printing give back as they are, and that what has
//! been merged is such a list.
use crate::cascade::matches_nothing;
use crate::context::may_reuse;
use crate::context::MinifyContext;
use crate::context::MinifyError;
use crate::declaration::BlockView;
use crate::declaration::PropertyView;
use crate::declaration_set::lemma_last_slot;
use crate::laws::fails;
use crate::laws::lemma_run_block_not_empty;
use crate::laws::substantial;
use crate::mergeable::adjacent;
use crate::mergeable::mergeable;
use crate::mergeable::neighbours_from;
use crate::mergeable::nested_from;
use crate::mergeable::nested_rules;
use crate::model::at_rule_key;
use crate::model::earlier_run;
use crate::model::insert_block;
use crate::model::insert_properties;
use crate::model::insert_run;
use crate::model::leading;
use crate::model::leading_block;
use crate::model::lemma_earlier_run;
use crate::model::run_block;
use crate::model::DeclarationView;
use crate::model::ItemView;
use crate::model::KeyView;
use crate::model::TreeView;
use crate::preservation::coherent;
use crate::preservation::head_coherent;
use crate::preservation::lemma_insert_list_keeps_head;
use crate::preservation::lemma_take_in_keeps_head;
use crate::rules::RuleView;
use crate::run_laws::law_without_dedupe_a_block_comes_back;
use crate::terms::lemma_step;
use crate::terms::query_error;
use crate::terms::silent;
use crate::terms::step;
use crate::terms::untargeted;
use crate::values::Location;
use vstd::prelude::*;

verus! {

/// The key that a rule is merged under, where it has one.
pub open spec fn rule_key<T>(rule: RuleView<T>, context: MinifyContext) -> Option<KeyView> {
    match rule {
        RuleView::AtRule { prelude, rules: _, loc } => match query_error(prelude, loc, context) {
            Some(_) => None,
            None => Some(step(prelude, context)),
        },
        RuleView::Style { selectors, vendor_prefix, block: _, rules: _, loc } => Some(
            KeyView::Selector { selectors, vendor_prefix, source_index: loc.source_index },
        ),
        _ => None,
    }
}

/// Whether the style rule has declarations of its own, in front of the rules
/// nested in it or among them.
pub open spec fn bears_declarations<T>(rule: RuleView<T>) -> bool {
    rule is Style && (!silent(rule->Style_block) || exists|i: int|
        0 <= i < rule->Style_rules.len() && (#[trigger] rule->Style_rules[i])
            is NestedDeclarations)
}

/// Whether the rules at `index` and behind it have the same key, and are not
/// kept apart by their declarations.
pub open spec fn key_clash<T>(
    rules: Seq<RuleView<T>>,
    index: int,
    context: MinifyContext,
) -> bool {
    &&& 0 <= index < rules.len() - 1
    &&& rule_key(rules[index], context) is Some
    &&& rule_key(rules[index], context) == rule_key(rules[index + 1], context)
    &&& !(!untargeted(context) && bears_declarations(rules[index]) && rules[index + 1] is Style
        && !silent(rules[index + 1]->Style_block))
}

/// Whether no two neighbours have the same key, at any depth, unless their
/// declarations keep them apart.
pub open spec fn keys_apart<T>(rules: Seq<RuleView<T>>, context: MinifyContext) -> bool
    decreases rules,
{
    &&& forall|i: int| !#[trigger] key_clash(rules, i, context)
    &&& forall|i: int|
        0 <= i < rules.len() ==> match nested_rules(#[trigger] rules[i]) {
            Some(nested) => keys_apart(nested, context),
            None => true,
        }
}

/// Whether the rules at `index` and behind it are both nested declarations.
pub open spec fn nested_pair<T>(rules: Seq<RuleView<T>>, index: int) -> bool {
    0 <= index < rules.len() - 1 && rules[index] is NestedDeclarations && rules[index + 1]
        is NestedDeclarations
}

/// Whether the rule, in a node at `loc`, is written as it would be printed: it
/// can be inserted and is not empty, declarations in front of the first nested
/// rule are the rule's own, and other nested declarations stand for themselves
/// at the location of the rule around them.
pub open spec fn tidy<T>(rule: RuleView<T>, loc: Location, context: MinifyContext) -> bool
    decreases rule,
{
    match rule {
        RuleView::AtRule { prelude, rules, loc: own } => {
            &&& query_error(prelude, own, context) is None
            &&& rules.len() > 0
            &&& tidy_list(rules, own, context)
        },
        RuleView::Style { selectors, vendor_prefix: _, block, rules, loc: own } => {
            &&& selectors.len() > 0
            &&& !silent(block) || rules.len() > 0
            &&& rules.len() > 0 ==> rules[0] !is NestedDeclarations
            &&& tidy_list(rules, own, context)
        },
        RuleView::NestedDeclarations { block, loc: own } => !silent(block) && own == loc,
        RuleView::Other(_) => true,
    }
}

/// Whether the rules are written as they would be printed, and no two nested
/// declarations follow each other.
pub open spec fn tidy_list<T>(
    rules: Seq<RuleView<T>>,
    loc: Location,
    context: MinifyContext,
) -> bool
    decreases rules,
{
    &&& forall|i: int| 0 <= i < rules.len() ==> tidy(#[trigger] rules[i], loc, context)
    &&& forall|i: int| !#[trigger] nested_pair(rules, i)
}

/// Whether the block comes back from a run that it is inserted into.
pub open spec fn block_settled(block: BlockView, dedupe: bool) -> bool {
    run_block(insert_block(seq![], block, dedupe)) == block
}

/// Whether all blocks in the rule come back from runs that they are inserted
/// into.
pub open spec fn blocks_settled<T>(rule: RuleView<T>, dedupe: bool) -> bool
    decreases rule,
{
    match rule {
        RuleView::AtRule { prelude: _, rules, loc: _ } => forall|i: int|
            0 <= i < rules.len() ==> blocks_settled(#[trigger] rules[i], dedupe),
        RuleView::Style { selectors: _, vendor_prefix: _, block, rules, loc: _ } => {
            &&& block_settled(block, dedupe)
            &&& forall|i: int|
                0 <= i < rules.len() ==> blocks_settled(#[trigger] rules[i], dedupe)
        },
        RuleView::NestedDeclarations { block, loc: _ } => block_settled(block, dedupe),
        RuleView::Other(_) => true,
    }
}

/// The key of an at-rule is what it wraps its rules in.
pub proof fn lemma_rule_step<T>(rule: RuleView<T>, context: MinifyContext)
    ensures
        rule is AtRule ==> at_rule_key(rule->prelude, rule->AtRule_loc, context) == (
        match query_error(rule->prelude, rule->AtRule_loc, context) {
            Some(error) => Err(error),
            None => Ok(step(rule->prelude, context)),
        }),
{
    if rule is AtRule {
        lemma_step(rule->prelude, rule->AtRule_loc, context);
    }
}

/// Whether the item is what the rule becomes in a tree.
pub open spec fn stands_for_rule<T>(
    item: ItemView<T>,
    rule: RuleView<T>,
    context: MinifyContext,
) -> bool {
    match rule {
        RuleView::NestedDeclarations { .. } => item is Declarations && item->Declarations_0.len()
            > 0,
        RuleView::Other(_) => item is Barrier,
        _ => {
            &&& item is Child
            &&& item->Child_0.key == rule_key(rule, context)
            &&& bears_declarations(rule) ==> item->Child_0.has_declarations()
        },
    }
}

/// Whether the rule goes behind the items of the node rather than into the last
/// one.
spec fn goes_behind<T>(node: TreeView<T>, rule: RuleView<T>, context: MinifyContext) -> bool {
    match rule {
        RuleView::AtRule { prelude, rules: _, loc } => !node.ends_with(
            at_rule_key(prelude, loc, context)->Ok_0,
        ),
        RuleView::Style { selectors, vendor_prefix, block, rules: _, loc } => !node.reuses_style(
            KeyView::Selector { selectors, vendor_prefix, source_index: loc.source_index },
            block,
            context,
        ),
        RuleView::NestedDeclarations { .. } => !(node.items.len() > 0 && node.items.last()
            is Declarations),
        RuleView::Other(_) => true,
    }
}

/// What some items are printed as depends on nothing but these items and the
/// location.
proof fn lemma_print_prefix<T>(a: TreeView<T>, b: TreeView<T>, count: nat)
    requires
        count <= a.items.len(),
        count <= b.items.len(),
        a.loc == b.loc,
        forall|i: int| 0 <= i < count ==> #[trigger] b.items[i] == a.items[i],
    ensures
        b.print_items(count) == a.print_items(count),
    decreases count,
{
    if count > 0 {
        lemma_print_prefix(a, b, (count - 1) as nat);
        assert(b.items[count - 1] == a.items[count - 1]);
    }
}

/// The leading declarations of a list are those in front of the first rule of
/// another kind.
proof fn lemma_leading<T>(rules: Seq<RuleView<T>>, count: nat)
    requires
        count <= rules.len(),
        forall|i: int| 0 <= i < count ==> (#[trigger] rules[i]) is NestedDeclarations,
        count < rules.len() ==> rules[count as int] !is NestedDeclarations,
    ensures
        leading(rules) == count,
    decreases rules.len(),
{
    if rules.len() > 0 {
        let before = rules.drop_last();
        if count == rules.len() {
            lemma_leading(before, (count - 1) as nat);
            assert(rules.last() == rules[count - 1]);
        } else {
            lemma_leading(before, count);
        }
    }
}

/// Where the leading declarations of a list end, there is a rule of another
/// kind.
pub proof fn lemma_leading_ends<T>(rules: Seq<RuleView<T>>)
    ensures
        leading(rules) <= rules.len(),
        forall|i: int| 0 <= i < leading(rules) ==> (#[trigger] rules[i]) is NestedDeclarations,
        leading(rules) < rules.len() ==> rules[leading(rules) as int] !is NestedDeclarations,
    decreases rules.len(),
{
    if rules.len() > 0 {
        let before = rules.drop_last();
        lemma_leading_ends(before);
        assert forall|i: int| 0 <= i < leading(rules) implies (#[trigger] rules[i])
            is NestedDeclarations by {
            if i < before.len() {
                assert(before[i] == rules[i]);
            }
        }
        if leading(rules) < before.len() {
            assert(before[leading(rules) as int] == rules[leading(rules) as int]);
        }
    }
}

/// A rule that is written as it would be printed, and that goes behind the
/// items, becomes one more item, which is printed as the rule.
proof fn lemma_insert_rule_prints<T>(node: TreeView<T>, rule: RuleView<T>, context: MinifyContext)
    requires
        tidy(rule, node.loc, context),
        blocks_settled(rule, may_reuse(context)),
        nested_rules(rule) matches Some(nested) ==> keys_apart(nested, context),
        goes_behind(node, rule, context),
    ensures
        ({
            let (after, result) = node.insert_rule(rule, may_reuse(context), context);
            &&& result == Ok::<(), MinifyError>(())
            &&& after.loc == node.loc
            &&& after.items.len() == node.items.len() + 1
            &&& forall|i: int|
                0 <= i < node.items.len() ==> #[trigger] after.items[i] == node.items[i]
            &&& stands_for_rule(after.items.last(), rule, context)
            &&& after.print_items(after.items.len()) == node.print_items(node.items.len()).push(
                rule,
            )
        }),
    decreases rule, 0nat,
{
    let dedupe = may_reuse(context);
    let (after, result) = node.insert_rule(rule, dedupe, context);
    let count = node.items.len();
    match rule {
        RuleView::AtRule { prelude, rules, loc } => {
            lemma_step(prelude, loc, context);
            let key = at_rule_key(prelude, loc, context)->Ok_0;
            let child = TreeView::leaf(key, loc).with_query(prelude);
            lemma_insert_prints(child, rules, rules.len(), context);
            lemma_insert_list_keeps_head(child, rules, rules.len(), dedupe, context);
            let filled = child.insert_rules(rules, rules.len(), dedupe, context).0;
            assert(child.print_items(0) + rules.take(rules.len() as int) =~= rules);
            assert(filled.print_all() == rules);
            assert(filled.print() == Some(rule));
            assert(after.items[count as int] == ItemView::Child(filled));
        },
        RuleView::Style { selectors, vendor_prefix, block, rules, loc } => {
            let key = KeyView::Selector {
                selectors,
                vendor_prefix,
                source_index: loc.source_index,
            };
            let child = TreeView::<T>::leaf(key, loc).with_block(block, dedupe);
            let run = insert_block(seq![], block, dedupe);
            let own = RuleView::<T>::NestedDeclarations { block, loc };
            if !block.is_empty() {
                assert(run.len() > 0) by {
                    if run.len() == 0 {
                        assert(run_block(run).is_empty());
                    }
                }
                assert(child.items[0] == ItemView::<T>::Declarations(run));
                assert(child.print_items(0) =~= seq![]);
                assert(child.print_items(1) =~= seq![own]);
            }
            lemma_insert_prints(child, rules, rules.len(), context);
            lemma_insert_list_keeps_head(child, rules, rules.len(), dedupe, context);
            let filled = child.insert_rules(rules, rules.len(), dedupe, context).0;
            let printed = filled.print_all();
            assert(rules.take(rules.len() as int) =~= rules);
            if block.is_empty() {
                assert(printed =~= rules);
                lemma_leading(printed, 0);
                assert(printed.skip(0) =~= rules);
                assert(leading_block(printed, 0) =~= block);
            } else {
                assert(printed =~= seq![own] + rules);
                if rules.len() > 0 {
                    assert(printed[1] == rules[0]);
                }
                lemma_leading(printed, 1);
                assert(printed.skip(1) =~= rules);
                assert(leading_block(printed, 0) == BlockView::empty());
                assert(leading_block(printed, 1) =~= block);
            }
            assert(filled.print() == Some(rule));
            assert(after.items[count as int] == ItemView::Child(filled));
            if bears_declarations(rule) {
                if !block.is_empty() {
                    assert(filled.items[0] == ItemView::<T>::Declarations(run));
                } else {
                    let i = choose|i: int|
                        0 <= i < rules.len() && (#[trigger] rules[i]) is NestedDeclarations;
                    assert(stands_for_rule(filled.items[i], rules[i], context));
                }
                assert(filled.has_declarations());
            }
        },
        RuleView::NestedDeclarations { block, loc: _ } => {
            let run = insert_block(seq![], block, dedupe);
            assert(run.len() > 0) by {
                if run.len() == 0 {
                    assert(run_block(run).is_empty());
                }
            }
            assert(after.items[count as int] == ItemView::<T>::Declarations(run));
        },
        RuleView::Other(payload) => {
            assert(after.items[count as int] == ItemView::Barrier(payload));
        },
    }
    lemma_print_prefix(node, after, count);
}

/// A list that is written as it would be printed becomes one item for each rule,
/// and is printed as it was.
pub proof fn lemma_insert_prints<T>(
    node: TreeView<T>,
    rules: Seq<RuleView<T>>,
    count: nat,
    context: MinifyContext,
)
    requires
        tidy_list(rules, node.loc, context),
        keys_apart(rules, context),
        forall|i: int|
            0 <= i < rules.len() ==> blocks_settled(#[trigger] rules[i], may_reuse(context)),
        count <= rules.len(),
        node.items.len() == 0 || (node.items.last() is Declarations && (rules.len() > 0
            ==> rules[0] !is NestedDeclarations)),
    ensures
        ({
            let (after, result) = node.insert_rules(rules, count, may_reuse(context), context);
            &&& result == Ok::<(), MinifyError>(())
            &&& after.loc == node.loc
            &&& after.items.len() == node.items.len() + count
            &&& forall|i: int|
                0 <= i < node.items.len() ==> #[trigger] after.items[i] == node.items[i]
            &&& forall|i: int|
                0 <= i < count ==> stands_for_rule(
                    after.items[node.items.len() + i],
                    #[trigger] rules[i],
                    context,
                )
            &&& after.print_items(after.items.len()) == node.print_items(node.items.len())
                + rules.take(count as int)
        }),
    decreases rules, count,
{
    let dedupe = may_reuse(context);
    let start = node.print_items(node.items.len());
    if count == 0 {
        assert(start + rules.take(0) =~= start);
    } else {
        let shorter = (count - 1) as nat;
        lemma_insert_prints(node, rules, shorter, context);
        let before = node.insert_rules(rules, shorter, dedupe, context).0;
        let rule = rules[count - 1];
        assert(tidy(rule, node.loc, context));
        assert(goes_behind(before, rule, context)) by {
            lemma_rule_step(rule, context);
            if shorter > 0 {
                let previous = rules[shorter - 1];
                lemma_rule_step(previous, context);
                assert(stands_for_rule(
                    before.items[node.items.len() + shorter - 1],
                    previous,
                    context,
                ));
                assert(before.items.last() == before.items[node.items.len() + shorter - 1]);
                assert(!key_clash(rules, shorter - 1, context));
                assert(!nested_pair(rules, shorter - 1));
            } else if node.items.len() > 0 {
                assert(before.items.last() == before.items[node.items.len() - 1]);
            }
        }
        lemma_insert_rule_prints(before, rule, context);
        let (after, result) = node.insert_rules(rules, count, dedupe, context);
        assert((after, result) == before.insert_rule(rule, dedupe, context));
        assert forall|i: int| 0 <= i < count implies stands_for_rule(
            after.items[node.items.len() + i],
            #[trigger] rules[i],
            context,
        ) by {
            if i < shorter {
                assert(after.items[node.items.len() + i] == before.items[node.items.len() + i]);
            }
        }
        assert forall|i: int| 0 <= i < node.items.len() implies #[trigger] after.items[i]
            == node.items[i] by {
            assert(before.items[i] == node.items[i]);
        }
        assert((start + rules.take(shorter as int)).push(rule) =~= start + rules.take(
            count as int,
        ));
    }
}

/// Where nothing can be merged, neighbours have different keys.
pub proof fn lemma_nothing_to_merge<T>(rules: Seq<RuleView<T>>, context: MinifyContext)
    requires
        mergeable(rules, context) == Ok::<bool, MinifyError>(false),
    ensures
        keys_apart(rules, context),
    decreases rules,
{
    assert forall|i: int| !#[trigger] key_clash(rules, i, context) by {
        if 0 <= i < rules.len() - 1 {
            lemma_rule_step(rules[i], context);
            lemma_rule_step(rules[i + 1], context);
            lemma_no_neighbours(rules, 0, i, context);
        }
    }
    assert forall|i: int| 0 <= i < rules.len() implies match nested_rules(#[trigger] rules[i]) {
        Some(nested) => keys_apart(nested, context),
        None => true,
    } by {
        lemma_no_nested_neighbours(rules, 0, i, context);
        if let Some(nested) = nested_rules(rules[i]) {
            lemma_nothing_to_merge(nested, context);
        }
    }
}

proof fn lemma_no_neighbours<T>(
    rules: Seq<RuleView<T>>,
    start: int,
    at: int,
    context: MinifyContext,
)
    requires
        0 <= start <= at < rules.len() - 1,
        neighbours_from(rules, start, context) == Ok::<bool, MinifyError>(false),
    ensures
        adjacent(rules[at], rules[at + 1], context) == Ok::<bool, MinifyError>(false),
    decreases at - start,
{
    if start < at {
        lemma_no_neighbours(rules, start + 1, at, context);
    }
}

proof fn lemma_no_nested_neighbours<T>(
    rules: Seq<RuleView<T>>,
    start: int,
    at: int,
    context: MinifyContext,
)
    requires
        0 <= start <= at < rules.len(),
        nested_from(rules, start, context) == Ok::<bool, MinifyError>(false),
    ensures
        nested_rules(rules[at]) matches Some(nested) ==> mergeable(nested, context) == Ok::<
            bool,
            MinifyError,
        >(false),
    decreases at - start,
{
    if start < at {
        lemma_no_nested_neighbours(rules, start + 1, at, context);
    }
}

/// Whether no run below the node is empty, no two runs follow each other, and
/// every node below it holds something and can match.
pub open spec fn full<T>(node: TreeView<T>) -> bool
    decreases node,
{
    forall|i: int|
        0 <= i < node.items.len() ==> match #[trigger] node.items[i] {
            ItemView::Declarations(run) => run.len() > 0 && (i > 0 ==> node.items[i - 1]
                !is Declarations),
            ItemView::Child(child) => {
                &&& child.items.len() > 0
                &&& child.key is Some
                &&& !matches_nothing(child.key->Some_0)
                &&& full(child)
            },
            ItemView::Barrier(_) => true,
        }
}

/// Whether the node stands for selectors.
pub open spec fn is_style<T>(node: TreeView<T>) -> bool {
    node.key is Some && node.key->Some_0 is Selector
}

/// Whether the first item is a run of declarations.
pub open spec fn starts_with_run<T>(node: TreeView<T>) -> bool {
    node.items.len() > 0 && node.items[0] is Declarations
}

/// Whether the items at `index` and behind it are nodes with the same key, and
/// are not kept apart by their declarations.
pub open spec fn child_clash<T>(
    items: Seq<ItemView<T>>,
    index: int,
    context: MinifyContext,
) -> bool {
    &&& 0 <= index < items.len() - 1
    &&& items[index] is Child
    &&& items[index + 1] is Child
    &&& items[index]->Child_0.key == items[index + 1]->Child_0.key
    &&& !(!may_reuse(context) && is_style(items[index]->Child_0)
        && items[index]->Child_0.has_declarations() && starts_with_run(items[index + 1]->Child_0))
}

/// Whether no two neighbouring nodes below the node have the same key, unless
/// their declarations keep them apart.
pub open spec fn nodes_apart<T>(node: TreeView<T>, context: MinifyContext) -> bool
    decreases node,
{
    &&& forall|i: int| !#[trigger] child_clash(node.items, i, context)
    &&& forall|i: int|
        0 <= i < node.items.len() ==> match #[trigger] node.items[i] {
            ItemView::Child(child) => nodes_apart(child, context),
            _ => true,
        }
}

/// Inserting properties makes no run shorter.
pub proof fn lemma_properties_length(
    run: Seq<DeclarationView>,
    properties: Seq<PropertyView>,
    important: bool,
    dedupe: bool,
    count: nat,
)
    ensures
        insert_properties(run, properties, important, dedupe, count).len() >= run.len(),
        count > 0 ==> insert_properties(run, properties, important, dedupe, count).len() > 0,
    decreases count,
{
    if count > 0 {
        lemma_properties_length(run, properties, important, dedupe, (count - 1) as nat);
        let before = insert_properties(run, properties, important, dedupe, (count - 1) as nat);
        lemma_last_slot(before, properties[count - 1].id.key, important, before.len());
    }
}

proof fn lemma_with_block_full<T>(node: TreeView<T>, block: BlockView, dedupe: bool)
    requires
        full(node),
    ensures
        full(node.with_block(block, dedupe)),
        node.with_block(block, dedupe).items.len() >= node.items.len(),
        !block.is_empty() ==> node.with_block(block, dedupe).items.len() > 0,
{
    let after = node.with_block(block, dedupe);
    if !block.is_empty() {
        let run = if node.items.len() > 0 && node.items.last() is Declarations {
            node.items.last()->Declarations_0
        } else {
            seq![]
        };
        let normal = insert_properties(run, block.normal, false, dedupe, block.normal.len());
        lemma_properties_length(run, block.normal, false, dedupe, block.normal.len());
        lemma_properties_length(normal, block.important, true, dedupe, block.important.len());
        assert(insert_block(run, block, dedupe).len() > 0);
        assert forall|i: int| 0 <= i < after.items.len() implies match #[trigger] after.items[i] {
            ItemView::Declarations(run) => run.len() > 0 && (i > 0 ==> after.items[i - 1]
                !is Declarations),
            ItemView::Child(child) => {
                &&& child.items.len() > 0
                &&& child.key is Some
                &&& !matches_nothing(child.key->Some_0)
                &&& full(child)
            },
            ItemView::Barrier(_) => true,
        } by {
            if i < node.items.len() {
                assert(node.items[i] is Declarations || after.items[i] == node.items[i]);
            }
            if i > 0 {
                assert(after.items[i - 1] == node.items[i - 1]);
            }
        }
    }
}

proof fn lemma_with_child_full<T>(node: TreeView<T>, reuse: bool, child: TreeView<T>)
    requires
        full(node),
        reuse ==> node.items.len() > 0 && node.items.last() is Child,
        child.items.len() > 0,
        child.key is Some,
        !matches_nothing(child.key->Some_0),
        full(child),
    ensures
        full(node.with_child(reuse, child)),
{
    let after = node.with_child(reuse, child);
    assert forall|i: int| 0 <= i < after.items.len() implies match #[trigger] after.items[i] {
        ItemView::Declarations(run) => run.len() > 0 && (i > 0 ==> after.items[i - 1]
            !is Declarations),
        ItemView::Child(child) => {
            &&& child.items.len() > 0
            &&& child.key is Some
            &&& !matches_nothing(child.key->Some_0)
            &&& full(child)
        },
        ItemView::Barrier(_) => true,
    } by {
        if i < after.items.len() - 1 {
            assert(after.items[i] == node.items[i]);
            if i > 0 {
                assert(after.items[i - 1] == node.items[i - 1]);
            }
        }
    }
}

/// The node that a rule goes into is as good as the one that it is below.
proof fn lemma_target_full<T>(node: TreeView<T>, reuse: bool, key: KeyView, loc: Location)
    requires
        full(node),
        reuse ==> node.ends_with(key),
    ensures
        full(node.target(reuse, key, loc)),
{
    if reuse {
        assert(node.items[node.items.len() - 1] == ItemView::Child(node.target(reuse, key, loc)));
    }
}

/// A rule that says something leaves no empty run or node behind.
proof fn lemma_insert_full<T>(
    node: TreeView<T>,
    rule: RuleView<T>,
    dedupe: bool,
    context: MinifyContext,
)
    requires
        full(node),
        substantial(rule),
        node.insert_rule(rule, dedupe, context).1 is Ok,
    ensures
        full(node.insert_rule(rule, dedupe, context).0),
        node.insert_rule(rule, dedupe, context).0.items.len() > 0,
    decreases rule, 0nat,
{
    let after = node.insert_rule(rule, dedupe, context).0;
    match rule {
        RuleView::AtRule { prelude, rules, loc } => {
            let key = at_rule_key(prelude, loc, context)->Ok_0;
            let reuse = node.ends_with(key);
            let target = node.target(reuse, key, loc);
            let child = target.with_query(prelude);
            lemma_target_full(node, reuse, key, loc);
            assert(full(child));
            lemma_insert_list_full(child, rules, rules.len(), dedupe, context);
            lemma_insert_list_keeps_head(child, rules, rules.len(), dedupe, context);
            lemma_with_child_full(
                node,
                reuse,
                child.insert_rules(rules, rules.len(), dedupe, context).0,
            );
        },
        RuleView::Style { selectors, vendor_prefix, block, rules, loc } => {
            let key = KeyView::Selector {
                selectors,
                vendor_prefix,
                source_index: loc.source_index,
            };
            let reuse = node.reuses_style(key, block, context);
            let target = node.target(reuse, key, loc);
            let child = target.with_block(block, dedupe);
            lemma_target_full(node, reuse, key, loc);
            lemma_with_block_full(target, block, dedupe);
            lemma_insert_list_full(child, rules, rules.len(), dedupe, context);
            lemma_insert_list_keeps_head(child, rules, rules.len(), dedupe, context);
            lemma_with_child_full(
                node,
                reuse,
                child.insert_rules(rules, rules.len(), dedupe, context).0,
            );
        },
        RuleView::NestedDeclarations { block, loc: _ } => {
            lemma_with_block_full(node, block, dedupe);
        },
        RuleView::Other(payload) => {
            assert forall|i: int| 0 <= i < after.items.len() implies match
            #[trigger] after.items[i] {
                ItemView::Declarations(run) => run.len() > 0 && (i > 0 ==> after.items[i - 1]
                    !is Declarations),
                ItemView::Child(child) => {
                    &&& child.items.len() > 0
                    &&& child.key is Some
                    &&& !matches_nothing(child.key->Some_0)
                    &&& full(child)
                },
                ItemView::Barrier(_) => true,
            } by {
                if i < node.items.len() {
                    assert(after.items[i] == node.items[i]);
                    if i > 0 {
                        assert(after.items[i - 1] == node.items[i - 1]);
                    }
                }
            }
        },
    }
}

/// Rules that say something leave no empty run or node behind.
pub proof fn lemma_insert_list_full<T>(
    node: TreeView<T>,
    rules: Seq<RuleView<T>>,
    count: nat,
    dedupe: bool,
    context: MinifyContext,
)
    requires
        full(node),
        forall|i: int| 0 <= i < rules.len() ==> substantial(#[trigger] rules[i]),
        node.insert_rules(rules, count, dedupe, context).1 is Ok,
        count <= rules.len(),
    ensures
        full(node.insert_rules(rules, count, dedupe, context).0),
        node.items.len() > 0 || count > 0 ==> node.insert_rules(
            rules,
            count,
            dedupe,
            context,
        ).0.items.len() > 0,
    decreases rules, count,
{
    if count > 0 {
        lemma_insert_list_full(node, rules, (count - 1) as nat, dedupe, context);
        let before = node.insert_rules(rules, (count - 1) as nat, dedupe, context).0;
        lemma_insert_full(before, rules[count - 1], dedupe, context);
    }
}

/// Taking in what holds no empty run or node leaves none behind.
pub proof fn lemma_take_in_full<T>(node: TreeView<T>, other: TreeView<T>, count: nat)
    requires
        full(node),
        full(other),
        count <= other.items.len(),
    ensures
        full(node.take_in(other, count)),
        node.items.len() > 0 || count > 0 ==> node.take_in(other, count).items.len() > 0,
    decreases other, count,
{
    if count > 0 {
        let before = node.take_in(other, (count - 1) as nat);
        let items = before.items;
        let after = node.take_in(other, count);
        lemma_take_in_full(node, other, (count - 1) as nat);
        match other.items[count - 1] {
            ItemView::Declarations(run) => {
                lemma_earlier_run(items, run, items.len());
                let place = earlier_run(items, run, items.len());
                if place >= 0 {
                    assert(before.items[place] is Declarations);
                    lemma_run_length(items[place]->Declarations_0, run, run.len());
                }
                assert forall|i: int| 0 <= i < after.items.len() implies match
                #[trigger] after.items[i] {
                    ItemView::Declarations(run) => run.len() > 0 && (i > 0 ==> after.items[i - 1]
                        !is Declarations),
                    ItemView::Child(child) => {
                        &&& child.items.len() > 0
                        &&& child.key is Some
                        &&& !matches_nothing(child.key->Some_0)
                        &&& full(child)
                    },
                    ItemView::Barrier(_) => true,
                } by {
                    if i < items.len() {
                        assert(before.items[i] is Declarations == after.items[i] is Declarations);
                        assert(before.items[i] is Declarations || after.items[i]
                            == before.items[i]);
                    }
                    if i > 0 {
                        assert(before.items[i - 1] is Declarations == after.items[i - 1]
                            is Declarations);
                    }
                }
            },
            ItemView::Child(child) => {
                let reuse = before.ends_like(child);
                let target = if reuse {
                    items.last()->Child_0
                } else {
                    child.hollow()
                };
                if reuse {
                    assert(before.items[items.len() - 1] == ItemView::Child(target));
                }
                assert(full(target));
                lemma_take_in_full(target, child, child.items.len());
                lemma_take_in_keeps_head(target, child, child.items.len());
                lemma_with_child_full(before, reuse, target.take_in(child, child.items.len()));
            },
            ItemView::Barrier(_) => {
                assert forall|i: int| 0 <= i < after.items.len() implies match
                #[trigger] after.items[i] {
                    ItemView::Declarations(run) => run.len() > 0 && (i > 0 ==> after.items[i - 1]
                        !is Declarations),
                    ItemView::Child(child) => {
                        &&& child.items.len() > 0
                        &&& child.key is Some
                        &&& !matches_nothing(child.key->Some_0)
                        &&& full(child)
                    },
                    ItemView::Barrier(_) => true,
                } by {
                    if i < items.len() {
                        assert(after.items[i] == before.items[i]);
                        if i > 0 {
                            assert(after.items[i - 1] == before.items[i - 1]);
                        }
                    }
                }
            },
        }
    }
}

/// Taking in items leaves no neighbours with the same key.
pub proof fn lemma_take_in_apart<T>(
    node: TreeView<T>,
    other: TreeView<T>,
    count: nat,
    context: MinifyContext,
)
    requires
        nodes_apart(node, context),
        full(other),
        count <= other.items.len(),
    ensures
        nodes_apart(node.take_in(other, count), context),
        starts_with_run(node) ==> starts_with_run(node.take_in(other, count)),
    decreases other, count,
{
    if count > 0 {
        let before = node.take_in(other, (count - 1) as nat);
        let items = before.items;
        let after = node.take_in(other, count);
        lemma_take_in_apart(node, other, (count - 1) as nat, context);
        match other.items[count - 1] {
            ItemView::Declarations(run) => {
                lemma_earlier_run(items, run, items.len());
                assert forall|i: int| !#[trigger] child_clash(after.items, i, context) by {
                    assert(!child_clash(items, i, context));
                    if 0 <= i < after.items.len() - 1 && after.items[i] is Child && after.items[i
                        + 1] is Child {
                        assert(after.items[i] == items[i]);
                        assert(after.items[i + 1] == items[i + 1]);
                    }
                }
                assert forall|i: int| 0 <= i < after.items.len() implies match
                #[trigger] after.items[i] {
                    ItemView::Child(child) => nodes_apart(child, context),
                    _ => true,
                } by {
                    if after.items[i] is Child {
                        assert(after.items[i] == before.items[i]);
                    }
                }
            },
            ItemView::Child(child) => {
                let reuse = before.ends_like(child);
                let target = if reuse {
                    items.last()->Child_0
                } else {
                    child.hollow()
                };
                if reuse {
                    assert(before.items[items.len() - 1] == ItemView::Child(target));
                }
                assert(nodes_apart(target, context));
                lemma_take_in_apart(target, child, child.items.len(), context);
                lemma_take_in_keeps_head(target, child, child.items.len());
                lemma_with_child_apart(
                    before,
                    reuse,
                    target.take_in(child, child.items.len()),
                    context,
                );
            },
            ItemView::Barrier(_) => {
                assert forall|i: int| !#[trigger] child_clash(after.items, i, context) by {
                    assert(!child_clash(items, i, context));
                }
            },
        }
    }
}

proof fn lemma_run_length(run: Seq<DeclarationView>, added: Seq<DeclarationView>, count: nat)
    ensures
        insert_run(run, added, count).len() >= run.len(),
    decreases count,
{
    if count > 0 {
        let before = insert_run(run, added, (count - 1) as nat);
        lemma_run_length(run, added, (count - 1) as nat);
        let last = added[count - 1];
        lemma_last_slot(before, last.property.id.key, last.important, before.len());
    }
}

/// With a node in the place of the last one, or behind it, that does not clash
/// with the one in front, nodes stay apart.
proof fn lemma_with_child_apart<T>(
    node: TreeView<T>,
    reuse: bool,
    child: TreeView<T>,
    context: MinifyContext,
)
    requires
        nodes_apart(node, context),
        nodes_apart(child, context),
        reuse ==> {
            &&& node.items.len() > 0
            &&& node.items.last() is Child
            &&& child.key == node.items.last()->Child_0.key
            &&& starts_with_run(node.items.last()->Child_0) ==> starts_with_run(child)
        },
        !reuse && node.items.len() > 0 ==> !child_clash(
            node.items.push(ItemView::Child(child)),
            node.items.len() - 1,
            context,
        ),
    ensures
        nodes_apart(node.with_child(reuse, child), context),
{
    let after = node.with_child(reuse, child);
    assert forall|i: int| !#[trigger] child_clash(after.items, i, context) by {
        assert(!child_clash(node.items, i, context));
        if 0 <= i < after.items.len() - 1 {
            assert(after.items[i] == node.items[i]);
        }
    }
    assert forall|i: int| 0 <= i < after.items.len() implies match #[trigger] after.items[i] {
        ItemView::Child(child) => nodes_apart(child, context),
        _ => true,
    } by {
        if i < after.items.len() - 1 {
            assert(after.items[i] == node.items[i]);
        }
    }
}

proof fn lemma_with_block_apart<T>(
    node: TreeView<T>,
    block: BlockView,
    dedupe: bool,
    context: MinifyContext,
)
    requires
        nodes_apart(node, context),
    ensures
        nodes_apart(node.with_block(block, dedupe), context),
        starts_with_run(node) ==> starts_with_run(node.with_block(block, dedupe)),
        node.items.len() > 0 ==> node.with_block(block, dedupe).items.len() > 0,
{
    let after = node.with_block(block, dedupe);
    assert forall|i: int| !#[trigger] child_clash(after.items, i, context) by {
        assert(!child_clash(node.items, i, context));
        if 0 <= i < after.items.len() - 1 && after.items[i + 1] is Child {
            assert(after.items[i] == node.items[i]);
            assert(after.items[i + 1] == node.items[i + 1]);
        }
    }
    assert forall|i: int| 0 <= i < after.items.len() implies match #[trigger] after.items[i] {
        ItemView::Child(child) => nodes_apart(child, context),
        _ => true,
    } by {
        if after.items[i] is Child {
            assert(after.items[i] == node.items[i]);
        }
    }
}

proof fn lemma_target_apart<T>(
    node: TreeView<T>,
    reuse: bool,
    key: KeyView,
    loc: Location,
    context: MinifyContext,
)
    requires
        nodes_apart(node, context),
        reuse ==> node.ends_with(key),
    ensures
        nodes_apart(node.target(reuse, key, loc), context),
{
    if reuse {
        assert(node.items[node.items.len() - 1] == ItemView::Child(node.target(reuse, key, loc)));
    }
}

/// Inserting keeps nodes apart.
proof fn lemma_insert_apart<T>(
    node: TreeView<T>,
    rule: RuleView<T>,
    dedupe: bool,
    context: MinifyContext,
)
    requires
        nodes_apart(node, context),
    ensures
        nodes_apart(node.insert_rule(rule, dedupe, context).0, context),
        starts_with_run(node) ==> starts_with_run(node.insert_rule(rule, dedupe, context).0),
    decreases rule, 0nat,
{
    let after = node.insert_rule(rule, dedupe, context).0;
    match rule {
        RuleView::AtRule { prelude, rules, loc } => {
            if let Ok(key) = at_rule_key(prelude, loc, context) {
                let reuse = node.ends_with(key);
                let target = node.target(reuse, key, loc);
                let child = target.with_query(prelude);
                lemma_target_apart(node, reuse, key, loc, context);
                assert(nodes_apart(child, context));
                lemma_insert_list_apart(child, rules, rules.len(), dedupe, context);
                lemma_insert_list_keeps_head(child, rules, rules.len(), dedupe, context);
                lemma_with_child_apart(
                    node,
                    reuse,
                    child.insert_rules(rules, rules.len(), dedupe, context).0,
                    context,
                );
            }
        },
        RuleView::Style { selectors, vendor_prefix, block, rules, loc } => {
            let key = KeyView::Selector {
                selectors,
                vendor_prefix,
                source_index: loc.source_index,
            };
            let reuse = node.reuses_style(key, block, context);
            let target = node.target(reuse, key, loc);
            let child = target.with_block(block, dedupe);
            lemma_target_apart(node, reuse, key, loc, context);
            lemma_with_block_apart(target, block, dedupe, context);
            lemma_insert_list_apart(child, rules, rules.len(), dedupe, context);
            lemma_insert_list_keeps_head(child, rules, rules.len(), dedupe, context);
            lemma_with_child_apart(
                node,
                reuse,
                child.insert_rules(rules, rules.len(), dedupe, context).0,
                context,
            );
        },
        RuleView::NestedDeclarations { block, loc: _ } => {
            lemma_with_block_apart(node, block, dedupe, context);
        },
        RuleView::Other(_) => {
            assert forall|i: int| !#[trigger] child_clash(after.items, i, context) by {
                assert(!child_clash(node.items, i, context));
            }
        },
    }
}

/// Inserting keeps nodes apart.
pub proof fn lemma_insert_list_apart<T>(
    node: TreeView<T>,
    rules: Seq<RuleView<T>>,
    count: nat,
    dedupe: bool,
    context: MinifyContext,
)
    requires
        nodes_apart(node, context),
    ensures
        nodes_apart(node.insert_rules(rules, count, dedupe, context).0, context),
        starts_with_run(node) ==> starts_with_run(
            node.insert_rules(rules, count, dedupe, context).0,
        ),
    decreases rules, count,
{
    if count > 0 && count <= rules.len() {
        lemma_insert_list_apart(node, rules, (count - 1) as nat, dedupe, context);
        let before = node.insert_rules(rules, (count - 1) as nat, dedupe, context).0;
        lemma_insert_apart(before, rules[count - 1], dedupe, context);
    }
}

/// Whether the rule is what the item of a node at `loc` is printed as.
pub open spec fn printed_as<T>(item: ItemView<T>, rule: RuleView<T>, loc: Location) -> bool {
    match item {
        ItemView::Declarations(run) => rule == (RuleView::<T>::NestedDeclarations {
            block: run_block(run),
            loc,
        }),
        ItemView::Child(child) => child.print() == Some(rule),
        ItemView::Barrier(payload) => rule == RuleView::Other(payload),
    }
}

/// Leading declarations of which the first says something say something.
pub proof fn lemma_leading_block_full<T>(rules: Seq<RuleView<T>>, count: nat)
    requires
        0 < count <= rules.len(),
        rules[0] is NestedDeclarations,
        !rules[0]->NestedDeclarations_block.is_empty(),
    ensures
        !leading_block(rules, count).is_empty(),
    decreases count,
{
    if count > 1 {
        lemma_leading_block_full(rules, (count - 1) as nat);
    } else {
        assert(leading_block(rules, 0) == BlockView::empty());
    }
}

/// A node without empty runs and nodes is printed, item by item.
pub proof fn lemma_full_printed<T>(node: TreeView<T>, count: nat)
    requires
        full(node),
        count <= node.items.len(),
    ensures
        node.print_items(count).len() == count,
        forall|i: int|
            0 <= i < count ==> printed_as(
                node.items[i],
                #[trigger] node.print_items(count)[i],
                node.loc,
            ),
    decreases node, count,
{
    if count > 0 {
        lemma_full_printed(node, (count - 1) as nat);
        let before = node.print_items((count - 1) as nat);
        let item = node.items[count - 1];
        if let ItemView::Child(child) = item {
            lemma_full_child_printed(child);
        }
        assert forall|i: int| 0 <= i < count implies printed_as(
            node.items[i],
            #[trigger] node.print_items(count)[i],
            node.loc,
        ) by {
            if i < count - 1 {
                assert(node.print_items(count)[i] == before[i]);
            }
        }
    }
}

proof fn lemma_full_child_printed<T>(child: TreeView<T>)
    requires
        full(child),
        child.items.len() > 0,
        child.key is Some,
        !matches_nothing(child.key->Some_0),
    ensures
        child.print() is Some,
    decreases child, child.items.len() + 1,
{
    lemma_full_printed(child, child.items.len());
    let rules = child.print_all();
    assert(rules == child.print_items(child.items.len()));
    if is_style(child) {
        lemma_leading_ends(rules);
        if leading(rules) > 0 {
            lemma_first_run_printed(child);
            lemma_leading_block_full(rules, leading(rules));
        }
    }
}

/// Where the first printed rule is nested declarations, these say something.
proof fn lemma_first_run_printed<T>(node: TreeView<T>)
    requires
        full(node),
        node.items.len() > 0,
        node.print_items(node.items.len()).len() == node.items.len(),
        printed_as(node.items[0], node.print_items(node.items.len())[0], node.loc),
    ensures
        node.print_all()[0] is NestedDeclarations <==> node.items[0] is Declarations,
        node.print_all()[0] is NestedDeclarations
            ==> !node.print_all()[0]->NestedDeclarations_block.is_empty(),
{
    assert(node.print_all() == node.print_items(node.items.len()));
    if let ItemView::Declarations(run) = node.items[0] {
        lemma_run_block_not_empty(run, run.len());
    }
}

/// What is left of a list that is written as it would be printed is so too.
proof fn lemma_tidy_skip<T>(
    rules: Seq<RuleView<T>>,
    count: int,
    loc: Location,
    context: MinifyContext,
)
    requires
        0 <= count <= rules.len(),
    ensures
        tidy_list(rules, loc, context) ==> tidy_list(rules.skip(count), loc, context),
        keys_apart(rules, context) ==> keys_apart(rules.skip(count), context),
{
    let rest = rules.skip(count);
    if tidy_list(rules, loc, context) {
        assert forall|i: int| 0 <= i < rest.len() implies tidy(#[trigger] rest[i], loc, context) by {
            assert(rest[i] == rules[i + count]);
        }
        assert forall|i: int| !#[trigger] nested_pair(rest, i) by {
            assert(!nested_pair(rules, i + count));
        }
    }
    if keys_apart(rules, context) {
        assert forall|i: int| !#[trigger] key_clash(rest, i, context) by {
            assert(!key_clash(rules, i + count, context));
        }
        assert forall|i: int| 0 <= i < rest.len() implies match nested_rules(#[trigger] rest[i]) {
            Some(nested) => keys_apart(nested, context),
            None => true,
        } by {
            assert(rest[i] == rules[i + count]);
        }
    }
}

/// A node is printed as a rule with its key.
proof fn lemma_printed_key<T>(child: TreeView<T>, context: MinifyContext)
    requires
        head_coherent(child, context),
        child.print() is Some,
    ensures
        rule_key(child.print()->Some_0, context) == child.key,
{
    lemma_rule_step(child.print()->Some_0, context);
}

/// What is printed is written as it would be printed.
pub proof fn lemma_printed_tidy<T>(node: TreeView<T>, context: MinifyContext)
    requires
        full(node),
        coherent(node, context),
    ensures
        tidy_list(node.print_all(), node.loc, context),
    decreases node,
{
    let rules = node.print_all();
    lemma_full_printed(node, node.items.len());
    assert(rules == node.print_items(node.items.len()));
    assert forall|i: int| 0 <= i < rules.len() implies tidy(#[trigger] rules[i], node.loc, context)
        by {
        assert(printed_as(node.items[i], node.print_items(node.items.len())[i], node.loc));
        match node.items[i] {
            ItemView::Declarations(run) => {
                lemma_run_block_not_empty(run, run.len());
            },
            ItemView::Child(child) => {
                let inner = child.print_all();
                lemma_printed_tidy(child, context);
                lemma_printed_key(child, context);
                lemma_full_printed(child, child.items.len());
                lemma_leading_ends(inner);
                lemma_tidy_skip(inner, leading(inner) as int, child.loc, context);
            },
            ItemView::Barrier(_) => {},
        }
    }
    assert forall|i: int| !#[trigger] nested_pair(rules, i) by {
        if nested_pair(rules, i) {
            assert(printed_as(node.items[i], node.print_items(node.items.len())[i], node.loc));
            assert(printed_as(
                node.items[i + 1],
                node.print_items(node.items.len())[i + 1],
                node.loc,
            ));
            assert(node.items[i + 1] is Declarations);
        }
    }
}

/// Nodes that are apart are printed as rules that are apart.
pub proof fn lemma_printed_apart<T>(node: TreeView<T>, context: MinifyContext)
    requires
        full(node),
        coherent(node, context),
        nodes_apart(node, context),
    ensures
        keys_apart(node.print_all(), context),
    decreases node,
{
    let rules = node.print_all();
    lemma_full_printed(node, node.items.len());
    assert(rules == node.print_items(node.items.len()));
    assert forall|i: int| 0 <= i < rules.len() implies match nested_rules(#[trigger] rules[i]) {
        Some(nested) => keys_apart(nested, context),
        None => true,
    } by {
        assert(printed_as(node.items[i], node.print_items(node.items.len())[i], node.loc));
        if let ItemView::Child(child) = node.items[i] {
            let inner = child.print_all();
            lemma_printed_apart(child, context);
            lemma_leading_ends(inner);
            lemma_tidy_skip(inner, leading(inner) as int, child.loc, context);
        }
    }
    assert forall|i: int| !#[trigger] key_clash(rules, i, context) by {
        if key_clash(rules, i, context) {
            assert(printed_as(node.items[i], node.print_items(node.items.len())[i], node.loc));
            assert(printed_as(
                node.items[i + 1],
                node.print_items(node.items.len())[i + 1],
                node.loc,
            ));
            assert(node.items[i] is Child && node.items[i + 1] is Child);
            let first = node.items[i]->Child_0;
            let second = node.items[i + 1]->Child_0;
            lemma_printed_key(first, context);
            lemma_printed_key(second, context);
            assert(!child_clash(node.items, i, context));
            lemma_printed_bears(first);
            lemma_full_printed(second, second.items.len());
            assert(printed_as(
                second.items[0],
                second.print_items(second.items.len())[0],
                second.loc,
            ));
            lemma_first_run_printed(second);
            let inner = second.print_all();
            lemma_leading_ends(inner);
            lemma_leading_block_full(inner, leading(inner));
        }
    }
}

/// A node with declarations of its own is printed as a rule with such.
proof fn lemma_printed_bears<T>(child: TreeView<T>)
    requires
        full(child),
        child.has_declarations(),
        is_style(child),
        child.print() is Some,
    ensures
        bears_declarations(child.print()->Some_0),
{
    let rule = child.print()->Some_0;
    let inner = child.print_all();
    lemma_full_printed(child, child.items.len());
    lemma_leading_ends(inner);
    let i = choose|i: int|
        0 <= i < child.items.len() && ((#[trigger] child.items[i]) matches ItemView::Declarations(
            run,
        ) && run.len() > 0);
    assert(printed_as(child.items[i], child.print_items(child.items.len())[i], child.loc));
    assert(inner[i] is NestedDeclarations);
    if leading(inner) > 0 {
        assert(printed_as(child.items[0], child.print_items(child.items.len())[0], child.loc));
        lemma_first_run_printed(child);
        lemma_leading_block_full(inner, leading(inner));
    } else {
        assert(rule->Style_rules[i] == inner[i]);
    }
}

/// Without dedupe, all blocks come back from runs that they are inserted into.
pub proof fn lemma_blocks_settled<T>(rule: RuleView<T>)
    ensures
        blocks_settled(rule, false),
    decreases rule,
{
    if let Some(nested) = nested_rules(rule) {
        assert forall|i: int| 0 <= i < nested.len() implies blocks_settled(
            #[trigger] nested[i],
            false,
        ) by {
            lemma_blocks_settled(nested[i]);
        }
    }
    match rule {
        RuleView::Style { selectors: _, vendor_prefix: _, block, rules: _, loc: _ } => {
            law_without_dedupe_a_block_comes_back(block);
        },
        RuleView::NestedDeclarations { block, loc: _ } => {
            law_without_dedupe_a_block_comes_back(block);
        },
        _ => {},
    }
}

/// Where declarations may be joined and neighbours have different keys, nothing
/// can be merged.
pub proof fn lemma_apart_is_not_mergeable<T>(
    rules: Seq<RuleView<T>>,
    loc: Location,
    context: MinifyContext,
)
    requires
        may_reuse(context),
        tidy_list(rules, loc, context),
        keys_apart(rules, context),
    ensures
        mergeable(rules, context) == Ok::<bool, MinifyError>(false),
    decreases rules, rules.len() + 1,
{
    lemma_apart_no_neighbours(rules, loc, 0, context);
    lemma_apart_no_nested(rules, loc, 0, context);
}

proof fn lemma_apart_no_neighbours<T>(
    rules: Seq<RuleView<T>>,
    loc: Location,
    start: int,
    context: MinifyContext,
)
    requires
        may_reuse(context),
        tidy_list(rules, loc, context),
        keys_apart(rules, context),
        0 <= start,
    ensures
        neighbours_from(rules, start, context) == Ok::<bool, MinifyError>(false),
    decreases rules.len() - start,
{
    if start + 1 < rules.len() {
        lemma_apart_no_neighbours(rules, loc, start + 1, context);
        lemma_rule_step(rules[start], context);
        lemma_rule_step(rules[start + 1], context);
        assert(!key_clash(rules, start, context));
        assert(tidy(rules[start], loc, context));
        assert(tidy(rules[start + 1], loc, context));
    }
}

proof fn lemma_apart_no_nested<T>(
    rules: Seq<RuleView<T>>,
    loc: Location,
    start: nat,
    context: MinifyContext,
)
    requires
        may_reuse(context),
        tidy_list(rules, loc, context),
        keys_apart(rules, context),
        start <= rules.len(),
    ensures
        nested_from(rules, start as int, context) == Ok::<bool, MinifyError>(false),
    decreases rules, rules.len() - start,
{
    if start < rules.len() {
        lemma_apart_no_nested(rules, loc, start + 1, context);
        let rule = rules[start as int];
        assert(tidy(rule, loc, context));
        match rule {
            RuleView::AtRule { prelude: _, rules: nested, loc: own } => {
                lemma_apart_is_not_mergeable(nested, own, context);
            },
            RuleView::Style {
                selectors: _,
                vendor_prefix: _,
                block: _,
                rules: nested,
                loc: own,
            } => {
                lemma_apart_is_not_mergeable(nested, own, context);
            },
            _ => {},
        }
    }
}

/// A rule that is written as it would be printed has no query that cannot be
/// normalized.
pub proof fn lemma_tidy_never_fails<T>(
    rule: RuleView<T>,
    loc: Location,
    error: MinifyError,
    context: MinifyContext,
)
    requires
        tidy(rule, loc, context),
    ensures
        !fails(rule, error, context),
    decreases rule,
{
    if let Some(nested) = nested_rules(rule) {
        let own = match rule {
            RuleView::AtRule { prelude: _, rules: _, loc } => loc,
            RuleView::Style { selectors: _, vendor_prefix: _, block: _, rules: _, loc } => loc,
            _ => loc,
        };
        assert(tidy_list(nested, own, context));
        assert forall|i: int| 0 <= i < nested.len() implies !fails(
            #[trigger] nested[i],
            error,
            context,
        ) by {
            lemma_tidy_never_fails(nested[i], own, error, context);
        }
    }
}

} // verus!
