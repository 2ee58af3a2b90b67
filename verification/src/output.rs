//! What a merged list looks like.
use crate::arena::block_declarations;
use crate::context::may_reuse;
use crate::context::MinifyContext;
use crate::context::MinifyError;
use crate::declaration::BlockView;
use crate::declaration::PropertyIdView;
use crate::declaration::PropertyKey;
use crate::declaration::PropertyView;
use crate::declaration_set::lemma_last_slot;
use crate::laws::lemma_run_block_not_empty;
use crate::laws::substantial;
use crate::merge::finished;
use crate::merge::merged;
use crate::merge::rule_tree;
use crate::mergeable::mergeable;
use crate::model::at_rule_key;
use crate::model::earlier_run;
use crate::model::insert_declaration;
use crate::model::insert_run;
use crate::model::join_run;
use crate::model::leading;
use crate::model::leading_block;
use crate::model::lemma_earlier_run;
use crate::model::of_importance;
use crate::model::run_block;
use crate::model::DeclarationView;
use crate::model::ItemView;
use crate::model::KeyView;
use crate::model::TreeView;
use crate::operations::crossable;
use crate::operations::lemma_crossable;
use crate::preservation::lemma_insert_list_coherent;
use crate::preservation::lemma_insert_list_keeps_head;
use crate::preservation::lemma_take_in_coherent;
use crate::preservation::lemma_take_in_keeps_head;
use crate::rules::RuleView;
use crate::run_laws::compact;
use crate::run_laws::declared_by;
use crate::run_laws::law_equal_properties_are_parted;
use crate::run_laws::law_joined_runs_are_parted;
use crate::run_laws::meet;
use crate::run_laws::parted;
use crate::settled::full;
use crate::settled::keys_apart;
use crate::settled::lemma_full_printed;
use crate::settled::lemma_insert_list_apart;
use crate::settled::lemma_insert_list_full;
use crate::settled::lemma_leading_ends;
use crate::settled::lemma_printed_apart;
use crate::settled::lemma_printed_tidy;
use crate::settled::lemma_take_in_apart;
use crate::settled::lemma_take_in_full;
use crate::settled::printed_as;
use crate::settled::tidy_list;
use crate::terms::bound;
use crate::terms::clash;
use crate::terms::silent;
use crate::values::Location;
use vstd::prelude::*;

verus! {

/// Whether the rule, in one at `loc`, is written as merging writes rules: it
/// says something, the declarations of a style rule in front of the first rule
/// nested in it are its own, and other nested declarations have the location of
/// the rule around them.
pub open spec fn written<T>(rule: RuleView<T>, loc: Location) -> bool
    decreases rule,
{
    match rule {
        RuleView::AtRule { prelude: _, rules, loc: own } => {
            &&& rules.len() > 0
            &&& forall|i: int| 0 <= i < rules.len() ==> written(#[trigger] rules[i], own)
        },
        RuleView::Style { selectors, vendor_prefix: _, block, rules, loc: own } => {
            &&& selectors.len() > 0
            &&& !silent(block) || rules.len() > 0
            &&& rules.len() > 0 ==> rules[0] !is NestedDeclarations
            &&& forall|i: int| 0 <= i < rules.len() ==> written(#[trigger] rules[i], own)
        },
        RuleView::NestedDeclarations { block, loc: own } => !silent(block) && own == loc,
        RuleView::Other(_) => true,
    }
}

pub proof fn lemma_items_written<T>(node: TreeView<T>, count: nat)
    ensures
        forall|i: int|
            0 <= i < node.print_items(count).len() ==> written(
                #[trigger] node.print_items(count)[i],
                node.loc,
            ),
    decreases node, count,
{
    if count > 0 && count <= node.items.len() {
        let before = node.print_items((count - 1) as nat);
        let printed = node.print_items(count);
        lemma_items_written(node, (count - 1) as nat);
        match node.items[count - 1] {
            ItemView::Declarations(run) => {
                if run.len() > 0 {
                    lemma_run_block_not_empty(run, run.len());
                }
            },
            ItemView::Child(child) => {
                lemma_node_written(child, node.loc);
            },
            ItemView::Barrier(_) => {},
        }
        assert forall|i: int| 0 <= i < printed.len() implies written(
            #[trigger] printed[i],
            node.loc,
        ) by {
            if i < before.len() {
                assert(printed[i] == before[i]);
            }
        }
    }
}

proof fn lemma_node_written<T>(node: TreeView<T>, loc: Location)
    ensures
        node.print() matches Some(rule) ==> written(rule, loc),
    decreases node, node.items.len() + 1,
{
    lemma_items_written(node, node.items.len());
    let printed = node.print_all();
    assert(printed == node.print_items(node.items.len()));
    if let Some(RuleView::Style { selectors: _, vendor_prefix: _, block: _, rules, loc: _ }) =
        node.print() {
        let start = leading(printed);
        lemma_leading_ends(printed);
        assert forall|i: int| 0 <= i < rules.len() implies written(#[trigger] rules[i], node.loc) by {
            assert(rules[i] == printed[i + start]);
        }
    }
}

/// Every rule of a list that has been merged, at any depth, says something. The
/// declarations of a style rule in front of the first rule nested in it are its
/// own, and other nested declarations have the location of the rule around them.
pub proof fn law_merged_lists_are_written_alike<T>(rules: Seq<RuleView<T>>, context: MinifyContext)
    requires
        !context.css_modules,
        mergeable(rules, context) == Ok::<bool, MinifyError>(true),
    ensures
        forall|i: int|
            0 <= i < merged(rules, context).1.len() ==> written(
                #[trigger] merged(rules, context).1[i],
                Location { source_index: 0, line: 0, column: 0 },
            ),
{
    let root = TreeView::<T>::root();
    let dedupe = may_reuse(context);
    let tree = rule_tree(rules, context).0;
    let printed = finished(tree, context);
    lemma_insert_list_keeps_head(root, rules, rules.len(), dedupe, context);
    lemma_take_in_keeps_head(tree.hollow(), tree, tree.items.len());
    lemma_items_written(printed, printed.items.len());
    assert(printed.print_all() == printed.print_items(printed.items.len()));
}

/// In a list without empty rules that has been merged, no two neighbours stand
/// for the same, at any depth, unless the declarations that both have keep them
/// apart, and no nested declarations follow others.
pub proof fn law_merged_neighbours_differ<T>(rules: Seq<RuleView<T>>, context: MinifyContext)
    requires
        !context.css_modules,
        mergeable(rules, context) == Ok::<bool, MinifyError>(true),
        merged(rules, context).0 is Ok,
        forall|i: int| 0 <= i < rules.len() ==> substantial(#[trigger] rules[i]),
    ensures
        keys_apart(merged(rules, context).1, context),
        tidy_list(
            merged(rules, context).1,
            Location { source_index: 0, line: 0, column: 0 },
            context,
        ),
{
    let root = TreeView::<T>::root();
    let dedupe = may_reuse(context);
    let tree = rule_tree(rules, context).0;
    let printed = finished(tree, context);
    lemma_insert_list_full(root, rules, rules.len(), dedupe, context);
    lemma_insert_list_apart(root, rules, rules.len(), dedupe, context);
    lemma_insert_list_coherent(root, rules, rules.len(), dedupe, context);
    if dedupe {
        lemma_take_in_full(tree.hollow(), tree, tree.items.len());
        lemma_take_in_apart(tree.hollow(), tree, tree.items.len(), context);
        lemma_take_in_coherent(tree.hollow(), tree, tree.items.len(), context);
    }
    lemma_printed_tidy(printed, context);
    lemma_printed_apart(printed, context);
    lemma_insert_list_keeps_head(root, rules, rules.len(), dedupe, context);
    lemma_take_in_keeps_head(tree.hollow(), tree, tree.items.len());
}

/// Whether all declarations in the block have the longhands that `ids` says.
pub open spec fn block_agrees(
    block: BlockView,
    ids: spec_fn(PropertyKey) -> PropertyIdView,
) -> bool {
    &&& forall|i: int|
        0 <= i < block.normal.len() ==> (#[trigger] block.normal[i]).id == ids(
            block.normal[i].id.key,
        )
    &&& forall|i: int|
        0 <= i < block.important.len() ==> (#[trigger] block.important[i]).id == ids(
            block.important[i].id.key,
        )
}

/// Whether all declarations in the rule, at any depth, have the longhands that
/// `ids` says.
pub open spec fn agrees<T>(
    rule: RuleView<T>,
    ids: spec_fn(PropertyKey) -> PropertyIdView,
) -> bool
    decreases rule,
{
    match rule {
        RuleView::AtRule { prelude: _, rules, loc: _ } => forall|i: int|
            0 <= i < rules.len() ==> agrees(#[trigger] rules[i], ids),
        RuleView::Style { selectors: _, vendor_prefix: _, block, rules, loc: _ } => {
            &&& block_agrees(block, ids)
            &&& forall|i: int| 0 <= i < rules.len() ==> agrees(#[trigger] rules[i], ids)
        },
        RuleView::NestedDeclarations { block, loc: _ } => block_agrees(block, ids),
        RuleView::Other(_) => true,
    }
}

/// Whether no declaration of one block has to do with one of the same importance
/// in the other.
pub open spec fn unbound(a: BlockView, b: BlockView) -> bool {
    &&& forall|i: int, j: int|
        0 <= i < a.normal.len() && 0 <= j < b.normal.len() ==> !bound(
            (#[trigger] a.normal[i]).id,
            (#[trigger] b.normal[j]).id,
        )
    &&& forall|i: int, j: int|
        0 <= i < a.important.len() && 0 <= j < b.important.len() ==> !bound(
            (#[trigger] a.important[i]).id,
            (#[trigger] b.important[j]).id,
        )
}

/// Whether the declarations of the block may be moved across the rule: it holds
/// no rule that nothing is merged across, at any depth, and no declaration that
/// has to do with one of them.
pub open spec fn passes<T>(rule: RuleView<T>, block: BlockView) -> bool
    decreases rule,
{
    match rule {
        RuleView::AtRule { prelude: _, rules, loc: _ } => forall|i: int|
            0 <= i < rules.len() ==> passes(#[trigger] rules[i], block),
        RuleView::Style { selectors: _, vendor_prefix: _, block: own, rules, loc: _ } => {
            &&& unbound(own, block)
            &&& forall|i: int| 0 <= i < rules.len() ==> passes(#[trigger] rules[i], block)
        },
        RuleView::NestedDeclarations { block: own, loc: _ } => unbound(own, block),
        RuleView::Other(_) => false,
    }
}

/// Whether something between the two, the second of which are nested
/// declarations, is in the way of these.
pub open spec fn held_back<T>(rules: Seq<RuleView<T>>, first: int, second: int) -> bool {
    exists|i: int|
        first < i < second && !passes(
            #[trigger] rules[i],
            rules[second]->NestedDeclarations_block,
        )
}

/// Whether all nested declarations in the list are held back from earlier ones,
/// and from those in front of the list if there are such.
pub open spec fn all_held_back<T>(rules: Seq<RuleView<T>>, led: bool) -> bool {
    forall|first: int, second: int|
        -1 <= first < second < rules.len() && rules[second] is NestedDeclarations && (if first
            < 0 {
            led
        } else {
            rules[first] is NestedDeclarations
        }) ==> #[trigger] held_back(rules, first, second)
}

/// Whether any two declarations of the same property have one between them that
/// sets something in common with the second.
pub open spec fn dense(properties: Seq<PropertyView>) -> bool {
    forall|first: int, second: int|
        0 <= first < second < properties.len() && (#[trigger] properties[first]).id.key == (
        #[trigger] properties[second]).id.key ==> exists|i: int|
            first < i < second && clash((#[trigger] properties[i]).id, properties[second].id)
}

/// Whether nothing is left to do in the rule: every block of declarations is
/// [`dense`], and nested declarations are held back from earlier ones.
pub open spec fn joined_up<T>(rule: RuleView<T>) -> bool
    decreases rule,
{
    match rule {
        RuleView::AtRule { prelude: _, rules, loc: _ } => {
            &&& all_held_back(rules, false)
            &&& forall|i: int| 0 <= i < rules.len() ==> joined_up(#[trigger] rules[i])
        },
        RuleView::Style { selectors: _, vendor_prefix: _, block, rules, loc: _ } => {
            &&& dense(block.normal)
            &&& dense(block.important)
            &&& all_held_back(rules, !silent(block))
            &&& forall|i: int| 0 <= i < rules.len() ==> joined_up(#[trigger] rules[i])
        },
        RuleView::NestedDeclarations { block, loc: _ } => dense(block.normal) && dense(
            block.important,
        ),
        RuleView::Other(_) => true,
    }
}

/// Whether the runs below the node hold no declaration that another could have
/// taken the place of, and have the longhands that `ids` says.
spec fn orderly<T>(node: TreeView<T>, ids: spec_fn(PropertyKey) -> PropertyIdView) -> bool
    decreases node,
{
    forall|i: int|
        0 <= i < node.items.len() ==> match #[trigger] node.items[i] {
            ItemView::Declarations(run) => declared_by(run, ids) && compact(run),
            ItemView::Child(child) => orderly(child, ids),
            ItemView::Barrier(_) => true,
        }
}

proof fn lemma_with_block_orderly<T>(
    node: TreeView<T>,
    block: BlockView,
    ids: spec_fn(PropertyKey) -> PropertyIdView,
)
    requires
        orderly(node, ids),
        block_agrees(block, ids),
    ensures
        orderly(node.with_block(block, true), ids),
{
    let after = node.with_block(block, true);
    let all = block_declarations(block);
    assert forall|i: int| 0 <= i < all.len() implies (#[trigger] all[i]).property.id == ids(
        all[i].property.id.key,
    ) by {
        if i < block.normal.len() {
            assert(all[i].property == block.normal[i]);
        } else {
            assert(all[i].property == block.important[i - block.normal.len()]);
        }
    }
    let run = if node.items.len() > 0 && node.items.last() is Declarations {
        assert(node.items[node.items.len() - 1] is Declarations);
        node.items.last()->Declarations_0
    } else {
        Seq::empty()
    };
    law_equal_properties_are_parted(run, block, ids);
    assert forall|i: int| 0 <= i < after.items.len() implies match #[trigger] after.items[i] {
        ItemView::Declarations(run) => declared_by(run, ids) && compact(run),
        ItemView::Child(child) => orderly(child, ids),
        ItemView::Barrier(_) => true,
    } by {
        if i < node.items.len() && after.items[i] == node.items[i] {
            assert(node.items[i] == after.items[i]);
        }
    }
}

proof fn lemma_with_child_orderly<T>(
    node: TreeView<T>,
    reuse: bool,
    child: TreeView<T>,
    ids: spec_fn(PropertyKey) -> PropertyIdView,
)
    requires
        orderly(node, ids),
        orderly(child, ids),
        reuse ==> node.items.len() > 0,
    ensures
        orderly(node.with_child(reuse, child), ids),
{
    let after = node.with_child(reuse, child);
    assert forall|i: int| 0 <= i < after.items.len() implies match #[trigger] after.items[i] {
        ItemView::Declarations(run) => declared_by(run, ids) && compact(run),
        ItemView::Child(child) => orderly(child, ids),
        ItemView::Barrier(_) => true,
    } by {
        if i < after.items.len() - 1 {
            assert(after.items[i] == node.items[i]);
        }
    }
}

proof fn lemma_insert_orderly<T>(
    node: TreeView<T>,
    rule: RuleView<T>,
    context: MinifyContext,
    ids: spec_fn(PropertyKey) -> PropertyIdView,
)
    requires
        orderly(node, ids),
        agrees(rule, ids),
    ensures
        orderly(node.insert_rule(rule, true, context).0, ids),
    decreases rule, 0nat,
{
    let after = node.insert_rule(rule, true, context).0;
    match rule {
        RuleView::AtRule { prelude, rules, loc } => {
            if let Ok(key) = at_rule_key(prelude, loc, context) {
                let reuse = node.ends_with(key);
                let target = node.target(reuse, key, loc);
                let child = target.with_query(prelude);
                if reuse {
                    assert(node.items[node.items.len() - 1] == ItemView::Child(target));
                }
                assert(orderly(target, ids));
                assert(orderly(child, ids));
                lemma_insert_list_orderly(child, rules, rules.len(), context, ids);
                let filled = child.insert_rules(rules, rules.len(), true, context).0;
                lemma_with_child_orderly(node, reuse, filled, ids);
            }
        },
        RuleView::Style { selectors, vendor_prefix, block, rules, loc } => {
            let key = KeyView::Selector {
                selectors,
                vendor_prefix,
                source_index: loc.source_index,
            };
            let reuse = node.reuses_style(key, block, context);
            let target = node.target(reuse, key, loc);
            if reuse {
                assert(node.items[node.items.len() - 1] == ItemView::Child(target));
            }
            assert(orderly(target, ids));
            let child = target.with_block(block, true);
            lemma_with_block_orderly(target, block, ids);
            lemma_insert_list_orderly(child, rules, rules.len(), context, ids);
            let filled = child.insert_rules(rules, rules.len(), true, context).0;
            lemma_with_child_orderly(node, reuse, filled, ids);
        },
        RuleView::NestedDeclarations { block, loc: _ } => {
            lemma_with_block_orderly(node, block, ids);
        },
        RuleView::Other(payload) => {
            assert forall|i: int| 0 <= i < after.items.len() implies match
            #[trigger] after.items[i] {
                ItemView::Declarations(run) => declared_by(run, ids) && compact(run),
                ItemView::Child(child) => orderly(child, ids),
                ItemView::Barrier(_) => true,
            } by {
                if i < node.items.len() {
                    assert(after.items[i] == node.items[i]);
                }
            }
        },
    }
}

proof fn lemma_insert_list_orderly<T>(
    node: TreeView<T>,
    rules: Seq<RuleView<T>>,
    count: nat,
    context: MinifyContext,
    ids: spec_fn(PropertyKey) -> PropertyIdView,
)
    requires
        orderly(node, ids),
        forall|i: int| 0 <= i < rules.len() ==> agrees(#[trigger] rules[i], ids),
    ensures
        orderly(node.insert_rules(rules, count, true, context).0, ids),
    decreases rules, count,
{
    if count > 0 && count <= rules.len() {
        lemma_insert_list_orderly(node, rules, (count - 1) as nat, context, ids);
        let before = node.insert_rules(rules, (count - 1) as nat, true, context).0;
        lemma_insert_orderly(before, rules[count - 1], context, ids);
    }
}

/// Whether something between the two runs is in the way of the second.
spec fn barred<T>(items: Seq<ItemView<T>>, first: int, second: int) -> bool {
    exists|i: int|
        first < i < second && ((#[trigger] items[i]) is Barrier || (items[i] is Child && !crossable(
            items[i]->Child_0,
            items[second]->Declarations_0,
        )))
}

/// Whether every run below the node is barred from those in front of it.
spec fn stuck<T>(node: TreeView<T>) -> bool
    decreases node,
{
    &&& forall|first: int, second: int|
        0 <= first < second < node.items.len() && node.items[first] is Declarations
            && node.items[second] is Declarations ==> #[trigger] barred(node.items, first, second)
    &&& forall|i: int|
        0 <= i < node.items.len() ==> match #[trigger] node.items[i] {
            ItemView::Child(child) => stuck(child),
            _ => true,
        }
}

/// Whether everything that one run declares, the other does.
spec fn spans(run: Seq<DeclarationView>, longer: Seq<DeclarationView>) -> bool {
    forall|i: int|
        0 <= i < run.len() ==> exists|j: int|
            0 <= j < longer.len() && (#[trigger] longer[j]).important == (
            #[trigger] run[i]).important && longer[j].property.id == run[i].property.id
}

proof fn lemma_spans_step(
    run: Seq<DeclarationView>,
    declaration: DeclarationView,
    ids: spec_fn(PropertyKey) -> PropertyIdView,
)
    requires
        declared_by(run, ids),
        declaration.property.id == ids(declaration.property.id.key),
    ensures
        spans(run, insert_declaration(run, declaration, true)),
{
    let longer = insert_declaration(run, declaration, true);
    let key = declaration.property.id.key;
    lemma_last_slot(run, key, declaration.important, run.len());
    assert forall|i: int| 0 <= i < run.len() implies exists|j: int|
        0 <= j < longer.len() && (#[trigger] longer[j]).important == (
        #[trigger] run[i]).important && longer[j].property.id == run[i].property.id by {
        assert(longer[i].important == run[i].important && longer[i].property.id
            == run[i].property.id);
    }
}

proof fn lemma_spans_trans(
    a: Seq<DeclarationView>,
    b: Seq<DeclarationView>,
    c: Seq<DeclarationView>,
)
    requires
        spans(a, b),
        spans(b, c),
    ensures
        spans(a, c),
{
    assert forall|i: int| 0 <= i < a.len() implies exists|j: int|
        0 <= j < c.len() && (#[trigger] c[j]).important == (#[trigger] a[i]).important
            && c[j].property.id == a[i].property.id by {
        let k = choose|k: int|
            0 <= k < b.len() && (#[trigger] b[k]).important == a[i].important && b[k].property.id
                == a[i].property.id;
        let j = choose|j: int|
            0 <= j < c.len() && (#[trigger] c[j]).important == b[k].important && c[j].property.id
                == b[k].property.id;
        assert(c[j].important == a[i].important);
    }
}

proof fn lemma_insert_run_spans(
    run: Seq<DeclarationView>,
    added: Seq<DeclarationView>,
    count: nat,
    ids: spec_fn(PropertyKey) -> PropertyIdView,
)
    requires
        declared_by(run, ids),
        compact(run),
        declared_by(added, ids),
        count <= added.len(),
    ensures
        spans(run, insert_run(run, added, count)),
    decreases count,
{
    if count > 0 {
        let shorter = (count - 1) as nat;
        lemma_insert_run_spans(run, added, shorter, ids);
        law_joined_runs_are_parted(run, added, shorter, ids);
        let before = insert_run(run, added, shorter);
        lemma_spans_step(before, added[count - 1], ids);
        lemma_spans_trans(run, before, insert_run(run, added, count));
    } else {
        assert forall|i: int| 0 <= i < run.len() implies exists|j: int|
            0 <= j < run.len() && (#[trigger] run[j]).important == (#[trigger] run[i]).important
                && run[j].property.id == run[i].property.id by {
            assert(run[i].important == run[i].important);
        }
    }
}

/// What a longer run may be moved across, a shorter one may.
proof fn lemma_crossable_shorter<T>(
    node: TreeView<T>,
    run: Seq<DeclarationView>,
    longer: Seq<DeclarationView>,
)
    requires
        crossable(node, longer),
        spans(run, longer),
    ensures
        crossable(node, run),
    decreases node,
{
    assert forall|i: int| 0 <= i < node.items.len() implies match #[trigger] node.items[i] {
        ItemView::Declarations(other) => forall|j: int, k: int|
            0 <= j < other.len() && 0 <= k < run.len() && (#[trigger] other[j]).important == (
            #[trigger] run[k]).important ==> !bound(other[j].property.id, run[k].property.id),
        ItemView::Child(child) => crossable(child, run),
        ItemView::Barrier(_) => false,
    } by {
        match node.items[i] {
            ItemView::Declarations(other) => {
                assert forall|j: int, k: int|
                    0 <= j < other.len() && 0 <= k < run.len() && (#[trigger] other[j]).important
                        == (#[trigger] run[k]).important implies !bound(
                    other[j].property.id,
                    run[k].property.id,
                ) by {
                    let l = choose|l: int|
                        0 <= l < longer.len() && (#[trigger] longer[l]).important
                            == run[k].important && longer[l].property.id == run[k].property.id;
                    assert(longer[l].important == other[j].important);
                }
            },
            ItemView::Child(child) => {
                lemma_crossable_shorter(child, run, longer);
            },
            ItemView::Barrier(_) => {},
        }
    }
}

/// Where a run can be moved to no earlier one, something is in its way behind
/// each of them.
proof fn lemma_no_earlier_run<T>(items: Seq<ItemView<T>>, run: Seq<DeclarationView>, end: nat)
    requires
        end <= items.len(),
        earlier_run(items, run, end) < 0,
    ensures
        forall|first: int|
            0 <= first < end && (#[trigger] items[first]) is Declarations ==> exists|i: int|
                first < i < end && ((#[trigger] items[i]) is Barrier || (items[i] is Child
                    && !crossable(items[i]->Child_0, run))),
    decreases end,
{
    if end > 0 {
        let last = items[end - 1];
        match last {
            ItemView::Declarations(_) => {},
            ItemView::Child(child) => {
                lemma_crossable(child, run);
                if child.clear(run) {
                    lemma_no_earlier_run(items, run, (end - 1) as nat);
                }
            },
            ItemView::Barrier(_) => {},
        }
        assert forall|first: int|
            0 <= first < end && (#[trigger] items[first]) is Declarations implies exists|i: int|
            first < i < end && ((#[trigger] items[i]) is Barrier || (items[i] is Child
                && !crossable(items[i]->Child_0, run))) by {
            if last is Barrier || !crossable(last->Child_0, run) {
                assert(items[end - 1] is Barrier || items[end - 1] is Child);
            } else {
                let i = choose|i: int|
                    first < i < end - 1 && ((#[trigger] items[i]) is Barrier || (items[i] is Child
                        && !crossable(items[i]->Child_0, run)));
                assert(items[i] is Barrier || items[i] is Child);
            }
        }
    }
}

/// Taking in items leaves every run barred from those in front of it.
proof fn lemma_take_in_stuck<T>(
    node: TreeView<T>,
    other: TreeView<T>,
    count: nat,
    ids: spec_fn(PropertyKey) -> PropertyIdView,
)
    requires
        stuck(node),
        orderly(node, ids),
        orderly(other, ids),
        count <= other.items.len(),
    ensures
        stuck(node.take_in(other, count)),
        orderly(node.take_in(other, count), ids),
    decreases other, count,
{
    if count > 0 {
        let before = node.take_in(other, (count - 1) as nat);
        let after = node.take_in(other, count);
        let items = before.items;
        lemma_take_in_stuck(node, other, (count - 1) as nat, ids);
        match other.items[count - 1] {
            ItemView::Declarations(run) => {
                lemma_take_run_stuck(before, run, ids);
            },
            ItemView::Child(child) => {
                let reuse = before.ends_like(child);
                let target = if reuse {
                    items.last()->Child_0
                } else {
                    child.hollow()
                };
                if reuse {
                    assert(before.items[items.len() - 1] == ItemView::Child(target));
                }
                assert(stuck(target));
                assert(orderly(target, ids));
                lemma_take_in_stuck(target, child, child.items.len(), ids);
                let filled = target.take_in(child, child.items.len());
                lemma_with_child_orderly(before, reuse, filled, ids);
                assert forall|first: int, second: int|
                    0 <= first < second < after.items.len() && after.items[first] is Declarations
                        && after.items[second] is Declarations implies #[trigger] barred(
                    after.items,
                    first,
                    second,
                ) by {
                    assert(barred(items, first, second));
                    let i = choose|i: int|
                        first < i < second && ((#[trigger] items[i]) is Barrier || (items[i]
                            is Child && !crossable(
                            items[i]->Child_0,
                            items[second]->Declarations_0,
                        )));
                    assert(after.items[i] == items[i]);
                }
                assert forall|i: int| 0 <= i < after.items.len() implies match
                #[trigger] after.items[i] {
                    ItemView::Child(child) => stuck(child),
                    _ => true,
                } by {
                    if i < after.items.len() - 1 {
                        assert(after.items[i] == before.items[i]);
                    }
                }
            },
            ItemView::Barrier(payload) => {
                assert forall|first: int, second: int|
                    0 <= first < second < after.items.len() && after.items[first] is Declarations
                        && after.items[second] is Declarations implies #[trigger] barred(
                    after.items,
                    first,
                    second,
                ) by {
                    assert(barred(items, first, second));
                    let i = choose|i: int|
                        first < i < second && ((#[trigger] items[i]) is Barrier || (items[i]
                            is Child && !crossable(
                            items[i]->Child_0,
                            items[second]->Declarations_0,
                        )));
                    assert(after.items[i] == items[i]);
                }
                assert forall|i: int| 0 <= i < after.items.len() implies match
                #[trigger] after.items[i] {
                    ItemView::Child(child) => stuck(child) && orderly(child, ids),
                    ItemView::Declarations(run) => declared_by(run, ids) && compact(run),
                    ItemView::Barrier(_) => true,
                } by {
                    if i < after.items.len() - 1 {
                        assert(after.items[i] == before.items[i]);
                    }
                }
            },
        }
    }
}

proof fn lemma_take_run_stuck<T>(
    node: TreeView<T>,
    run: Seq<DeclarationView>,
    ids: spec_fn(PropertyKey) -> PropertyIdView,
)
    requires
        stuck(node),
        orderly(node, ids),
        declared_by(run, ids),
        compact(run),
    ensures
        stuck(TreeView { items: join_run(node.items, run), ..node }),
        orderly(TreeView { items: join_run(node.items, run), ..node }, ids),
{
    let items = node.items;
    let after = TreeView { items: join_run(items, run), ..node };
    let place = earlier_run(items, run, items.len());
    lemma_earlier_run(items, run, items.len());
    if place >= 0 {
        let old_run = items[place]->Declarations_0;
        assert(node.items[place] is Declarations);
        law_joined_runs_are_parted(old_run, run, run.len(), ids);
        lemma_insert_run_spans(old_run, run, run.len(), ids);
        let new_run = insert_run(old_run, run, run.len());
        assert forall|first: int, second: int|
            0 <= first < second < after.items.len() && after.items[first] is Declarations
                && after.items[second] is Declarations implies #[trigger] barred(
            after.items,
            first,
            second,
        ) by {
            assert(barred(items, first, second));
            let i = choose|i: int|
                first < i < second && ((#[trigger] items[i]) is Barrier || (items[i] is Child
                    && !crossable(items[i]->Child_0, items[second]->Declarations_0)));
            assert(after.items[i] == items[i]);
            if second == place && items[i] is Child && crossable(items[i]->Child_0, new_run) {
                lemma_crossable_shorter(items[i]->Child_0, old_run, new_run);
            }
        }
    } else {
        lemma_no_earlier_run(items, run, items.len());
        assert forall|first: int, second: int|
            0 <= first < second < after.items.len() && after.items[first] is Declarations
                && after.items[second] is Declarations implies #[trigger] barred(
            after.items,
            first,
            second,
        ) by {
            if second < items.len() {
                assert(barred(items, first, second));
                let i = choose|i: int|
                    first < i < second && ((#[trigger] items[i]) is Barrier || (items[i] is Child
                        && !crossable(items[i]->Child_0, items[second]->Declarations_0)));
                assert(after.items[i] == items[i]);
            } else {
                assert(items[first] is Declarations);
                let i = choose|i: int|
                    first < i < items.len() && ((#[trigger] items[i]) is Barrier || (items[i]
                        is Child && !crossable(items[i]->Child_0, run)));
                assert(after.items[i] == items[i]);
            }
        }
    }
    assert forall|i: int| 0 <= i < after.items.len() implies match #[trigger] after.items[i] {
        ItemView::Child(child) => stuck(child) && orderly(child, ids),
        ItemView::Declarations(run) => declared_by(run, ids) && compact(run),
        ItemView::Barrier(_) => true,
    } by {
        if i < items.len() && after.items[i] == items[i] {
            assert(node.items[i] == after.items[i]);
        }
    }
}

/// Where the properties of one importance stand in a run.
proof fn lemma_importance_places(run: Seq<DeclarationView>, important: bool, count: nat) -> (places:
    Seq<int>)
    requires
        count <= run.len(),
    ensures
        places.len() == of_importance(run, important, count).len(),
        forall|i: int|
            0 <= i < places.len() ==> 0 <= #[trigger] places[i] < count && run[places[i]].important
                == important && run[places[i]].property == of_importance(run, important, count)[i],
        forall|i: int, j: int|
            0 <= i < j < places.len() ==> #[trigger] places[i] < #[trigger] places[j],
        forall|place: int|
            0 <= place < count && (#[trigger] run[place]).important == important ==> exists|i: int|
                0 <= i < places.len() && #[trigger] places[i] == place,
    decreases count,
{
    if count == 0 {
        Seq::empty()
    } else {
        let shorter = lemma_importance_places(run, important, (count - 1) as nat);
        if run[count - 1].important == important {
            let places = shorter.push(count - 1);
            assert forall|place: int|
                0 <= place < count && (#[trigger] run[place]).important
                    == important implies exists|i: int|
                0 <= i < places.len() && #[trigger] places[i] == place by {
                if place == count - 1 {
                    assert(places[shorter.len() as int] == place);
                } else {
                    let i = choose|i: int| 0 <= i < shorter.len() && #[trigger] shorter[i] == place;
                    assert(places[i] == place);
                }
            }
            places
        } else {
            shorter
        }
    }
}

proof fn lemma_compact_is_dense(run: Seq<DeclarationView>, important: bool)
    requires
        compact(run),
    ensures
        dense(of_importance(run, important, run.len())),
{
    let list = of_importance(run, important, run.len());
    let places = lemma_importance_places(run, important, run.len());
    assert forall|first: int, second: int|
        0 <= first < second < list.len() && (#[trigger] list[first]).id.key == (
        #[trigger] list[second]).id.key implies exists|i: int|
        first < i < second && clash((#[trigger] list[i]).id, list[second].id) by {
        let a = places[first];
        let b = places[second];
        assert(a < b);
        assert(parted(run, a, b));
        let c = choose|c: int| a < c < b && meet(#[trigger] run[c], run[b]);
        let i = choose|i: int| 0 <= i < places.len() && #[trigger] places[i] == c;
        if i <= first {
            assert(i == first || places[i] < places[first]);
        }
        if i >= second {
            assert(i == second || places[second] < places[i]);
        }
        assert(clash(list[i].id, list[second].id));
    }
}

proof fn lemma_unbound_runs(other: Seq<DeclarationView>, run: Seq<DeclarationView>)
    requires
        unbound(run_block(other), run_block(run)),
    ensures
        forall|j: int, k: int|
            0 <= j < other.len() && 0 <= k < run.len() && (#[trigger] other[j]).important == (
            #[trigger] run[k]).important ==> !bound(other[j].property.id, run[k].property.id),
{
    assert forall|j: int, k: int|
        0 <= j < other.len() && 0 <= k < run.len() && (#[trigger] other[j]).important == (
        #[trigger] run[k]).important implies !bound(other[j].property.id, run[k].property.id) by {
        let flag = other[j].important;
        let a = of_importance(other, flag, other.len());
        let b = of_importance(run, flag, run.len());
        let places = lemma_importance_places(other, flag, other.len());
        let more = lemma_importance_places(run, flag, run.len());
        let i = choose|i: int| 0 <= i < places.len() && #[trigger] places[i] == j;
        let l = choose|l: int| 0 <= l < more.len() && #[trigger] more[l] == k;
        assert(a[i] == other[j].property);
        assert(b[l] == run[k].property);
        if flag {
            assert(run_block(other).important[i] == a[i] && run_block(run).important[l] == b[l]);
        } else {
            assert(run_block(other).normal[i] == a[i] && run_block(run).normal[l] == b[l]);
        }
    }
}

/// In front of the first rule that is printed, a node has at most one run.
proof fn lemma_one_leading<T>(node: TreeView<T>)
    requires
        full(node),
    ensures
        leading(node.print_all()) <= 1,
        leading(node.print_all()) == 1 ==> leading_block(node.print_all(), 1)
            == node.print_all()[0]->NestedDeclarations_block,
{
    let printed = node.print_all();
    lemma_full_printed(node, node.items.len());
    lemma_leading_ends(printed);
    assert(printed == node.print_items(node.items.len()));
    if leading(printed) > 1 {
        assert(printed[0] is NestedDeclarations && printed[1] is NestedDeclarations);
        assert(printed_as(node.items[0], node.print_items(node.items.len())[0], node.loc));
        assert(printed_as(node.items[1], node.print_items(node.items.len())[1], node.loc));
        lemma_printed_run(node.items[0], printed[0], node.loc);
        lemma_printed_run(node.items[1], printed[1], node.loc);
    }
    if leading(printed) == 1 {
        assert(leading_block(printed, 0) == BlockView::empty());
        assert(leading_block(printed, 1) =~= printed[0]->NestedDeclarations_block);
    }
}

/// Nothing but a run is printed as nested declarations.
proof fn lemma_printed_run<T>(item: ItemView<T>, rule: RuleView<T>, loc: Location)
    requires
        printed_as(item, rule, loc),
    ensures
        rule is NestedDeclarations <==> item is Declarations,
        rule is Other <==> item is Barrier,
{
}

/// What the printed rules let pass, the node does.
proof fn lemma_passes<T>(node: TreeView<T>, run: Seq<DeclarationView>)
    requires
        full(node),
        forall|i: int|
            0 <= i < node.print_all().len() ==> passes(
                #[trigger] node.print_all()[i],
                run_block(run),
            ),
    ensures
        crossable(node, run),
    decreases node,
{
    let printed = node.print_all();
    lemma_full_printed(node, node.items.len());
    assert(printed == node.print_items(node.items.len()));
    assert forall|i: int| 0 <= i < node.items.len() implies match #[trigger] node.items[i] {
        ItemView::Declarations(other) => forall|j: int, k: int|
            0 <= j < other.len() && 0 <= k < run.len() && (#[trigger] other[j]).important == (
            #[trigger] run[k]).important ==> !bound(other[j].property.id, run[k].property.id),
        ItemView::Child(child) => crossable(child, run),
        ItemView::Barrier(_) => false,
    } by {
        assert(printed_as(node.items[i], node.print_items(node.items.len())[i], node.loc));
        assert(passes(printed[i], run_block(run)));
        match node.items[i] {
            ItemView::Declarations(other) => {
                lemma_unbound_runs(other, run);
            },
            ItemView::Child(child) => {
                lemma_child_passes(child, printed[i], run_block(run));
                lemma_passes(child, run);
            },
            ItemView::Barrier(_) => {},
        }
    }
}

/// What the rule of a node lets pass, the rules that the node holds do.
proof fn lemma_child_passes<T>(child: TreeView<T>, rule: RuleView<T>, block: BlockView)
    requires
        full(child),
        child.print() == Some(rule),
        passes(rule, block),
    ensures
        forall|i: int|
            0 <= i < child.print_all().len() ==> passes(#[trigger] child.print_all()[i], block),
{
    let inner = child.print_all();
    lemma_one_leading(child);
    lemma_leading_ends(inner);
    assert forall|i: int| 0 <= i < inner.len() implies passes(#[trigger] inner[i], block) by {
        if rule is Style {
            let start = leading(inner);
            if i < start {
                assert(rule->Style_block == inner[0]->NestedDeclarations_block);
            } else {
                assert(rule->Style_rules[i - start] == inner[i]);
            }
        } else {
            assert(rule->AtRule_rules == inner);
        }
    }
}

/// A tree whose runs are barred from those in front of them is printed with
/// nested declarations that are held back.
proof fn lemma_print_held_back<T>(
    node: TreeView<T>,
    ids: spec_fn(PropertyKey) -> PropertyIdView,
)
    requires
        full(node),
        stuck(node),
        orderly(node, ids),
    ensures
        all_held_back(node.print_all(), false),
        forall|i: int|
            0 <= i < node.print_all().len() ==> joined_up(#[trigger] node.print_all()[i]),
    decreases node,
{
    let printed = node.print_all();
    lemma_full_printed(node, node.items.len());
    assert(printed == node.print_items(node.items.len()));
    assert forall|first: int, second: int|
        -1 <= first < second < printed.len() && printed[second] is NestedDeclarations && (if first
            < 0 {
            false
        } else {
            printed[first] is NestedDeclarations
        }) implies #[trigger] held_back(printed, first, second) by {
        let all = node.print_items(node.items.len());
        assert(printed_as(node.items[first], all[first], node.loc));
        assert(printed_as(node.items[second], all[second], node.loc));
        lemma_printed_run(node.items[first], printed[first], node.loc);
        lemma_printed_run(node.items[second], printed[second], node.loc);
        assert(barred(node.items, first, second));
        let i = choose|i: int|
            first < i < second && ((#[trigger] node.items[i]) is Barrier || (node.items[i] is Child
                && !crossable(node.items[i]->Child_0, node.items[second]->Declarations_0)));
        let run = node.items[second]->Declarations_0;
        assert(printed_as(node.items[i], all[i], node.loc));
        assert(printed[second]->NestedDeclarations_block == run_block(run));
        if let ItemView::Child(child) = node.items[i] {
            if passes(printed[i], run_block(run)) {
                lemma_child_passes(child, printed[i], run_block(run));
                lemma_passes(child, run);
            }
        }
        assert(!passes(printed[i], printed[second]->NestedDeclarations_block));
    }
    assert forall|i: int| 0 <= i < printed.len() implies joined_up(#[trigger] printed[i]) by {
        assert(printed_as(node.items[i], node.print_items(node.items.len())[i], node.loc));
        match node.items[i] {
            ItemView::Declarations(run) => {
                lemma_compact_is_dense(run, true);
                lemma_compact_is_dense(run, false);
            },
            ItemView::Child(child) => {
                lemma_print_held_back(child, ids);
                lemma_child_joined_up(child, printed[i]);
            },
            ItemView::Barrier(_) => {},
        }
    }
}

proof fn lemma_child_joined_up<T>(child: TreeView<T>, rule: RuleView<T>)
    requires
        full(child),
        child.print() == Some(rule),
        all_held_back(child.print_all(), false),
        forall|i: int|
            0 <= i < child.print_all().len() ==> joined_up(#[trigger] child.print_all()[i]),
    ensures
        joined_up(rule),
{
    let inner = child.print_all();
    if rule is Style {
        let start = leading(inner);
        let rules = rule->Style_rules;
        let block = rule->Style_block;
        lemma_one_leading(child);
        lemma_leading_ends(inner);
        if start == 1 {
            assert(inner[0] is NestedDeclarations);
            assert(joined_up(inner[0]));
            assert(block == inner[0]->NestedDeclarations_block);
        } else {
            assert(leading_block(inner, 0) == BlockView::empty());
        }
        assert(rules == inner.skip(start as int));
        assert forall|first: int, second: int|
            -1 <= first < second < rules.len() && rules[second] is NestedDeclarations && (if first
                < 0 {
                !silent(block)
            } else {
                rules[first] is NestedDeclarations
            }) implies #[trigger] held_back(rules, first, second) by {
            assert(rules[second] == inner[second + start]);
            if first >= 0 {
                assert(rules[first] == inner[first + start]);
            }
            assert(held_back(inner, first + start, second + start));
            let i = choose|i: int|
                first + start < i < second + start && !passes(
                    #[trigger] inner[i],
                    inner[second + start]->NestedDeclarations_block,
                );
            assert(rules[i - start] == inner[i]);
        }
        assert forall|i: int| 0 <= i < rules.len() implies joined_up(#[trigger] rules[i]) by {
            assert(rules[i] == inner[i + start]);
        }
    } else {
        assert(rule->AtRule_rules == inner);
    }
}

/// Without targets, merging a list without empty rules leaves nothing to do,
/// where every property has the same longhands wherever it is declared. Any two
/// declarations of the same property in a block have one between them that sets
/// something in common with the second. Between nested declarations and any in
/// front of them in the same rule stands something that they may not be moved
/// across: a rule of another kind, or a declaration of the same importance that
/// has to do with one of them.
pub proof fn law_nothing_is_left_to_join<T>(
    rules: Seq<RuleView<T>>,
    context: MinifyContext,
    ids: spec_fn(PropertyKey) -> PropertyIdView,
)
    requires
        context.targets.current.browsers is None,
        context.targets.current.included == 0,
        context.targets.current.excluded == 0,
        !context.css_modules,
        mergeable(rules, context) == Ok::<bool, MinifyError>(true),
        merged(rules, context).0 is Ok,
        forall|i: int|
            0 <= i < rules.len() ==> substantial(#[trigger] rules[i]) && agrees(rules[i], ids),
    ensures
        all_held_back(merged(rules, context).1, false),
        forall|i: int|
            0 <= i < merged(rules, context).1.len() ==> joined_up(
                #[trigger] merged(rules, context).1[i],
            ),
{
    let root = TreeView::<T>::root();
    let tree = rule_tree(rules, context).0;
    let printed = finished(tree, context);
    lemma_insert_list_full(root, rules, rules.len(), true, context);
    lemma_insert_list_orderly(root, rules, rules.len(), context, ids);
    lemma_take_in_full(tree.hollow(), tree, tree.items.len());
    lemma_take_in_stuck(tree.hollow(), tree, tree.items.len(), ids);
    lemma_print_held_back(printed, ids);
}

} // verus!
