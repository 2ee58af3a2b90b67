//! Inserting rules into a tree, and printing the tree, keep what the rules say
//! to the cascade.
use crate::cascade::block_properties;
use crate::cascade::collapse;
use crate::cascade::collapsible;
use crate::cascade::declared;
use crate::cascade::list_events;
use crate::cascade::matches_nothing;
use crate::cascade::moved;
use crate::cascade::rule_events;
use crate::cascade::EventView;
use crate::context::media_key;
use crate::context::MinifyContext;
use crate::context::MinifyError;
use crate::declaration::BlockView;
use crate::declaration::PropertyView;
use crate::declaration_set::lemma_last_slot;
use crate::model::at_rule_key;
use crate::model::earlier_run;
use crate::model::entangled;
use crate::model::insert_block;
use crate::model::insert_declaration;
use crate::model::insert_properties;
use crate::model::insert_run;
use crate::model::interferes;
use crate::model::join_run;
use crate::model::last_slot;
use crate::model::leading;
use crate::model::leading_block;
use crate::model::lemma_earlier_run;
use crate::model::lemma_leading_push;
use crate::model::of_importance;
use crate::model::run_block;
use crate::model::DeclarationView;
use crate::model::ItemView;
use crate::model::KeyView;
use crate::model::TreeView;
use crate::reduction::follows;
use crate::reduction::lemma_collapse_follows;
use crate::reduction::lemma_follows_refl;
use crate::reduction::lemma_follows_trans;
use crate::reduction::lemma_follows_within;
use crate::reduction::lemma_moved_follows;
use crate::rules::AtRuleView;
use crate::rules::RuleView;
use crate::terms::bound;
use crate::terms::clash;
use crate::terms::lemma_bound;
use crate::terms::lemma_clash;
use crate::terms::lemma_step;
use vstd::prelude::*;

verus! {

/// The declarations of one importance in an item at the path.
pub open spec fn item_events<T>(
    item: ItemView<T>,
    path: Seq<KeyView>,
    important: bool,
) -> Seq<EventView<T>>
    decreases item, 0nat,
{
    match item {
        ItemView::Declarations(run) => declared(of_importance(run, important, run.len()), path),
        ItemView::Child(child) => node_events(child, path, important),
        ItemView::Barrier(payload) => seq![EventView::Barrier { path, payload }],
    }
}

/// The declarations of one importance in a node below the path.
pub open spec fn node_events<T>(
    node: TreeView<T>,
    path: Seq<KeyView>,
    important: bool,
) -> Seq<EventView<T>>
    decreases node, node.items.len() + 1,
{
    match node.key {
        None => seq![],
        Some(key) => if matches_nothing(key) {
            seq![]
        } else {
            tree_events(node, node.items.len(), path.push(key), important)
        },
    }
}

/// The declarations of one importance in the first `count` items of the node at
/// the path.
pub open spec fn tree_events<T>(
    node: TreeView<T>,
    count: nat,
    path: Seq<KeyView>,
    important: bool,
) -> Seq<EventView<T>>
    decreases node, count,
{
    if count == 0 || count > node.items.len() {
        seq![]
    } else {
        tree_events(node, (count - 1) as nat, path, important) + item_events(
            node.items[count - 1],
            path,
            important,
        )
    }
}

/// Whether the node has the key that it would be given for what it is printed
/// as.
pub open spec fn head_coherent<T>(node: TreeView<T>, context: MinifyContext) -> bool {
    match node.key {
        None => false,
        Some(KeyView::AtRule(AtRuleView::Media(list))) => {
            node.media_query matches Some(query) && media_key(query, node.loc, context) == Ok::<
                Seq<char>,
                MinifyError,
            >(list)
        },
        Some(KeyView::AtRule(_)) => true,
        Some(KeyView::Selector { selectors: _, vendor_prefix: _, source_index }) => source_index
            == node.loc.source_index,
    }
}

/// Whether all nodes below this one have the key that they would be given for
/// what they are printed as.
pub open spec fn coherent<T>(node: TreeView<T>, context: MinifyContext) -> bool
    decreases node,
{
    forall|i: int|
        0 <= i < node.items.len() ==> match #[trigger] node.items[i] {
            ItemView::Child(child) => head_coherent(child, context) && coherent(child, context),
            _ => true,
        }
}

proof fn lemma_declared_concat<T>(
    a: Seq<PropertyView>,
    b: Seq<PropertyView>,
    path: Seq<KeyView>,
)
    ensures
        declared::<T>(a + b, path) == declared::<T>(a, path) + declared::<T>(b, path),
{
    assert(declared::<T>(a + b, path) =~= declared::<T>(a, path) + declared::<T>(b, path));
}

/// The properties of one importance in a longer part of a run: first those of
/// the shorter part, then some of what is behind it.
proof fn lemma_of_importance(
    run: Seq<DeclarationView>,
    important: bool,
    from: nat,
    count: nat,
)
    requires
        from <= count <= run.len(),
    ensures
        of_importance(run, important, from).len() <= of_importance(run, important, count).len(),
        forall|i: int|
            0 <= i < of_importance(run, important, from).len() ==> #[trigger] of_importance(
                run,
                important,
                count,
            )[i] == of_importance(run, important, from)[i],
        forall|i: int|
            of_importance(run, important, from).len() <= i < of_importance(
                run,
                important,
                count,
            ).len() ==> exists|j: int|
                from <= j < count && #[trigger] run[j] == (DeclarationView {
                    property: #[trigger] of_importance(run, important, count)[i],
                    important,
                }),
    decreases count,
{
    if from < count {
        lemma_of_importance(run, important, from, (count - 1) as nat);
        let shorter = of_importance(run, important, (count - 1) as nat);
        let longer = of_importance(run, important, count);
        assert forall|i: int|
            of_importance(run, important, from).len() <= i < longer.len() implies exists|j: int|
            from <= j < count && #[trigger] run[j] == (DeclarationView {
                property: #[trigger] longer[i],
                important,
            }) by {
            if i < shorter.len() {
                assert(longer[i] == shorter[i]);
                let j = choose|j: int|
                    from <= j < count - 1 && #[trigger] run[j] == (DeclarationView {
                        property: shorter[i],
                        important,
                    });
                assert(run[j] == (DeclarationView { property: longer[i], important }));
            } else {
                assert(run[count - 1] == (DeclarationView { property: longer[i], important }));
            }
        }
    }
}

/// The properties of one importance depend on nothing behind the part.
proof fn lemma_of_importance_same(
    run: Seq<DeclarationView>,
    other: Seq<DeclarationView>,
    important: bool,
    count: nat,
)
    requires
        count <= run.len(),
        count <= other.len(),
        forall|i: int| 0 <= i < count ==> #[trigger] other[i] == run[i],
    ensures
        of_importance(other, important, count) == of_importance(run, important, count),
    decreases count,
{
    if count > 0 {
        lemma_of_importance_same(run, other, important, (count - 1) as nat);
    }
}

/// With another declaration of the same importance in a place, the properties
/// change in one place.
pub proof fn lemma_of_importance_update(
    run: Seq<DeclarationView>,
    position: int,
    declaration: DeclarationView,
    important: bool,
    count: nat,
)
    requires
        0 <= position < count <= run.len(),
        run[position].important == declaration.important,
    ensures
        declaration.important == important ==> {
            &&& of_importance(run, important, position as nat).len() < of_importance(
                run,
                important,
                count,
            ).len()
            &&& of_importance(run.update(position, declaration), important, count)
                == of_importance(run, important, count).update(
                of_importance(run, important, position as nat).len() as int,
                declaration.property,
            )
        },
        declaration.important != important ==> of_importance(
            run.update(position, declaration),
            important,
            count,
        ) == of_importance(run, important, count),
    decreases count,
{
    let changed = run.update(position, declaration);
    if count == position + 1 {
        lemma_of_importance_same(run, changed, important, position as nat);
    } else {
        lemma_of_importance_update(run, position, declaration, important, (count - 1) as nat);
        assert(changed[count - 1] == run[count - 1]);
    }
    if declaration.important == important {
        assert(of_importance(changed, important, count) =~= of_importance(
            run,
            important,
            count,
        ).update(
            of_importance(run, important, position as nat).len() as int,
            declaration.property,
        ));
    }
}

/// One more declaration of the other importance changes nothing.
pub proof fn lemma_of_importance_push(
    run: Seq<DeclarationView>,
    declaration: DeclarationView,
    important: bool,
)
    requires
        declaration.important != important,
    ensures
        of_importance(run.push(declaration), important, run.len() + 1) == of_importance(
            run,
            important,
            run.len(),
        ),
{
    lemma_of_importance_same(run, run.push(declaration), important, run.len());
}

/// The properties of one importance that are in a run, at the path.
pub open spec fn run_events<T>(
    run: Seq<DeclarationView>,
    path: Seq<KeyView>,
    important: bool,
) -> Seq<EventView<T>> {
    declared(of_importance(run, important, run.len()), path)
}

/// One more declaration in a run is one more event behind it, or takes the place
/// of one.
proof fn lemma_insert_declaration<T>(
    run: Seq<DeclarationView>,
    declaration: DeclarationView,
    dedupe: bool,
    path: Seq<KeyView>,
    important: bool,
)
    ensures
        follows(
            dedupe,
            run_events::<T>(run, path, important) + (if declaration.important == important {
                declared::<T>(seq![declaration.property], path)
            } else {
                seq![]
            }),
            run_events::<T>(insert_declaration(run, declaration, dedupe), path, important),
        ),
{
    let key = declaration.property.id.key;
    let position = last_slot(run, key, declaration.important, run.len());
    let after = insert_declaration(run, declaration, dedupe);
    let properties = of_importance(run, important, run.len());
    let list = run_events::<T>(run, path, important) + (if declaration.important == important {
        declared::<T>(seq![declaration.property], path)
    } else {
        seq![]
    });
    lemma_last_slot(run, key, declaration.important, run.len());
    if after == run.push(declaration) {
        lemma_of_importance_same(run, after, important, run.len());
        assert(run_events::<T>(after, path, important) =~= list);
        lemma_follows_refl(dedupe, list);
    } else {
        lemma_of_importance_update(run, position, declaration, important, run.len());
        if declaration.important != important {
            assert(run_events::<T>(after, path, important) =~= list);
            lemma_follows_refl(dedupe, list);
        } else {
            let first = of_importance(run, important, position as nat).len() as int;
            let second = properties.len() as int;
            lemma_of_importance(run, important, position as nat, run.len());
            lemma_of_importance(run, important, (position + 1) as nat, run.len());
            assert(of_importance(run, important, (position + 1) as nat)[first]
                == run[position].property);
            assert(properties[first] == run[position].property);
            assert(collapsible(list, first, second)) by {
                assert(list[first] == EventView::<T>::Declaration {
                    path,
                    property: properties[first],
                });
                assert(list[second] == EventView::<T>::Declaration {
                    path,
                    property: declaration.property,
                });
                assert forall|i: int| first < i < second implies {
                    &&& (#[trigger] list[i]) is Declaration
                    &&& list[i]->Declaration_path == list[second]->Declaration_path
                    &&& !clash(list[i]->property.id, list[second]->property.id)
                } by {
                    assert(list[i] == EventView::<T>::Declaration { path, property: properties[i] });
                    let j = choose|j: int|
                        position + 1 <= j < run.len() && #[trigger] run[j] == (DeclarationView {
                            property: properties[i],
                            important,
                        });
                    assert(!interferes(run[j], declaration));
                    lemma_clash(properties[i].id, declaration.property.id);
                }
            }
            lemma_collapse_follows(list, first, second);
            assert(run_events::<T>(after, path, important) =~= collapse(list, first, second));
        }
    }
}

/// More declarations of one importance in a run are so many events behind it,
/// except that some take the place of another.
proof fn lemma_insert_properties<T>(
    run: Seq<DeclarationView>,
    properties: Seq<PropertyView>,
    flag: bool,
    dedupe: bool,
    count: nat,
    path: Seq<KeyView>,
    important: bool,
)
    requires
        count <= properties.len(),
    ensures
        follows(
            dedupe,
            run_events::<T>(run, path, important) + (if flag == important {
                declared::<T>(properties.take(count as int), path)
            } else {
                seq![]
            }),
            run_events::<T>(
                insert_properties(run, properties, flag, dedupe, count),
                path,
                important,
            ),
        ),
    decreases count,
{
    let start = run_events::<T>(run, path, important);
    let added = if flag == important {
        declared::<T>(properties.take(count as int), path)
    } else {
        seq![]
    };
    if count == 0 {
        assert(start + added =~= start);
        lemma_follows_refl(dedupe, start);
    } else {
        let shorter = (count - 1) as nat;
        let before = insert_properties(run, properties, flag, dedupe, shorter);
        let last = DeclarationView { property: properties[count - 1], important: flag };
        let added_before = if flag == important {
            declared::<T>(properties.take(shorter as int), path)
        } else {
            seq![]
        };
        let step = if flag == important {
            declared::<T>(seq![last.property], path)
        } else {
            seq![]
        };
        lemma_insert_properties::<T>(run, properties, flag, dedupe, shorter, path, important);
        lemma_insert_declaration::<T>(before, last, dedupe, path, important);
        lemma_follows_within(
            dedupe,
            start + added_before,
            run_events::<T>(before, path, important),
            seq![],
            step,
        );
        assert(seq![] + (start + added_before) + step =~= start + added);
        assert(seq![] + run_events::<T>(before, path, important) + step =~= run_events::<T>(
            before,
            path,
            important,
        ) + step);
        lemma_follows_trans(
            dedupe,
            start + added,
            run_events::<T>(before, path, important) + step,
            run_events::<T>(
                insert_properties(run, properties, flag, dedupe, count),
                path,
                important,
            ),
        );
    }
}

/// A block's declarations in a run are so many events behind it, except that
/// some take the place of another.
proof fn lemma_insert_block<T>(
    run: Seq<DeclarationView>,
    block: BlockView,
    dedupe: bool,
    path: Seq<KeyView>,
    important: bool,
)
    ensures
        follows(
            dedupe,
            run_events::<T>(run, path, important) + declared::<T>(
                block_properties(block, important),
                path,
            ),
            run_events::<T>(insert_block(run, block, dedupe), path, important),
        ),
{
    let normal = insert_properties(run, block.normal, false, dedupe, block.normal.len());
    lemma_insert_properties::<T>(
        run,
        block.normal,
        false,
        dedupe,
        block.normal.len(),
        path,
        important,
    );
    lemma_insert_properties::<T>(
        normal,
        block.important,
        true,
        dedupe,
        block.important.len(),
        path,
        important,
    );
    assert(block.normal.take(block.normal.len() as int) =~= block.normal);
    assert(block.important.take(block.important.len() as int) =~= block.important);
    let start = run_events::<T>(run, path, important);
    let middle = run_events::<T>(normal, path, important);
    let end = run_events::<T>(insert_block(run, block, dedupe), path, important);
    let first = declared::<T>(block.normal, path);
    let second = declared::<T>(block.important, path);
    if important {
        assert(start + seq![] =~= start);
        lemma_follows_within(dedupe, start, middle, seq![], second);
        assert(seq![] + start + second =~= start + second);
        assert(seq![] + middle + second =~= middle + second);
        lemma_follows_trans(dedupe, start + second, middle + second, end);
    } else {
        assert(middle + seq![] =~= middle);
        lemma_follows_trans(dedupe, start + first, middle, end);
    }
}

/// The events of some items depend on nothing but these items.
proof fn lemma_tree_events_same<T>(
    a: TreeView<T>,
    b: TreeView<T>,
    count: nat,
    path: Seq<KeyView>,
    important: bool,
)
    requires
        count <= a.items.len(),
        count <= b.items.len(),
        forall|i: int| 0 <= i < count ==> #[trigger] b.items[i] == a.items[i],
    ensures
        tree_events(b, count, path, important) == tree_events(a, count, path, important),
    decreases count,
{
    if count > 0 {
        lemma_tree_events_same(a, b, (count - 1) as nat, path, important);
        assert(b.items[count - 1] == a.items[count - 1]);
    }
}

/// The declarations of one importance in all items of the node at the path.
pub open spec fn all_events<T>(node: TreeView<T>, path: Seq<KeyView>, important: bool) -> Seq<
    EventView<T>,
> {
    tree_events(node, node.items.len(), path, important)
}

/// A block's declarations in a node are so many events behind it, except that
/// some take the place of another.
proof fn lemma_with_block<T>(
    node: TreeView<T>,
    block: BlockView,
    dedupe: bool,
    path: Seq<KeyView>,
    important: bool,
)
    ensures
        follows(
            dedupe,
            all_events(node, path, important) + declared(block_properties(block, important), path),
            all_events(node.with_block(block, dedupe), path, important),
        ),
{
    let after = node.with_block(block, dedupe);
    let added = declared::<T>(block_properties(block, important), path);
    let events = all_events(node, path, important);
    let count = node.items.len();
    if block.is_empty() {
        assert(events + added =~= events);
        lemma_follows_refl(dedupe, events);
    } else if count > 0 && node.items.last() is Declarations {
        let run = node.items.last()->Declarations_0;
        let head = tree_events(node, (count - 1) as nat, path, important);
        let old_run = run_events::<T>(run, path, important);
        let new_run = run_events::<T>(insert_block(run, block, dedupe), path, important);
        lemma_tree_events_same(node, after, (count - 1) as nat, path, important);
        lemma_insert_block::<T>(run, block, dedupe, path, important);
        lemma_follows_within(dedupe, old_run + added, new_run, head, seq![]);
        assert(item_events(node.items[count - 1], path, important) == old_run);
        assert(item_events(after.items[count - 1], path, important) == new_run);
        assert(head + (old_run + added) + seq![] =~= events + added);
        assert(head + new_run + seq![] =~= all_events(after, path, important));
    } else {
        let run = Seq::<DeclarationView>::empty();
        let new_run = run_events::<T>(insert_block(run, block, dedupe), path, important);
        lemma_tree_events_same(node, after, count, path, important);
        lemma_insert_block::<T>(run, block, dedupe, path, important);
        assert(item_events(after.items[count as int], path, important) == new_run);
        assert(run_events::<T>(run, path, important) + added =~= added);
        lemma_follows_within(dedupe, added, new_run, events, seq![]);
        assert(events + added + seq![] =~= events + added);
        assert(events + new_run + seq![] =~= all_events(after, path, important));
    }
}

/// What happens to the child that a rule goes into happens to the node.
proof fn lemma_with_child<T>(
    node: TreeView<T>,
    reuse: bool,
    target: TreeView<T>,
    filled: TreeView<T>,
    added: Seq<EventView<T>>,
    dedupe: bool,
    path: Seq<KeyView>,
    important: bool,
)
    requires
        reuse ==> node.items.len() > 0 && node.items.last() == ItemView::Child(target),
        !reuse ==> target.items.len() == 0,
        follows(
            dedupe,
            node_events(target, path, important) + added,
            node_events(filled, path, important),
        ),
    ensures
        follows(
            dedupe,
            all_events(node, path, important) + added,
            all_events(node.with_child(reuse, filled), path, important),
        ),
{
    let after = node.with_child(reuse, filled);
    let events = all_events(node, path, important);
    let count = node.items.len();
    let old_child = node_events(target, path, important);
    let new_child = node_events(filled, path, important);
    if reuse {
        let head = tree_events(node, (count - 1) as nat, path, important);
        lemma_tree_events_same(node, after, (count - 1) as nat, path, important);
        lemma_follows_within(dedupe, old_child + added, new_child, head, seq![]);
        assert(item_events(node.items[count - 1], path, important) == old_child);
        assert(item_events(after.items[count - 1], path, important) == new_child);
        assert(head + (old_child + added) + seq![] =~= events + added);
        assert(head + new_child + seq![] =~= all_events(after, path, important));
    } else {
        lemma_tree_events_same(node, after, count, path, important);
        assert(item_events(after.items[count as int], path, important) == new_child);
        assert(old_child =~= seq![]);
        assert(old_child + added =~= added);
        lemma_follows_within(dedupe, added, new_child, events, seq![]);
        assert(events + added + seq![] =~= events + added);
        assert(events + new_child + seq![] =~= all_events(after, path, important));
    }
}

/// A node keeps its key, its query and its location, whatever is inserted.
pub proof fn lemma_insert_keeps_head<T>(
    node: TreeView<T>,
    rule: RuleView<T>,
    dedupe: bool,
    context: MinifyContext,
)
    ensures
        ({
            let after = node.insert_rule(rule, dedupe, context).0;
            &&& after.key == node.key
            &&& after.media_query == node.media_query
            &&& after.loc == node.loc
        }),
{
}

/// A node keeps its key, its query and its location, whatever is inserted.
pub proof fn lemma_insert_list_keeps_head<T>(
    node: TreeView<T>,
    rules: Seq<RuleView<T>>,
    count: nat,
    dedupe: bool,
    context: MinifyContext,
)
    ensures
        ({
            let after = node.insert_rules(rules, count, dedupe, context).0;
            &&& after.key == node.key
            &&& after.media_query == node.media_query
            &&& after.loc == node.loc
        }),
    decreases count,
{
    if count > 0 && count <= rules.len() {
        lemma_insert_list_keeps_head(node, rules, (count - 1) as nat, dedupe, context);
        let before = node.insert_rules(rules, (count - 1) as nat, dedupe, context).0;
        lemma_insert_keeps_head(before, rules[count - 1], dedupe, context);
    }
}

/// Inserting keeps nodes coherent.
pub proof fn lemma_insert_coherent<T>(
    node: TreeView<T>,
    rule: RuleView<T>,
    dedupe: bool,
    context: MinifyContext,
)
    requires
        coherent(node, context),
    ensures
        coherent(node.insert_rule(rule, dedupe, context).0, context),
    decreases rule, 0nat,
{
    match rule {
        RuleView::AtRule { prelude, rules, loc } => {
            if let Ok(key) = at_rule_key(prelude, loc, context) {
                let reuse = node.ends_with(key);
                let target = node.target(reuse, key, loc);
                let child = target.with_query(prelude);
                if reuse {
                    assert(node.items[node.items.len() - 1] == ItemView::Child(target));
                }
                assert(coherent(target, context));
                assert(coherent(child, context));
                assert(head_coherent(child, context));
                lemma_insert_list_coherent(child, rules, rules.len(), dedupe, context);
                lemma_insert_list_keeps_head(child, rules, rules.len(), dedupe, context);
            }
        },
        RuleView::Style { selectors, vendor_prefix, block, rules, loc } => {
            let key = KeyView::Selector {
                selectors,
                vendor_prefix,
                source_index: loc.source_index,
            };
            let reuse = node.reuses_style(key, block, context);
            let target = node.target(reuse, key, loc);
            let child = target.with_block(block, dedupe);
            if reuse {
                assert(node.items[node.items.len() - 1] == ItemView::Child(target));
            }
            assert(coherent(target, context));
            assert(coherent(child, context));
            assert(head_coherent(child, context));
            lemma_insert_list_coherent(child, rules, rules.len(), dedupe, context);
            lemma_insert_list_keeps_head(child, rules, rules.len(), dedupe, context);
        },
        _ => {},
    }
}

/// Inserting keeps nodes coherent.
pub proof fn lemma_insert_list_coherent<T>(
    node: TreeView<T>,
    rules: Seq<RuleView<T>>,
    count: nat,
    dedupe: bool,
    context: MinifyContext,
)
    requires
        coherent(node, context),
    ensures
        coherent(node.insert_rules(rules, count, dedupe, context).0, context),
    decreases rules, count,
{
    if count > 0 && count <= rules.len() {
        lemma_insert_list_coherent(node, rules, (count - 1) as nat, dedupe, context);
        let before = node.insert_rules(rules, (count - 1) as nat, dedupe, context).0;
        lemma_insert_coherent(before, rules[count - 1], dedupe, context);
    }
}

/// A rule in a node is so many events behind it, except that some take the
/// place of another.
pub proof fn lemma_insert_events<T>(
    node: TreeView<T>,
    rule: RuleView<T>,
    dedupe: bool,
    path: Seq<KeyView>,
    important: bool,
    context: MinifyContext,
)
    ensures
        node.insert_rule(rule, dedupe, context).1 is Ok ==> follows(
            dedupe,
            all_events(node, path, important) + rule_events(rule, path, important, context),
            all_events(node.insert_rule(rule, dedupe, context).0, path, important),
        ),
    decreases rule, 0nat,
{
    let added = rule_events(rule, path, important, context);
    match rule {
        RuleView::AtRule { prelude, rules, loc } => {
            lemma_step(prelude, loc, context);
            if let Ok(key) = at_rule_key(prelude, loc, context) {
                let reuse = node.ends_with(key);
                let target = node.target(reuse, key, loc);
                let child = target.with_query(prelude);
                lemma_insert_list_events(
                    child,
                    rules,
                    rules.len(),
                    dedupe,
                    path.push(key),
                    important,
                    context,
                );
                lemma_insert_list_keeps_head(child, rules, rules.len(), dedupe, context);
                let (filled, result) = child.insert_rules(rules, rules.len(), dedupe, context);
                if result is Ok {
                    lemma_tree_events_same(
                        target,
                        child,
                        target.items.len(),
                        path.push(key),
                        important,
                    );
                    lemma_with_child(node, reuse, target, filled, added, dedupe, path, important);
                }
            }
        },
        RuleView::Style { selectors, vendor_prefix, block, rules, loc } => {
            let key = KeyView::Selector {
                selectors,
                vendor_prefix,
                source_index: loc.source_index,
            };
            let reuse = node.reuses_style(key, block, context);
            let target = node.target(reuse, key, loc);
            let child = target.with_block(block, dedupe);
            lemma_insert_list_keeps_head(child, rules, rules.len(), dedupe, context);
            let (filled, result) = child.insert_rules(rules, rules.len(), dedupe, context);
                if result is Ok {
                let inner = path.push(key);
                let own = declared::<T>(block_properties(block, important), inner);
                let nested = list_events(rules, rules.len(), inner, important, context);
                if matches_nothing(key) {
                    assert(node_events(target, path, important) + added =~= seq![]);
                    lemma_follows_refl(dedupe, Seq::<EventView<T>>::empty());
                } else {
                    let start = all_events(target, inner, important);
                    let middle = all_events(child, inner, important);
                    lemma_with_block(target, block, dedupe, inner, important);
                    lemma_follows_within(dedupe, start + own, middle, seq![], nested);
                    assert(seq![] + (start + own) + nested =~= node_events(
                        target,
                        path,
                        important,
                    ) + added);
                    assert(seq![] + middle + nested =~= middle + nested);
                    lemma_insert_list_events(
                        child,
                        rules,
                        rules.len(),
                        dedupe,
                        inner,
                        important,
                        context,
                    );
                    lemma_follows_trans(
                        dedupe,
                        node_events(target, path, important) + added,
                        middle + nested,
                        node_events(filled, path, important),
                    );
                }
                lemma_with_child(node, reuse, target, filled, added, dedupe, path, important);
            }
        },
        RuleView::NestedDeclarations { block, loc: _ } => {
            lemma_with_block(node, block, dedupe, path, important);
        },
        RuleView::Other(payload) => {
            let after = TreeView { items: node.items.push(ItemView::Barrier(payload)), ..node };
            let count = node.items.len();
            lemma_tree_events_same(node, after, count, path, important);
            assert(item_events(after.items[count as int], path, important) == added);
            assert(all_events(after, path, important) =~= all_events(node, path, important)
                + added);
            lemma_follows_refl(dedupe, all_events(after, path, important));
        },
    }
}

/// Rules in a node are so many events behind it, except that some take the place
/// of another.
pub proof fn lemma_insert_list_events<T>(
    node: TreeView<T>,
    rules: Seq<RuleView<T>>,
    count: nat,
    dedupe: bool,
    path: Seq<KeyView>,
    important: bool,
    context: MinifyContext,
)
    ensures
        node.insert_rules(rules, count, dedupe, context).1 is Ok ==> follows(
            dedupe,
            all_events(node, path, important) + list_events(rules, count, path, important, context),
            all_events(node.insert_rules(rules, count, dedupe, context).0, path, important),
        ),
    decreases rules, count,
{
    let start = all_events(node, path, important);
    if count > 0 && count <= rules.len() {
        let shorter = (count - 1) as nat;
        lemma_insert_list_events(node, rules, shorter, dedupe, path, important, context);
        let (before, so_far) = node.insert_rules(rules, shorter, dedupe, context);
        if so_far is Ok {
            let rule = rules[count - 1];
            lemma_insert_events(before, rule, dedupe, path, important, context);
            let (after, result) = before.insert_rule(rule, dedupe, context);
            if result is Ok {
                let head = list_events(rules, shorter, path, important, context);
                let last = rule_events(rule, path, important, context);
                let middle = all_events(before, path, important);
                lemma_follows_within(dedupe, start + head, middle, seq![], last);
                assert(seq![] + (start + head) + last =~= start + list_events(
                    rules,
                    count,
                    path,
                    important,
                    context,
                ));
                assert(seq![] + middle + last =~= middle + last);
                lemma_follows_trans(
                    dedupe,
                    start + list_events(rules, count, path, important, context),
                    middle + last,
                    all_events(after, path, important),
                );
            }
        }
    } else {
        assert(start + list_events(rules, count, path, important, context) =~= start);
        lemma_follows_refl(dedupe, start);
    }
}

/// The events of some rules depend on nothing but these rules.
proof fn lemma_list_events_same<T>(
    a: Seq<RuleView<T>>,
    b: Seq<RuleView<T>>,
    count: nat,
    path: Seq<KeyView>,
    important: bool,
    context: MinifyContext,
)
    requires
        count <= a.len(),
        count <= b.len(),
        forall|i: int| 0 <= i < count ==> #[trigger] b[i] == a[i],
    ensures
        list_events(b, count, path, important, context) == list_events(
            a,
            count,
            path,
            important,
            context,
        ),
    decreases count,
{
    if count > 0 {
        lemma_list_events_same(a, b, (count - 1) as nat, path, important, context);
        assert(b[count - 1] == a[count - 1]);
    }
}

/// The events of one more rule come behind the others.
proof fn lemma_list_events_push<T>(
    rules: Seq<RuleView<T>>,
    rule: RuleView<T>,
    path: Seq<KeyView>,
    important: bool,
    context: MinifyContext,
)
    ensures
        list_events(rules.push(rule), rules.len() + 1, path, important, context) == list_events(
            rules,
            rules.len(),
            path,
            important,
            context,
        ) + rule_events(rule, path, important, context),
{
    lemma_list_events_same(rules, rules.push(rule), rules.len(), path, important, context);
    assert(rules.push(rule)[rules.len() as int] == rule);
}

/// The leading declarations of a list are the declarations in front of the
/// other rules.
proof fn lemma_leading_events<T>(
    rules: Seq<RuleView<T>>,
    path: Seq<KeyView>,
    important: bool,
    context: MinifyContext,
)
    ensures
        list_events(rules, rules.len(), path, important, context) == declared::<T>(
            block_properties(leading_block(rules, leading(rules)), important),
            path,
        ) + list_events(
            rules.skip(leading(rules) as int),
            (rules.len() - leading(rules)) as nat,
            path,
            important,
            context,
        ),
    decreases rules.len(),
{
    if rules.len() == 0 {
        assert(list_events(rules, 0, path, important, context) =~= declared::<T>(
            block_properties(leading_block(rules, 0), important),
            path,
        ) + list_events(rules.skip(0), 0, path, important, context));
    } else {
        let before = rules.drop_last();
        let rule = rules.last();
        assert(before.push(rule) =~= rules);
        lemma_leading_events(before, path, important, context);
        lemma_leading_push(before, rule);
        lemma_list_events_push(before, rule, path, important, context);
        let rest = before.skip(leading(before) as int);
        let own = block_properties(leading_block(before, leading(before)), important);
        if leading(before) == before.len() && rule is NestedDeclarations {
            let block = rule->NestedDeclarations_block;
            lemma_declared_concat::<T>(own, block_properties(block, important), path);
            assert(block_properties(
                leading_block(before, leading(before)).then_block(block),
                important,
            ) == own + block_properties(block, important));
            assert(list_events(rules, rules.len(), path, important, context) =~= declared::<T>(
                own + block_properties(block, important),
                path,
            ));
            assert(list_events(
                rules.skip(leading(rules) as int),
                0,
                path,
                important,
                context,
            ) =~= seq![]);
            assert(list_events(rules, rules.len(), path, important, context) =~= declared::<T>(
                block_properties(leading_block(rules, leading(rules)), important),
                path,
            ) + list_events(rules.skip(leading(rules) as int), 0, path, important, context));
        } else {
            lemma_list_events_push(rest, rule, path, important, context);
            assert(list_events(rules, rules.len(), path, important, context) =~= declared::<T>(
                own,
                path,
            ) + list_events(
                rules.skip(leading(rules) as int),
                (rules.len() - leading(rules)) as nat,
                path,
                important,
                context,
            ));
        }
    }
}

/// Some items of a coherent node are printed with the events that they have.
pub proof fn lemma_print_events<T>(
    node: TreeView<T>,
    count: nat,
    path: Seq<KeyView>,
    important: bool,
    context: MinifyContext,
)
    requires
        coherent(node, context),
        count <= node.items.len(),
    ensures
        list_events(
            node.print_items(count),
            node.print_items(count).len(),
            path,
            important,
            context,
        ) == tree_events(node, count, path, important),
    decreases node, count,
{
    if count > 0 {
        let shorter = (count - 1) as nat;
        let before = node.print_items(shorter);
        let head = tree_events(node, shorter, path, important);
        lemma_print_events(node, shorter, path, important, context);
        let item = node.items[count - 1];
        let events = item_events(item, path, important);
        match item {
            ItemView::Declarations(run) => {
                if run.len() == 0 {
                    assert(head + events =~= head);
                } else {
                    let rule = RuleView::<T>::NestedDeclarations {
                        block: run_block(run),
                        loc: node.loc,
                    };
                    lemma_list_events_push(before, rule, path, important, context);
                    assert(rule_events(rule, path, important, context) == events);
                }
            },
            ItemView::Child(child) => {
                lemma_print_child_events(child, path, important, context);
                assert(events == node_events(child, path, important));
                match child.print() {
                    Some(rule) => {
                        lemma_list_events_push(before, rule, path, important, context);
                    },
                    None => {
                        assert(head + events =~= head);
                    },
                }
            },
            ItemView::Barrier(payload) => {
                lemma_list_events_push(before, RuleView::Other(payload), path, important, context);
            },
        }
    }
}

/// A coherent node is printed with the events that it has.
proof fn lemma_print_child_events<T>(
    child: TreeView<T>,
    path: Seq<KeyView>,
    important: bool,
    context: MinifyContext,
)
    requires
        head_coherent(child, context),
        coherent(child, context),
    ensures
        node_events(child, path, important) == (match child.print() {
            Some(rule) => rule_events(rule, path, important, context),
            None => seq![],
        }),
    decreases child, child.items.len() + 1,
{
    let key = child.key->Some_0;
    let inner = path.push(key);
    let rules = child.print_all();
    let events = all_events(child, inner, important);
    lemma_print_events(child, child.items.len(), inner, important, context);
    match key {
        KeyView::AtRule(prelude) => {
            assert(at_rule_key(child.printed_prelude(prelude), child.loc, context) == Ok::<
                KeyView,
                MinifyError,
            >(key));
            lemma_step(child.printed_prelude(prelude), child.loc, context);
        },
        KeyView::Selector { selectors, vendor_prefix, source_index: _ } => {
            lemma_leading_events(rules, inner, important, context);
            let own = leading_block(rules, leading(rules));
            let nested = rules.skip(leading(rules) as int);
            lemma_leading_push(rules, RuleView::NestedDeclarations {
                block: BlockView::empty(),
                loc: child.loc,
            });
            if selectors.len() > 0 && own.is_empty() && nested.len() == 0 {
                assert(events =~= seq![]);
            }
        },
    }
}

/// More declarations in a run are so many events behind it, except that some
/// take the place of another.
proof fn lemma_insert_run<T>(
    run: Seq<DeclarationView>,
    added: Seq<DeclarationView>,
    count: nat,
    path: Seq<KeyView>,
    important: bool,
)
    requires
        count <= added.len(),
    ensures
        follows(
            true,
            run_events::<T>(run, path, important) + declared::<T>(
                of_importance(added, important, count),
                path,
            ),
            run_events::<T>(insert_run(run, added, count), path, important),
        ),
    decreases count,
{
    let start = run_events::<T>(run, path, important);
    let events = declared::<T>(of_importance(added, important, count), path);
    if count == 0 {
        assert(start + events =~= start);
        lemma_follows_refl(true, start);
    } else {
        let shorter = (count - 1) as nat;
        let before = insert_run(run, added, shorter);
        let middle = run_events::<T>(before, path, important);
        let head = declared::<T>(of_importance(added, important, shorter), path);
        let last = added[count - 1];
        let step = if last.important == important {
            declared::<T>(seq![last.property], path)
        } else {
            seq![]
        };
        lemma_insert_run::<T>(run, added, shorter, path, important);
        lemma_insert_declaration::<T>(before, last, true, path, important);
        lemma_follows_within(true, start + head, middle, seq![], step);
        assert(seq![] + (start + head) + step =~= start + events);
        assert(seq![] + middle + step =~= middle + step);
        lemma_follows_trans(
            true,
            start + events,
            middle + step,
            run_events::<T>(insert_run(run, added, count), path, important),
        );
    }
}

/// Whether the events are declarations, none of which has to do with one of the
/// properties.
spec fn out_of_the_way<T>(events: Seq<EventView<T>>, properties: Seq<PropertyView>) -> bool {
    forall|i: int, j: int|
        0 <= i < events.len() && 0 <= j < properties.len() ==> {
            &&& events[i] is Declaration
            &&& !bound((#[trigger] events[i])->property.id, (#[trigger] properties[j]).id)
        }
}

/// Declarations can be moved up across what is out of the way.
proof fn lemma_move_across<T>(
    events: Seq<EventView<T>>,
    properties: Seq<PropertyView>,
    path: Seq<KeyView>,
)
    requires
        out_of_the_way(events, properties),
    ensures
        follows(
            true,
            events + declared::<T>(properties, path),
            declared::<T>(properties, path) + events,
        ),
    decreases properties.len(),
{
    let all = declared::<T>(properties, path);
    if properties.len() == 0 {
        assert(events + all =~= events);
        assert(all + events =~= events);
        lemma_follows_refl(true, events);
    } else {
        let fewer = properties.drop_last();
        let head = declared::<T>(fewer, path);
        let last = declared::<T>(seq![properties.last()], path);
        lemma_move_across::<T>(events, fewer, path);
        lemma_follows_within(true, events + head, head + events, seq![], last);
        assert(seq![] + (events + head) + last =~= events + all);
        assert(seq![] + (head + events) + last =~= head + events + last);
        let list = head + events + last;
        let first = head.len() as int;
        let second = list.len() - 1;
        assert forall|i: int| first <= i < second implies {
            &&& (#[trigger] list[i]) is Declaration
            &&& !bound(list[i]->property.id, list[second]->property.id)
        } by {
            assert(list[i] == events[i - first]);
            assert(list[second]->property == properties[properties.len() - 1]);
        }
        lemma_moved_follows(list, first, second);
        assert(moved(list, first, second) =~= all + events);
        lemma_follows_trans(true, events + all, list, all + events);
    }
}

/// What is printed for a node that declarations may be moved across is out of
/// their way.
proof fn lemma_clear_events<T>(
    node: TreeView<T>,
    count: nat,
    run: Seq<DeclarationView>,
    path: Seq<KeyView>,
    important: bool,
)
    requires
        node.clear(run),
        count <= node.items.len(),
    ensures
        out_of_the_way(
            tree_events(node, count, path, important),
            of_importance(run, important, run.len()),
        ),
    decreases node, count,
{
    if count > 0 {
        let properties = of_importance(run, important, run.len());
        let item = node.items[count - 1];
        lemma_clear_events(node, (count - 1) as nat, run, path, important);
        let events = item_events(item, path, important);
        assert(out_of_the_way(events, properties)) by {
            match item {
                ItemView::Declarations(other) => {
                    let others = of_importance(other, important, other.len());
                    assert forall|i: int, j: int|
                        0 <= i < events.len() && 0 <= j < properties.len() implies {
                        &&& events[i] is Declaration
                        &&& !bound(
                            (#[trigger] events[i])->property.id,
                            (#[trigger] properties[j]).id,
                        )
                    } by {
                        lemma_of_importance(other, important, 0, other.len());
                        lemma_of_importance(run, important, 0, run.len());
                        assert(events[i]->property == others[i]);
                        let a = choose|a: int|
                            0 <= a < other.len() && #[trigger] other[a] == (DeclarationView {
                                property: others[i],
                                important,
                            });
                        let b = choose|b: int|
                            0 <= b < run.len() && #[trigger] run[b] == (DeclarationView {
                                property: properties[j],
                                important,
                            });
                        assert(!entangled(other[a], run[b]));
                        lemma_bound(others[i].id, properties[j].id);
                    }
                },
                ItemView::Child(child) => {
                    if let Some(key) = child.key {
                        lemma_clear_events(
                            child,
                            child.items.len(),
                            run,
                            path.push(key),
                            important,
                        );
                    }
                    assert(events == node_events(child, path, important));
                },
                ItemView::Barrier(_) => {},
            }
        }
        let head = tree_events(node, (count - 1) as nat, path, important);
        let all = tree_events(node, count, path, important);
        assert forall|i: int, j: int| 0 <= i < all.len() && 0 <= j < properties.len() implies {
            &&& all[i] is Declaration
            &&& !bound((#[trigger] all[i])->property.id, (#[trigger] properties[j]).id)
        } by {
            if i < head.len() {
                assert(all[i] == head[i]);
            } else {
                assert(all[i] == events[i - head.len()]);
            }
        }
    }
}

/// The events of the items from `start` up to `end`.
spec fn span_events<T>(
    node: TreeView<T>,
    start: nat,
    end: nat,
    path: Seq<KeyView>,
    important: bool,
) -> Seq<EventView<T>>
    decreases end,
{
    if end <= start {
        seq![]
    } else {
        span_events(node, start, (end - 1) as nat, path, important) + item_events(
            node.items[end - 1],
            path,
            important,
        )
    }
}

proof fn lemma_span_events<T>(
    node: TreeView<T>,
    start: nat,
    end: nat,
    path: Seq<KeyView>,
    important: bool,
)
    requires
        start <= end <= node.items.len(),
    ensures
        tree_events(node, end, path, important) == tree_events(node, start, path, important)
            + span_events(node, start, end, path, important),
    decreases end,
{
    if start < end {
        lemma_span_events(node, start, (end - 1) as nat, path, important);
    }
    assert(tree_events(node, end, path, important) =~= tree_events(node, start, path, important)
        + span_events(node, start, end, path, important));
}

proof fn lemma_span_events_same<T>(
    a: TreeView<T>,
    b: TreeView<T>,
    start: nat,
    end: nat,
    path: Seq<KeyView>,
    important: bool,
)
    requires
        end <= a.items.len(),
        end <= b.items.len(),
        forall|i: int| start <= i < end ==> #[trigger] b.items[i] == a.items[i],
    ensures
        span_events(b, start, end, path, important) == span_events(a, start, end, path, important),
    decreases end,
{
    if start < end {
        lemma_span_events_same(a, b, start, (end - 1) as nat, path, important);
        assert(b.items[end - 1] == a.items[end - 1]);
    }
}

/// Nodes that declarations may be moved across are out of their way.
proof fn lemma_clear_span<T>(
    node: TreeView<T>,
    start: nat,
    end: nat,
    run: Seq<DeclarationView>,
    path: Seq<KeyView>,
    important: bool,
)
    requires
        end <= node.items.len(),
        forall|i: int|
            start <= i < end ==> ((#[trigger] node.items[i]) matches ItemView::Child(child)
                && child.clear(run)),
    ensures
        out_of_the_way(
            span_events(node, start, end, path, important),
            of_importance(run, important, run.len()),
        ),
    decreases end,
{
    if start < end {
        lemma_clear_span(node, start, (end - 1) as nat, run, path, important);
        assert(node.items[end - 1] is Child);
        let child = node.items[end - 1]->Child_0;
        if let Some(key) = child.key {
            lemma_clear_events(child, child.items.len(), run, path.push(key), important);
        }
        assert(item_events(node.items[end - 1], path, important) == node_events(
            child,
            path,
            important,
        ));
        let properties = of_importance(run, important, run.len());
        let head = span_events(node, start, (end - 1) as nat, path, important);
        let last = node_events(child, path, important);
        let all = span_events(node, start, end, path, important);
        assert forall|i: int, j: int| 0 <= i < all.len() && 0 <= j < properties.len() implies {
            &&& all[i] is Declaration
            &&& !bound((#[trigger] all[i])->property.id, (#[trigger] properties[j]).id)
        } by {
            if i < head.len() {
                assert(all[i] == head[i]);
            } else {
                assert(all[i] == last[i - head.len()]);
            }
        }
    }
}

/// A run that joins an earlier one is so many events behind the items, which are
/// moved up, and of which some take the place of another.
proof fn lemma_join_run<T>(
    node: TreeView<T>,
    run: Seq<DeclarationView>,
    path: Seq<KeyView>,
    important: bool,
)
    ensures
        follows(
            true,
            all_events(node, path, important) + run_events::<T>(run, path, important),
            all_events(
                TreeView { items: join_run(node.items, run), ..node },
                path,
                important,
            ),
        ),
{
    let count = node.items.len();
    let place = earlier_run(node.items, run, count);
    let after = TreeView { items: join_run(node.items, run), ..node };
    let added = run_events::<T>(run, path, important);
    let events = all_events(node, path, important);
    lemma_earlier_run(node.items, run, count);
    if place >= 0 {
        let at = place as nat;
        let own = node.items[place]->Declarations_0;
        let head = tree_events(node, at, path, important);
        let old_run = run_events::<T>(own, path, important);
        let new_run = run_events::<T>(insert_run(own, run, run.len()), path, important);
        let tail = span_events(node, at + 1, count, path, important);
        lemma_span_events(node, at + 1, count, path, important);
        lemma_span_events(after, at + 1, count, path, important);
        lemma_tree_events_same(node, after, at, path, important);
        lemma_span_events_same(node, after, at + 1, count, path, important);
        assert(item_events(node.items[place], path, important) == old_run);
        assert(item_events(after.items[place], path, important) == new_run);
        assert(tree_events(node, at + 1, path, important) == head + old_run);
        assert(tree_events(after, at + 1, path, important) == head + new_run);
        lemma_clear_span(node, at + 1, count, run, path, important);
        lemma_move_across(tail, of_importance(run, important, run.len()), path);
        lemma_follows_within(true, tail + added, added + tail, head + old_run, seq![]);
        lemma_insert_run::<T>(own, run, run.len(), path, important);
        lemma_follows_within(true, old_run + added, new_run, head, tail);
        assert(head + old_run + (tail + added) + seq![] =~= events + added);
        assert(head + old_run + (added + tail) + seq![] =~= head + (old_run + added) + tail);
        lemma_follows_trans(
            true,
            events + added,
            head + (old_run + added) + tail,
            head + new_run + tail,
        );
    } else {
        lemma_tree_events_same(node, after, count, path, important);
        assert(item_events(after.items[count as int], path, important) == added);
        assert(all_events(after, path, important) =~= events + added);
        lemma_follows_refl(true, events + added);
    }
}

/// The events of a node without items.
proof fn lemma_hollow_events<T>(node: TreeView<T>, path: Seq<KeyView>, important: bool)
    ensures
        node_events(node.hollow(), path, important) == Seq::<EventView<T>>::empty(),
        all_events(node.hollow(), path, important) == Seq::<EventView<T>>::empty(),
{
    if let Some(key) = node.key {
        assert(tree_events(node.hollow(), 0, path.push(key), important) =~= seq![]);
    }
}

/// A node keeps its key, its query and its location, whatever it takes in.
pub proof fn lemma_take_in_keeps_head<T>(node: TreeView<T>, other: TreeView<T>, count: nat)
    ensures
        ({
            let after = node.take_in(other, count);
            &&& after.key == node.key
            &&& after.media_query == node.media_query
            &&& after.loc == node.loc
        }),
    decreases count,
{
    if count > 0 && count <= other.items.len() {
        lemma_take_in_keeps_head(node, other, (count - 1) as nat);
    }
}

/// The items that a node takes in are so many events behind its own, of which
/// some are moved up, and some take the place of another.
pub proof fn lemma_take_in_events<T>(
    node: TreeView<T>,
    other: TreeView<T>,
    count: nat,
    path: Seq<KeyView>,
    important: bool,
)
    requires
        count <= other.items.len(),
    ensures
        follows(
            true,
            all_events(node, path, important) + tree_events(other, count, path, important),
            all_events(node.take_in(other, count), path, important),
        ),
    decreases other, count,
{
    let start = all_events(node, path, important);
    let after = node.take_in(other, count);
    if count == 0 {
        assert(start + tree_events(other, count, path, important) =~= start);
        lemma_follows_refl(true, start);
    } else {
        let shorter = (count - 1) as nat;
        let before = node.take_in(other, shorter);
        let item = other.items[count - 1];
        let head = tree_events(other, shorter, path, important);
        let middle = all_events(before, path, important);
        let last = item_events(item, path, important);
        lemma_take_in_events(node, other, shorter, path, important);
        lemma_follows_within(true, start + head, middle, seq![], last);
        assert(seq![] + (start + head) + last =~= start + tree_events(
            other,
            count,
            path,
            important,
        ));
        assert(seq![] + middle + last =~= middle + last);
        match item {
            ItemView::Declarations(run) => {
                lemma_join_run(before, run, path, important);
            },
            ItemView::Child(child) => {
                let reuse = before.ends_like(child);
                let target = if reuse {
                    before.items.last()->Child_0
                } else {
                    child.hollow()
                };
                let filled = target.take_in(child, child.items.len());
                lemma_take_in_keeps_head(target, child, child.items.len());
                assert(last == node_events(child, path, important));
                if let Some(key) = child.key {
                    lemma_take_in_events(
                        target,
                        child,
                        child.items.len(),
                        path.push(key),
                        important,
                    );
                    if matches_nothing(key) {
                        assert(node_events(target, path, important) + last =~= seq![]);
                        lemma_follows_refl(true, Seq::<EventView<T>>::empty());
                    }
                } else {
                    assert(node_events(target, path, important) + last =~= seq![]);
                    lemma_follows_refl(true, Seq::<EventView<T>>::empty());
                }
                lemma_with_child(before, reuse, target, filled, last, true, path, important);
            },
            ItemView::Barrier(payload) => {
                lemma_tree_events_same(before, after, before.items.len(), path, important);
                assert(item_events(after.items[before.items.len() as int], path, important)
                    == last);
                assert(all_events(after, path, important) =~= middle + last);
                lemma_follows_refl(true, middle + last);
            },
        }
        lemma_follows_trans(
            true,
            start + tree_events(other, count, path, important),
            middle + last,
            all_events(after, path, important),
        );
    }
}

/// Joining the runs of a tree moves declarations up, of which some take the
/// place of another.
pub proof fn lemma_joined_events<T>(node: TreeView<T>, path: Seq<KeyView>, important: bool)
    ensures
        follows(
            true,
            all_events(node, path, important),
            all_events(node.joined(), path, important),
        ),
{
    lemma_hollow_events(node, path, important);
    lemma_take_in_events(node.hollow(), node, node.items.len(), path, important);
    assert(all_events(node.hollow(), path, important) + all_events(node, path, important)
        =~= all_events(node, path, important));
}

/// Taking in coherent items keeps nodes coherent.
pub proof fn lemma_take_in_coherent<T>(
    node: TreeView<T>,
    other: TreeView<T>,
    count: nat,
    context: MinifyContext,
)
    requires
        coherent(node, context),
        coherent(other, context),
        count <= other.items.len(),
    ensures
        coherent(node.take_in(other, count), context),
    decreases other, count,
{
    if count > 0 {
        let before = node.take_in(other, (count - 1) as nat);
        let after = node.take_in(other, count);
        lemma_take_in_coherent(node, other, (count - 1) as nat, context);
        match other.items[count - 1] {
            ItemView::Declarations(run) => {
                lemma_earlier_run(before.items, run, before.items.len());
            },
            ItemView::Child(child) => {
                assert(head_coherent(child, context) && coherent(child, context));
                let reuse = before.ends_like(child);
                let target = if reuse {
                    before.items.last()->Child_0
                } else {
                    child.hollow()
                };
                if reuse {
                    assert(before.items[before.items.len() - 1] == ItemView::Child(target));
                }
                assert(head_coherent(target, context));
                assert(coherent(target, context));
                lemma_take_in_coherent(target, child, child.items.len(), context);
                lemma_take_in_keeps_head(target, child, child.items.len());
                assert(head_coherent(target.take_in(child, child.items.len()), context));
            },
            ItemView::Barrier(_) => {},
        }
        assert forall|i: int| 0 <= i < after.items.len() implies match #[trigger] after.items[i] {
            ItemView::Child(child) => head_coherent(child, context) && coherent(child, context),
            _ => true,
        } by {
            if i < before.items.len() && after.items[i] == before.items[i] {
                assert(before.items[i] == after.items[i]);
            }
        }
    }
}

} // verus!
