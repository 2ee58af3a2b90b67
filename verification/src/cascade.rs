//! What a rule list says to the cascade: its declarations in source order, each
//! with the wrappers and selectors that it stands in.
use crate::context::MinifyContext;
use crate::declaration::BlockView;
use crate::declaration::PropertyIdView;
use crate::declaration::PropertyKey;
use crate::declaration::PropertyView;
use crate::model::KeyView;
use crate::rules::RuleView;
use crate::terms::bound;
use crate::terms::clash;
use crate::terms::covers;
use crate::terms::query_error;
use crate::terms::step;
use vstd::prelude::*;

verus! {

/// A declaration, or a rule of another kind, and the path to it: the keys of
/// the wrappers and selectors around it, from the outermost on.
#[verifier::ext_equal]
pub enum EventView<T> {
    Declaration { path: Seq<KeyView>, property: PropertyView },
    Barrier { path: Seq<KeyView>, payload: T },
}

/// The declarations of a block that have this importance.
pub open spec fn block_properties(block: BlockView, important: bool) -> Seq<PropertyView> {
    if important {
        block.important
    } else {
        block.normal
    }
}

/// The properties, declared one after the other at the path.
pub open spec fn declared<T>(properties: Seq<PropertyView>, path: Seq<KeyView>) -> Seq<
    EventView<T>,
> {
    Seq::new(
        properties.len(),
        |i: int| EventView::Declaration { path, property: properties[i] },
    )
}

/// Whether nothing can match what the key stands for: it lists no selector.
pub open spec fn matches_nothing(key: KeyView) -> bool {
    key matches KeyView::Selector { selectors, vendor_prefix: _, source_index: _ }
        && selectors.len() == 0
}

/// The declarations of one importance in a rule at the path, in source order,
/// among the rules of other kinds. Under a list without selectors there are
/// none, nor under a query that cannot be normalized.
pub open spec fn rule_events<T>(
    rule: RuleView<T>,
    path: Seq<KeyView>,
    important: bool,
    context: MinifyContext,
) -> Seq<EventView<T>>
    decreases rule, 0nat,
{
    match rule {
        RuleView::AtRule { prelude, rules, loc } => match query_error(prelude, loc, context) {
            Some(_) => seq![],
            None => list_events(
                rules,
                rules.len(),
                path.push(step(prelude, context)),
                important,
                context,
            ),
        },
        RuleView::Style { selectors, vendor_prefix, block, rules, loc } => {
            let key = KeyView::Selector {
                selectors,
                vendor_prefix,
                source_index: loc.source_index,
            };
            if matches_nothing(key) {
                seq![]
            } else {
                declared(block_properties(block, important), path.push(key)) + list_events(
                    rules,
                    rules.len(),
                    path.push(key),
                    important,
                    context,
                )
            }
        },
        RuleView::NestedDeclarations { block, loc: _ } => declared(
            block_properties(block, important),
            path,
        ),
        RuleView::Other(payload) => seq![EventView::Barrier { path, payload }],
    }
}

/// The declarations of one importance in the first `count` rules.
pub open spec fn list_events<T>(
    rules: Seq<RuleView<T>>,
    count: nat,
    path: Seq<KeyView>,
    important: bool,
    context: MinifyContext,
) -> Seq<EventView<T>>
    decreases rules, count,
{
    if count == 0 || count > rules.len() {
        seq![]
    } else {
        list_events(rules, (count - 1) as nat, path, important, context) + rule_events(
            rules[count - 1],
            path,
            important,
            context,
        )
    }
}

/// The declarations of one importance in a rule list, in source order, among
/// the rules of other kinds.
pub open spec fn events<T>(
    rules: Seq<RuleView<T>>,
    important: bool,
    context: MinifyContext,
) -> Seq<EventView<T>> {
    list_events(rules, rules.len(), seq![], important, context)
}

/// Whether the declaration at `second` can be moved up to `first`: what lies
/// between are declarations that have nothing to do with it.
pub open spec fn movable<T>(list: Seq<EventView<T>>, first: int, second: int) -> bool {
    &&& 0 <= first <= second < list.len()
    &&& list[second] is Declaration
    &&& forall|i: int|
        first <= i < second ==> {
            &&& (#[trigger] list[i]) is Declaration
            &&& !bound(list[i]->property.id, list[second]->property.id)
        }
}

/// The list with the declaration at `second` moved up to `first`.
pub open spec fn moved<T>(list: Seq<EventView<T>>, first: int, second: int) -> Seq<EventView<T>> {
    list.remove(second).insert(first, list[second])
}

/// Whether the declarations at `first` and `second` can be made one, in the
/// first's place with the second's value: they declare the same property at the
/// same path, and what lies between are declarations at that path that do not
/// conflict with the second.
pub open spec fn collapsible<T>(list: Seq<EventView<T>>, first: int, second: int) -> bool {
    &&& 0 <= first < second < list.len()
    &&& list[first] is Declaration
    &&& list[second] is Declaration
    &&& list[first]->Declaration_path == list[second]->Declaration_path
    &&& list[first]->property.id.key == list[second]->property.id.key
    &&& forall|i: int|
        first < i < second ==> {
            &&& (#[trigger] list[i]) is Declaration
            &&& list[i]->Declaration_path == list[second]->Declaration_path
            &&& !clash(list[i]->property.id, list[second]->property.id)
        }
}

/// The list with the declarations at `first` and `second` made one.
pub open spec fn collapse<T>(list: Seq<EventView<T>>, first: int, second: int) -> Seq<
    EventView<T>,
> {
    list.update(first, list[second]).remove(second)
}

/// Whether `after` comes from `before` by moving a declaration up, or by making
/// two declarations one.
pub open spec fn changes<T>(before: Seq<EventView<T>>, after: Seq<EventView<T>>) -> bool {
    ||| exists|first: int, second: int|
        #[trigger] movable(before, first, second) && after == moved(before, first, second)
    ||| exists|first: int, second: int|
        #[trigger] collapsible(before, first, second) && after == collapse(before, first, second)
}

/// Whether `after` comes from `before` by doing that `count` times.
pub open spec fn reduces_in<T>(
    before: Seq<EventView<T>>,
    after: Seq<EventView<T>>,
    count: nat,
) -> bool
    decreases count,
{
    if count == 0 {
        before == after
    } else {
        exists|between: Seq<EventView<T>>| #[trigger]
            changes(before, between) && reduces_in(between, after, (count - 1) as nat)
    }
}

/// Whether `after` comes from `before` by moving declarations up and making two
/// declarations one, any number of times.
pub open spec fn reduces<T>(before: Seq<EventView<T>>, after: Seq<EventView<T>>) -> bool {
    exists|count: nat| reduces_in(before, after, count)
}

/// Whether a declaration of the property sets the one with this key.
pub open spec fn sets(id: PropertyIdView, key: PropertyKey) -> bool {
    id.key == key || id.key.0 == "all"@ || covers(id, key)
}

/// Whether the event bears on the property with this key, where `applies` says
/// which paths match and `touches` which rules of other kinds bear on it.
pub open spec fn bears_on<T>(
    event: EventView<T>,
    key: PropertyKey,
    applies: spec_fn(Seq<KeyView>) -> bool,
    touches: spec_fn(T) -> bool,
) -> bool {
    match event {
        EventView::Declaration { path, property } => applies(path) && sets(property.id, key),
        EventView::Barrier { path, payload } => applies(path) && touches(payload),
    }
}

/// The last event that bears on the property: what decides it, where everything
/// else is equal.
pub open spec fn winner<T>(
    list: Seq<EventView<T>>,
    key: PropertyKey,
    applies: spec_fn(Seq<KeyView>) -> bool,
    touches: spec_fn(T) -> bool,
) -> Option<EventView<T>>
    decreases list.len(),
{
    if list.len() == 0 {
        None
    } else if bears_on(list.last(), key, applies, touches) {
        Some(list.last())
    } else {
        winner(list.drop_last(), key, applies, touches)
    }
}

/// Whether declarations of the same property agree on what longhands it has.
pub open spec fn consistent<T>(list: Seq<EventView<T>>) -> bool {
    forall|i: int, j: int|
        0 <= i < list.len() && 0 <= j < list.len() && (#[trigger] list[i]) is Declaration && (
        #[trigger] list[j]) is Declaration && list[i]->property.id.key == list[j]->property.id.key
            ==> list[i]->property.id == list[j]->property.id
}

/// Whether the event declares the property with this key at the path.
pub open spec fn stands_for<T>(event: EventView<T>, path: Seq<KeyView>, key: PropertyKey) -> bool {
    event is Declaration && event->Declaration_path == path && event->property.id.key == key
}

/// Where the last of the first `end` events that declares the property at the
/// path stands, or -1.
pub open spec fn last_at<T>(
    list: Seq<EventView<T>>,
    path: Seq<KeyView>,
    key: PropertyKey,
    end: nat,
) -> int
    decreases end,
{
    if end == 0 {
        -1
    } else if stands_for(list[end - 1], path, key) {
        end - 1
    } else {
        last_at(list, path, key, (end - 1) as nat)
    }
}

/// Where the last declaration of the property at the path stands, or -1.
pub open spec fn last_declaration<T>(
    list: Seq<EventView<T>>,
    path: Seq<KeyView>,
    key: PropertyKey,
) -> int {
    last_at(list, path, key, list.len())
}

/// Whether the order of the two declarations matters: they conflict, or they
/// stand at different paths and may have to do with each other.
pub open spec fn order_matters<T>(a: EventView<T>, b: EventView<T>) -> bool {
    ||| clash(a->property.id, b->property.id)
    ||| a->Declaration_path != b->Declaration_path && bound(a->property.id, b->property.id)
}

/// Whether the list declares the property with this key at the path.
pub open spec fn declares<T>(list: Seq<EventView<T>>, path: Seq<KeyView>, key: PropertyKey) -> bool {
    exists|i: int|
        0 <= i < list.len() && (#[trigger] list[i]) is Declaration && list[i]->Declaration_path
            == path && list[i]->property.id.key == key
}

/// The rules of other kinds in the list, with their paths.
pub open spec fn barriers<T>(list: Seq<EventView<T>>) -> Seq<EventView<T>>
    decreases list.len(),
{
    if list.len() == 0 {
        seq![]
    } else if list.last() is Barrier {
        barriers(list.drop_last()).push(list.last())
    } else {
        barriers(list.drop_last())
    }
}

} // verus!
