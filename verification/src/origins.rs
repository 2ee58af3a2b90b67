//! Where each declaration of a merged list comes from.
use crate::cascade::bears_on;
use crate::cascade::changes;
use crate::cascade::collapse;
use crate::cascade::collapsible;
use crate::cascade::consistent;
use crate::cascade::events;
use crate::cascade::last_at;
use crate::cascade::last_declaration;
use crate::cascade::movable;
use crate::cascade::moved;
use crate::cascade::reduces_in;
use crate::cascade::stands_for;
use crate::cascade::winner;
use crate::cascade::EventView;
use crate::context::MinifyContext;
use crate::declaration::PropertyKey;
use crate::laws::law_last_declarations_are_kept;
use crate::laws::law_merging_only_moves_and_collapses;
use crate::laws::law_winners_are_kept;
use crate::merge::merged;
use crate::model::KeyView;
use crate::rules::RuleView;
use crate::terms::bound;
use crate::terms::clash;
use crate::terms::has_part;
use crate::terms::is_part;
use crate::terms::lemma_symmetric;
use crate::terms::parts_meet;
use vstd::prelude::*;

verus! {

/// Whether the two may change places: they are declarations that set nothing in
/// common and, at different paths, have nothing to do with each other.
pub open spec fn commutes<T>(a: EventView<T>, b: EventView<T>) -> bool {
    &&& a is Declaration
    &&& b is Declaration
    &&& !clash(a->property.id, b->property.id)
    &&& a->Declaration_path == b->Declaration_path || !bound(a->property.id, b->property.id)
}

/// Whether the two declare the same property at the same path.
pub open spec fn same_place<T>(a: EventView<T>, b: EventView<T>) -> bool {
    &&& a is Declaration
    &&& b is Declaration
    &&& a->Declaration_path == b->Declaration_path
    &&& a->property.id.key == b->property.id.key
}

/// Whether the event at `place` has been kept.
pub open spec fn placed(origins: Seq<int>, place: int) -> bool {
    exists|i: int| 0 <= i < origins.len() && #[trigger] origins[i] == place
}

/// Whether a later event of the same property at the same path has been kept.
pub open spec fn superseded<T>(before: Seq<EventView<T>>, place: int, origins: Seq<int>) -> bool {
    exists|i: int|
        0 <= i < origins.len() && place < #[trigger] origins[i] && same_place(
            before[place],
            before[origins[i]],
        )
}

/// Whether `after` is what is left of `before`, where `origins` says at which
/// place each event stood. Each stood at a place of its own, two of them have
/// changed places only if they may, and what is left out is a declaration of
/// which a later one of the same property at the same path is left.
pub open spec fn explains<T>(
    before: Seq<EventView<T>>,
    after: Seq<EventView<T>>,
    origins: Seq<int>,
) -> bool {
    &&& origins.len() == after.len()
    &&& forall|i: int|
        0 <= i < after.len() ==> 0 <= #[trigger] origins[i] < before.len() && after[i]
            == before[origins[i]]
    &&& forall|i: int, j: int|
        0 <= i < j < after.len() ==> #[trigger] origins[i] != #[trigger] origins[j]
    &&& forall|i: int, j: int|
        0 <= i < j < after.len() && #[trigger] origins[i] > #[trigger] origins[j] ==> commutes(
            after[i],
            after[j],
        )
    &&& forall|place: int|
        0 <= place < before.len() ==> #[trigger] placed(origins, place) || superseded(
            before,
            place,
            origins,
        )
}

/// Every place, in order.
spec fn in_order(count: nat) -> Seq<int> {
    Seq::new(count, |i: int| i)
}

proof fn lemma_same_explains<T>(list: Seq<EventView<T>>)
    ensures
        explains(list, list, in_order(list.len())),
{
    let origins = in_order(list.len());
    assert forall|place: int| 0 <= place < list.len() implies #[trigger] placed(origins, place) by {
        assert(origins[place] == place);
    }
}

proof fn lemma_moved_explains<T>(list: Seq<EventView<T>>, first: int, second: int)
    requires
        movable(list, first, second),
    ensures
        exists|origins: Seq<int>| explains(list, moved(list, first, second), origins),
{
    let after = moved(list, first, second);
    let origins = in_order(list.len()).remove(second).insert(first, second);
    assert forall|i: int| 0 <= i < after.len() implies 0 <= #[trigger] origins[i] < list.len()
        && after[i] == list[origins[i]] by {}
    assert forall|i: int, j: int|
        0 <= i < j < after.len() && #[trigger] origins[i] > #[trigger] origins[j] implies commutes(
        after[i],
        after[j],
    ) by {
        assert(i == first);
        assert(list[j - 1] is Declaration);
        lemma_symmetric(list[j - 1]->property.id, list[second]->property.id);
    }
    assert forall|place: int| 0 <= place < list.len() implies #[trigger] placed(
        origins,
        place,
    ) by {
        if place == second {
            assert(origins[first] == place);
        } else if place < first || place > second {
            assert(origins[place] == place);
        } else {
            assert(origins[place + 1] == place);
        }
    }
    assert(explains(list, after, origins));
}

proof fn lemma_collapse_explains<T>(list: Seq<EventView<T>>, first: int, second: int)
    requires
        collapsible(list, first, second),
    ensures
        exists|origins: Seq<int>| explains(list, collapse(list, first, second), origins),
{
    let after = collapse(list, first, second);
    let origins = in_order(list.len()).update(first, second).remove(second);
    assert forall|i: int| 0 <= i < after.len() implies 0 <= #[trigger] origins[i] < list.len()
        && after[i] == list[origins[i]] by {}
    assert forall|i: int, j: int|
        0 <= i < j < after.len() && #[trigger] origins[i] > #[trigger] origins[j] implies commutes(
        after[i],
        after[j],
    ) by {
        assert(i == first);
        assert(list[j] is Declaration);
        lemma_symmetric(list[j]->property.id, list[second]->property.id);
    }
    assert forall|place: int| 0 <= place < list.len() implies #[trigger] placed(origins, place)
        || superseded(list, place, origins) by {
        if place == second || place == first {
            assert(origins[first] == second);
        } else if place < second {
            assert(origins[place] == place);
        } else {
            assert(origins[place - 1] == place);
        }
    }
    assert(explains(list, after, origins));
}

/// A later event of the same place stood behind the earlier one before, too.
proof fn lemma_same_place_keeps_order<T>(
    before: Seq<EventView<T>>,
    after: Seq<EventView<T>>,
    origins: Seq<int>,
    i: int,
    j: int,
)
    requires
        explains(before, after, origins),
        0 <= i < j < after.len(),
        same_place(after[i], after[j]),
    ensures
        origins[i] < origins[j],
{
    assert(origins[i] != origins[j]);
}

proof fn lemma_explains_trans<T>(
    before: Seq<EventView<T>>,
    between: Seq<EventView<T>>,
    after: Seq<EventView<T>>,
    first: Seq<int>,
    second: Seq<int>,
)
    requires
        explains(before, between, first),
        explains(between, after, second),
    ensures
        exists|origins: Seq<int>| explains(before, after, origins),
{
    let origins = Seq::new(after.len(), |i: int| first[second[i]]);
    assert forall|i: int| 0 <= i < after.len() implies 0 <= #[trigger] origins[i] < before.len()
        && after[i] == before[origins[i]] by {
        let k = second[i];
        assert(0 <= first[k] < before.len());
    }
    assert forall|i: int, j: int| 0 <= i < j < after.len() implies #[trigger] origins[i]
        != #[trigger] origins[j] by {
        let k = second[i];
        let l = second[j];
        if k < l {
            assert(first[k] != first[l]);
        } else {
            assert(first[l] != first[k]);
        }
    }
    assert forall|i: int, j: int|
        0 <= i < j < after.len() && #[trigger] origins[i] > #[trigger] origins[j] implies commutes(
        after[i],
        after[j],
    ) by {
        let k = second[i];
        let l = second[j];
        if k < l {
            assert(first[k] > first[l]);
            assert(commutes(between[k], between[l]));
        }
    }
    assert forall|place: int| 0 <= place < before.len() implies #[trigger] placed(origins, place)
        || superseded(before, place, origins) by {
        if placed(first, place) {
            let k = choose|k: int| 0 <= k < first.len() && #[trigger] first[k] == place;
            if placed(second, k) {
                let i = choose|i: int| 0 <= i < second.len() && #[trigger] second[i] == k;
                assert(origins[i] == place);
            } else {
                assert(superseded(between, k, second));
                let i = choose|i: int|
                    0 <= i < second.len() && k < #[trigger] second[i] && same_place(
                        between[k],
                        between[second[i]],
                    );
                lemma_same_place_keeps_order(before, between, first, k, second[i]);
                assert(place < origins[i]);
            }
        } else {
            assert(superseded(before, place, first));
            let k = choose|k: int|
                0 <= k < first.len() && place < #[trigger] first[k] && same_place(
                    before[place],
                    before[first[k]],
                );
            if placed(second, k) {
                let i = choose|i: int| 0 <= i < second.len() && #[trigger] second[i] == k;
                assert(place < origins[i]);
            } else {
                assert(superseded(between, k, second));
                let i = choose|i: int|
                    0 <= i < second.len() && k < #[trigger] second[i] && same_place(
                        between[k],
                        between[second[i]],
                    );
                lemma_same_place_keeps_order(before, between, first, k, second[i]);
                assert(place < origins[i]);
            }
        }
    }
    assert(explains(before, after, origins));
}

proof fn lemma_reduces_explains<T>(
    before: Seq<EventView<T>>,
    after: Seq<EventView<T>>,
    count: nat,
)
    requires
        reduces_in(before, after, count),
    ensures
        exists|origins: Seq<int>| explains(before, after, origins),
    decreases count,
{
    if count == 0 {
        lemma_same_explains(before);
        assert(explains(before, after, in_order(before.len())));
    } else {
        let between = choose|between: Seq<EventView<T>>| #[trigger]
            changes(before, between) && reduces_in(between, after, (count - 1) as nat);
        if exists|first: int, second: int|
            #[trigger] movable(before, first, second) && between == moved(before, first, second) {
            let (first, second) = choose|first: int, second: int|
                #[trigger] movable(before, first, second) && between == moved(
                    before,
                    first,
                    second,
                );
            lemma_moved_explains(before, first, second);
        } else {
            let (first, second) = choose|first: int, second: int|
                #[trigger] collapsible(before, first, second) && between == collapse(
                    before,
                    first,
                    second,
                );
            lemma_collapse_explains(before, first, second);
        }
        lemma_reduces_explains(between, after, (count - 1) as nat);
        let one = choose|one: Seq<int>| explains(before, between, one);
        let two = choose|two: Seq<int>| explains(between, after, two);
        lemma_explains_trans(before, between, after, one, two);
    }
}

/// Every declaration and every rule of another kind in a merged list was in the
/// given list, at a place of its own. Two of them stand the other way round only
/// if both are declarations that set nothing in common and, at different paths,
/// have nothing to do with each other. What is gone is a declaration of which a
/// later one of the same property, importance and path is left.
pub proof fn law_every_event_has_its_origin<T>(
    rules: Seq<RuleView<T>>,
    important: bool,
    context: MinifyContext,
)
    requires
        merged(rules, context).0 is Ok,
    ensures
        exists|origins: Seq<int>|
            explains(
                events(rules, important, context),
                events(merged(rules, context).1, important, context),
                origins,
            ),
{
    let before = events(rules, important, context);
    let after = events(merged(rules, context).1, important, context);
    law_merging_only_moves_and_collapses(rules, important, context);
    let count = choose|count: nat| reduces_in(before, after, count);
    lemma_reduces_explains(before, after, count);
}

/// Declarations at different paths whose names have a part in common, at
/// whatever place in either name, stay in order: the last of either property at
/// its path stands in front of the last of the other exactly if it did before.
pub proof fn law_names_with_a_common_part_keep_their_order<T>(
    rules: Seq<RuleView<T>>,
    important: bool,
    context: MinifyContext,
    path: Seq<KeyView>,
    key: PropertyKey,
    start: int,
    end: int,
    other_path: Seq<KeyView>,
    other_key: PropertyKey,
    other_start: int,
    other_end: int,
)
    requires
        merged(rules, context).0 is Ok,
        path != other_path,
        0 <= start < end <= key.0.len(),
        start == 0 || key.0[start - 1] == '-',
        end == key.0.len() || key.0[end] == '-',
        forall|i: int| start <= i < end ==> #[trigger] key.0[i] != '-',
        0 <= other_start < other_end <= other_key.0.len(),
        other_start == 0 || other_key.0[other_start - 1] == '-',
        other_end == other_key.0.len() || other_key.0[other_end] == '-',
        forall|i: int| other_start <= i < other_end ==> #[trigger] other_key.0[i] != '-',
        key.0.subrange(start, end) == other_key.0.subrange(other_start, other_end),
    ensures
        ({
            let before = events(rules, important, context);
            let after = events(merged(rules, context).1, important, context);
            let one = last_declaration(before, path, key);
            let other = last_declaration(before, other_path, other_key);
            let new_one = last_declaration(after, path, key);
            let new_other = last_declaration(after, other_path, other_key);
            one >= 0 && other >= 0 ==> new_one >= 0 && new_other >= 0 && (one < other <==> new_one
                < new_other)
        }),
{
    let before = events(rules, important, context);
    let one = last_declaration(before, path, key);
    let other = last_declaration(before, other_path, other_key);
    law_last_declarations_are_kept(
        rules,
        important,
        context,
        path,
        key,
        other_path,
        other_key,
    );
    law_last_declarations_are_kept(
        rules,
        important,
        context,
        other_path,
        other_key,
        path,
        key,
    );
    lemma_last_stands_for(before, path, key, before.len());
    lemma_last_stands_for(before, other_path, other_key, before.len());
    let word = key.0.subrange(start, end);
    assert(is_part(key.0, start, end));
    assert(is_part(other_key.0, other_start, other_end));
    assert(has_part(key.0, word) && has_part(other_key.0, word));
    assert(parts_meet(key.0, other_key.0));
}

/// The last declaration found declares the property at the path.
proof fn lemma_last_stands_for<T>(
    list: Seq<EventView<T>>,
    path: Seq<KeyView>,
    key: PropertyKey,
    end: nat,
)
    requires
        end <= list.len(),
    ensures
        ({
            let place = last_at(list, path, key, end);
            -1 <= place < end && (place >= 0 ==> stands_for(list[place], path, key))
        }),
    decreases end,
{
    if end > 0 && !stands_for(list[end - 1], path, key) {
        lemma_last_stands_for(list, path, key, (end - 1) as nat);
    }
}

/// The last event that bears on a property is the winner.
proof fn lemma_last_wins<T>(
    list: Seq<EventView<T>>,
    key: PropertyKey,
    applies: spec_fn(Seq<KeyView>) -> bool,
    touches: spec_fn(T) -> bool,
    place: int,
)
    requires
        0 <= place < list.len(),
        bears_on(list[place], key, applies, touches),
        forall|later: int|
            place < later < list.len() ==> !bears_on(#[trigger] list[later], key, applies, touches),
    ensures
        winner(list, key, applies, touches) == Some(list[place]),
    decreases list.len(),
{
    if place < list.len() - 1 {
        assert(!bears_on(list[list.len() - 1], key, applies, touches));
        lemma_last_wins(list.drop_last(), key, applies, touches, place);
    }
}

/// The winner stands behind everything else that bears on the property.
proof fn lemma_winner_is_last<T>(
    list: Seq<EventView<T>>,
    key: PropertyKey,
    applies: spec_fn(Seq<KeyView>) -> bool,
    touches: spec_fn(T) -> bool,
) -> (place: int)
    requires
        winner(list, key, applies, touches) is Some,
    ensures
        0 <= place < list.len(),
        winner(list, key, applies, touches) == Some(list[place]),
        forall|later: int|
            place < later < list.len() ==> !bears_on(#[trigger] list[later], key, applies, touches),
    decreases list.len(),
{
    if bears_on(list.last(), key, applies, touches) {
        list.len() - 1
    } else {
        let place = lemma_winner_is_last(list.drop_last(), key, applies, touches);
        assert forall|later: int| place < later < list.len() implies !bears_on(
            #[trigger] list[later],
            key,
            applies,
            touches,
        ) by {
            if later < list.len() - 1 {
                assert(list.drop_last()[later] == list[later]);
            }
        }
        place
    }
}

/// Whether the event stands somewhere in the list, with nothing behind it that
/// bears on the property.
pub open spec fn has_last_word<T>(
    list: Seq<EventView<T>>,
    event: EventView<T>,
    key: PropertyKey,
    applies: spec_fn(Seq<KeyView>) -> bool,
    touches: spec_fn(T) -> bool,
) -> bool {
    exists|place: int|
        0 <= place < list.len() && #[trigger] list[place] == event && forall|later: int|
            place < later < list.len() ==> !bears_on(#[trigger] list[later], key, applies, touches)
}

/// A shorthand that has the last word on one of its longhands, whichever it is,
/// has it after merging, too.
pub proof fn law_last_word_on_a_longhand_is_kept<T>(
    rules: Seq<RuleView<T>>,
    important: bool,
    context: MinifyContext,
    applies: spec_fn(Seq<KeyView>) -> bool,
    touches: spec_fn(T) -> bool,
    event: EventView<T>,
    i: int,
)
    requires
        merged(rules, context).0 is Ok,
        consistent(events(rules, important, context)),
        event is Declaration,
        applies(event->Declaration_path),
        event->property.id.longhands is Some,
        0 <= i < event->property.id.longhands->Some_0.len(),
        has_last_word(
            events(rules, important, context),
            event,
            event->property.id.longhands->Some_0[i],
            applies,
            touches,
        ),
    ensures
        has_last_word(
            events(merged(rules, context).1, important, context),
            event,
            event->property.id.longhands->Some_0[i],
            applies,
            touches,
        ),
{
    let before = events(rules, important, context);
    let after = events(merged(rules, context).1, important, context);
    let key = event->property.id.longhands->Some_0[i];
    let place = choose|place: int|
        0 <= place < before.len() && #[trigger] before[place] == event && forall|later: int|
            place < later < before.len() ==> !bears_on(
                #[trigger] before[later],
                key,
                applies,
                touches,
            );
    assert(event->property.id.longhands->Some_0[i] == key);
    lemma_last_wins(before, key, applies, touches, place);
    law_winners_are_kept(rules, important, context, key, applies, touches);
    let new_place = lemma_winner_is_last(after, key, applies, touches);
    assert(after[new_place] == event);
}

/// Whether the characters from `start` up to `end` are a part of the name of the
/// event's property, between hyphens or an end.
pub open spec fn names_part<T>(event: EventView<T>, start: int, end: int) -> bool {
    let name = event->property.id.key.0;
    &&& 0 <= start < end <= name.len()
    &&& start == 0 || name[start - 1] == '-'
    &&& end == name.len() || name[end] == '-'
    &&& forall|i: int| start <= i < end ==> #[trigger] name[i] != '-'
}

/// Every declaration that is left stands in the order that it stood in with
/// respect to every other, at a different path, whose name has a part in common
/// with its own.
pub proof fn law_all_declarations_with_a_common_part_keep_their_order<T>(
    rules: Seq<RuleView<T>>,
    important: bool,
    context: MinifyContext,
)
    requires
        merged(rules, context).0 is Ok,
    ensures
        ({
            let before = events(rules, important, context);
            let after = events(merged(rules, context).1, important, context);
            exists|origins: Seq<int>|
                {
                    &&& #[trigger] explains(before, after, origins)
                    &&& forall|i: int, j: int, start: int, end: int, from: int, to: int|
                        0 <= i < j < after.len() && after[i] is Declaration && after[j]
                            is Declaration && after[i]->Declaration_path
                            != after[j]->Declaration_path && #[trigger] names_part(
                            after[i],
                            start,
                            end,
                        ) && #[trigger] names_part(after[j], from, to)
                            && after[i]->property.id.key.0.subrange(start, end)
                            == after[j]->property.id.key.0.subrange(from, to) ==> origins[i]
                            < origins[j]
                }
        }),
{
    let before = events(rules, important, context);
    let after = events(merged(rules, context).1, important, context);
    law_every_event_has_its_origin(rules, important, context);
    let origins = choose|origins: Seq<int>| explains(before, after, origins);
    assert forall|i: int, j: int, start: int, end: int, from: int, to: int|
        0 <= i < j < after.len() && after[i] is Declaration && after[j] is Declaration
            && after[i]->Declaration_path != after[j]->Declaration_path && #[trigger] names_part(
            after[i],
            start,
            end,
        ) && #[trigger] names_part(after[j], from, to) && after[i]->property.id.key.0.subrange(
            start,
            end,
        ) == after[j]->property.id.key.0.subrange(from, to) implies origins[i] < origins[j] by {
        let a = after[i]->property.id.key.0;
        let b = after[j]->property.id.key.0;
        let word = a.subrange(start, end);
        assert(is_part(a, start, end));
        assert(is_part(b, from, to));
        assert(has_part(a, word) && has_part(b, word));
        assert(parts_meet(a, b));
        assert(origins[i] != origins[j]);
        if origins[i] > origins[j] {
            assert(commutes(after[i], after[j]));
        }
    }
    assert(explains(before, after, origins));
}

} // verus!
