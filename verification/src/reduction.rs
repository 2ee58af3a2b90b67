//! Moving declarations up and making two of them one: what that keeps, and that
//! it can be done in a part of a list.
use crate::cascade::barriers;
use crate::cascade::bears_on;
use crate::cascade::changes;
use crate::cascade::collapse;
use crate::cascade::collapsible;
use crate::cascade::consistent;
use crate::cascade::declares;
use crate::cascade::last_at;
use crate::cascade::last_declaration;
use crate::cascade::movable;
use crate::cascade::moved;
use crate::cascade::order_matters;
use crate::cascade::reduces;
use crate::cascade::reduces_in;
use crate::cascade::stands_for;
use crate::cascade::winner;
use crate::cascade::EventView;
use crate::declaration::PropertyKey;
use crate::model::KeyView;
use crate::terms::bound;
use crate::terms::clash;
use crate::terms::covers;
use crate::terms::lemma_overlap;
use crate::terms::lemma_symmetric;
use vstd::prelude::*;

verus! {

/// What can be moved in a part of a list can be moved in the list.
proof fn lemma_movable_within<T>(
    before: Seq<EventView<T>>,
    first: int,
    second: int,
    head: Seq<EventView<T>>,
    tail: Seq<EventView<T>>,
)
    requires
        movable(before, first, second),
    ensures
        movable(head + before + tail, head.len() + first, head.len() + second),
{
    let whole = head + before + tail;
    let n = head.len() as int;
    assert(whole[n + second] == before[second]);
    assert forall|i: int| n + first <= i < n + second implies {
        &&& (#[trigger] whole[i]) is Declaration
        &&& !bound(whole[i]->property.id, whole[n + second]->property.id)
    } by {
        assert(whole[i] == before[i - n]);
    }
}

/// What holds of a part of a list holds of the list.
proof fn lemma_changes_within<T>(
    before: Seq<EventView<T>>,
    after: Seq<EventView<T>>,
    head: Seq<EventView<T>>,
    tail: Seq<EventView<T>>,
)
    requires
        changes(before, after),
    ensures
        changes(head + before + tail, head + after + tail),
{
    let whole = head + before + tail;
    let n = head.len() as int;
    if exists|first: int, second: int|
        #[trigger] movable(before, first, second) && after == moved(before, first, second) {
        let (first, second) = choose|first: int, second: int|
            #[trigger] movable(before, first, second) && after == moved(before, first, second);
        lemma_movable_within(before, first, second, head, tail);
        assert(head + after + tail =~= moved(whole, n + first, n + second));
    } else {
        let (first, second) = choose|first: int, second: int|
            #[trigger] collapsible(before, first, second) && after == collapse(
                before,
                first,
                second,
            );
        assert(whole[n + first] == before[first]);
        assert(whole[n + second] == before[second]);
        assert forall|i: int| n + first < i < n + second implies {
            &&& (#[trigger] whole[i]) is Declaration
            &&& whole[i]->Declaration_path == whole[n + second]->Declaration_path
            &&& !clash(whole[i]->property.id, whole[n + second]->property.id)
        } by {
            assert(whole[i] == before[i - n]);
        }
        assert(collapsible(whole, n + first, n + second));
        assert(head + after + tail =~= collapse(whole, n + first, n + second));
    }
}

/// What holds of a part of a list holds of the list, however often it is
/// changed.
proof fn lemma_reduces_in_within<T>(
    before: Seq<EventView<T>>,
    after: Seq<EventView<T>>,
    count: nat,
    head: Seq<EventView<T>>,
    tail: Seq<EventView<T>>,
)
    requires
        reduces_in(before, after, count),
    ensures
        reduces_in(head + before + tail, head + after + tail, count),
    decreases count,
{
    if count > 0 {
        let between = choose|between: Seq<EventView<T>>| #[trigger]
            changes(before, between) && reduces_in(between, after, (count - 1) as nat);
        lemma_changes_within(before, between, head, tail);
        lemma_reduces_in_within(between, after, (count - 1) as nat, head, tail);
    }
}

proof fn lemma_reduces_in_trans<T>(
    a: Seq<EventView<T>>,
    b: Seq<EventView<T>>,
    c: Seq<EventView<T>>,
    first: nat,
    second: nat,
)
    requires
        reduces_in(a, b, first),
        reduces_in(b, c, second),
    ensures
        reduces_in(a, c, first + second),
    decreases first,
{
    if first > 0 {
        let between = choose|between: Seq<EventView<T>>| #[trigger]
            changes(a, between) && reduces_in(between, b, (first - 1) as nat);
        lemma_reduces_in_trans(between, b, c, (first - 1) as nat, second);
        assert(changes(a, between) && reduces_in(between, c, (first + second - 1) as nat));
    }
}

/// How a list of events may change: with `dedupe` declarations may be moved up
/// and made one, else nothing changes.
pub open spec fn follows<T>(
    dedupe: bool,
    before: Seq<EventView<T>>,
    after: Seq<EventView<T>>,
) -> bool {
    if dedupe {
        reduces(before, after)
    } else {
        before == after
    }
}

pub proof fn lemma_follows_refl<T>(dedupe: bool, list: Seq<EventView<T>>)
    ensures
        follows(dedupe, list, list),
{
    assert(reduces_in(list, list, 0));
}

pub proof fn lemma_follows_trans<T>(
    dedupe: bool,
    a: Seq<EventView<T>>,
    b: Seq<EventView<T>>,
    c: Seq<EventView<T>>,
)
    requires
        follows(dedupe, a, b),
        follows(dedupe, b, c),
    ensures
        follows(dedupe, a, c),
{
    if dedupe {
        let first = choose|count: nat| reduces_in(a, b, count);
        let second = choose|count: nat| reduces_in(b, c, count);
        lemma_reduces_in_trans(a, b, c, first, second);
    }
}

pub proof fn lemma_follows_within<T>(
    dedupe: bool,
    before: Seq<EventView<T>>,
    after: Seq<EventView<T>>,
    head: Seq<EventView<T>>,
    tail: Seq<EventView<T>>,
)
    requires
        follows(dedupe, before, after),
    ensures
        follows(dedupe, head + before + tail, head + after + tail),
{
    if dedupe {
        let count = choose|count: nat| reduces_in(before, after, count);
        lemma_reduces_in_within(before, after, count, head, tail);
    }
}

/// Making two declarations one is a change that `dedupe` allows.
pub proof fn lemma_collapse_follows<T>(list: Seq<EventView<T>>, first: int, second: int)
    requires
        collapsible(list, first, second),
    ensures
        follows(true, list, collapse(list, first, second)),
{
    let after = collapse(list, first, second);
    assert(changes(list, after));
    assert(reduces_in(after, after, 0));
    assert(reduces_in(list, after, 1));
}

/// Moving a declaration up is a change that `dedupe` allows.
pub proof fn lemma_moved_follows<T>(list: Seq<EventView<T>>, first: int, second: int)
    requires
        movable(list, first, second),
    ensures
        follows(true, list, moved(list, first, second)),
{
    let after = moved(list, first, second);
    assert(changes(list, after));
    assert(reduces_in(after, after, 0));
    assert(reduces_in(list, after, 1));
}

/// The winner of two lists, one behind the other.
proof fn lemma_winner_concat<T>(
    a: Seq<EventView<T>>,
    b: Seq<EventView<T>>,
    key: PropertyKey,
    applies: spec_fn(Seq<KeyView>) -> bool,
    touches: spec_fn(T) -> bool,
)
    ensures
        winner(a + b, key, applies, touches) == (match winner(b, key, applies, touches) {
            Some(event) => Some(event),
            None => winner(a, key, applies, touches),
        }),
    decreases b.len(),
{
    if b.len() == 0 {
        assert(a + b =~= a);
    } else {
        assert((a + b).last() == b.last());
        assert((a + b).drop_last() =~= a + b.drop_last());
        lemma_winner_concat(a, b.drop_last(), key, applies, touches);
    }
}

/// A list in which nothing bears on the property has no winner.
proof fn lemma_no_winner<T>(
    list: Seq<EventView<T>>,
    key: PropertyKey,
    applies: spec_fn(Seq<KeyView>) -> bool,
    touches: spec_fn(T) -> bool,
)
    requires
        forall|i: int| 0 <= i < list.len() ==> !bears_on(#[trigger] list[i], key, applies, touches),
    ensures
        winner(list, key, applies, touches) is None,
    decreases list.len(),
{
    if list.len() > 0 {
        assert(list.last() == list[list.len() - 1]);
        lemma_no_winner(list.drop_last(), key, applies, touches);
    }
}

/// Making two declarations one changes the winner of no property.
proof fn lemma_collapse_winner<T>(
    list: Seq<EventView<T>>,
    first: int,
    second: int,
    key: PropertyKey,
    applies: spec_fn(Seq<KeyView>) -> bool,
    touches: spec_fn(T) -> bool,
)
    requires
        collapsible(list, first, second),
        consistent(list),
    ensures
        winner(collapse(list, first, second), key, applies, touches) == winner(
            list,
            key,
            applies,
            touches,
        ),
{
    let head = list.subrange(0, first);
    let middle = list.subrange(first + 1, second);
    let tail = list.subrange(second + 1, list.len() as int);
    let old_one = seq![list[first]];
    let new_one = seq![list[second]];
    assert(list =~= head + old_one + middle + new_one + tail);
    assert(collapse(list, first, second) =~= head + new_one + middle + tail);
    lemma_winner_concat(head + old_one + middle + new_one, tail, key, applies, touches);
    lemma_winner_concat(head + old_one + middle, new_one, key, applies, touches);
    lemma_winner_concat(head + old_one, middle, key, applies, touches);
    lemma_winner_concat(head, old_one, key, applies, touches);
    lemma_winner_concat(head + new_one + middle, tail, key, applies, touches);
    lemma_winner_concat(head + new_one, middle, key, applies, touches);
    lemma_winner_concat(head, new_one, key, applies, touches);
    assert(old_one.drop_last() =~= seq![]);
    assert(new_one.drop_last() =~= seq![]);
    assert(winner::<T>(seq![], key, applies, touches) is None);
    let new_id = list[second]->property.id;
    if bears_on(list[second], key, applies, touches) {
        assert forall|i: int| 0 <= i < middle.len() implies !bears_on(
            #[trigger] middle[i],
            key,
            applies,
            touches,
        ) by {
            let id = list[first + 1 + i]->property.id;
            assert(middle[i] == list[first + 1 + i]);
            assert(!clash(id, new_id));
            if covers(id, key) && covers(new_id, key) {
                lemma_overlap(id, new_id, key);
            }
        }
        lemma_no_winner(middle, key, applies, touches);
    } else {
        assert(list[first]->property.id == new_id);
    }
}

/// Moving a declaration up changes the winner of no property.
proof fn lemma_moved_winner<T>(
    list: Seq<EventView<T>>,
    first: int,
    second: int,
    key: PropertyKey,
    applies: spec_fn(Seq<KeyView>) -> bool,
    touches: spec_fn(T) -> bool,
)
    requires
        movable(list, first, second),
    ensures
        winner(moved(list, first, second), key, applies, touches) == winner(
            list,
            key,
            applies,
            touches,
        ),
{
    let head = list.subrange(0, first);
    let middle = list.subrange(first, second);
    let tail = list.subrange(second + 1, list.len() as int);
    let one = seq![list[second]];
    assert(list =~= head + middle + one + tail);
    assert(moved(list, first, second) =~= head + one + middle + tail);
    lemma_winner_concat(head + middle + one, tail, key, applies, touches);
    lemma_winner_concat(head + middle, one, key, applies, touches);
    lemma_winner_concat(head, middle, key, applies, touches);
    lemma_winner_concat(head + one + middle, tail, key, applies, touches);
    lemma_winner_concat(head + one, middle, key, applies, touches);
    lemma_winner_concat(head, one, key, applies, touches);
    assert(one.drop_last() =~= seq![]);
    assert(winner::<T>(seq![], key, applies, touches) is None);
    let new_id = list[second]->property.id;
    if bears_on(list[second], key, applies, touches) {
        assert forall|i: int| 0 <= i < middle.len() implies !bears_on(
            #[trigger] middle[i],
            key,
            applies,
            touches,
        ) by {
            let id = list[first + i]->property.id;
            assert(middle[i] == list[first + i]);
            assert(!clash(id, new_id));
            if covers(id, key) && covers(new_id, key) {
                lemma_overlap(id, new_id, key);
            }
        }
        lemma_no_winner(middle, key, applies, touches);
    }
}

/// The rules of other kinds in two lists, one behind the other.
proof fn lemma_barriers_concat<T>(a: Seq<EventView<T>>, b: Seq<EventView<T>>)
    ensures
        barriers(a + b) == barriers(a) + barriers(b),
    decreases b.len(),
{
    if b.len() == 0 {
        assert(a + b =~= a);
        assert(barriers(a) + barriers(b) =~= barriers(a));
    } else {
        assert((a + b).drop_last() =~= a + b.drop_last());
        lemma_barriers_concat(a, b.drop_last());
        assert(barriers(a + b) =~= barriers(a) + barriers(b));
    }
}

/// Making two declarations one keeps the rules of other kinds, and the
/// properties that are declared at each path, and adds nothing.
proof fn lemma_collapse_keeps<T>(list: Seq<EventView<T>>, first: int, second: int)
    requires
        collapsible(list, first, second),
    ensures
        barriers(collapse(list, first, second)) == barriers(list),
        forall|path: Seq<KeyView>, key: PropertyKey|
            #[trigger] declares(collapse(list, first, second), path, key) == declares(
                list,
                path,
                key,
            ),
        forall|event: EventView<T>|
            collapse(list, first, second).contains(event) ==> #[trigger] list.contains(event),
        consistent(list) ==> consistent(collapse(list, first, second)),
{
    let after = collapse(list, first, second);
    let head = list.subrange(0, first);
    let middle = list.subrange(first + 1, second);
    let tail = list.subrange(second + 1, list.len() as int);
    let old_one = seq![list[first]];
    let new_one = seq![list[second]];
    assert(list =~= head + old_one + middle + new_one + tail);
    assert(after =~= head + new_one + middle + tail);
    lemma_barriers_concat(head + old_one + middle + new_one, tail);
    lemma_barriers_concat(head + old_one + middle, new_one);
    lemma_barriers_concat(head + old_one, middle);
    lemma_barriers_concat(head, old_one);
    lemma_barriers_concat(head + new_one + middle, tail);
    lemma_barriers_concat(head + new_one, middle);
    lemma_barriers_concat(head, new_one);
    assert(old_one.drop_last() =~= seq![]);
    assert(new_one.drop_last() =~= seq![]);
    assert(barriers::<T>(seq![]) =~= seq![]);
    assert(barriers(old_one) =~= seq![]);
    assert(barriers(new_one) =~= seq![]);
    assert(barriers(after) =~= barriers(list));
    // Every event of `after` stands in `list`: at the same place, at the
    // second's, or one place later.
    assert forall|i: int| 0 <= i < after.len() implies #[trigger] after[i] == list[if i == first {
        second
    } else if i < second {
        i
    } else {
        i + 1
    }] by {}
    assert forall|path: Seq<KeyView>, key: PropertyKey|
        #[trigger] declares(after, path, key) == declares(list, path, key) by {
        if declares(after, path, key) {
            let i = choose|i: int|
                0 <= i < after.len() && (#[trigger] after[i]) is Declaration
                    && after[i]->Declaration_path == path && after[i]->property.id.key == key;
            let j = if i == first {
                second
            } else if i < second {
                i
            } else {
                i + 1
            };
            assert(list[j] == after[i]);
        }
        if declares(list, path, key) {
            let i = choose|i: int|
                0 <= i < list.len() && (#[trigger] list[i]) is Declaration
                    && list[i]->Declaration_path == path && list[i]->property.id.key == key;
            let j = if i == second {
                first
            } else if i < second {
                i
            } else {
                i - 1
            };
            assert(after[j] is Declaration);
        }
    }
    assert forall|event: EventView<T>| after.contains(event) implies #[trigger] list.contains(
        event,
    ) by {
        let i = choose|i: int| 0 <= i < after.len() && after[i] == event;
        let j = if i == first {
            second
        } else if i < second {
            i
        } else {
            i + 1
        };
        assert(list[j] == event);
    }
    if consistent(list) {
        assert(consistent(after));
    }
}

/// Moving a declaration up keeps the rules of other kinds, and the events.
proof fn lemma_moved_keeps<T>(list: Seq<EventView<T>>, first: int, second: int)
    requires
        movable(list, first, second),
    ensures
        barriers(moved(list, first, second)) == barriers(list),
        forall|path: Seq<KeyView>, key: PropertyKey|
            #[trigger] declares(moved(list, first, second), path, key) == declares(
                list,
                path,
                key,
            ),
        forall|event: EventView<T>|
            moved(list, first, second).contains(event) ==> #[trigger] list.contains(event),
        consistent(list) ==> consistent(moved(list, first, second)),
{
    let after = moved(list, first, second);
    let head = list.subrange(0, first);
    let middle = list.subrange(first, second);
    let tail = list.subrange(second + 1, list.len() as int);
    let one = seq![list[second]];
    assert(list =~= head + middle + one + tail);
    assert(after =~= head + one + middle + tail);
    lemma_barriers_concat(head + middle + one, tail);
    lemma_barriers_concat(head + middle, one);
    lemma_barriers_concat(head, middle);
    lemma_barriers_concat(head + one + middle, tail);
    lemma_barriers_concat(head + one, middle);
    lemma_barriers_concat(head, one);
    assert(one.drop_last() =~= seq![]);
    assert(barriers::<T>(seq![]) =~= seq![]);
    assert(barriers(one) =~= seq![]);
    assert(barriers(after) =~= barriers(list));
    assert forall|i: int| 0 <= i < after.len() implies #[trigger] after[i] == list[if i == first {
        second
    } else if first < i <= second {
        i - 1
    } else {
        i
    }] by {}
    assert forall|path: Seq<KeyView>, key: PropertyKey|
        #[trigger] declares(after, path, key) == declares(list, path, key) by {
        if declares(after, path, key) {
            let i = choose|i: int|
                0 <= i < after.len() && (#[trigger] after[i]) is Declaration
                    && after[i]->Declaration_path == path && after[i]->property.id.key == key;
            let j = if i == first {
                second
            } else if first < i <= second {
                i - 1
            } else {
                i
            };
            assert(list[j] == after[i]);
        }
        if declares(list, path, key) {
            let i = choose|i: int|
                0 <= i < list.len() && (#[trigger] list[i]) is Declaration
                    && list[i]->Declaration_path == path && list[i]->property.id.key == key;
            let j = if i == second {
                first
            } else if first <= i < second {
                i + 1
            } else {
                i
            };
            assert(after[j] is Declaration);
        }
    }
    assert forall|event: EventView<T>| after.contains(event) implies #[trigger] list.contains(
        event,
    ) by {
        let i = choose|i: int| 0 <= i < after.len() && after[i] == event;
        let j = if i == first {
            second
        } else if first < i <= second {
            i - 1
        } else {
            i
        };
        assert(list[j] == event);
    }
    if consistent(list) {
        assert(consistent(after));
    }
}

/// A change keeps the rules of other kinds, and the properties that are declared
/// at each path, and adds nothing.
proof fn lemma_changes_keep<T>(before: Seq<EventView<T>>, after: Seq<EventView<T>>)
    requires
        changes(before, after),
    ensures
        barriers(after) == barriers(before),
        forall|path: Seq<KeyView>, key: PropertyKey|
            #[trigger] declares(after, path, key) == declares(before, path, key),
        forall|event: EventView<T>|
            after.contains(event) ==> #[trigger] before.contains(event),
        consistent(before) ==> consistent(after),
{
    if exists|first: int, second: int|
        #[trigger] movable(before, first, second) && after == moved(before, first, second) {
        let (first, second) = choose|first: int, second: int|
            #[trigger] movable(before, first, second) && after == moved(before, first, second);
        lemma_moved_keeps(before, first, second);
    } else {
        let (first, second) = choose|first: int, second: int|
            #[trigger] collapsible(before, first, second) && after == collapse(
                before,
                first,
                second,
            );
        lemma_collapse_keeps(before, first, second);
    }
}

/// What one change keeps, many keep.
pub proof fn lemma_reduces_keeps<T>(
    before: Seq<EventView<T>>,
    after: Seq<EventView<T>>,
    count: nat,
)
    requires
        reduces_in(before, after, count),
    ensures
        barriers(after) == barriers(before),
        forall|path: Seq<KeyView>, key: PropertyKey|
            #[trigger] declares(after, path, key) == declares(before, path, key),
        forall|event: EventView<T>|
            after.contains(event) ==> #[trigger] before.contains(event),
        consistent(before) ==> consistent(after),
    decreases count,
{
    if count > 0 {
        let between = choose|between: Seq<EventView<T>>| #[trigger]
            changes(before, between) && reduces_in(between, after, (count - 1) as nat);
        lemma_changes_keep(before, between);
        lemma_reduces_keeps(between, after, (count - 1) as nat);
        assert forall|event: EventView<T>| after.contains(event) implies #[trigger] before.contains(
            event,
        ) by {
            assert(between.contains(event));
        }
    }
}

/// Changing a list this way changes the winner of no property.
pub proof fn lemma_reduces_winner<T>(
    before: Seq<EventView<T>>,
    after: Seq<EventView<T>>,
    count: nat,
    key: PropertyKey,
    applies: spec_fn(Seq<KeyView>) -> bool,
    touches: spec_fn(T) -> bool,
)
    requires
        reduces_in(before, after, count),
        consistent(before),
    ensures
        winner(after, key, applies, touches) == winner(before, key, applies, touches),
    decreases count,
{
    if count > 0 {
        let between = choose|between: Seq<EventView<T>>| #[trigger]
            changes(before, between) && reduces_in(between, after, (count - 1) as nat);
        lemma_changes_keep(before, between);
        if exists|first: int, second: int|
            #[trigger] movable(before, first, second) && between == moved(before, first, second) {
            let (first, second) = choose|first: int, second: int|
                #[trigger] movable(before, first, second) && between == moved(
                    before,
                    first,
                    second,
                );
            lemma_moved_winner(before, first, second, key, applies, touches);
        } else {
            let (first, second) = choose|first: int, second: int|
                #[trigger] collapsible(before, first, second) && between == collapse(
                    before,
                    first,
                    second,
                );
            lemma_collapse_winner(before, first, second, key, applies, touches);
        }
        lemma_reduces_winner(between, after, (count - 1) as nat, key, applies, touches);
    }
}

/// The last declaration is one of the list, and no later one stands for the
/// same.
proof fn lemma_last_at<T>(
    list: Seq<EventView<T>>,
    path: Seq<KeyView>,
    key: PropertyKey,
    end: nat,
)
    requires
        end <= list.len(),
    ensures
        -1 <= last_at(list, path, key, end) < end,
        last_at(list, path, key, end) >= 0 ==> stands_for(
            list[last_at(list, path, key, end)],
            path,
            key,
        ),
        forall|i: int|
            last_at(list, path, key, end) < i < end ==> !stands_for(#[trigger] list[i], path, key),
    decreases end,
{
    if end > 0 && !stands_for(list[end - 1], path, key) {
        lemma_last_at(list, path, key, (end - 1) as nat);
    }
}

/// Where an event of a list stands once one was moved up.
spec fn after_move(first: int, second: int, i: int) -> int {
    if i == second {
        first
    } else if first <= i < second {
        i + 1
    } else {
        i
    }
}

/// Where an event of a list stands once two were made one.
spec fn after_collapse(first: int, second: int, i: int) -> int {
    if i == second {
        first
    } else if i < second {
        i
    } else {
        i - 1
    }
}

proof fn lemma_last_moved<T>(
    list: Seq<EventView<T>>,
    first: int,
    second: int,
    path: Seq<KeyView>,
    key: PropertyKey,
)
    requires
        movable(list, first, second),
    ensures
        last_declaration(moved(list, first, second), path, key) == (if last_declaration(
            list,
            path,
            key,
        ) >= 0 {
            after_move(first, second, last_declaration(list, path, key))
        } else {
            -1
        }),
{
    let after = moved(list, first, second);
    let old_last = last_declaration(list, path, key);
    let new_last = last_declaration(after, path, key);
    lemma_last_at(list, path, key, list.len());
    lemma_last_at(after, path, key, after.len());
    assert forall|i: int| 0 <= i < list.len() implies #[trigger] list[i] == after[after_move(
        first,
        second,
        i,
    )] by {}
    if new_last >= 0 {
        let origin = if new_last == first {
            second
        } else if first < new_last <= second {
            new_last - 1
        } else {
            new_last
        };
        assert(after_move(first, second, origin) == new_last);
        assert(list[origin] == after[new_last]);
        assert(origin <= old_last);
        let goal = after_move(first, second, old_last);
        assert(list[old_last] == after[goal]);
        assert(goal <= new_last);
        if goal < new_last {
            assert(old_last == second && first <= origin < second);
            assert(clash(list[origin]->property.id, list[second]->property.id));
        }
    } else if old_last >= 0 {
        assert(list[old_last] == after[after_move(first, second, old_last)]);
    }
}

proof fn lemma_last_collapsed<T>(
    list: Seq<EventView<T>>,
    first: int,
    second: int,
    path: Seq<KeyView>,
    key: PropertyKey,
)
    requires
        collapsible(list, first, second),
    ensures
        last_declaration(list, path, key) != first,
        last_declaration(collapse(list, first, second), path, key) == (if last_declaration(
            list,
            path,
            key,
        ) >= 0 {
            after_collapse(first, second, last_declaration(list, path, key))
        } else {
            -1
        }),
{
    let after = collapse(list, first, second);
    let old_last = last_declaration(list, path, key);
    let new_last = last_declaration(after, path, key);
    lemma_last_at(list, path, key, list.len());
    lemma_last_at(after, path, key, after.len());
    assert forall|i: int| 0 <= i < list.len() && i != first implies #[trigger] list[i]
        == after[after_collapse(first, second, i)] by {}
    if old_last == first {
        assert(stands_for(list[second], path, key));
    }
    if new_last >= 0 {
        let origin = if new_last == first {
            second
        } else if new_last < second {
            new_last
        } else {
            new_last + 1
        };
        assert(after_collapse(first, second, origin) == new_last);
        assert(list[origin] == after[new_last]);
        assert(origin <= old_last);
        let goal = after_collapse(first, second, old_last);
        assert(list[old_last] == after[goal]);
        assert(goal <= new_last);
        if goal < new_last {
            assert(old_last == second && first < origin < second);
            assert(clash(list[origin]->property.id, list[second]->property.id));
        }
    } else if old_last >= 0 {
        assert(list[old_last] == after[after_collapse(first, second, old_last)]);
    }
}

/// A change keeps the last declaration of a property at a path.
proof fn lemma_changes_keep_last<T>(
    before: Seq<EventView<T>>,
    after: Seq<EventView<T>>,
    path: Seq<KeyView>,
    key: PropertyKey,
)
    requires
        changes(before, after),
    ensures
        last_declaration(before, path, key) >= 0 <==> last_declaration(after, path, key) >= 0,
        last_declaration(before, path, key) >= 0 ==> after[last_declaration(after, path, key)]
            == before[last_declaration(before, path, key)],
{
    lemma_last_at(before, path, key, before.len());
    if exists|first: int, second: int|
        #[trigger] movable(before, first, second) && after == moved(before, first, second) {
        let (first, second) = choose|first: int, second: int|
            #[trigger] movable(before, first, second) && after == moved(before, first, second);
        lemma_last_moved(before, first, second, path, key);
    } else {
        let (first, second) = choose|first: int, second: int|
            #[trigger] collapsible(before, first, second) && after == collapse(
                before,
                first,
                second,
            );
        lemma_last_collapsed(before, first, second, path, key);
    }
}

/// A change keeps the order of last declarations where it matters.
proof fn lemma_changes_keep_order<T>(
    before: Seq<EventView<T>>,
    after: Seq<EventView<T>>,
    path: Seq<KeyView>,
    key: PropertyKey,
    other_path: Seq<KeyView>,
    other_key: PropertyKey,
)
    requires
        changes(before, after),
        last_declaration(before, path, key) >= 0,
        last_declaration(before, other_path, other_key) >= 0,
        order_matters(
            before[last_declaration(before, path, key)],
            before[last_declaration(before, other_path, other_key)],
        ),
    ensures
        last_declaration(before, path, key) < last_declaration(before, other_path, other_key)
            <==> last_declaration(after, path, key) < last_declaration(
            after,
            other_path,
            other_key,
        ),
{
    let one = last_declaration(before, path, key);
    let other = last_declaration(before, other_path, other_key);
    lemma_last_at(before, path, key, before.len());
    lemma_last_at(before, other_path, other_key, before.len());
    lemma_symmetric(before[one]->property.id, before[other]->property.id);
    if exists|first: int, second: int|
        #[trigger] movable(before, first, second) && after == moved(before, first, second) {
        let (first, second) = choose|first: int, second: int|
            #[trigger] movable(before, first, second) && after == moved(before, first, second);
        lemma_last_moved(before, first, second, path, key);
        lemma_last_moved(before, first, second, other_path, other_key);
    } else {
        let (first, second) = choose|first: int, second: int|
            #[trigger] collapsible(before, first, second) && after == collapse(
                before,
                first,
                second,
            );
        lemma_last_collapsed(before, first, second, path, key);
        lemma_last_collapsed(before, first, second, other_path, other_key);
    }
}

/// Changing a list this way keeps the last declaration of a property at a path.
pub proof fn lemma_reduces_keeps_last<T>(
    before: Seq<EventView<T>>,
    after: Seq<EventView<T>>,
    count: nat,
    path: Seq<KeyView>,
    key: PropertyKey,
)
    requires
        reduces_in(before, after, count),
    ensures
        last_declaration(before, path, key) >= 0 <==> last_declaration(after, path, key) >= 0,
        last_declaration(before, path, key) >= 0 ==> after[last_declaration(after, path, key)]
            == before[last_declaration(before, path, key)],
    decreases count,
{
    if count > 0 {
        let between = choose|between: Seq<EventView<T>>| #[trigger]
            changes(before, between) && reduces_in(between, after, (count - 1) as nat);
        lemma_changes_keep_last(before, between, path, key);
        lemma_reduces_keeps_last(between, after, (count - 1) as nat, path, key);
    }
}

/// Changing a list this way keeps the order of last declarations where it matters.
pub proof fn lemma_reduces_keeps_order<T>(
    before: Seq<EventView<T>>,
    after: Seq<EventView<T>>,
    count: nat,
    path: Seq<KeyView>,
    key: PropertyKey,
    other_path: Seq<KeyView>,
    other_key: PropertyKey,
)
    requires
        reduces_in(before, after, count),
        last_declaration(before, path, key) >= 0,
        last_declaration(before, other_path, other_key) >= 0,
        order_matters(
            before[last_declaration(before, path, key)],
            before[last_declaration(before, other_path, other_key)],
        ),
    ensures
        last_declaration(before, path, key) < last_declaration(before, other_path, other_key)
            <==> last_declaration(after, path, key) < last_declaration(
            after,
            other_path,
            other_key,
        ),
    decreases count,
{
    if count > 0 {
        let between = choose|between: Seq<EventView<T>>| #[trigger]
            changes(before, between) && reduces_in(between, after, (count - 1) as nat);
        lemma_changes_keep_last(before, between, path, key);
        lemma_changes_keep_last(before, between, other_path, other_key);
        lemma_changes_keep_order(before, between, path, key, other_path, other_key);
        lemma_reduces_keeps_order(
            between,
            after,
            (count - 1) as nat,
            path,
            key,
            other_path,
            other_key,
        );
    }
}

} // verus!
