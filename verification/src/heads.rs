//! Which at-rules and style rules are left of a list, and where they come from.
use crate::context::may_reuse;
use crate::context::MinifyContext;
use crate::declaration::BlockView;
use crate::laws::substantial;
use crate::merge::finished;
use crate::merge::merged;
use crate::merge::rule_tree;
use crate::model::at_rule_key;
use crate::model::leading;
use crate::model::lemma_earlier_run;
use crate::model::ItemView;
use crate::model::KeyView;
use crate::model::TreeView;
use crate::preservation::coherent;
use crate::preservation::head_coherent;
use crate::preservation::lemma_insert_list_coherent;
use crate::preservation::lemma_insert_list_keeps_head;
use crate::preservation::lemma_take_in_coherent;
use crate::preservation::lemma_take_in_keeps_head;
use crate::rules::RuleView;
use crate::settled::full;
use crate::settled::lemma_full_printed;
use crate::settled::lemma_insert_list_full;
use crate::settled::lemma_leading_ends;
use crate::settled::lemma_rule_step;
use crate::settled::lemma_take_in_full;
use crate::settled::printed_as;
use crate::terms::step;
use vstd::prelude::*;

verus! {

/// A rule as it is written, without what it holds, and what it stands in, from
/// the outermost on, up to itself.
pub type HeadView<T> = (Seq<KeyView>, RuleView<T>);

/// The at-rule or style rule without what it holds.
pub open spec fn bare<T>(rule: RuleView<T>) -> RuleView<T> {
    match rule {
        RuleView::AtRule { prelude, rules: _, loc } => RuleView::AtRule {
            prelude,
            rules: seq![],
            loc,
        },
        RuleView::Style { selectors, vendor_prefix, block: _, rules: _, loc } => RuleView::Style {
            selectors,
            vendor_prefix,
            block: BlockView { important: seq![], normal: seq![] },
            rules: seq![],
            loc,
        },
        _ => rule,
    }
}

/// The at-rules and style rules that a rule at the path is or holds, in source
/// order.
pub open spec fn rule_heads<T>(
    rule: RuleView<T>,
    path: Seq<KeyView>,
    context: MinifyContext,
) -> Seq<HeadView<T>>
    decreases rule, 0nat,
{
    match rule {
        RuleView::AtRule { prelude, rules, loc: _ } => {
            let inner = path.push(step(prelude, context));
            seq![(inner, bare(rule))] + list_heads(rules, rules.len(), inner, context)
        },
        RuleView::Style { selectors, vendor_prefix, block: _, rules, loc } => {
            let key = KeyView::Selector {
                selectors,
                vendor_prefix,
                source_index: loc.source_index,
            };
            let inner = path.push(key);
            seq![(inner, bare(rule))] + list_heads(rules, rules.len(), inner, context)
        },
        _ => seq![],
    }
}

/// The at-rules and style rules in the first `count` rules, in source order.
pub open spec fn list_heads<T>(
    rules: Seq<RuleView<T>>,
    count: nat,
    path: Seq<KeyView>,
    context: MinifyContext,
) -> Seq<HeadView<T>>
    decreases rules, count,
{
    if count == 0 || count > rules.len() {
        seq![]
    } else {
        list_heads(rules, (count - 1) as nat, path, context) + rule_heads(
            rules[count - 1],
            path,
            context,
        )
    }
}

/// Whether one of the two stands in the other, or they are the same.
pub open spec fn on_one_way(a: Seq<KeyView>, b: Seq<KeyView>) -> bool {
    ||| a.len() <= b.len() && b.take(a.len() as int) == a
    ||| b.len() <= a.len() && a.take(b.len() as int) == b
}

/// Whether the head at `place` is gone into the one that stood at `kept`: both
/// stand for the same, and everything from one to the other stands in it, or it
/// in that.
pub open spec fn goes_into<T>(list: Seq<HeadView<T>>, kept: int, place: int) -> bool {
    &&& kept <= place
    &&& list[kept].0 == list[place].0
    &&& forall|i: int| kept < i <= place ==> on_one_way((#[trigger] list[i]).0, list[place].0)
}

/// Whether some head that is left is the one that `place` is gone into.
pub open spec fn taken_care_of<T>(list: Seq<HeadView<T>>, places: Seq<int>, place: int) -> bool {
    exists|i: int| 0 <= i < places.len() && goes_into(list, #[trigger] places[i], place)
}

/// Whether `left` is what is left of the heads, at these places and in order, and
/// each of the others is gone into one in front of it.
pub open spec fn thins<T>(
    list: Seq<HeadView<T>>,
    left: Seq<HeadView<T>>,
    places: Seq<int>,
) -> bool {
    &&& places.len() == left.len()
    &&& forall|i: int|
        0 <= i < left.len() ==> 0 <= #[trigger] places[i] < list.len() && left[i]
            == list[places[i]]
    &&& forall|i: int, j: int|
        0 <= i < j < left.len() ==> #[trigger] places[i] < #[trigger] places[j]
    &&& forall|place: int|
        0 <= place < list.len() ==> #[trigger] taken_care_of(list, places, place)
}

/// Whether `left` is what is left of the heads: see [`thins`].
pub open spec fn thinned<T>(list: Seq<HeadView<T>>, left: Seq<HeadView<T>>) -> bool {
    exists|places: Seq<int>| thins(list, left, places)
}

proof fn lemma_one_way(path: Seq<KeyView>, other: Seq<KeyView>)
    ensures
        on_one_way(path, path),
        on_one_way(path, other) == on_one_way(other, path),
{
    assert(path.take(path.len() as int) =~= path);
}

proof fn lemma_thinned_refl<T>(list: Seq<HeadView<T>>)
    ensures
        thinned(list, list),
{
    let places = Seq::new(list.len(), |i: int| i);
    assert forall|place: int| 0 <= place < list.len() implies #[trigger] taken_care_of(
        list,
        places,
        place,
    ) by {
        assert(goes_into(list, places[place], place));
    }
    assert(thins(list, list, places));
}

proof fn lemma_thinned_trans<T>(
    list: Seq<HeadView<T>>,
    between: Seq<HeadView<T>>,
    left: Seq<HeadView<T>>,
)
    requires
        thinned(list, between),
        thinned(between, left),
    ensures
        thinned(list, left),
{
    let one = choose|places: Seq<int>| thins(list, between, places);
    let two = choose|places: Seq<int>| thins(between, left, places);
    let places = Seq::new(left.len(), |i: int| one[two[i]]);
    assert forall|i: int| 0 <= i < left.len() implies 0 <= #[trigger] places[i] < list.len()
        && left[i] == list[places[i]] by {
        let k = two[i];
        assert(0 <= one[k] < list.len());
    }
    assert forall|i: int, j: int| 0 <= i < j < left.len() implies #[trigger] places[i]
        < #[trigger] places[j] by {
        let k = two[i];
        let l = two[j];
        assert(one[k] < one[l]);
    }
    assert forall|place: int| 0 <= place < list.len() implies #[trigger] taken_care_of(
        list,
        places,
        place,
    ) by {
        assert(taken_care_of(list, one, place));
        let k = choose|k: int| 0 <= k < one.len() && goes_into(list, #[trigger] one[k], place);
        assert(taken_care_of(between, two, k));
        let j = choose|j: int| 0 <= j < two.len() && goes_into(between, #[trigger] two[j], k);
        let m = two[j];
        let way = list[place].0;
        assert(between[k] == list[one[k]]);
        assert(between[m] == list[one[m]]);
        assert(one[m] <= one[k]) by {
            if m < k {
                assert(one[m] < one[k]);
            }
        }
        assert forall|i: int| one[m] < i <= place implies on_one_way(
            (#[trigger] list[i]).0,
            way,
        ) by {
            if i <= one[k] {
                assert(taken_care_of(list, one, i));
                let l = choose|l: int| 0 <= l < one.len() && goes_into(list, #[trigger] one[l], i);
                assert(between[l] == list[one[l]]);
                if k < l {
                    assert(one[k] < one[l]);
                }
                if m < l {
                    assert(on_one_way(between[l].0, between[k].0));
                } else if l < m {
                    assert(one[l] < one[m]);
                    assert(on_one_way(list[one[m]].0, list[i].0));
                    lemma_one_way(list[i].0, way);
                } else {
                    lemma_one_way(way, way);
                }
            }
        }
        assert(places[j] == one[m]);
        assert(goes_into(list, places[j], place));
    }
    assert(thins(list, left, places));
}

/// What stands behind stays behind.
proof fn lemma_thinned_then<T>(
    list: Seq<HeadView<T>>,
    left: Seq<HeadView<T>>,
    rest: Seq<HeadView<T>>,
)
    requires
        thinned(list, left),
    ensures
        thinned(list + rest, left + rest),
{
    let one = choose|places: Seq<int>| thins(list, left, places);
    let places = one + Seq::new(rest.len(), |i: int| list.len() + i);
    let longer = list + rest;
    assert forall|i: int| 0 <= i < (left + rest).len() implies 0 <= #[trigger] places[i]
        < longer.len() && (left + rest)[i] == longer[places[i]] by {
        if i < left.len() {
            assert(places[i] == one[i]);
        }
    }
    assert forall|i: int, j: int| 0 <= i < j < (left + rest).len() implies #[trigger] places[i]
        < #[trigger] places[j] by {
        if j < left.len() {
            assert(one[i] < one[j]);
        } else if i < left.len() {
            assert(one[i] < list.len());
        }
    }
    assert forall|place: int| 0 <= place < longer.len() implies #[trigger] taken_care_of(
        longer,
        places,
        place,
    ) by {
        if place < list.len() {
            assert(taken_care_of(list, one, place));
            let k = choose|k: int| 0 <= k < one.len() && goes_into(list, #[trigger] one[k], place);
            assert(places[k] == one[k]);
            assert forall|i: int| one[k] < i <= place implies on_one_way(
                (#[trigger] longer[i]).0,
                longer[place].0,
            ) by {
                assert(longer[i] == list[i]);
            }
            assert(goes_into(longer, places[k], place));
        } else {
            let k = left.len() + (place - list.len());
            assert(places[k] == place);
            assert(goes_into(longer, places[k], place));
        }
    }
    assert(thins(longer, left + rest, places));
}

/// What stands in front stays in front.
proof fn lemma_thinned_behind<T>(
    front: Seq<HeadView<T>>,
    list: Seq<HeadView<T>>,
    left: Seq<HeadView<T>>,
)
    requires
        thinned(list, left),
    ensures
        thinned(front + list, front + left),
{
    let one = choose|places: Seq<int>| thins(list, left, places);
    let start = front.len() as int;
    let places = Seq::new(front.len(), |i: int| i) + Seq::new(
        one.len(),
        |i: int| start + one[i],
    );
    let longer = front + list;
    assert forall|i: int| 0 <= i < (front + left).len() implies 0 <= #[trigger] places[i]
        < longer.len() && (front + left)[i] == longer[places[i]] by {
        if i >= start {
            assert(places[i] == start + one[i - start]);
        }
    }
    assert forall|i: int, j: int| 0 <= i < j < (front + left).len() implies #[trigger] places[i]
        < #[trigger] places[j] by {
        if i >= start {
            assert(one[i - start] < one[j - start]);
        } else if j >= start {
            assert(0 <= one[j - start]);
        }
    }
    assert forall|place: int| 0 <= place < longer.len() implies #[trigger] taken_care_of(
        longer,
        places,
        place,
    ) by {
        if place < start {
            assert(goes_into(longer, places[place], place));
        } else {
            assert(taken_care_of(list, one, place - start));
            let k = choose|k: int|
                0 <= k < one.len() && goes_into(list, #[trigger] one[k], place - start);
            assert(places[start + k] == start + one[k]);
            assert forall|i: int| start + one[k] < i <= place implies on_one_way(
                (#[trigger] longer[i]).0,
                longer[place].0,
            ) by {
                assert(longer[i] == list[i - start]);
            }
            assert(goes_into(longer, places[start + k], place));
        }
    }
    assert(thins(longer, front + left, places));
}

/// A head goes into one in front of it that stands for the same.
proof fn lemma_thinned_last<T>(list: Seq<HeadView<T>>, head: HeadView<T>, kept: int)
    requires
        0 <= kept < list.len(),
        list[kept].0 == head.0,
        forall|i: int| kept < i < list.len() ==> on_one_way((#[trigger] list[i]).0, head.0),
    ensures
        thinned(list + seq![head], list),
{
    let longer = list + seq![head];
    let places = Seq::new(list.len(), |i: int| i);
    assert forall|place: int| 0 <= place < longer.len() implies #[trigger] taken_care_of(
        longer,
        places,
        place,
    ) by {
        if place < list.len() {
            assert(goes_into(longer, places[place], place));
        } else {
            lemma_one_way(head.0, head.0);
            assert forall|i: int| kept < i <= place implies on_one_way(
                (#[trigger] longer[i]).0,
                longer[place].0,
            ) by {
                if i < list.len() {
                    assert(longer[i] == list[i]);
                }
            }
            assert(goes_into(longer, places[kept], place));
        }
    }
    assert(thins(longer, list, places));
}

/// The head of what a node is printed as.
spec fn node_head<T>(node: TreeView<T>, path: Seq<KeyView>) -> HeadView<T> {
    let inner = path.push(node.key->Some_0);
    match node.key->Some_0 {
        KeyView::AtRule(prelude) => (
            inner,
            RuleView::AtRule {
                prelude: node.printed_prelude(prelude),
                rules: seq![],
                loc: node.loc,
            },
        ),
        KeyView::Selector { selectors, vendor_prefix, source_index: _ } => (
            inner,
            RuleView::Style {
                selectors,
                vendor_prefix,
                block: BlockView { important: seq![], normal: seq![] },
                rules: seq![],
                loc: node.loc,
            },
        ),
    }
}

/// The heads of the nodes among the first `count` items, and below them.
spec fn tree_heads<T>(node: TreeView<T>, count: nat, path: Seq<KeyView>) -> Seq<HeadView<T>>
    decreases node, count,
{
    if count == 0 || count > node.items.len() {
        seq![]
    } else {
        let before = tree_heads(node, (count - 1) as nat, path);
        match node.items[count - 1] {
            ItemView::Child(child) => before + (seq![node_head(child, path)] + tree_heads(
                child,
                child.items.len(),
                path.push(child.key->Some_0),
            )),
            _ => before,
        }
    }
}

/// The heads depend on nothing but the nodes.
proof fn lemma_tree_heads_same<T>(
    a: TreeView<T>,
    b: TreeView<T>,
    count: nat,
    path: Seq<KeyView>,
)
    requires
        count <= a.items.len(),
        count <= b.items.len(),
        forall|i: int|
            0 <= i < count ==> (#[trigger] a.items[i] is Child || b.items[i] is Child
                ==> b.items[i] == a.items[i]),
    ensures
        tree_heads(a, count, path) == tree_heads(b, count, path),
    decreases count,
{
    if count > 0 {
        lemma_tree_heads_same(a, b, (count - 1) as nat, path);
        assert(a.items[count - 1] is Child || b.items[count - 1] is Child ==> b.items[count - 1]
            == a.items[count - 1]);
    }
}

/// What is below a node stands in it.
proof fn lemma_heads_below<T>(node: TreeView<T>, count: nat, path: Seq<KeyView>)
    ensures
        forall|i: int|
            0 <= i < tree_heads(node, count, path).len() ==> {
                let way = (#[trigger] tree_heads(node, count, path)[i]).0;
                path.len() <= way.len() && way.take(path.len() as int) == path
            },
    decreases node, count,
{
    if count > 0 && count <= node.items.len() {
        let before = tree_heads(node, (count - 1) as nat, path);
        let all = tree_heads(node, count, path);
        lemma_heads_below(node, (count - 1) as nat, path);
        if let ItemView::Child(child) = node.items[count - 1] {
            let inner = path.push(child.key->Some_0);
            lemma_heads_below(child, child.items.len(), inner);
            let below = tree_heads(child, child.items.len(), inner);
            let start = before.len();
            assert forall|i: int| 0 <= i < all.len() implies {
                let way = (#[trigger] all[i]).0;
                path.len() <= way.len() && way.take(path.len() as int) == path
            } by {
                if i < start {
                    assert(all[i] == before[i]);
                } else if i == start {
                    assert(all[i].0 == inner);
                    assert(inner.take(path.len() as int) =~= path);
                } else {
                    let way = below[i - start - 1].0;
                    assert(all[i].0 == way);
                    assert(way.take(inner.len() as int) == inner);
                    assert(way.take(path.len() as int) =~= inner.take(path.len() as int));
                    assert(inner.take(path.len() as int) =~= path);
                }
            }
        }
    }
}

/// Declarations have no head.
proof fn lemma_with_block_heads<T>(
    node: TreeView<T>,
    block: BlockView,
    dedupe: bool,
    path: Seq<KeyView>,
)
    ensures
        ({
            let after = node.with_block(block, dedupe);
            tree_heads(after, after.items.len(), path) == tree_heads(
                node,
                node.items.len(),
                path,
            )
        }),
{
    let after = node.with_block(block, dedupe);
    lemma_tree_heads_same(node, after, node.items.len(), path);
}

/// A node with one more item, or with more in the last one.
proof fn lemma_with_child_heads<T>(
    node: TreeView<T>,
    reuse: bool,
    target: TreeView<T>,
    filled: TreeView<T>,
    head: HeadView<T>,
    rest: Seq<HeadView<T>>,
    path: Seq<KeyView>,
)
    requires
        reuse ==> node.items.len() > 0 && node.items.last() == ItemView::Child(target),
        !reuse ==> tree_heads(target, target.items.len(), head.0).len() == 0,
        !reuse ==> node_head(target, path) == head,
        target.key is Some,
        head.0 == path.push(target.key->Some_0),
        filled.key == target.key,
        filled.loc == target.loc,
        filled.media_query == target.media_query,
        thinned(
            tree_heads(target, target.items.len(), head.0) + rest,
            tree_heads(filled, filled.items.len(), head.0),
        ),
    ensures
        ({
            let after = node.with_child(reuse, filled);
            thinned(
                tree_heads(node, node.items.len(), path) + (seq![head] + rest),
                tree_heads(after, after.items.len(), path),
            )
        }),
{
    let after = node.with_child(reuse, filled);
    let count = node.items.len();
    let all = tree_heads(node, count, path);
    let new_all = tree_heads(after, after.items.len(), path);
    let own = node_head(target, path);
    let below = tree_heads(target, target.items.len(), head.0);
    let new_below = tree_heads(filled, filled.items.len(), head.0);
    assert(node_head(filled, path) == own);
    if reuse {
        let shorter = (count - 1) as nat;
        let front = tree_heads(node, shorter, path);
        lemma_tree_heads_same(node, after, shorter, path);
        assert(node.items[shorter as int] == ItemView::Child(target));
        assert(after.items[shorter as int] == ItemView::Child(filled));
        assert(all =~= front + (seq![own] + below));
        assert(new_all =~= front + (seq![own] + new_below));
        lemma_heads_below(target, target.items.len(), head.0);
        assert forall|i: int| front.len() < i < all.len() implies on_one_way(
            (#[trigger] all[i]).0,
            head.0,
        ) by {
            assert(all[i] == below[i - front.len() - 1]);
        }
        assert(all[front.len() as int] == own);
        lemma_thinned_last(all, head, front.len() as int);
        lemma_thinned_then(all + seq![head], all, rest);
        lemma_thinned_behind(front + seq![own], below + rest, new_below);
        assert(all + seq![head] + rest =~= all + (seq![head] + rest));
        assert(all + rest =~= front + seq![own] + (below + rest));
        assert(front + seq![own] + new_below =~= new_all);
        lemma_thinned_trans(all + (seq![head] + rest), all + rest, new_all);
    } else {
        lemma_tree_heads_same(node, after, count, path);
        assert(after.items[count as int] == ItemView::Child(filled));
        assert(new_all =~= all + (seq![head] + new_below));
        assert(below + rest =~= rest);
        lemma_thinned_behind(all + seq![head], rest, new_below);
        assert(all + seq![head] + rest =~= all + (seq![head] + rest));
        assert(all + seq![head] + new_below =~= new_all);
    }
}

/// What inserting a rule leaves of the heads.
proof fn lemma_insert_heads<T>(
    node: TreeView<T>,
    rule: RuleView<T>,
    dedupe: bool,
    path: Seq<KeyView>,
    context: MinifyContext,
)
    requires
        coherent(node, context),
        node.insert_rule(rule, dedupe, context).1 is Ok,
    ensures
        ({
            let after = node.insert_rule(rule, dedupe, context).0;
            thinned(
                tree_heads(node, node.items.len(), path) + rule_heads(rule, path, context),
                tree_heads(after, after.items.len(), path),
            )
        }),
    decreases rule, 0nat,
{
    let after = node.insert_rule(rule, dedupe, context).0;
    let all = tree_heads(node, node.items.len(), path);
    lemma_rule_step(rule, context);
    match rule {
        RuleView::AtRule { prelude, rules, loc } => {
            let key = at_rule_key(prelude, loc, context)->Ok_0;
            let reuse = node.ends_with(key);
            let child = node.target(reuse, key, loc).with_query(prelude);
            let inner = path.push(key);
            let filled = child.insert_rules(rules, rules.len(), dedupe, context).0;
            let head = (inner, bare(rule));
            if reuse {
                assert(node.items[node.items.len() - 1] == ItemView::Child(
                    node.target(reuse, key, loc),
                ));
                assert(child == node.target(reuse, key, loc));
            }
            assert(coherent(child, context));
            lemma_insert_list_heads(child, rules, rules.len(), dedupe, inner, context);
            lemma_insert_list_keeps_head(child, rules, rules.len(), dedupe, context);
            lemma_with_child_heads(
                node,
                reuse,
                child,
                filled,
                head,
                list_heads(rules, rules.len(), inner, context),
                path,
            );
        },
        RuleView::Style { selectors, vendor_prefix, block, rules, loc } => {
            let key = KeyView::Selector {
                selectors,
                vendor_prefix,
                source_index: loc.source_index,
            };
            let reuse = node.reuses_style(key, block, context);
            let target = node.target(reuse, key, loc);
            let child = target.with_block(block, dedupe);
            let inner = path.push(key);
            let filled = child.insert_rules(rules, rules.len(), dedupe, context).0;
            let head = (inner, bare(rule));
            if reuse {
                assert(node.items[node.items.len() - 1] == ItemView::Child(target));
            }
            assert(coherent(target, context));
            assert(coherent(child, context));
            lemma_with_block_heads(target, block, dedupe, inner);
            lemma_insert_list_heads(child, rules, rules.len(), dedupe, inner, context);
            lemma_insert_list_keeps_head(child, rules, rules.len(), dedupe, context);
            lemma_with_child_heads(
                node,
                reuse,
                target,
                filled,
                head,
                list_heads(rules, rules.len(), inner, context),
                path,
            );
        },
        RuleView::NestedDeclarations { block, loc: _ } => {
            lemma_with_block_heads(node, block, dedupe, path);
            assert(all + rule_heads(rule, path, context) =~= all);
            lemma_thinned_refl(all);
        },
        RuleView::Other(_) => {
            lemma_tree_heads_same(node, after, node.items.len(), path);
            assert(all + rule_heads(rule, path, context) =~= all);
            lemma_thinned_refl(all);
        },
    }
}

proof fn lemma_insert_list_heads<T>(
    node: TreeView<T>,
    rules: Seq<RuleView<T>>,
    count: nat,
    dedupe: bool,
    path: Seq<KeyView>,
    context: MinifyContext,
)
    requires
        coherent(node, context),
        node.insert_rules(rules, count, dedupe, context).1 is Ok,
        count <= rules.len(),
    ensures
        ({
            let after = node.insert_rules(rules, count, dedupe, context).0;
            thinned(
                tree_heads(node, node.items.len(), path) + list_heads(rules, count, path, context),
                tree_heads(after, after.items.len(), path),
            )
        }),
    decreases rules, count,
{
    let all = tree_heads(node, node.items.len(), path);
    if count == 0 {
        assert(all + list_heads(rules, count, path, context) =~= all);
        lemma_thinned_refl(all);
    } else {
        let shorter = (count - 1) as nat;
        let before = node.insert_rules(rules, shorter, dedupe, context).0;
        let after = node.insert_rules(rules, count, dedupe, context).0;
        let front = list_heads(rules, shorter, path, context);
        let last = rule_heads(rules[count - 1], path, context);
        let middle = tree_heads(before, before.items.len(), path);
        lemma_insert_list_heads(node, rules, shorter, dedupe, path, context);
        lemma_insert_list_coherent(node, rules, shorter, dedupe, context);
        lemma_insert_heads(before, rules[count - 1], dedupe, path, context);
        lemma_thinned_then(all + front, middle, last);
        assert(all + front + last =~= all + list_heads(rules, count, path, context));
        lemma_thinned_trans(
            all + list_heads(rules, count, path, context),
            middle + last,
            tree_heads(after, after.items.len(), path),
        );
    }
}

/// What joining the runs of a tree leaves of the heads.
proof fn lemma_take_in_heads<T>(
    node: TreeView<T>,
    other: TreeView<T>,
    count: nat,
    path: Seq<KeyView>,
    context: MinifyContext,
)
    requires
        coherent(other, context),
        count <= other.items.len(),
    ensures
        ({
            let after = node.take_in(other, count);
            thinned(
                tree_heads(node, node.items.len(), path) + tree_heads(other, count, path),
                tree_heads(after, after.items.len(), path),
            )
        }),
    decreases other, count,
{
    let all = tree_heads(node, node.items.len(), path);
    if count == 0 {
        assert(all + tree_heads(other, count, path) =~= all);
        lemma_thinned_refl(all);
    } else {
        let shorter = (count - 1) as nat;
        let before = node.take_in(other, shorter);
        let after = node.take_in(other, count);
        let front = tree_heads(other, shorter, path);
        let middle = tree_heads(before, before.items.len(), path);
        lemma_take_in_heads(node, other, shorter, path, context);
        match other.items[count - 1] {
            ItemView::Declarations(run) => {
                lemma_earlier_run(before.items, run, before.items.len());
                lemma_tree_heads_same(before, after, before.items.len(), path);
            },
            ItemView::Child(child) => {
                assert(head_coherent(child, context));
                let key = child.key->Some_0;
                let inner = path.push(key);
                let reuse = before.ends_like(child);
                let target = if reuse {
                    before.items.last()->Child_0
                } else {
                    child.hollow()
                };
                let filled = target.take_in(child, child.items.len());
                let below = tree_heads(child, child.items.len(), inner);
                let head = node_head(child, path);
                let last = seq![head] + below;
                lemma_take_in_heads(target, child, child.items.len(), inner, context);
                lemma_take_in_keeps_head(target, child, child.items.len());
                lemma_with_child_heads(before, reuse, target, filled, head, below, path);
                lemma_thinned_then(all + front, middle, last);
                assert(all + front + last =~= all + tree_heads(other, count, path));
                lemma_thinned_trans(
                    all + tree_heads(other, count, path),
                    middle + last,
                    tree_heads(after, after.items.len(), path),
                );
            },
            ItemView::Barrier(_) => {
                lemma_tree_heads_same(before, after, before.items.len(), path);
            },
        }
    }
}

proof fn lemma_list_heads_push<T>(
    rules: Seq<RuleView<T>>,
    rule: RuleView<T>,
    count: nat,
    path: Seq<KeyView>,
    context: MinifyContext,
)
    requires
        count <= rules.len(),
    ensures
        list_heads(rules.push(rule), count, path, context) == list_heads(
            rules,
            count,
            path,
            context,
        ),
    decreases count,
{
    if count > 0 {
        lemma_list_heads_push(rules, rule, (count - 1) as nat, path, context);
        assert(rules.push(rule)[count - 1] == rules[count - 1]);
    }
}

/// Declarations in front have no head.
proof fn lemma_list_heads_skip<T>(
    rules: Seq<RuleView<T>>,
    start: nat,
    count: nat,
    path: Seq<KeyView>,
    context: MinifyContext,
)
    requires
        start <= count <= rules.len(),
        forall|i: int| 0 <= i < start ==> (#[trigger] rules[i]) is NestedDeclarations,
    ensures
        list_heads(rules, count, path, context) == list_heads(
            rules.skip(start as int),
            (count - start) as nat,
            path,
            context,
        ),
    decreases count,
{
    if count > start {
        lemma_list_heads_skip(rules, start, (count - 1) as nat, path, context);
        assert(rules.skip(start as int)[count - 1 - start] == rules[count - 1]);
    } else if count > 0 {
        lemma_no_heads(rules, count, path, context);
    }
}

proof fn lemma_no_heads<T>(
    rules: Seq<RuleView<T>>,
    count: nat,
    path: Seq<KeyView>,
    context: MinifyContext,
)
    requires
        count <= rules.len(),
        forall|i: int| 0 <= i < count ==> (#[trigger] rules[i]) is NestedDeclarations,
    ensures
        list_heads(rules, count, path, context) == Seq::<HeadView<T>>::empty(),
    decreases count,
{
    if count > 0 {
        lemma_no_heads(rules, (count - 1) as nat, path, context);
        assert(rules[count - 1] is NestedDeclarations);
        let last = rule_heads(rules[count - 1], path, context);
        assert(last =~= Seq::<HeadView<T>>::empty());
        assert(list_heads(rules, count, path, context) =~= last);
    }
}

/// A tree without empty nodes is printed with the heads that it has.
proof fn lemma_print_heads<T>(
    node: TreeView<T>,
    count: nat,
    path: Seq<KeyView>,
    context: MinifyContext,
)
    requires
        full(node),
        coherent(node, context),
        count <= node.items.len(),
    ensures
        node.print_items(count).len() == count,
        list_heads(node.print_items(count), count, path, context) == tree_heads(
            node,
            count,
            path,
        ),
    decreases node, count,
{
    if count > 0 {
        let shorter = (count - 1) as nat;
        let before = node.print_items(shorter);
        let printed = node.print_items(count);
        lemma_print_heads(node, shorter, path, context);
        lemma_full_printed(node, count);
        let rule = printed[count - 1];
        assert(printed_as(node.items[count - 1], printed[count - 1], node.loc));
        assert(printed =~= before.push(rule));
        lemma_list_heads_push(before, rule, shorter, path, context);
        let front = tree_heads(node, shorter, path);
        match node.items[count - 1] {
            ItemView::Child(child) => {
                assert(head_coherent(child, context) && coherent(child, context));
                let inner = path.push(child.key->Some_0);
                lemma_print_heads(child, child.items.len(), inner, context);
                lemma_child_heads(child, path, context);
            },
            _ => {
                assert(rule_heads(rule, path, context) =~= Seq::<HeadView<T>>::empty());
                assert(front + rule_heads(rule, path, context) =~= front);
            },
        }
    }
}

/// A node is printed with its own head and those below it.
proof fn lemma_child_heads<T>(child: TreeView<T>, path: Seq<KeyView>, context: MinifyContext)
    requires
        head_coherent(child, context),
        child.print() is Some,
        list_heads(
            child.print_all(),
            child.print_all().len(),
            path.push(child.key->Some_0),
            context,
        ) == tree_heads(child, child.items.len(), path.push(child.key->Some_0)),
    ensures
        rule_heads(child.print()->Some_0, path, context) == seq![node_head(child, path)]
            + tree_heads(child, child.items.len(), path.push(child.key->Some_0)),
{
    let rule = child.print()->Some_0;
    let inner = path.push(child.key->Some_0);
    let rules = child.print_all();
    lemma_rule_step(rule, context);
    lemma_leading_ends(rules);
    match child.key->Some_0 {
        KeyView::AtRule(prelude) => {
            assert(rule is AtRule && rule->AtRule_rules == rules);
            assert(at_rule_key(rule->prelude, rule->AtRule_loc, context) is Ok);
            assert(step(rule->prelude, context) == child.key->Some_0);
            assert(bare(rule) == node_head(child, path).1);
        },
        KeyView::Selector { selectors, vendor_prefix, source_index } => {
            lemma_list_heads_skip(rules, leading(rules), rules.len(), inner, context);
            assert(rule is Style && rule->Style_rules == rules.skip(leading(rules) as int));
            assert(bare(rule) == node_head(child, path).1);
        },
    }
}

/// Of the at-rules and style rules of a list without empty rules, those that are
/// left are as they were written, with their locations, and in order. Each of the
/// others has gone into one in front of it that stands for the same, at the same
/// path, with nothing between them but what stands in it, or what it stands in.
pub proof fn law_rules_go_into_the_first_of_their_kind<T>(
    rules: Seq<RuleView<T>>,
    context: MinifyContext,
)
    requires
        merged(rules, context).0 is Ok,
        forall|i: int| 0 <= i < rules.len() ==> substantial(#[trigger] rules[i]),
    ensures
        thinned(
            list_heads(rules, rules.len(), seq![], context),
            list_heads(
                merged(rules, context).1,
                merged(rules, context).1.len(),
                seq![],
                context,
            ),
        ),
{
    let heads = list_heads(rules, rules.len(), seq![], context);
    lemma_thinned_refl(heads);
    if merged(rules, context).1 != rules {
        let dedupe = may_reuse(context);
        let root = TreeView::<T>::root();
        let tree = rule_tree(rules, context).0;
        let printed = finished(tree, context);
        assert(tree_heads(root, root.items.len(), seq![]) + heads =~= heads);
        lemma_insert_list_heads(root, rules, rules.len(), dedupe, seq![], context);
        lemma_insert_list_coherent(root, rules, rules.len(), dedupe, context);
        lemma_insert_list_full(root, rules, rules.len(), dedupe, context);
        if dedupe {
            let hollow = tree.hollow();
            lemma_take_in_heads(hollow, tree, tree.items.len(), seq![], context);
            lemma_take_in_coherent(hollow, tree, tree.items.len(), context);
            lemma_take_in_full(hollow, tree, tree.items.len());
            let all = tree_heads(tree, tree.items.len(), seq![]);
            assert(tree_heads(hollow, hollow.items.len(), seq![]) + all =~= all);
            lemma_thinned_trans(
                heads,
                all,
                tree_heads(printed, printed.items.len(), seq![]),
            );
        }
        lemma_print_heads(printed, printed.items.len(), seq![], context);
    }
}

} // verus!
