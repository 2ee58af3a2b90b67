//! What holds of the arenas of every tree that rules were inserted into.
use crate::arena::block_declarations;
use crate::arena::insert_block_ids;
use crate::arena::insert_property_ids;
use crate::arena::NodeView;
use crate::arena::SlotView;
use crate::arena::TrieView;
use crate::context::MinifyContext;
use crate::declaration::BlockView;
use crate::declaration::PropertyView;
use crate::declaration_set::lemma_last_slot;
use crate::model::at_rule_key;
use crate::model::insert_properties;
use crate::model::DeclarationView;
use crate::model::KeyView;
use crate::rules::AtRuleView;
use crate::rules::RuleView;
use crate::values::Location;
use vstd::prelude::*;

verus! {

/// Whether item `index` of node `parent` is node `child`.
pub open spec fn holds_child<T>(trie: TrieView<T>, parent: int, index: int, child: int) -> bool {
    &&& 0 <= parent < trie.nodes.len()
    &&& 0 <= index < trie.nodes[parent].items.len()
    &&& trie.nodes[parent].items[index] == SlotView::<T>::Child(child)
}

/// Whether the node is an item of another.
pub open spec fn has_parent<T>(trie: TrieView<T>, child: int) -> bool {
    exists|parent: int, index: int| holds_child(trie, parent, index, child)
}

/// Whether every node but the root is an item of exactly one node, which has a
/// smaller index, and only once.
pub open spec fn one_parent_each<T>(trie: TrieView<T>) -> bool {
    &&& forall|parent: int, index: int, child: int|
        #[trigger] holds_child(trie, parent, index, child) ==> parent < child < trie.nodes.len()
    &&& forall|child: int|
        0 < child < trie.nodes.len() ==> #[trigger] has_parent(trie, child)
    &&& forall|parent: int, index: int, other: int, place: int, child: int|
        #[trigger] holds_child(trie, parent, index, child) && #[trigger] holds_child(
            trie,
            other,
            place,
            child,
        ) ==> parent == other && index == place
}

/// Whether the node's runs hold declarations of the arena, at least one each,
/// and never follow each other.
pub open spec fn runs_sound<T>(node: NodeView<T>, declarations: nat) -> bool {
    forall|i: int|
        0 <= i < node.items.len() && (#[trigger] node.items[i]) is Declarations ==> {
            let ids = node.items[i]->Declarations_0;
            &&& ids.len() > 0
            &&& forall|j: int| 0 <= j < ids.len() ==> 0 <= #[trigger] ids[j] < declarations
            &&& i > 0 ==> node.items[i - 1] !is Declarations
        }
}

/// Whether place `place` of the run that is item `index` of the node holds the
/// index of this declaration.
pub open spec fn holds_id<T>(
    trie: TrieView<T>,
    node: int,
    index: int,
    place: int,
    id: int,
) -> bool {
    &&& 0 <= node < trie.nodes.len()
    &&& 0 <= index < trie.nodes[node].items.len()
    &&& trie.nodes[node].items[index] is Declarations
    &&& 0 <= place < trie.nodes[node].items[index]->Declarations_0.len()
    &&& trie.nodes[node].items[index]->Declarations_0[place] == id
}

/// Whether no declaration stands in two places.
pub open spec fn ids_once<T>(trie: TrieView<T>) -> bool {
    forall|node: int, index: int, place: int, other: int, item: int, spot: int, id: int|
        #[trigger] holds_id(trie, node, index, place, id) && #[trigger] holds_id(
            trie,
            other,
            item,
            spot,
            id,
        ) ==> node == other && index == item && place == spot
}

/// The nodes among the first `count` items, each with its key, in order.
pub open spec fn child_list<T>(
    trie: TrieView<T>,
    items: Seq<SlotView<T>>,
    count: nat,
) -> Seq<(KeyView, int)>
    decreases count,
{
    if count == 0 {
        seq![]
    } else {
        let before = child_list(trie, items, (count - 1) as nat);
        match items[count - 1] {
            SlotView::Child(child) => before.push((trie.nodes[child].key->Some_0, child)),
            _ => before,
        }
    }
}

/// Whether every node but the root has a key, and every node lists the nodes
/// among its items as its children.
pub open spec fn children_listed<T>(trie: TrieView<T>) -> bool {
    &&& trie.nodes[0].key is None
    &&& forall|i: int| 0 < i < trie.nodes.len() ==> (#[trigger] trie.nodes[i]).key is Some
    &&& forall|i: int|
        0 <= i < trie.nodes.len() ==> (#[trigger] trie.nodes[i]).children == child_list(
            trie,
            trie.nodes[i].items,
            trie.nodes[i].items.len(),
        )
}

/// Whether the arenas hold a tree with its root, which alone has no key, at 0;
/// whether every node lists its children; and whether runs hold declarations,
/// none of which stands in two places, and never follow each other.
pub open spec fn sound<T>(trie: TrieView<T>) -> bool {
    &&& trie.nodes.len() > 0
    &&& one_parent_each(trie)
    &&& children_listed(trie)
    &&& ids_once(trie)
    &&& forall|i: int|
        0 <= i < trie.nodes.len() ==> runs_sound(
            #[trigger] trie.nodes[i],
            trie.declarations.len(),
        )
}

pub proof fn lemma_root_sound<T>(dedupe: bool)
    ensures
        sound(TrieView::<T>::root(dedupe)),
{
    let root = TrieView::<T>::root(dedupe);
    assert(child_list(root, root.nodes[0].items, 0) =~= root.nodes[0].children);
}

/// The children among some items depend on nothing but which of them are nodes,
/// and on the keys of these.
proof fn lemma_child_list_same<T>(
    trie: TrieView<T>,
    after: TrieView<T>,
    items: Seq<SlotView<T>>,
    other: Seq<SlotView<T>>,
    count: nat,
)
    requires
        count <= items.len(),
        count <= other.len(),
        forall|i: int|
            0 <= i < count ==> (#[trigger] other[i] == items[i] || (other[i] !is Child && items[i]
                !is Child)),
        forall|i: int|
            0 <= i < count && (#[trigger] items[i]) is Child
                ==> after.nodes[items[i]->Child_0].key == trie.nodes[items[i]->Child_0].key,
    ensures
        child_list(after, other, count) == child_list(trie, items, count),
    decreases count,
{
    if count > 0 {
        lemma_child_list_same(trie, after, items, other, (count - 1) as nat);
        assert(other[count - 1] == items[count - 1] || (other[count - 1] !is Child && items[count
            - 1] !is Child));
    }
}

/// Where the keys stay, and in the items nothing that is a node, the children
/// stay listed.
proof fn lemma_same_listed<T>(trie: TrieView<T>, after: TrieView<T>)
    requires
        one_parent_each(trie),
        children_listed(trie),
        after.nodes.len() == trie.nodes.len(),
        trie.nodes.len() > 0,
        forall|i: int|
            0 <= i < trie.nodes.len() ==> {
                &&& (#[trigger] after.nodes[i]).key == trie.nodes[i].key
                &&& after.nodes[i].children == trie.nodes[i].children
                &&& trie.nodes[i].items.len() <= after.nodes[i].items.len()
                    <= trie.nodes[i].items.len() + 1
                &&& after.nodes[i].items.len() > trie.nodes[i].items.len()
                    ==> after.nodes[i].items.last() !is Child
                &&& forall|j: int|
                    0 <= j < trie.nodes[i].items.len() ==> (#[trigger] after.nodes[i].items[j]
                        == trie.nodes[i].items[j] || (after.nodes[i].items[j] !is Child
                        && trie.nodes[i].items[j] !is Child))
            },
    ensures
        children_listed(after),
{
    assert forall|i: int| 0 <= i < after.nodes.len() implies (#[trigger] after.nodes[i]).children
        == child_list(after, after.nodes[i].items, after.nodes[i].items.len()) by {
        let items = trie.nodes[i].items;
        assert(trie.nodes[i].children == child_list(trie, items, items.len()));
        assert forall|j: int| 0 <= j < items.len() && (#[trigger] items[j]) is Child implies
            after.nodes[items[j]->Child_0].key == trie.nodes[items[j]->Child_0].key by {
            assert(holds_child(trie, i, j, items[j]->Child_0));
        }
        lemma_child_list_same(trie, after, items, after.nodes[i].items, items.len());
    }
    assert(after.nodes[0].key == trie.nodes[0].key);
}

/// The index of the node that a rule goes into is one of the nodes.
proof fn lemma_child_in_range<T>(trie: TrieView<T>, node: int, key: KeyView)
    requires
        sound(trie),
        0 <= node < trie.nodes.len(),
        trie.ends_with(node, key),
    ensures
        0 <= trie.child(node, true) < trie.nodes.len(),
{
    let items = trie.nodes[node].items;
    assert(holds_child(trie, node, items.len() - 1, trie.child(node, true)));
}

proof fn lemma_with_child_sound<T>(
    trie: TrieView<T>,
    node: int,
    reuse: bool,
    key: KeyView,
    loc: Location,
)
    requires
        sound(trie),
        0 <= node < trie.nodes.len(),
        reuse ==> trie.ends_with(node, key),
    ensures
        sound(trie.with_child(node, reuse, key, loc)),
        0 <= trie.child(node, reuse) < trie.with_child(node, reuse, key, loc).nodes.len(),
        trie.nodes.len() <= trie.with_child(node, reuse, key, loc).nodes.len(),
{
    let after = trie.with_child(node, reuse, key, loc);
    if reuse {
        lemma_child_in_range(trie, node, key);
    } else {
        let added = trie.nodes.len() as int;
        let place = trie.nodes[node].items.len() as int;
        assert forall|parent: int, index: int, child: int|
            #[trigger] holds_child(after, parent, index, child) implies holds_child(
            trie,
            parent,
            index,
            child,
        ) || (parent == node && index == place && child == added) by {
            if parent < trie.nodes.len() && !(parent == node && index == place) {
                assert(trie.nodes[parent].items[index] == SlotView::<T>::Child(child));
            }
        }
        assert forall|child: int| 0 < child < after.nodes.len() implies #[trigger] has_parent(
            after,
            child,
        ) by {
            if child == added {
                assert(holds_child(after, node, place, child));
            } else {
                assert(has_parent(trie, child));
                let (parent, index) = choose|parent: int, index: int|
                    holds_child(trie, parent, index, child);
                assert(holds_child(after, parent, index, child));
            }
        }
        assert(one_parent_each(after));
        assert forall|i: int| 0 <= i < after.nodes.len() implies (#[trigger]
        after.nodes[i]).children == child_list(
            after,
            after.nodes[i].items,
            after.nodes[i].items.len(),
        ) by {
            if i < added {
                let items = trie.nodes[i].items;
                assert(trie.nodes[i].children == child_list(trie, items, items.len()));
                assert forall|j: int| 0 <= j < items.len() && (#[trigger] items[j])
                    is Child implies after.nodes[items[j]->Child_0].key
                    == trie.nodes[items[j]->Child_0].key by {
                    assert(holds_child(trie, i, j, items[j]->Child_0));
                }
                lemma_child_list_same(trie, after, items, after.nodes[i].items, items.len());
            }
        }
        assert forall|i: int| 0 < i < after.nodes.len() implies (#[trigger] after.nodes[i]).key
            is Some by {
            if i < added {
                assert(trie.nodes[i].key is Some);
            }
        }
        assert(after.nodes[0].key == trie.nodes[0].key);
        assert forall|at: int, index: int, spot: int, id: int|
            #[trigger] holds_id(after, at, index, spot, id) implies holds_id(
            trie,
            at,
            index,
            spot,
            id,
        ) by {
            if at < added {
                assert(index < trie.nodes[at].items.len());
                assert(after.nodes[at].items[index] == trie.nodes[at].items[index]);
            }
        }
        assert forall|i: int| 0 <= i < after.nodes.len() implies runs_sound(
            #[trigger] after.nodes[i],
            after.declarations.len(),
        ) by {
            if i < added {
                assert(runs_sound(trie.nodes[i], trie.declarations.len()));
            }
        }
    }
}

/// Changing what is no child keeps the parents.
proof fn lemma_same_children<T>(trie: TrieView<T>, after: TrieView<T>)
    requires
        one_parent_each(trie),
        after.nodes.len() == trie.nodes.len(),
        forall|parent: int, index: int, child: int|
            #[trigger] holds_child(after, parent, index, child) ==> holds_child(
                trie,
                parent,
                index,
                child,
            ),
        forall|parent: int, index: int, child: int|
            #[trigger] holds_child(trie, parent, index, child) ==> holds_child(
                after,
                parent,
                index,
                child,
            ),
    ensures
        one_parent_each(after),
{
    assert forall|child: int| 0 < child < after.nodes.len() implies #[trigger] has_parent(
        after,
        child,
    ) by {
        assert(has_parent(trie, child));
        let (parent, index) = choose|parent: int, index: int|
            holds_child(trie, parent, index, child);
        assert(holds_child(after, parent, index, child));
    }
}

proof fn lemma_with_query_sound<T>(trie: TrieView<T>, node: int, prelude: AtRuleView)
    requires
        sound(trie),
        0 <= node < trie.nodes.len(),
    ensures
        sound(trie.with_query(node, prelude)),
        trie.with_query(node, prelude).nodes.len() == trie.nodes.len(),
{
    let after = trie.with_query(node, prelude);
    assert forall|parent: int, index: int, child: int|
        #[trigger] holds_child(after, parent, index, child) implies holds_child(
        trie,
        parent,
        index,
        child,
    ) by {
        assert(trie.nodes[parent].items[index] == after.nodes[parent].items[index]);
    }
    assert forall|parent: int, index: int, child: int|
        #[trigger] holds_child(trie, parent, index, child) implies holds_child(
        after,
        parent,
        index,
        child,
    ) by {
        assert(trie.nodes[parent].items[index] == after.nodes[parent].items[index]);
    }
    lemma_same_children(trie, after);
    lemma_same_listed(trie, after);
    assert forall|at: int, index: int, spot: int, id: int|
        #[trigger] holds_id(after, at, index, spot, id) implies holds_id(
        trie,
        at,
        index,
        spot,
        id,
    ) by {
        assert(after.nodes[at].items == trie.nodes[at].items);
    }
    assert forall|i: int| 0 <= i < after.nodes.len() implies runs_sound(
        #[trigger] after.nodes[i],
        after.declarations.len(),
    ) by {
        assert(runs_sound(trie.nodes[i], trie.declarations.len()));
        assert(after.nodes[i].items == trie.nodes[i].items);
    }
}

/// The indexes of a run that properties were inserted into: as many as the run
/// has declarations, old ones or new ones.
proof fn lemma_property_ids(
    ids: Seq<int>,
    run: Seq<DeclarationView>,
    properties: Seq<PropertyView>,
    important: bool,
    dedupe: bool,
    first: int,
    count: nat,
)
    requires
        ids.len() == run.len(),
        0 <= first,
        forall|i: int| 0 <= i < ids.len() ==> 0 <= #[trigger] ids[i] < first,
        ids.no_duplicates(),
    ensures
        ({
            let after = insert_property_ids(ids, run, properties, important, dedupe, first, count);
            &&& after.len() == insert_properties(run, properties, important, dedupe, count).len()
            &&& after.len() >= ids.len()
            &&& count > 0 ==> after.len() > 0
            &&& forall|i: int| 0 <= i < after.len() ==> 0 <= #[trigger] after[i] < first + count
            &&& forall|i: int|
                0 <= i < after.len() && (#[trigger] after[i]) < first ==> ids.contains(after[i])
            &&& after.no_duplicates()
        }),
    decreases count,
{
    if count > 0 {
        let shorter = (count - 1) as nat;
        lemma_property_ids(ids, run, properties, important, dedupe, first, shorter);
        let before = insert_properties(run, properties, important, dedupe, shorter);
        let added = DeclarationView { property: properties[count - 1], important };
        lemma_last_slot(before, added.property.id.key, important, before.len());
    }
}

proof fn lemma_block_ids(
    ids: Seq<int>,
    run: Seq<DeclarationView>,
    block: BlockView,
    dedupe: bool,
    first: int,
)
    requires
        ids.len() == run.len(),
        0 <= first,
        forall|i: int| 0 <= i < ids.len() ==> 0 <= #[trigger] ids[i] < first,
        ids.no_duplicates(),
        !block.is_empty(),
    ensures
        ({
            let after = insert_block_ids(ids, run, block, dedupe, first);
            &&& after.len() > 0
            &&& forall|i: int|
                0 <= i < after.len() ==> 0 <= #[trigger] after[i] < first
                    + block_declarations(block).len()
            &&& forall|i: int|
                0 <= i < after.len() && (#[trigger] after[i]) < first ==> ids.contains(after[i])
            &&& after.no_duplicates()
        }),
{
    let count = block.normal.len();
    lemma_property_ids(ids, run, block.normal, false, dedupe, first, count);
    lemma_property_ids(
        insert_property_ids(ids, run, block.normal, false, dedupe, first, count),
        insert_properties(run, block.normal, false, dedupe, count),
        block.important,
        true,
        dedupe,
        first + count,
        block.important.len(),
    );
}

proof fn lemma_with_block_sound<T>(trie: TrieView<T>, node: int, block: BlockView)
    requires
        sound(trie),
        0 <= node < trie.nodes.len(),
    ensures
        sound(trie.with_block(node, block)),
        trie.with_block(node, block).nodes.len() == trie.nodes.len(),
{
    let after = trie.with_block(node, block);
    if !block.is_empty() {
        let items = trie.nodes[node].items;
        let first = trie.declarations.len() as int;
        assert(runs_sound(trie.nodes[node], trie.declarations.len()));
        let last = after.nodes[node].items.len() - 1;
        if trie.nodes[node].ends_with_run() {
            assert(items[items.len() - 1] is Declarations);
            let ids = items.last()->Declarations_0;
            assert forall|i: int, j: int| 0 <= i < ids.len() && 0 <= j < ids.len() && i
                != j implies ids[i] != ids[j] by {
                assert(holds_id(trie, node, items.len() - 1, i, ids[i]));
                assert(holds_id(trie, node, items.len() - 1, j, ids[j]));
            }
            lemma_block_ids(ids, trie.run(ids), block, trie.dedupe, first);
        } else {
            lemma_block_ids(seq![], seq![], block, trie.dedupe, first);
        }
        assert forall|parent: int, index: int, child: int|
            #[trigger] holds_child(after, parent, index, child) implies holds_child(
            trie,
            parent,
            index,
            child,
        ) by {
            assert(trie.nodes[parent].items[index] == after.nodes[parent].items[index]);
        }
        assert forall|parent: int, index: int, child: int|
            #[trigger] holds_child(trie, parent, index, child) implies holds_child(
            after,
            parent,
            index,
            child,
        ) by {
            assert(trie.nodes[parent].items[index] == after.nodes[parent].items[index]);
        }
        lemma_same_children(trie, after);
        lemma_same_listed(trie, after);
        let own = after.nodes[node].items[last]->Declarations_0;
        assert forall|at: int, index: int, spot: int, id: int|
            #[trigger] holds_id(after, at, index, spot, id) implies (if at == node && index
            == last {
            own[spot] == id && (id < first ==> exists|old_spot: int|
                #[trigger] holds_id(trie, node, last, old_spot, id))
        } else {
            holds_id(trie, at, index, spot, id) && id < first
        }) by {
            if at == node && index == last {
                if id < first {
                    assert(own.contains(id));
                    if trie.nodes[node].ends_with_run() {
                        let ids = items.last()->Declarations_0;
                        assert(ids.contains(own[spot]));
                        let old_spot = choose|k: int| 0 <= k < ids.len() && ids[k] == id;
                        assert(holds_id(trie, node, last, old_spot, id));
                    }
                }
            } else {
                assert(after.nodes[at].items[index] == trie.nodes[at].items[index]);
                assert(holds_id(trie, at, index, spot, id));
                assert(runs_sound(trie.nodes[at], trie.declarations.len()));
                assert(trie.nodes[at].items[index] is Declarations);
            }
        }
        assert(ids_once(after));
        assert forall|i: int| 0 <= i < after.nodes.len() implies runs_sound(
            #[trigger] after.nodes[i],
            after.declarations.len(),
        ) by {
            assert(runs_sound(trie.nodes[i], trie.declarations.len()));
            let changed = after.nodes[i];
            assert forall|j: int|
                0 <= j < changed.items.len() && (#[trigger] changed.items[j]) is Declarations
                implies {
                let ids = changed.items[j]->Declarations_0;
                &&& ids.len() > 0
                &&& forall|k: int|
                    0 <= k < ids.len() ==> 0 <= #[trigger] ids[k] < after.declarations.len()
                &&& j > 0 ==> changed.items[j - 1] !is Declarations
            } by {
                if i == node && j == changed.items.len() - 1 {
                    if j > 0 {
                        assert(changed.items[j - 1] == items[j - 1]);
                        if j < items.len() {
                            assert(items[j] is Declarations);
                        } else {
                            assert(items[j - 1] == items.last());
                        }
                    }
                } else {
                    assert(changed.items[j] == trie.nodes[i].items[j]);
                    if j > 0 {
                        assert(changed.items[j - 1] == trie.nodes[i].items[j - 1]);
                    }
                }
            }
        }
    }
}

proof fn lemma_barrier_sound<T>(trie: TrieView<T>, node: int, payload: T)
    requires
        sound(trie),
        0 <= node < trie.nodes.len(),
    ensures
        sound(trie.with_items(node, trie.nodes[node].items.push(SlotView::Barrier(payload)))),
{
    let items = trie.nodes[node].items;
    let after = trie.with_items(node, items.push(SlotView::Barrier(payload)));
    assert forall|parent: int, index: int, child: int|
        #[trigger] holds_child(after, parent, index, child) implies holds_child(
        trie,
        parent,
        index,
        child,
    ) by {
        assert(index < trie.nodes[parent].items.len());
        assert(trie.nodes[parent].items[index] == after.nodes[parent].items[index]);
    }
    assert forall|parent: int, index: int, child: int|
        #[trigger] holds_child(trie, parent, index, child) implies holds_child(
        after,
        parent,
        index,
        child,
    ) by {
        assert(trie.nodes[parent].items[index] == after.nodes[parent].items[index]);
    }
    lemma_same_children(trie, after);
    lemma_same_listed(trie, after);
    assert forall|at: int, index: int, spot: int, id: int|
        #[trigger] holds_id(after, at, index, spot, id) implies holds_id(
        trie,
        at,
        index,
        spot,
        id,
    ) by {
        assert(index < trie.nodes[at].items.len());
        assert(after.nodes[at].items[index] == trie.nodes[at].items[index]);
    }
    assert forall|i: int| 0 <= i < after.nodes.len() implies runs_sound(
        #[trigger] after.nodes[i],
        after.declarations.len(),
    ) by {
        assert(runs_sound(trie.nodes[i], trie.declarations.len()));
        assert forall|j: int|
            0 <= j < after.nodes[i].items.len() && (#[trigger] after.nodes[i].items[j])
                is Declarations implies after.nodes[i].items[j] == trie.nodes[i].items[j] && j
            < trie.nodes[i].items.len() by {}
    }
}

pub proof fn lemma_insert_sound<T>(
    trie: TrieView<T>,
    node: int,
    rule: RuleView<T>,
    context: MinifyContext,
)
    requires
        sound(trie),
        0 <= node < trie.nodes.len(),
    ensures
        sound(trie.insert_rule(node, rule, context).0),
        trie.nodes.len() <= trie.insert_rule(node, rule, context).0.nodes.len(),
    decreases rule, 0nat,
{
    match rule {
        RuleView::AtRule { prelude, rules, loc } => {
            if let Ok(key) = at_rule_key(prelude, loc, context) {
                let reuse = trie.ends_with(node, key);
                let child = trie.child(node, reuse);
                let opened = trie.with_child(node, reuse, key, loc);
                lemma_with_child_sound(trie, node, reuse, key, loc);
                lemma_with_query_sound(opened, child, prelude);
                lemma_insert_list_sound(
                    opened.with_query(child, prelude),
                    child,
                    rules,
                    rules.len(),
                    context,
                );
            }
        },
        RuleView::Style { selectors, vendor_prefix, block, rules, loc } => {
            let key = KeyView::Selector {
                selectors,
                vendor_prefix,
                source_index: loc.source_index,
            };
            let reuse = trie.reuses_style(node, key, block, context);
            let child = trie.child(node, reuse);
            let opened = trie.with_child(node, reuse, key, loc);
            lemma_with_child_sound(trie, node, reuse, key, loc);
            lemma_with_block_sound(opened, child, block);
            lemma_insert_list_sound(
                opened.with_block(child, block),
                child,
                rules,
                rules.len(),
                context,
            );
        },
        RuleView::NestedDeclarations { block, loc: _ } => {
            lemma_with_block_sound(trie, node, block);
        },
        RuleView::Other(payload) => {
            lemma_barrier_sound(trie, node, payload);
        },
    }
}

pub proof fn lemma_insert_list_sound<T>(
    trie: TrieView<T>,
    node: int,
    rules: Seq<RuleView<T>>,
    count: nat,
    context: MinifyContext,
)
    requires
        sound(trie),
        0 <= node < trie.nodes.len(),
    ensures
        sound(trie.insert_rules(node, rules, count, context).0),
        trie.nodes.len() <= trie.insert_rules(node, rules, count, context).0.nodes.len(),
    decreases rules, count,
{
    if count > 0 && count <= rules.len() {
        lemma_insert_list_sound(trie, node, rules, (count - 1) as nat, context);
        let before = trie.insert_rules(node, rules, (count - 1) as nat, context).0;
        lemma_insert_sound(before, node, rules[count - 1], context);
    }
}

} // verus!
