//! What holds of runs of declarations.
use crate::arena::block_declarations;
use crate::arena::insert_block_ids;
use crate::arena::insert_id;
use crate::arena::insert_property_ids;
use crate::arena::with_importance;
use crate::arena::TrieView;
use crate::declaration::conflict;
use crate::declaration::BlockView;
use crate::declaration::PropertyIdView;
use crate::declaration::PropertyKey;
use crate::declaration::PropertyView;
use crate::declaration_set::lemma_last_slot;
use crate::model::insert_block;
use crate::model::insert_declaration;
use crate::model::insert_properties;
use crate::model::insert_run;
use crate::model::interferes;
use crate::model::of_importance;
use crate::model::own_slot;
use crate::model::replaceable;
use crate::model::replaces;
use crate::model::run_block;
use crate::model::DeclarationView;
use crate::terms::clash;
use crate::terms::lemma_clash;
use vstd::prelude::*;

verus! {

/// A declaration that was added stands behind everything that it interferes
/// with, with dedupe or without, and its index stands in the same place.
pub proof fn law_newest_stands_behind_what_it_interferes_with(
    run: Seq<DeclarationView>,
    ids: Seq<int>,
    declaration: DeclarationView,
    id: int,
    dedupe: bool,
)
    requires
        ids.len() == run.len(),
    ensures
        ({
            let after = insert_declaration(run, declaration, dedupe);
            let place = if replaces(run, declaration, dedupe) {
                own_slot(run, declaration)
            } else {
                run.len() as int
            };
            &&& 0 <= place < after.len()
            &&& after[place] == declaration
            &&& insert_id(ids, run, declaration, dedupe, id)[place] == id
            &&& forall|i: int|
                place < i < after.len() ==> !((#[trigger] after[i]).important
                    == declaration.important && clash(
                    after[i].property.id,
                    declaration.property.id,
                ))
            &&& replaceable(after, place, declaration)
        }),
{
    lemma_conflicts();
    lemma_last_slot(run, declaration.property.id.key, declaration.important, run.len());
    let after = insert_declaration(run, declaration, dedupe);
    if replaces(run, declaration, dedupe) {
        let place = own_slot(run, declaration);
        assert forall|i: int| place < i < after.len() implies !interferes(
            #[trigger] after[i],
            declaration,
        ) by {
            assert(after[i] == run[i]);
        }
    }
}

/// Whether the longhands of every declared property are those that `ids` says.
pub open spec fn declared_by(
    run: Seq<DeclarationView>,
    ids: spec_fn(PropertyKey) -> PropertyIdView,
) -> bool {
    forall|i: int|
        0 <= i < run.len() ==> (#[trigger] run[i]).property.id == ids(run[i].property.id.key)
}

proof fn lemma_conflicts()
    ensures
        forall|a: PropertyIdView, b: PropertyIdView| #[trigger] conflict(a, b) == clash(a, b),
{
    assert forall|a: PropertyIdView, b: PropertyIdView| #[trigger] conflict(a, b) == clash(
        a,
        b,
    ) by {
        lemma_clash(a, b);
    }
}

/// Whether the declarations have the same importance and set something in
/// common.
pub open spec fn meet(a: DeclarationView, b: DeclarationView) -> bool {
    a.important == b.important && clash(a.property.id, b.property.id)
}

/// Whether something meets the declaration at `second` between it and `first`.
pub open spec fn parted(run: Seq<DeclarationView>, first: int, second: int) -> bool {
    exists|i: int| first < i < second && meet(#[trigger] run[i], run[second])
}

/// Whether any two declarations of the same property and importance have one
/// between them that the second meets.
pub open spec fn compact(run: Seq<DeclarationView>) -> bool {
    forall|first: int, second: int|
        0 <= first < second < run.len() && run[first].property.id.key
            == run[second].property.id.key && run[first].important == run[second].important
            ==> #[trigger] parted(run, first, second)
}

proof fn lemma_insert_compact(
    run: Seq<DeclarationView>,
    declaration: DeclarationView,
    ids: spec_fn(PropertyKey) -> PropertyIdView,
)
    requires
        compact(run),
        declared_by(run, ids),
        declaration.property.id == ids(declaration.property.id.key),
    ensures
        compact(insert_declaration(run, declaration, true)),
        declared_by(insert_declaration(run, declaration, true), ids),
{
    let key = declaration.property.id.key;
    let place = own_slot(run, declaration);
    let after = insert_declaration(run, declaration, true);
    lemma_last_slot(run, key, declaration.important, run.len());
    lemma_conflicts();
    assert forall|first: int, second: int|
        0 <= first < second < after.len() && after[first].property.id.key
            == after[second].property.id.key && after[first].important == after[second].important
        implies #[trigger] parted(after, first, second) by {
        if replaces(run, declaration, true) {
            assert forall|i: int| 0 <= i < run.len() implies (#[trigger] after[i]).property.id
                == run[i].property.id && after[i].important == run[i].important by {
                assert(run[i].property.id == ids(run[i].property.id.key));
            }
            assert(parted(run, first, second));
            let i = choose|i: int| first < i < second && meet(#[trigger] run[i], run[second]);
            assert(meet(after[i], after[second]));
        } else if second < run.len() {
            assert(parted(run, first, second));
            let i = choose|i: int| first < i < second && meet(#[trigger] run[i], run[second]);
            assert(meet(after[i], after[second]));
        } else {
            assert(after[first] == run[first]);
            assert(place >= first);
            if place == first {
                let i = choose|i: int|
                    place < i < run.len() && interferes(#[trigger] run[i], declaration);
                assert(meet(after[i], after[second]));
            } else {
                assert(parted(run, first, place));
                let i = choose|i: int|
                    first < i < place && meet(#[trigger] run[i], run[place]);
                assert(run[place].property.id == declaration.property.id);
                assert(meet(after[i], after[second]));
            }
        }
    }
}

proof fn lemma_properties_compact(
    run: Seq<DeclarationView>,
    properties: Seq<PropertyView>,
    important: bool,
    count: nat,
    ids: spec_fn(PropertyKey) -> PropertyIdView,
)
    requires
        compact(run),
        declared_by(run, ids),
        declared_by(with_importance(properties, important), ids),
        count <= properties.len(),
    ensures
        compact(insert_properties(run, properties, important, true, count)),
        declared_by(insert_properties(run, properties, important, true, count), ids),
    decreases count,
{
    if count > 0 {
        let added = with_importance(properties, important)[count - 1];
        lemma_properties_compact(run, properties, important, (count - 1) as nat, ids);
        lemma_insert_compact(
            insert_properties(run, properties, important, true, (count - 1) as nat),
            added,
            ids,
        );
    }
}

/// With dedupe, any two declarations of the same property and importance in a
/// run have one between them that the second meets, where every property has the
/// same longhands wherever it is declared.
pub proof fn law_equal_properties_are_parted(
    run: Seq<DeclarationView>,
    block: BlockView,
    ids: spec_fn(PropertyKey) -> PropertyIdView,
)
    requires
        compact(run),
        declared_by(run, ids),
        declared_by(block_declarations(block), ids),
    ensures
        compact(Seq::<DeclarationView>::empty()),
        compact(insert_block(run, block, true)),
        declared_by(insert_block(run, block, true), ids),
{
    let all = block_declarations(block);
    let normal = with_importance(block.normal, false);
    let important = with_importance(block.important, true);
    assert forall|i: int| 0 <= i < normal.len() implies (#[trigger] normal[i]).property.id == ids(
        normal[i].property.id.key,
    ) by {
        assert(all[i] == normal[i]);
    }
    assert forall|i: int| 0 <= i < important.len() implies (#[trigger] important[i]).property.id
        == ids(important[i].property.id.key) by {
        assert(all[normal.len() + i] == important[i]);
    }
    lemma_properties_compact(run, block.normal, false, block.normal.len(), ids);
    lemma_properties_compact(
        insert_properties(run, block.normal, false, true, block.normal.len()),
        block.important,
        true,
        block.important.len(),
        ids,
    );
}

/// What joins a run that way leaves it that way.
pub proof fn law_joined_runs_are_parted(
    run: Seq<DeclarationView>,
    added: Seq<DeclarationView>,
    count: nat,
    ids: spec_fn(PropertyKey) -> PropertyIdView,
)
    requires
        compact(run),
        declared_by(run, ids),
        declared_by(added, ids),
        count <= added.len(),
    ensures
        compact(insert_run(run, added, count)),
        declared_by(insert_run(run, added, count), ids),
    decreases count,
{
    if count > 0 {
        law_joined_runs_are_parted(run, added, (count - 1) as nat, ids);
        lemma_insert_compact(insert_run(run, added, (count - 1) as nat), added[count - 1], ids);
    }
}

proof fn lemma_of_importance_concat(
    a: Seq<DeclarationView>,
    b: Seq<DeclarationView>,
    important: bool,
    count: nat,
)
    requires
        count <= b.len(),
    ensures
        of_importance(a + b, important, a.len() + count) == of_importance(a, important, a.len())
            + of_importance(b, important, count),
    decreases count,
{
    if count == 0 {
        lemma_of_importance_prefix(a, b, important, a.len());
        assert(of_importance(a, important, a.len()) + of_importance(b, important, 0)
            =~= of_importance(a, important, a.len()));
    } else {
        lemma_of_importance_concat(a, b, important, (count - 1) as nat);
        assert((a + b)[a.len() + count - 1] == b[count - 1]);
        assert(of_importance(a + b, important, a.len() + count) =~= of_importance(
            a,
            important,
            a.len(),
        ) + of_importance(b, important, count));
    }
}

proof fn lemma_of_importance_prefix(
    a: Seq<DeclarationView>,
    b: Seq<DeclarationView>,
    important: bool,
    count: nat,
)
    requires
        count <= a.len(),
    ensures
        of_importance(a + b, important, count) == of_importance(a, important, count),
    decreases count,
{
    if count > 0 {
        lemma_of_importance_prefix(a, b, important, (count - 1) as nat);
        assert((a + b)[count - 1] == a[count - 1]);
    }
}

/// The block of two runs, one behind the other, is the block of the first, then
/// that of the second.
pub proof fn law_block_of_joined_runs(a: Seq<DeclarationView>, b: Seq<DeclarationView>)
    ensures
        run_block(a + b) == run_block(a).then_block(run_block(b)),
{
    lemma_of_importance_concat(a, b, true, b.len());
    lemma_of_importance_concat(a, b, false, b.len());
}

proof fn lemma_of_one_importance(
    properties: Seq<PropertyView>,
    flag: bool,
    important: bool,
    count: nat,
)
    requires
        count <= properties.len(),
    ensures
        of_importance(with_importance(properties, flag), important, count) == (if flag
            == important {
            properties.take(count as int)
        } else {
            seq![]
        }),
    decreases count,
{
    if count > 0 {
        lemma_of_one_importance(properties, flag, important, (count - 1) as nat);
    }
    if flag == important {
        assert(of_importance(with_importance(properties, flag), important, count)
            =~= properties.take(count as int));
    }
}

proof fn lemma_inserted_behind(
    run: Seq<DeclarationView>,
    properties: Seq<PropertyView>,
    important: bool,
    count: nat,
)
    requires
        count <= properties.len(),
    ensures
        insert_properties(run, properties, important, false, count) == run + with_importance(
            properties.take(count as int),
            important,
        ),
    decreases count,
{
    if count > 0 {
        lemma_inserted_behind(run, properties, important, (count - 1) as nat);
    }
    assert(insert_properties(run, properties, important, false, count) =~= run + with_importance(
        properties.take(count as int),
        important,
    ));
}

/// Without dedupe, a block's declarations go behind the run, in order.
pub proof fn law_without_dedupe_nothing_is_replaced(run: Seq<DeclarationView>, block: BlockView)
    ensures
        insert_block(run, block, false) == run + block_declarations(block),
{
    let normal = insert_properties(run, block.normal, false, false, block.normal.len());
    lemma_inserted_behind(run, block.normal, false, block.normal.len());
    lemma_inserted_behind(normal, block.important, true, block.important.len());
    assert(block.normal.take(block.normal.len() as int) =~= block.normal);
    assert(block.important.take(block.important.len() as int) =~= block.important);
    assert(insert_block(run, block, false) =~= run + block_declarations(block));
}

/// Without dedupe, a block that is inserted into an empty run comes back as it
/// was.
pub proof fn law_without_dedupe_a_block_comes_back(block: BlockView)
    ensures
        run_block(insert_block(seq![], block, false)) == block,
{
    let normal = with_importance(block.normal, false);
    let important = with_importance(block.important, true);
    law_without_dedupe_nothing_is_replaced(seq![], block);
    assert(seq![] + block_declarations(block) =~= normal + important);
    law_block_of_joined_runs(normal, important);
    lemma_of_one_importance(block.normal, false, false, block.normal.len());
    lemma_of_one_importance(block.normal, false, true, block.normal.len());
    lemma_of_one_importance(block.important, true, false, block.important.len());
    lemma_of_one_importance(block.important, true, true, block.important.len());
    assert(run_block(normal).then_block(run_block(important)) =~= block);
}

/// The declarations with some indexes, then those with others, make the block of
/// the first, then that of the second.
pub proof fn law_block_of_joined_indexes<T>(trie: TrieView<T>, a: Seq<int>, b: Seq<int>)
    ensures
        run_block(trie.run(a + b)) == run_block(trie.run(a)).then_block(run_block(trie.run(b))),
{
    assert(trie.run(a + b) =~= trie.run(a) + trie.run(b));
    law_block_of_joined_runs(trie.run(a), trie.run(b));
}

proof fn lemma_property_ids_run(
    arena: Seq<DeclarationView>,
    ids: Seq<int>,
    run: Seq<DeclarationView>,
    properties: Seq<PropertyView>,
    important: bool,
    dedupe: bool,
    first: int,
    count: nat,
)
    requires
        count <= properties.len(),
        ids.len() == run.len(),
        forall|i: int| 0 <= i < run.len() ==> arena[ids[i]] == #[trigger] run[i],
        forall|i: int|
            0 <= i < count ==> arena[first + i] == (DeclarationView {
                property: #[trigger] properties[i],
                important,
            }),
    ensures
        ({
            let after = insert_property_ids(ids, run, properties, important, dedupe, first, count);
            let grown = insert_properties(run, properties, important, dedupe, count);
            &&& after.len() == grown.len()
            &&& forall|i: int| 0 <= i < grown.len() ==> arena[after[i]] == #[trigger] grown[i]
        }),
    decreases count,
{
    if count > 0 {
        let shorter = (count - 1) as nat;
        lemma_property_ids_run(arena, ids, run, properties, important, dedupe, first, shorter);
        let before = insert_properties(run, properties, important, dedupe, shorter);
        let added = DeclarationView { property: properties[count - 1], important };
        lemma_last_slot(before, added.property.id.key, important, before.len());
        assert(arena[first + count - 1] == added);
    }
}

/// The indexes that a run holds once a block was inserted stand for the
/// declarations that it then has: what was in the arena, with the block's
/// declarations behind it.
pub proof fn law_indexes_stand_for_the_run<T>(trie: TrieView<T>, ids: Seq<int>, block: BlockView)
    requires
        forall|i: int| 0 <= i < ids.len() ==> 0 <= #[trigger] ids[i] < trie.declarations.len(),
    ensures
        ({
            let first = trie.declarations.len() as int;
            let grown = TrieView {
                declarations: trie.declarations + block_declarations(block),
                ..trie
            };
            grown.run(insert_block_ids(ids, trie.run(ids), block, trie.dedupe, first))
                == insert_block(trie.run(ids), block, trie.dedupe)
        }),
{
    let first = trie.declarations.len() as int;
    let run = trie.run(ids);
    let arena = trie.declarations + block_declarations(block);
    let count = block.normal.len();
    let dedupe = trie.dedupe;
    assert forall|i: int| 0 <= i < count implies arena[first + i] == (DeclarationView {
        property: #[trigger] block.normal[i],
        important: false,
    }) by {}
    assert forall|i: int| 0 <= i < block.important.len() implies arena[first + count + i] == (
    DeclarationView { property: #[trigger] block.important[i], important: true }) by {}
    lemma_property_ids_run(arena, ids, run, block.normal, false, dedupe, first, count);
    lemma_property_ids_run(
        arena,
        insert_property_ids(ids, run, block.normal, false, dedupe, first, count),
        insert_properties(run, block.normal, false, dedupe, count),
        block.important,
        true,
        dedupe,
        first + count,
        block.important.len(),
    );
    let grown = TrieView { declarations: arena, ..trie };
    assert(grown.run(insert_block_ids(ids, run, block, dedupe, first)) =~= insert_block(
        run,
        block,
        dedupe,
    ));
}

/// Without dedupe, a block whose declarations go into the arena and into a new
/// run comes back from the indexes of that run as it was.
pub proof fn law_without_dedupe_indexes_give_the_block_back<T>(trie: TrieView<T>, block: BlockView)
    requires
        !trie.dedupe,
    ensures
        ({
            let first = trie.declarations.len() as int;
            let grown = TrieView {
                declarations: trie.declarations + block_declarations(block),
                ..trie
            };
            run_block(grown.run(insert_block_ids(seq![], seq![], block, false, first))) == block
        }),
{
    assert(trie.run(seq![]) =~= seq![]);
    law_indexes_stand_for_the_run(trie, seq![], block);
    law_without_dedupe_a_block_comes_back(block);
}

} // verus!
