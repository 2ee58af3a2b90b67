//! Runs of declarations, held as indexes into an arena.
use crate::arena::insert_id;
use crate::declaration::properties_conflict;
use crate::declaration::Property;
use crate::declaration::PropertyId;
use crate::declaration::PropertyKey;
use crate::model::in_slot;
use crate::model::insert_declaration;
use crate::model::interferes;
use crate::model::last_slot;
use crate::model::own_slot;
use crate::model::replaceable;
use crate::model::replaces;
use crate::model::DeclarationView;
use indexmap::IndexMap;
use vstd::prelude::*;

verus! {

/// The hash map of the `indexmap` crate. Its content is opaque; the maps that
/// are used here are described by [`positions`].
#[verifier::external_type_specification]
#[verifier::external_body]
#[verifier::reject_recursive_types(K)]
#[verifier::reject_recursive_types(V)]
#[verifier::reject_recursive_types(S)]
pub struct ExIndexMap<K, V, S>(IndexMap<K, V, S>);

/// What a map from properties to positions holds.
pub uninterp spec fn positions(map: IndexMap<(String, u8), usize>) -> Map<PropertyKey, usize>;

/// `IndexMap::new`: the new map holds nothing.
#[verifier::external_body]
fn no_positions() -> (fresh: IndexMap<(String, u8), usize>)
    ensures
        positions(fresh).dom() == Set::<PropertyKey>::empty(),
{
    IndexMap::new()
}

/// `IndexMap::get`: the value that the map holds for the key, if any. Keys are
/// the same where the names have the same characters and the numbers are equal.
#[verifier::external_body]
fn position_of(map: &IndexMap<(String, u8), usize>, key: &(String, u8)) -> (position: Option<
    usize,
>)
    ensures
        position == (if positions(*map).dom().contains((key.0@, key.1)) {
            Some(positions(*map)[(key.0@, key.1)])
        } else {
            None
        }),
{
    map.get(key).copied()
}

/// `IndexMap::insert`: the map holds the value for the key from now on, and is
/// otherwise unchanged. It returns the value that it held for the key before, if
/// any.
#[verifier::external_body]
fn set_position(
    map: &mut IndexMap<(String, u8), usize>,
    key: (String, u8),
    position: usize,
) -> (before: Option<usize>)
    ensures
        positions(*final(map)) == positions(*old(map)).insert((key.0@, key.1), position),
        before == (if positions(*old(map)).dom().contains((key.0@, key.1)) {
            Some(positions(*old(map))[(key.0@, key.1)])
        } else {
            None
        }),
{
    map.insert(key, position)
}

/// An index into the arena of declarations.
pub type DeclId = usize;

/// A declaration in the arena.
pub struct DeclarationEntry {
    pub declaration: Property,
    pub important: bool,
}

impl View for DeclarationEntry {
    type V = DeclarationView;

    open spec fn view(&self) -> DeclarationView {
        DeclarationView { property: self.declaration@, important: self.important }
    }
}

/// A run of declarations. For each importance, it knows the last position of
/// every property in the run.
pub struct DeclarationSet {
    pub entries: Vec<DeclId>,
    pub normal: IndexMap<(String, u8), usize>,
    pub important: IndexMap<(String, u8), usize>,
}

/// Whether the map holds the last position in the run of every property of this
/// importance, and nothing else.
pub open spec fn indexes(
    map: Map<PropertyKey, usize>,
    run: Seq<DeclarationView>,
    important: bool,
) -> bool {
    forall|key: PropertyKey|
        #![trigger map.dom().contains(key)]
        #![trigger last_slot(run, key, important, run.len())]
        {
            &&& map.dom().contains(key) <==> last_slot(run, key, important, run.len()) >= 0
            &&& map.dom().contains(key) ==> map[key] == last_slot(run, key, important, run.len())
        }
}

/// The last slot among the first `end` declarations is one of them, it holds
/// the property, and no later one of them does.
pub proof fn lemma_last_slot(
    run: Seq<DeclarationView>,
    key: PropertyKey,
    important: bool,
    end: nat,
)
    requires
        end <= run.len(),
    ensures
        -1 <= last_slot(run, key, important, end) < end,
        last_slot(run, key, important, end) >= 0 ==> in_slot(
            run[last_slot(run, key, important, end)],
            key,
            important,
        ),
        forall|i: int|
            last_slot(run, key, important, end) < i < end ==> !in_slot(
                #[trigger] run[i],
                key,
                important,
            ),
    decreases end,
{
    if end > 0 && !in_slot(run[end - 1], key, important) {
        lemma_last_slot(run, key, important, (end - 1) as nat);
    }
}

/// The last slot depends on nothing but which of the declarations are in it.
pub proof fn lemma_last_slot_same(
    run: Seq<DeclarationView>,
    other: Seq<DeclarationView>,
    key: PropertyKey,
    important: bool,
    end: nat,
)
    requires
        end <= run.len(),
        end <= other.len(),
        forall|i: int|
            0 <= i < end ==> in_slot(#[trigger] run[i], key, important) == in_slot(
                other[i],
                key,
                important,
            ),
    ensures
        last_slot(run, key, important, end) == last_slot(other, key, important, end),
    decreases end,
{
    if end > 0 {
        assert(in_slot(run[end - 1], key, important) == in_slot(other[end - 1], key, important));
        lemma_last_slot_same(run, other, key, important, (end - 1) as nat);
    }
}

impl DeclarationSet {
    /// The declarations of the run.
    pub open spec fn run(&self, arena: Seq<DeclarationEntry>) -> Seq<DeclarationView> {
        Seq::new(self.entries@.len(), |i: int| arena[self.entries@[i] as int]@)
    }

    /// The indexes of the run.
    pub open spec fn ids(&self) -> Seq<int> {
        Seq::new(self.entries@.len(), |i: int| self.entries@[i] as int)
    }

    /// The entries are in the arena, and the maps index the run.
    pub open spec fn wf(&self, arena: Seq<DeclarationEntry>) -> bool {
        &&& forall|i: int| 0 <= i < self.entries@.len() ==> #[trigger] self.entries@[i] < arena.len()
        &&& indexes(positions(self.normal), self.run(arena), false)
        &&& indexes(positions(self.important), self.run(arena), true)
    }

    /// A run without declarations.
    pub fn new() -> (set: Self)
        ensures
            forall|arena: Seq<DeclarationEntry>| #[trigger] set.wf(arena),
            forall|arena: Seq<DeclarationEntry>| #[trigger] set.run(arena) == Seq::<
                DeclarationView,
            >::empty(),
            set.entries@.len() == 0,
            set.ids() == Seq::<int>::empty(),
    {
        let set = DeclarationSet {
            entries: Vec::new(),
            normal: no_positions(),
            important: no_positions(),
        };
        assert forall|arena: Seq<DeclarationEntry>| #[trigger] set.run(arena) == Seq::<
                DeclarationView,
            >::empty() by {
            assert(set.run(arena) =~= Seq::<DeclarationView>::empty());
        }
        assert(set.ids() =~= Seq::<int>::empty());
        set
    }

    /// Whether nothing behind the position has this importance and conflicts
    /// with the property.
    fn can_replace_at(
        &self,
        position: usize,
        property_id: &PropertyId,
        important: bool,
        arena: &Vec<DeclarationEntry>,
    ) -> (free: bool)
        requires
            self.wf(arena@),
            position < self.entries.len(),
        ensures
            forall|declaration: DeclarationView|
                declaration.property.id == property_id@ && declaration.important == important
                    ==> free == #[trigger] replaceable(
                    self.run(arena@),
                    position as int,
                    declaration,
                ),
    {
        let mut i: usize = position + 1;
        while i < self.entries.len()
            invariant
                position < i <= self.entries.len(),
                self.wf(arena@),
                forall|j: int, declaration: DeclarationView|
                    position < j < i && declaration.property.id == property_id@
                        && declaration.important == important ==> !(#[trigger] interferes(
                        self.run(arena@)[j],
                        declaration,
                    )),
            decreases self.entries.len() - i,
        {
            let entry = &arena[self.entries[i]];
            assert(self.run(arena@)[i as int] == entry@);
            if entry.important == important && properties_conflict(
                &entry.declaration.id,
                property_id,
            ) {
                assert forall|declaration: DeclarationView|
                    declaration.property.id == property_id@ && declaration.important
                        == important implies !(#[trigger] replaceable(
                    self.run(arena@),
                    position as int,
                    declaration,
                )) by {
                    assert(interferes(self.run(arena@)[i as int], declaration));
                }
                return false;
            }
            i = i + 1;
        }
        true
    }

    /// Adds the declaration with this id to the run: see
    /// [`insert_declaration`]. The id takes the place of the last one of the same
    /// property and importance, which the maps then hold already, or it goes
    /// behind the others, and the map for its importance holds its place.
    pub fn insert(
        &mut self,
        id: DeclId,
        key: PropertyId,
        important: bool,
        dedupe: bool,
        arena: &Vec<DeclarationEntry>,
    )
        requires
            old(self).wf(arena@),
            id < arena.len(),
            arena@[id as int]@.property.id == key@,
            arena@[id as int]@.important == important,
        ensures
            final(self).wf(arena@),
            final(self).run(arena@) == insert_declaration(
                old(self).run(arena@),
                arena@[id as int]@,
                dedupe,
            ),
            ({
                let run = old(self).run(arena@);
                let added = arena@[id as int]@;
                let end = old(self).entries@.len() as usize;
                if replaces(run, added, dedupe) {
                    &&& final(self).entries@ == old(self).entries@.update(own_slot(run, added), id)
                    &&& final(self).normal == old(self).normal
                    &&& final(self).important == old(self).important
                } else {
                    &&& final(self).entries@ == old(self).entries@.push(id)
                    &&& important ==> final(self).normal == old(self).normal && positions(
                        final(self).important,
                    ) == positions(old(self).important).insert(key@.key, end)
                    &&& !important ==> final(self).important == old(self).important && positions(
                        final(self).normal,
                    ) == positions(old(self).normal).insert(key@.key, end)
                }
            }),
            final(self).ids() == insert_id(
                old(self).ids(),
                old(self).run(arena@),
                arena@[id as int]@,
                dedupe,
                id as int,
            ),
    {
        let ghost run = self.run(arena@);
        let ghost added = arena@[id as int]@;
        let slot = (key.name.clone(), key.prefix.bits);
        proof {
            assert((slot.0@, slot.1) == added.property.id.key);
            lemma_last_slot(run, added.property.id.key, important, run.len());
        }
        let existing = if important {
            position_of(&self.important, &slot)
        } else {
            position_of(&self.normal, &slot)
        };
        if let Some(position) = existing {
            if dedupe && self.can_replace_at(position, &key, important, arena) {
                self.entries.set(position, id);
                proof {
                    assert(replaceable(run, position as int, added));
                    assert(self.ids() =~= old(self).ids().update(position as int, id as int));
                    assert(self.run(arena@) =~= run.update(position as int, added));
                    assert forall|other: PropertyKey, flag: bool|
                        #[trigger] last_slot(self.run(arena@), other, flag, run.len())
                            == last_slot(run, other, flag, run.len()) by {
                        lemma_last_slot_same(self.run(arena@), run, other, flag, run.len());
                    }
                }
                return ;
            }
        }
        let position: usize = self.entries.len();
        self.entries.push(id);
        proof {
            assert(self.run(arena@) =~= run.push(added));
            assert(self.ids() =~= old(self).ids().push(id as int));
            assert forall|other: PropertyKey, flag: bool|
                #[trigger] last_slot(self.run(arena@), other, flag, run.len() + 1) == (if in_slot(
                    added,
                    other,
                    flag,
                ) {
                    run.len() as int
                } else {
                    last_slot(run, other, flag, run.len())
                }) by {
                lemma_last_slot_same(self.run(arena@), run, other, flag, run.len());
            }
        }
        if important {
            set_position(&mut self.important, slot, position);
        } else {
            set_position(&mut self.normal, slot, position);
        }
    }
}

} // verus!
