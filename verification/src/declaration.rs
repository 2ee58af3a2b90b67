//! Properties, declaration blocks, and when two properties conflict.
use crate::values::VendorPrefix;
use vstd::prelude::*;

verus! {

/// What identifies a property: its name and its vendor prefix's bits.
pub type PropertyKey = (Seq<char>, u8);

/// The identity of a property. A shorthand also lists the longhands that it
/// sets.
#[derive(Debug, PartialEq, Eq)]
pub struct PropertyId {
    pub name: String,
    pub prefix: VendorPrefix,
    pub longhands: Option<Vec<PropertyId>>,
}

/// The model of a [`PropertyId`]. Of a shorthand's longhands it has the keys.
#[verifier::ext_equal]
pub struct PropertyIdView {
    pub key: PropertyKey,
    pub longhands: Option<Seq<PropertyKey>>,
}

impl PropertyId {
    /// The property's name and prefix.
    pub open spec fn key(&self) -> PropertyKey {
        (self.name@, self.prefix.bits)
    }
}

impl View for PropertyId {
    type V = PropertyIdView;

    open spec fn view(&self) -> PropertyIdView {
        PropertyIdView {
            key: self.key(),
            longhands: match self.longhands {
                Some(ids) => Some(Seq::new(ids@.len(), |i: int| ids@[i].key())),
                None => None,
            },
        }
    }
}

impl Clone for PropertyId {
    fn clone(&self) -> (copy: Self)
        ensures
            copy@ == self@,
        decreases self,
    {
        let longhands = match &self.longhands {
            Some(ids) => {
                let mut copies: Vec<PropertyId> = Vec::new();
                let mut i: usize = 0;
                while i < ids.len()
                    invariant
                        i <= ids.len(),
                        copies.len() == i,
                        self.longhands == Some(*ids),
                        forall|j: int| 0 <= j < i ==> (#[trigger] copies@[j])@ == ids@[j]@,
                    decreases ids.len() - i,
                {
                    assert(decreases_to!(self.longhands => self.longhands->Some_0));
                    copies.push(ids[i].clone());
                    i = i + 1;
                }
                assert forall|j: int| 0 <= j < ids@.len() implies copies@[j].key() == (
                #[trigger] ids@[j]).key() by {
                    assert(copies@[j]@.key == ids@[j]@.key);
                }
                Some(copies)
            },
            None => None,
        };
        let copy = PropertyId { name: self.name.clone(), prefix: self.prefix, longhands };
        assert(copy@ =~= self@);
        copy
    }
}

/// Whether the property is the `all` shorthand.
pub open spec fn is_all(id: PropertyIdView) -> bool {
    id.key.0 == "all"@
}

/// Whether the property is a shorthand that lists the property with this key.
pub open spec fn lists(id: PropertyIdView, key: PropertyKey) -> bool {
    id.longhands matches Some(keys) && keys.contains(key)
}

/// Whether a declaration of one property can undo what a declaration of the
/// other did: they are the same property, one of them is `all`, one is a
/// longhand of the other, or they have a longhand in common.
pub open spec fn conflict(a: PropertyIdView, b: PropertyIdView) -> bool {
    ||| a.key == b.key
    ||| is_all(a)
    ||| is_all(b)
    ||| lists(a, b.key)
    ||| lists(b, a.key)
    ||| exists|key: PropertyKey| #[trigger] lists(a, key) && lists(b, key)
}

/// Whether the two ids have the same name and vendor prefix.
pub fn same_property_id(a: &PropertyId, b: &PropertyId) -> (same: bool)
    ensures
        same == (a@.key == b@.key),
{
    a.name == b.name && a.prefix == b.prefix
}

/// Whether `property_id` is a shorthand that lists `longhand`.
pub fn longhands_include(property_id: &PropertyId, longhand: &PropertyId) -> (listed: bool)
    ensures
        listed == lists(property_id@, longhand@.key),
{
    match &property_id.longhands {
        Some(ids) => {
            let ghost keys = property_id@.longhands->Some_0;
            let mut i: usize = 0;
            while i < ids.len()
                invariant
                    i <= ids.len(),
                    keys.len() == ids.len(),
                    forall|j: int| 0 <= j < ids.len() ==> #[trigger] keys[j] == ids@[j].key(),
                    forall|j: int| 0 <= j < i ==> #[trigger] keys[j] != longhand@.key,
                    property_id@.longhands == Some(keys),
                decreases ids.len() - i,
            {
                if same_property_id(&ids[i], longhand) {
                    assert(keys[i as int] == longhand@.key);
                    return true;
                }
                i = i + 1;
            }
            false
        },
        None => false,
    }
}

/// Whether the two properties conflict: see [`conflict`].
pub fn properties_conflict(a: &PropertyId, b: &PropertyId) -> (conflicting: bool)
    ensures
        conflicting == conflict(a@, b@),
{
    let all = "all".to_owned();
    if same_property_id(a, b) || a.name == all || b.name == all {
        return true;
    }
    if longhands_include(a, b) || longhands_include(b, a) {
        return true;
    }
    match &a.longhands {
        Some(ids) => {
            let ghost keys = a@.longhands->Some_0;
            let mut i: usize = 0;
            while i < ids.len()
                invariant
                    i <= ids.len(),
                    keys.len() == ids.len(),
                    forall|j: int| 0 <= j < ids.len() ==> #[trigger] keys[j] == ids@[j].key(),
                    forall|j: int| 0 <= j < i ==> !lists(b@, #[trigger] keys[j]),
                    a@.longhands == Some(keys),
                decreases ids.len() - i,
            {
                if longhands_include(b, &ids[i]) {
                    assert(keys[i as int] == ids@[i as int]@.key);
                    assert(lists(a@, keys[i as int]));
                    return true;
                }
                i = i + 1;
            }
            false
        },
        None => false,
    }
}

/// A declaration: the property and the text of its value.
#[derive(Debug, PartialEq, Eq)]
pub struct Property {
    pub id: PropertyId,
    pub value: String,
}

/// The model of a [`Property`].
#[verifier::ext_equal]
pub struct PropertyView {
    pub id: PropertyIdView,
    pub value: Seq<char>,
}

impl View for Property {
    type V = PropertyView;

    open spec fn view(&self) -> PropertyView {
        PropertyView { id: self.id@, value: self.value@ }
    }
}

impl Clone for Property {
    fn clone(&self) -> (copy: Self)
        ensures
            copy@ == self@,
    {
        Property { id: self.id.clone(), value: self.value.clone() }
    }
}

/// The models of a run of declarations.
pub open spec fn properties_view(properties: Seq<Property>) -> Seq<PropertyView> {
    Seq::new(properties.len(), |i: int| properties[i]@)
}

/// The declarations of a rule. Those that are `!important` stand apart, in
/// their own order.
#[derive(Debug, PartialEq, Eq)]
pub struct DeclarationBlock {
    pub important_declarations: Vec<Property>,
    pub declarations: Vec<Property>,
}

/// The model of a [`DeclarationBlock`].
#[verifier::ext_equal]
pub struct BlockView {
    pub important: Seq<PropertyView>,
    pub normal: Seq<PropertyView>,
}

impl BlockView {
    /// The block without declarations.
    pub open spec fn empty() -> BlockView {
        BlockView { important: seq![], normal: seq![] }
    }

    /// Whether the block holds no declaration.
    pub open spec fn is_empty(self) -> bool {
        self.important.len() == 0 && self.normal.len() == 0
    }

    /// This block's declarations, then the other's.
    pub open spec fn then_block(self, other: BlockView) -> BlockView {
        BlockView {
            important: self.important + other.important,
            normal: self.normal + other.normal,
        }
    }
}

impl View for DeclarationBlock {
    type V = BlockView;

    open spec fn view(&self) -> BlockView {
        BlockView {
            important: properties_view(self.important_declarations@),
            normal: properties_view(self.declarations@),
        }
    }
}

impl DeclarationBlock {
    /// A block without declarations.
    pub fn new() -> (block: Self)
        ensures
            block@ == BlockView::empty(),
    {
        let block = DeclarationBlock {
            important_declarations: Vec::new(),
            declarations: Vec::new(),
        };
        assert(block@ =~= BlockView::empty());
        block
    }

    /// Whether the block holds no declaration.
    pub fn is_empty(&self) -> (empty: bool)
        ensures
            empty == self@.is_empty(),
    {
        self.declarations.is_empty() && self.important_declarations.is_empty()
    }
}

/// Appends the declarations of `from` to those of `to`.
pub fn append_declarations(to: &mut DeclarationBlock, from: DeclarationBlock)
    ensures
        final(to)@ == old(to)@.then_block(from@),
{
    let ghost given = from@;
    let mut from = from;
    to.declarations.append(&mut from.declarations);
    to.important_declarations.append(&mut from.important_declarations);
    assert(to@ =~= old(to)@.then_block(given));
}

} // verus!
