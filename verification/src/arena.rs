//! The tree of merged rules to the index: which nodes and declarations its two
//! arenas hold, and where.
use crate::context::may_reuse;
use crate::context::MinifyContext;
use crate::context::MinifyError;
use crate::declaration::BlockView;
use crate::declaration::PropertyView;
use crate::model::at_rule_key;
use crate::model::insert_properties;
use crate::model::own_slot;
use crate::model::replaces;
use crate::model::DeclarationView;
use crate::model::KeyView;
use crate::rules::AtRuleView;
use crate::rules::RuleView;
use crate::values::Location;
use vstd::prelude::*;

verus! {

/// An item of a node: the indexes of the declarations in a run, the index of a
/// node, or a rule that nothing is merged across.
#[verifier::ext_equal]
pub enum SlotView<T> {
    Declarations(Seq<int>),
    Child(int),
    Barrier(T),
}

/// A node in the arena.
#[verifier::ext_equal]
pub struct NodeView<T> {
    pub key: Option<KeyView>,
    pub media_query: Option<Seq<char>>,
    pub loc: Location,
    /// The nodes among the items, each with its key, in order.
    pub children: Seq<(KeyView, int)>,
    pub items: Seq<SlotView<T>>,
}

/// The two arenas, and whether declarations may take the place of others.
#[verifier::ext_equal]
pub struct TrieView<T> {
    pub nodes: Seq<NodeView<T>>,
    pub declarations: Seq<DeclarationView>,
    pub dedupe: bool,
}

/// The indexes of a run with one more declaration, which takes the place of
/// another where the declaration does.
pub open spec fn insert_id(
    ids: Seq<int>,
    run: Seq<DeclarationView>,
    declaration: DeclarationView,
    dedupe: bool,
    id: int,
) -> Seq<int> {
    if replaces(run, declaration, dedupe) {
        ids.update(own_slot(run, declaration), id)
    } else {
        ids.push(id)
    }
}

/// The indexes of a run with the first `count` of the properties, which have the
/// indexes from `first` on.
pub open spec fn insert_property_ids(
    ids: Seq<int>,
    run: Seq<DeclarationView>,
    properties: Seq<PropertyView>,
    important: bool,
    dedupe: bool,
    first: int,
    count: nat,
) -> Seq<int>
    decreases count,
{
    if count == 0 {
        ids
    } else {
        insert_id(
            insert_property_ids(ids, run, properties, important, dedupe, first, (count - 1) as nat),
            insert_properties(run, properties, important, dedupe, (count - 1) as nat),
            DeclarationView { property: properties[count - 1], important },
            dedupe,
            first + count - 1,
        )
    }
}

/// The indexes of a run with the declarations of a block, which have the indexes
/// from `first` on: first the normal ones, then those that are `!important`.
pub open spec fn insert_block_ids(
    ids: Seq<int>,
    run: Seq<DeclarationView>,
    block: BlockView,
    dedupe: bool,
    first: int,
) -> Seq<int> {
    let count = block.normal.len();
    insert_property_ids(
        insert_property_ids(ids, run, block.normal, false, dedupe, first, count),
        insert_properties(run, block.normal, false, dedupe, count),
        block.important,
        true,
        dedupe,
        first + count,
        block.important.len(),
    )
}

/// The properties as declarations of this importance.
pub open spec fn with_importance(properties: Seq<PropertyView>, important: bool) -> Seq<
    DeclarationView,
> {
    Seq::new(properties.len(), |i: int| DeclarationView { property: properties[i], important })
}

/// The declarations of a block: first the normal ones, then those that are
/// `!important`.
pub open spec fn block_declarations(block: BlockView) -> Seq<DeclarationView> {
    with_importance(block.normal, false) + with_importance(block.important, true)
}

impl<T> NodeView<T> {
    /// A node without items.
    pub open spec fn leaf(key: KeyView, loc: Location) -> NodeView<T> {
        NodeView { key: Some(key), media_query: None, loc, children: seq![], items: seq![] }
    }

    /// Whether the node itself holds a declaration.
    pub open spec fn has_declarations(self) -> bool {
        exists|i: int|
            0 <= i < self.items.len() && ((#[trigger] self.items[i]) matches SlotView::Declarations(
                ids,
            ) && ids.len() > 0)
    }

    /// Whether the last item is a run of declarations.
    pub open spec fn ends_with_run(self) -> bool {
        self.items.len() > 0 && self.items.last() is Declarations
    }
}

impl<T> TrieView<T> {
    /// Nothing but a root.
    pub open spec fn root(dedupe: bool) -> TrieView<T> {
        TrieView {
            nodes: seq![
                NodeView {
                    key: None,
                    media_query: None,
                    loc: Location { source_index: 0, line: 0, column: 0 },
                    children: seq![],
                    items: seq![],
                },
            ],
            declarations: seq![],
            dedupe,
        }
    }

    /// The declarations with these indexes.
    pub open spec fn run(self, ids: Seq<int>) -> Seq<DeclarationView> {
        Seq::new(ids.len(), |i: int| self.declarations[ids[i]])
    }

    /// The arenas with other items in one node.
    pub open spec fn with_items(self, node: int, items: Seq<SlotView<T>>) -> TrieView<T> {
        TrieView {
            nodes: self.nodes.update(node, NodeView { items, ..self.nodes[node] }),
            ..self
        }
    }

    /// Whether the last item of the node is a node with this key.
    pub open spec fn ends_with(self, node: int, key: KeyView) -> bool {
        let items = self.nodes[node].items;
        items.len() > 0 && (items.last() matches SlotView::Child(child) && self.nodes[child].key
            == Some(key))
    }

    /// Whether a style rule with this key and block goes into the last item of
    /// the node.
    pub open spec fn reuses_style(
        self,
        node: int,
        key: KeyView,
        block: BlockView,
        context: MinifyContext,
    ) -> bool {
        &&& self.ends_with(node, key)
        &&& block.is_empty() || may_reuse(context) || !self.nodes[self.child(
            node,
            true,
        )].has_declarations()
    }

    /// The index of the node that a rule below `node` goes into: the last item
    /// where it is reused, else the next free index.
    pub open spec fn child(self, node: int, reuse: bool) -> int {
        if reuse {
            self.nodes[node].items.last()->Child_0
        } else {
            self.nodes.len() as int
        }
    }

    /// The arenas with that node: nothing changes where it is reused, else it is
    /// added, and becomes the last item and the last child of `node`.
    pub open spec fn with_child(
        self,
        node: int,
        reuse: bool,
        key: KeyView,
        loc: Location,
    ) -> TrieView<T> {
        if reuse {
            self
        } else {
            let added = self.nodes.len() as int;
            let parent = NodeView {
                children: self.nodes[node].children.push((key, added)),
                items: self.nodes[node].items.push(SlotView::Child(added)),
                ..self.nodes[node]
            };
            TrieView {
                nodes: self.nodes.push(NodeView::leaf(key, loc)).update(node, parent),
                ..self
            }
        }
    }

    /// The arenas with the query that a node is printed with, which the first
    /// `@media` rule gives.
    pub open spec fn with_query(self, node: int, prelude: AtRuleView) -> TrieView<T> {
        match prelude {
            AtRuleView::Media(query) if self.nodes[node].media_query is None => TrieView {
                nodes: self.nodes.update(
                    node,
                    NodeView { media_query: Some(query), ..self.nodes[node] },
                ),
                ..self
            },
            _ => self,
        }
    }

    /// The arenas with the block's declarations, whose indexes go into the last
    /// item of the node where that is a run, else into a new one.
    pub open spec fn with_block(self, node: int, block: BlockView) -> TrieView<T> {
        let items = self.nodes[node].items;
        let first = self.declarations.len() as int;
        if block.is_empty() {
            self
        } else {
            let grown = TrieView {
                declarations: self.declarations + block_declarations(block),
                ..self
            };
            if self.nodes[node].ends_with_run() {
                let ids = items.last()->Declarations_0;
                grown.with_items(
                    node,
                    items.drop_last().push(
                        SlotView::Declarations(
                            insert_block_ids(ids, self.run(ids), block, self.dedupe, first),
                        ),
                    ),
                )
            } else {
                grown.with_items(
                    node,
                    items.push(
                        SlotView::Declarations(
                            insert_block_ids(seq![], seq![], block, self.dedupe, first),
                        ),
                    ),
                )
            }
        }
    }

    /// The arenas with one more rule below the node, up to the first media query
    /// that cannot be normalized, and that query's error.
    pub open spec fn insert_rule(
        self,
        node: int,
        rule: RuleView<T>,
        context: MinifyContext,
    ) -> (TrieView<T>, Result<(), MinifyError>)
        decreases rule, 0nat,
    {
        match rule {
            RuleView::AtRule { prelude, rules, loc } => match at_rule_key(prelude, loc, context) {
                Ok(key) => {
                    let reuse = self.ends_with(node, key);
                    let child = self.child(node, reuse);
                    self.with_child(node, reuse, key, loc).with_query(child, prelude).insert_rules(
                        child,
                        rules,
                        rules.len(),
                        context,
                    )
                },
                Err(error) => (self, Err(error)),
            },
            RuleView::Style { selectors, vendor_prefix, block, rules, loc } => {
                let key = KeyView::Selector {
                    selectors,
                    vendor_prefix,
                    source_index: loc.source_index,
                };
                let reuse = self.reuses_style(node, key, block, context);
                let child = self.child(node, reuse);
                self.with_child(node, reuse, key, loc).with_block(child, block).insert_rules(
                    child,
                    rules,
                    rules.len(),
                    context,
                )
            },
            RuleView::NestedDeclarations { block, loc: _ } => (
                self.with_block(node, block),
                Ok(()),
            ),
            RuleView::Other(payload) => (
                self.with_items(node, self.nodes[node].items.push(SlotView::Barrier(payload))),
                Ok(()),
            ),
        }
    }

    /// The arenas with the first `count` of the rules below the node, up to the
    /// first error, and that error.
    pub open spec fn insert_rules(
        self,
        node: int,
        rules: Seq<RuleView<T>>,
        count: nat,
        context: MinifyContext,
    ) -> (TrieView<T>, Result<(), MinifyError>)
        decreases rules, count,
    {
        if count == 0 || count > rules.len() {
            (self, Ok(()))
        } else {
            let before = self.insert_rules(node, rules, (count - 1) as nat, context);
            if before.1 is Ok {
                before.0.insert_rule(node, rules[count - 1], context)
            } else {
                before
            }
        }
    }
}

/// Once a rule could not be added, nothing more is.
pub proof fn lemma_nothing_behind_an_error<T>(
    trie: TrieView<T>,
    node: int,
    rules: Seq<RuleView<T>>,
    count: nat,
    total: nat,
    context: MinifyContext,
)
    requires
        count <= total <= rules.len(),
        trie.insert_rules(node, rules, count, context).1 is Err,
    ensures
        trie.insert_rules(node, rules, total, context) == trie.insert_rules(
            node,
            rules,
            count,
            context,
        ),
    decreases total,
{
    if count < total {
        lemma_nothing_behind_an_error(trie, node, rules, count, (total - 1) as nat, context);
    }
}

} // verus!
