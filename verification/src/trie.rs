//! The tree of merged rules, held in an arena of nodes.
use crate::arena::block_declarations;
use crate::arena::insert_block_ids;
use crate::arena::insert_property_ids;
use crate::arena::lemma_nothing_behind_an_error;
use crate::arena::with_importance;
use crate::arena::NodeView;
use crate::arena::SlotView;
use crate::arena::TrieView;
use crate::context::can_reuse_style_declarations;
use crate::context::normalize_media_key;
use crate::context::MinifyContext;
use crate::context::MinifyError;
use crate::declaration::append_declarations;
use crate::declaration::DeclarationBlock;
use crate::declaration_set::DeclId;
use crate::declaration_set::DeclarationEntry;
use crate::declaration_set::DeclarationSet;
use crate::model::at_rule_key;
use crate::model::earlier_run;
use crate::model::entangled;
use crate::model::independent;
use crate::model::insert_block;
use crate::model::insert_properties;
use crate::model::insert_run;
use crate::model::join_run;
use crate::model::leading;
use crate::model::leading_block;
use crate::model::lemma_earlier_run;
use crate::model::lemma_leading_push;
use crate::model::lemma_print_items;
use crate::model::of_importance;
use crate::model::print_style;
use crate::model::run_block;
use crate::model::ItemView;
use crate::model::KeyView;
use crate::model::TreeView;
use crate::names::properties_related;
use crate::rules::lemma_list_view;
use crate::rules::rule_views;
use crate::rules::AtRuleView;
use crate::rules::ContainerRule;
use crate::rules::CssRule;
use crate::rules::CssRuleList;
use crate::rules::MediaRule;
use crate::rules::MozDocumentRule;
use crate::rules::NestedDeclarationsRule;
use crate::rules::RuleView;
use crate::rules::ScopeRule;
use crate::rules::StartingStyleRule;
use crate::rules::StyleRule;
use crate::rules::SupportsRule;
use crate::values::option_view;
use crate::values::ContainerCondition;
use crate::values::ContainerName;
use crate::values::Location;
use crate::values::MediaList;
use crate::values::SelectorList;
use crate::values::SupportsCondition;
use crate::values::VendorPrefix;
use vstd::prelude::*;

verus! {

/// An index into the arena of nodes.
pub type NodeId = usize;

/// The selectors of a style rule, with what else tells it from others.
pub struct SelectorKey {
    pub selectors: SelectorList,
    pub vendor_prefix: VendorPrefix,
    pub source_index: u32,
}

/// What a node stands for.
pub enum RuleKey {
    Media(MediaList),
    Supports(SupportsCondition),
    Container { name: Option<ContainerName>, condition: Option<ContainerCondition> },
    Scope { scope_start: Option<SelectorList>, scope_end: Option<SelectorList> },
    StartingStyle,
    MozDocument,
    Selector(SelectorKey),
}

impl View for RuleKey {
    type V = KeyView;

    open spec fn view(&self) -> KeyView {
        match self {
            RuleKey::Media(query) => KeyView::AtRule(AtRuleView::Media(query@)),
            RuleKey::Supports(condition) => KeyView::AtRule(AtRuleView::Supports(condition@)),
            RuleKey::Container { name, condition } => KeyView::AtRule(
                AtRuleView::Container {
                    name: option_view(*name),
                    condition: option_view(*condition),
                },
            ),
            RuleKey::Scope { scope_start, scope_end } => KeyView::AtRule(
                AtRuleView::Scope {
                    start: option_view(*scope_start),
                    end: option_view(*scope_end),
                },
            ),
            RuleKey::StartingStyle => KeyView::AtRule(AtRuleView::StartingStyle),
            RuleKey::MozDocument => KeyView::AtRule(AtRuleView::MozDocument),
            RuleKey::Selector(key) => KeyView::Selector {
                selectors: key.selectors@,
                vendor_prefix: key.vendor_prefix,
                source_index: key.source_index,
            },
        }
    }
}

impl Clone for RuleKey {
    fn clone(&self) -> (copy: Self)
        ensures
            copy@ == self@,
    {
        match self {
            RuleKey::Media(query) => RuleKey::Media(query.clone()),
            RuleKey::Supports(condition) => RuleKey::Supports(condition.clone()),
            RuleKey::Container { name, condition } => RuleKey::Container {
                name: name.clone(),
                condition: condition.clone(),
            },
            RuleKey::Scope { scope_start, scope_end } => RuleKey::Scope {
                scope_start: scope_start.clone(),
                scope_end: scope_end.clone(),
            },
            RuleKey::StartingStyle => RuleKey::StartingStyle,
            RuleKey::MozDocument => RuleKey::MozDocument,
            RuleKey::Selector(key) => RuleKey::Selector(
                SelectorKey {
                    selectors: key.selectors.clone(),
                    vendor_prefix: key.vendor_prefix,
                    source_index: key.source_index,
                },
            ),
        }
    }
}

impl PartialEq for RuleKey {
    fn eq(&self, other: &Self) -> (same: bool) {
        match (self, other) {
            (RuleKey::Media(a), RuleKey::Media(b)) => a == b,
            (RuleKey::Supports(a), RuleKey::Supports(b)) => a == b,
            (
                RuleKey::Container { name: a, condition: c },
                RuleKey::Container { name: b, condition: d },
            ) => a == b && c == d,
            (
                RuleKey::Scope { scope_start: a, scope_end: c },
                RuleKey::Scope { scope_start: b, scope_end: d },
            ) => a == b && c == d,
            (RuleKey::StartingStyle, RuleKey::StartingStyle) => true,
            (RuleKey::MozDocument, RuleKey::MozDocument) => true,
            (RuleKey::Selector(a), RuleKey::Selector(b)) => {
                a.selectors == b.selectors && a.vendor_prefix == b.vendor_prefix && a.source_index
                    == b.source_index
            },
            _ => false,
        }
    }
}

impl vstd::std_specs::cmp::PartialEqSpecImpl for RuleKey {
    open spec fn obeys_eq_spec() -> bool {
        true
    }

    open spec fn eq_spec(&self, other: &Self) -> bool {
        self@ == other@
    }
}

/// A node. Its items stand in source order; its children are the nodes among
/// them, each with its key.
pub struct TrieNode<T> {
    pub key: Option<RuleKey>,
    pub media_query: Option<MediaList>,
    pub loc: Location,
    pub children: Vec<(RuleKey, NodeId)>,
    pub items: Vec<NodeItem<T>>,
}

/// An item of a node.
pub enum NodeItem<T> {
    DeclarationSet(DeclarationSet),
    Child(NodeId),
    Barrier(T),
}

/// The tree of merged rules. The root is node 0.
pub struct RuleTrie<T> {
    pub nodes: Vec<TrieNode<T>>,
    pub declarations: Vec<DeclarationEntry>,
    pub dedupe_declarations: bool,
}

impl<T> View for NodeItem<T> {
    type V = SlotView<T>;

    open spec fn view(&self) -> SlotView<T> {
        match self {
            NodeItem::DeclarationSet(set) => SlotView::Declarations(set.ids()),
            NodeItem::Child(child) => SlotView::Child(*child as int),
            NodeItem::Barrier(payload) => SlotView::Barrier(*payload),
        }
    }
}

impl<T> View for TrieNode<T> {
    type V = NodeView<T>;

    open spec fn view(&self) -> NodeView<T> {
        NodeView {
            key: option_view(self.key),
            media_query: option_view(self.media_query),
            loc: self.loc,
            children: Seq::new(
                self.children@.len(),
                |i: int| (self.children@[i].0@, self.children@[i].1 as int),
            ),
            items: Seq::new(self.items@.len(), |i: int| self.items@[i]@),
        }
    }
}

impl<T> View for RuleTrie<T> {
    type V = TrieView<T>;

    open spec fn view(&self) -> TrieView<T> {
        TrieView {
            nodes: Seq::new(self.nodes@.len(), |i: int| self.nodes@[i]@),
            declarations: Seq::new(self.declarations@.len(), |i: int| self.declarations@[i]@),
            dedupe: self.dedupe_declarations,
        }
    }
}

/// The first child among the items from `start` on, or `end`.
pub open spec fn next_child<T>(items: Seq<NodeItem<T>>, start: int, end: int) -> int
    decreases items.len() - start,
{
    if start < 0 || start >= items.len() {
        end
    } else {
        match items[start] {
            NodeItem::Child(child) => child as int,
            _ => next_child(items, start + 1, end),
        }
    }
}

/// Whether the nodes from `id` up to `end` are a tree with its root at `id`:
/// the subtrees of the root's children, which have keys, follow each other in
/// the arena.
pub open spec fn node_wf<T>(
    nodes: Seq<TrieNode<T>>,
    arena: Seq<DeclarationEntry>,
    id: int,
    end: int,
) -> bool
    decreases end - id,
{
    &&& 0 <= id < end <= nodes.len()
    &&& forall|i: int|
        0 <= i < nodes[id].items@.len() ==> match #[trigger] nodes[id].items@[i] {
            NodeItem::DeclarationSet(set) => set.wf(arena),
            NodeItem::Child(child) => {
                let stop = next_child(nodes[id].items@, i + 1, end);
                if id < child < stop <= end {
                    nodes[child as int].key is Some && node_wf(nodes, arena, child as int, stop)
                } else {
                    false
                }
            },
            NodeItem::Barrier(_) => true,
        }
}

/// The tree with its root at `id`.
pub open spec fn tree<T>(
    nodes: Seq<TrieNode<T>>,
    arena: Seq<DeclarationEntry>,
    id: int,
) -> TreeView<T>
    decreases nodes.len() - id,
{
    TreeView {
        key: option_view(nodes[id].key),
        media_query: option_view(nodes[id].media_query),
        loc: nodes[id].loc,
        items: Seq::new(
            nodes[id].items@.len(),
            |i: int|
                match nodes[id].items@[i] {
                    NodeItem::DeclarationSet(set) => ItemView::Declarations(set.run(arena)),
                    NodeItem::Child(child) => if id < child < nodes.len() {
                        ItemView::Child(tree(nodes, arena, child as int))
                    } else {
                        arbitrary()
                    },
                    NodeItem::Barrier(payload) => ItemView::Barrier(payload),
                },
        ),
    }
}

/// Whether the arena still holds what it held, in the same places.
pub open spec fn extends(before: Seq<DeclarationEntry>, after: Seq<DeclarationEntry>) -> bool {
    &&& before.len() <= after.len()
    &&& forall|i: int| 0 <= i < before.len() ==> #[trigger] after[i] == before[i]
}

/// A run means the same in a larger arena.
proof fn lemma_set_extends(
    set: DeclarationSet,
    before: Seq<DeclarationEntry>,
    after: Seq<DeclarationEntry>,
)
    requires
        set.wf(before),
        extends(before, after),
    ensures
        set.wf(after),
        set.run(after) == set.run(before),
{
    assert(set.run(after) =~= set.run(before));
}

/// A tree depends on nothing but its own nodes and the declarations in it.
proof fn lemma_frame<T>(
    nodes: Seq<TrieNode<T>>,
    arena: Seq<DeclarationEntry>,
    new_nodes: Seq<TrieNode<T>>,
    new_arena: Seq<DeclarationEntry>,
    id: int,
    end: int,
)
    requires
        node_wf(nodes, arena, id, end),
        end <= new_nodes.len(),
        forall|i: int| id <= i < end ==> #[trigger] new_nodes[i] == nodes[i],
        extends(arena, new_arena),
    ensures
        node_wf(new_nodes, new_arena, id, end),
        tree(new_nodes, new_arena, id) == tree(nodes, arena, id),
    decreases end - id,
{
    let items = nodes[id].items@;
    assert(new_nodes[id] == nodes[id]);
    assert forall|i: int| 0 <= i < items.len() implies match #[trigger] items[i] {
        NodeItem::DeclarationSet(set) => set.wf(new_arena) && set.run(new_arena) == set.run(arena),
        NodeItem::Child(child) => {
            let stop = next_child(items, i + 1, end);
            &&& id < child < stop <= end
            &&& node_wf(new_nodes, new_arena, child as int, stop)
            &&& tree(new_nodes, new_arena, child as int) == tree(nodes, arena, child as int)
        },
        NodeItem::Barrier(_) => true,
    } by {
        match items[i] {
            NodeItem::DeclarationSet(set) => {
                lemma_set_extends(set, arena, new_arena);
            },
            NodeItem::Child(child) => {
                let stop = next_child(items, i + 1, end);
                lemma_frame(nodes, arena, new_nodes, new_arena, child as int, stop);
            },
            NodeItem::Barrier(_) => {},
        }
    }
    assert(tree(new_nodes, new_arena, id).items =~= tree(nodes, arena, id).items);
}

/// The next child is the same whatever the end, where there is one.
proof fn lemma_next_child<T>(
    items: Seq<NodeItem<T>>,
    start: int,
    at: int,
    end: int,
    other_end: int,
)
    requires
        0 <= start <= at < items.len(),
        items[at] is Child,
    ensures
        next_child(items, start, end) == next_child(items, start, other_end),
    decreases items.len() - start,
{
    if items[start] !is Child {
        lemma_next_child(items, start + 1, at, end, other_end);
    }
}

/// The next child of a longer list: that of the list, and behind it the next
/// child of what was added.
proof fn lemma_next_child_push<T>(
    items: Seq<NodeItem<T>>,
    item: NodeItem<T>,
    start: int,
    end: int,
)
    requires
        0 <= start <= items.len(),
    ensures
        next_child(items.push(item), start, end) == next_child(
            items,
            start,
            match item {
                NodeItem::Child(child) => child as int,
                _ => end,
            },
        ),
    decreases items.len() - start,
{
    let longer = items.push(item);
    if start < items.len() {
        assert(longer[start] == items[start]);
        if items[start] !is Child {
            lemma_next_child_push(items, item, start + 1, end);
        }
    } else {
        assert(longer[start] == item);
        assert(next_child(longer, start + 1, end) == end);
    }
}

/// The next child comes behind the node.
proof fn lemma_next_child_above<T>(
    nodes: Seq<TrieNode<T>>,
    arena: Seq<DeclarationEntry>,
    id: int,
    end: int,
    start: int,
)
    requires
        node_wf(nodes, arena, id, end),
        0 <= start,
    ensures
        id < next_child(nodes[id].items@, start, end) <= end,
    decreases nodes[id].items@.len() - start,
{
    let items = nodes[id].items@;
    if start < items.len() && items[start] !is Child {
        lemma_next_child_above(nodes, arena, id, end, start + 1);
    }
}

/// With a new tree in the place of the last child, at the end of the arena, the
/// whole is a tree again.
proof fn lemma_reattach<T>(
    nodes: Seq<TrieNode<T>>,
    arena: Seq<DeclarationEntry>,
    new_nodes: Seq<TrieNode<T>>,
    new_arena: Seq<DeclarationEntry>,
    id: int,
    child: int,
)
    requires
        node_wf(nodes, arena, id, nodes.len() as int),
        nodes[id].items@.len() > 0,
        nodes[id].items@.last() matches NodeItem::Child(last) && last == child,
        child < new_nodes.len(),
        forall|i: int| 0 <= i < child ==> #[trigger] new_nodes[i] == nodes[i],
        extends(arena, new_arena),
        node_wf(new_nodes, new_arena, child, new_nodes.len() as int),
        new_nodes[child].key is Some,
    ensures
        node_wf(new_nodes, new_arena, id, new_nodes.len() as int),
        tree(new_nodes, new_arena, id) == (TreeView {
            items: tree(nodes, arena, id).items.update(
                nodes[id].items@.len() - 1,
                ItemView::Child(tree(new_nodes, new_arena, child)),
            ),
            ..tree(nodes, arena, id)
        }),
{
    let items = nodes[id].items@;
    let last = items.len() - 1;
    let end = nodes.len() as int;
    let new_end = new_nodes.len() as int;
    assert(items[last] is Child);
    assert(id < child);
    assert(new_nodes[id] == nodes[id]);
    assert forall|i: int| 0 <= i < items.len() implies match #[trigger] items[i] {
        NodeItem::DeclarationSet(set) => set.wf(new_arena) && set.run(new_arena) == set.run(arena),
        NodeItem::Child(inner) => {
            let stop = next_child(items, i + 1, new_end);
            &&& id < inner < stop <= new_end
            &&& node_wf(new_nodes, new_arena, inner as int, stop)
            &&& i < last ==> tree(new_nodes, new_arena, inner as int) == tree(
                nodes,
                arena,
                inner as int,
            )
        },
        NodeItem::Barrier(_) => true,
    } by {
        match items[i] {
            NodeItem::DeclarationSet(set) => {
                lemma_set_extends(set, arena, new_arena);
            },
            NodeItem::Child(inner) => {
                if i < last {
                    let stop = next_child(items, i + 1, end);
                    lemma_next_child(items, i + 1, last, end, new_end);
                    lemma_next_child_bound(nodes, arena, id, end, i + 1, last);
                    lemma_frame(nodes, arena, new_nodes, new_arena, inner as int, stop);
                }
            },
            NodeItem::Barrier(_) => {},
        }
    }
    assert(tree(new_nodes, new_arena, id).items =~= tree(nodes, arena, id).items.update(
        last,
        ItemView::Child(tree(new_nodes, new_arena, child)),
    ));
}

/// The next child is no later than any child behind it.
proof fn lemma_next_child_bound<T>(
    nodes: Seq<TrieNode<T>>,
    arena: Seq<DeclarationEntry>,
    id: int,
    end: int,
    start: int,
    at: int,
)
    requires
        node_wf(nodes, arena, id, end),
        0 <= start <= at < nodes[id].items@.len(),
        nodes[id].items@[at] is Child,
    ensures
        next_child(nodes[id].items@, start, end) <= nodes[id].items@[at]->Child_0,
    decreases at - start,
{
    let items = nodes[id].items@;
    match items[start] {
        NodeItem::Child(child) => {
            if start < at {
                lemma_next_child_bound(nodes, arena, id, end, start + 1, at);
            }
        },
        _ => {
            lemma_next_child_bound(nodes, arena, id, end, start + 1, at);
        },
    }
}

/// With one more item that is no child behind the first `count` items, and
/// nothing but a run of declarations left out, the whole is a tree again.
proof fn lemma_push_item<T>(
    nodes: Seq<TrieNode<T>>,
    arena: Seq<DeclarationEntry>,
    new_nodes: Seq<TrieNode<T>>,
    new_arena: Seq<DeclarationEntry>,
    id: int,
    count: int,
    item: NodeItem<T>,
)
    requires
        node_wf(nodes, arena, id, nodes.len() as int),
        extends(arena, new_arena),
        count == nodes[id].items@.len() || (count == nodes[id].items@.len() - 1
            && nodes[id].items@.last() is DeclarationSet),
        0 <= count,
        match item {
            NodeItem::DeclarationSet(set) => set.wf(new_arena),
            NodeItem::Child(_) => false,
            NodeItem::Barrier(_) => true,
        },
        new_nodes.len() == nodes.len(),
        forall|i: int| 0 <= i < nodes.len() && i != id ==> #[trigger] new_nodes[i] == nodes[i],
        new_nodes[id].key == nodes[id].key,
        new_nodes[id].media_query == nodes[id].media_query,
        new_nodes[id].loc == nodes[id].loc,
        new_nodes[id].items@ == nodes[id].items@.take(count).push(item),
    ensures
        node_wf(new_nodes, new_arena, id, new_nodes.len() as int),
        tree(new_nodes, new_arena, id) == (TreeView {
            items: tree(nodes, arena, id).items.take(count).push(
                match item {
                    NodeItem::DeclarationSet(set) => ItemView::Declarations(set.run(new_arena)),
                    NodeItem::Child(_) => arbitrary(),
                    NodeItem::Barrier(payload) => ItemView::Barrier(payload),
                },
            ),
            ..tree(nodes, arena, id)
        }),
{
    let items = nodes[id].items@;
    let kept = items.take(count);
    let new_items = kept.push(item);
    let end = nodes.len() as int;
    assert forall|i: int| 0 <= i < count implies match #[trigger] new_items[i] {
        NodeItem::DeclarationSet(set) => set.wf(new_arena) && set.run(new_arena) == set.run(arena),
        NodeItem::Child(inner) => {
            let stop = next_child(new_items, i + 1, end);
            &&& id < inner < stop <= end
            &&& node_wf(new_nodes, new_arena, inner as int, stop)
            &&& tree(new_nodes, new_arena, inner as int) == tree(nodes, arena, inner as int)
        },
        NodeItem::Barrier(_) => true,
    } by {
        assert(new_items[i] == items[i]);
        match items[i] {
            NodeItem::DeclarationSet(set) => {
                lemma_set_extends(set, arena, new_arena);
            },
            NodeItem::Child(inner) => {
                let stop = next_child(items, i + 1, end);
                lemma_next_child_push(kept, item, i + 1, end);
                if count == items.len() {
                    assert(kept =~= items);
                } else {
                    lemma_next_child_push(kept, items.last(), i + 1, end);
                    assert(kept.push(items.last()) =~= items);
                }
                lemma_frame(nodes, arena, new_nodes, new_arena, inner as int, stop);
            },
            NodeItem::Barrier(_) => {},
        }
    }
    assert(tree(new_nodes, new_arena, id).items =~= tree(nodes, arena, id).items.take(count).push(
        match item {
            NodeItem::DeclarationSet(set) => ItemView::Declarations(set.run(new_arena)),
            NodeItem::Child(_) => arbitrary(),
            NodeItem::Barrier(payload) => ItemView::Barrier(payload),
        },
    ));
}

/// With another key or query on the root, the whole is a tree still.
proof fn lemma_set_head<T>(
    nodes: Seq<TrieNode<T>>,
    arena: Seq<DeclarationEntry>,
    new_nodes: Seq<TrieNode<T>>,
    id: int,
    end: int,
)
    requires
        node_wf(nodes, arena, id, end),
        new_nodes.len() == nodes.len(),
        forall|i: int| id < i < end ==> #[trigger] new_nodes[i] == nodes[i],
        new_nodes[id].loc == nodes[id].loc,
        new_nodes[id].items == nodes[id].items,
    ensures
        node_wf(new_nodes, arena, id, end),
        tree(new_nodes, arena, id) == (TreeView {
            key: option_view(new_nodes[id].key),
            media_query: option_view(new_nodes[id].media_query),
            ..tree(nodes, arena, id)
        }),
{
    let items = nodes[id].items@;
    assert forall|i: int| 0 <= i < items.len() implies match #[trigger] items[i] {
        NodeItem::Child(inner) => {
            let stop = next_child(items, i + 1, end);
            &&& node_wf(new_nodes, arena, inner as int, stop)
            &&& tree(new_nodes, arena, inner as int) == tree(nodes, arena, inner as int)
        },
        _ => true,
    } by {
        match items[i] {
            NodeItem::Child(inner) => {
                let stop = next_child(items, i + 1, end);
                lemma_frame(nodes, arena, new_nodes, arena, inner as int, stop);
            },
            _ => {},
        }
    }
    assert(tree(new_nodes, arena, id).items =~= tree(nodes, arena, id).items);
}

/// Once the child that was opened below a node has been filled, the node is
/// what it was before, with the filled child.
proof fn lemma_attach<T>(
    before: TreeView<T>,
    opened: RuleTrie<T>,
    after: RuleTrie<T>,
    id: NodeId,
    child: NodeId,
    reuse: bool,
    target: TreeView<T>,
)
    requires
        reuse ==> before.items.len() > 0,
        opened.open_at(id),
        opened.tree_at(id) == before.with_child(reuse, target),
        opened.nodes@[id as int].items@.len() > 0,
        opened.nodes@[id as int].items@.last() == NodeItem::<T>::Child(child),
        after.open_at(child),
        after.nodes@[child as int].key is Some,
        forall|i: int| 0 <= i < child ==> #[trigger] after.nodes@[i] == opened.nodes@[i],
        extends(opened.declarations@, after.declarations@),
    ensures
        after.open_at(id),
        after.tree_at(id) == before.with_child(reuse, after.tree_at(child)),
{
    lemma_reattach(
        opened.nodes@,
        opened.declarations@,
        after.nodes@,
        after.declarations@,
        id as int,
        child as int,
    );
    assert(after.tree_at(id).items =~= before.with_child(reuse, after.tree_at(child)).items);
}

/// Another run in the place of a run does not change what the next child is.
proof fn lemma_next_child_update<T>(
    items: Seq<NodeItem<T>>,
    at: int,
    set: DeclarationSet,
    start: int,
    end: int,
)
    requires
        0 <= at < items.len(),
        items[at] is DeclarationSet,
        0 <= start,
    ensures
        next_child(items.update(at, NodeItem::DeclarationSet(set)), start, end) == next_child(
            items,
            start,
            end,
        ),
    decreases items.len() - start,
{
    if start < items.len() {
        lemma_next_child_update(items, at, set, start + 1, end);
    }
}

/// With another run in the place of a run, the whole is a tree still.
proof fn lemma_update_item<T>(
    nodes: Seq<TrieNode<T>>,
    arena: Seq<DeclarationEntry>,
    new_nodes: Seq<TrieNode<T>>,
    id: int,
    at: int,
    set: DeclarationSet,
)
    requires
        node_wf(nodes, arena, id, nodes.len() as int),
        0 <= at < nodes[id].items@.len(),
        nodes[id].items@[at] is DeclarationSet,
        set.wf(arena),
        new_nodes.len() == nodes.len(),
        forall|i: int| 0 <= i < nodes.len() && i != id ==> #[trigger] new_nodes[i] == nodes[i],
        new_nodes[id].key == nodes[id].key,
        new_nodes[id].media_query == nodes[id].media_query,
        new_nodes[id].loc == nodes[id].loc,
        new_nodes[id].items@ == nodes[id].items@.update(at, NodeItem::DeclarationSet(set)),
    ensures
        node_wf(new_nodes, arena, id, new_nodes.len() as int),
        tree(new_nodes, arena, id) == (TreeView {
            items: tree(nodes, arena, id).items.update(
                at,
                ItemView::Declarations(set.run(arena)),
            ),
            ..tree(nodes, arena, id)
        }),
{
    let items = nodes[id].items@;
    let changed = new_nodes[id].items@;
    let end = nodes.len() as int;
    assert forall|i: int| 0 <= i < changed.len() implies match #[trigger] changed[i] {
        NodeItem::DeclarationSet(set) => set.wf(arena),
        NodeItem::Child(child) => {
            let stop = next_child(changed, i + 1, end);
            &&& id < child < stop <= end
            &&& new_nodes[child as int].key is Some
            &&& node_wf(new_nodes, arena, child as int, stop)
            &&& tree(new_nodes, arena, child as int) == tree(nodes, arena, child as int)
        },
        NodeItem::Barrier(_) => true,
    } by {
        if i != at {
            assert(changed[i] == items[i]);
            if let NodeItem::Child(child) = items[i] {
                let stop = next_child(items, i + 1, end);
                lemma_next_child_update(items, at, set, i + 1, end);
                lemma_frame(nodes, arena, new_nodes, arena, child as int, stop);
            }
        }
    }
    assert(tree(new_nodes, arena, id).items =~= tree(nodes, arena, id).items.update(
        at,
        ItemView::Declarations(set.run(arena)),
    ));
}

/// The declarations of a run, by its indexes.
proof fn lemma_run_of<T>(trie: RuleTrie<T>, set: DeclarationSet)
    requires
        set.wf(trie.declarations@),
    ensures
        trie@.run(set.ids()) == set.run(trie.declarations@),
{
    assert(trie@.run(set.ids()) =~= set.run(trie.declarations@));
}

/// Once a rule could not be added, the error stays.
proof fn lemma_first_error<T>(
    node: TreeView<T>,
    rules: Seq<RuleView<T>>,
    count: nat,
    total: nat,
    dedupe: bool,
    context: MinifyContext,
)
    requires
        count <= total <= rules.len(),
        node.insert_rules(rules, count, dedupe, context).1 is Err,
    ensures
        node.insert_rules(rules, total, dedupe, context) == node.insert_rules(
            rules,
            count,
            dedupe,
            context,
        ),
    decreases total,
{
    if count < total {
        lemma_first_error(node, rules, count, (total - 1) as nat, dedupe, context);
    }
}

impl<T> RuleTrie<T> {
    /// The tree with its root at the node.
    pub open spec fn tree_at(&self, id: NodeId) -> TreeView<T> {
        tree(self.nodes@, self.declarations@, id as int)
    }

    /// Whether the nodes from `id` on are a tree, so that more can be added
    /// below `id` at the end of the arena.
    pub open spec fn open_at(&self, id: NodeId) -> bool {
        node_wf(self.nodes@, self.declarations@, id as int, self.nodes@.len() as int)
    }

    /// Whether `self` comes from `before` by adding below `id`: nothing changed
    /// in front of `id`, nor the key of `id`, and the nodes from `id` on are a
    /// tree.
    pub open spec fn grown_from(&self, before: &RuleTrie<T>, id: NodeId) -> bool {
        &&& self.open_at(id)
        &&& before.nodes@.len() <= self.nodes@.len()
        &&& self.nodes@[id as int].key == before.nodes@[id as int].key
        &&& forall|i: int| 0 <= i < id ==> #[trigger] self.nodes@[i] == before.nodes@[i]
        &&& extends(before.declarations@, self.declarations@)
        &&& self.dedupe_declarations == before.dedupe_declarations
    }

    /// Whether `self` comes from `before` by adding one node, behind the items of
    /// another: every other node and the declarations are the same.
    pub open spec fn adds_child(&self, before: &RuleTrie<T>, id: NodeId) -> bool {
        &&& self.nodes@.len() == before.nodes@.len() + 1
        &&& forall|i: int|
            0 <= i < before.nodes@.len() && i != id ==> #[trigger] self.nodes@[i]
                == before.nodes@[i]
        &&& self.nodes@[id as int].items@ == before.nodes@[id as int].items@.push(
            NodeItem::Child(before.nodes@.len() as usize),
        )
        &&& self.nodes@[id as int].children@.len() == before.nodes@[id as int].children@.len() + 1
        &&& self.nodes@[id as int].children@.drop_last() == before.nodes@[id as int].children@
        &&& self.nodes@[id as int].children@.last().1 == before.nodes@.len()
        &&& self.declarations@ == before.declarations@
        &&& self.dedupe_declarations == before.dedupe_declarations
    }

    /// Whether `self` has the nodes of `before`, all but `id` unchanged, and `id`
    /// with the same key, query and location.
    pub open spec fn only_changes(&self, before: &RuleTrie<T>, id: NodeId) -> bool {
        &&& self.nodes@.len() == before.nodes@.len()
        &&& forall|i: int|
            0 <= i < before.nodes@.len() && i != id ==> #[trigger] self.nodes@[i]
                == before.nodes@[i]
        &&& self.nodes@[id as int].key == before.nodes@[id as int].key
        &&& self.nodes@[id as int].media_query == before.nodes@[id as int].media_query
        &&& self.nodes@[id as int].loc == before.nodes@[id as int].loc
    }

    /// Whether, of the nodes in `before`, nothing changed but `id` and the tree of
    /// a child in its last place, and in `id` nothing but a run of declarations in
    /// its last place and what is behind that.
    pub open spec fn changes_end_of(&self, before: &RuleTrie<T>, id: NodeId) -> bool {
        let items = before.nodes@[id as int].items@;
        let last = if items.len() > 0 && items.last() is Child {
            items.last()->Child_0 as int
        } else {
            before.nodes@.len() as int
        };
        &&& before.nodes@.len() <= self.nodes@.len()
        &&& items.len() <= self.nodes@[id as int].items@.len() <= items.len() + 1
        &&& forall|i: int|
            0 <= i < last && i != id ==> #[trigger] self.nodes@[i] == before.nodes@[i]
        &&& forall|i: int|
            0 <= i < items.len() && (i < items.len() - 1 || items[i] !is DeclarationSet)
                ==> #[trigger] self.nodes@[id as int].items@[i] == items[i]
    }

    /// A tree without rules.
    pub fn new(dedupe_declarations: bool) -> (trie: Self)
        ensures
            trie.open_at(0),
            trie.tree_at(0) == TreeView::<T>::root(),
            trie.dedupe_declarations == dedupe_declarations,
            trie.nodes@.len() == 1,
            trie.declarations@.len() == 0,
            trie@ == TrieView::<T>::root(dedupe_declarations),
    {
        let mut nodes: Vec<TrieNode<T>> = Vec::new();
        nodes.push(
            TrieNode {
                key: None,
                media_query: None,
                loc: Location { source_index: 0, line: 0, column: 0 },
                children: Vec::new(),
                items: Vec::new(),
            },
        );
        let trie = RuleTrie { nodes, declarations: Vec::new(), dedupe_declarations };
        assert(trie.tree_at(0).items =~= seq![]);
        assert(trie@.nodes[0].items =~= seq![]);
        assert(trie@.nodes[0].children =~= seq![]);
        assert(trie@ =~= TrieView::<T>::root(dedupe_declarations));
        trie
    }

    /// Adds a node behind the items of another.
    pub fn insert_child(&mut self, node_id: NodeId, key: RuleKey, loc: Location) -> (child: NodeId)
        requires
            old(self).open_at(node_id),
        ensures
            final(self).grown_from(old(self), node_id),
            final(self).declarations@ == old(self).declarations@,
            child == old(self).nodes@.len(),
            final(self).open_at(child),
            final(self).tree_at(child) == TreeView::<T>::leaf(key@, loc),
            final(self).tree_at(node_id) == old(self).tree_at(node_id).with_child(
                false,
                TreeView::leaf(key@, loc),
            ),
            final(self).nodes@[node_id as int].items@.len() > 0,
            final(self).nodes@[node_id as int].items@.last() == NodeItem::<T>::Child(child),
            final(self).adds_child(old(self), node_id),
            final(self).nodes@[node_id as int].children@.last().0@ == key@,
            final(self)@ == old(self)@.with_child(node_id as int, false, key@, loc),
    {
        let child = self.nodes.len();
        self.nodes.push(
            TrieNode {
                key: Some(key.clone()),
                media_query: None,
                loc,
                children: Vec::new(),
                items: Vec::new(),
            },
        );
        self.nodes[node_id].children.push((key, child));
        self.nodes[node_id].items.push(NodeItem::Child(child));
        proof {
            let nodes = old(self).nodes@;
            let arena = self.declarations@;
            let id = node_id as int;
            let end = nodes.len() as int;
            let items = nodes[id].items@;
            assert(self.nodes@[id].items@ == items.push(NodeItem::Child(child)));
            assert(self.tree_at(child).items =~= seq![]);
            assert forall|i: int| 0 <= i < items.len() implies match #[trigger] items[i] {
                NodeItem::Child(inner) => {
                    let stop = next_child(items, i + 1, end);
                    &&& stop == next_child(self.nodes@[id].items@, i + 1, end + 1)
                    &&& node_wf(self.nodes@, arena, inner as int, stop)
                    &&& tree(self.nodes@, arena, inner as int) == tree(nodes, arena, inner as int)
                },
                _ => true,
            } by {
                match items[i] {
                    NodeItem::Child(inner) => {
                        let stop = next_child(items, i + 1, end);
                        lemma_next_child_push(items, NodeItem::Child(child), i + 1, end + 1);
                        lemma_frame(nodes, arena, self.nodes@, arena, inner as int, stop);
                    },
                    _ => {},
                }
            }
            assert forall|i: int| 0 <= i < self.nodes@[id].items@.len() implies match
            #[trigger] self.nodes@[id].items@[i] {
                NodeItem::DeclarationSet(set) => set.wf(arena),
                NodeItem::Child(inner) => {
                    let stop = next_child(self.nodes@[id].items@, i + 1, end + 1);
                    id < inner < stop <= end + 1 && node_wf(self.nodes@, arena, inner as int, stop)
                },
                NodeItem::Barrier(_) => true,
            } by {
                if i < items.len() {
                    assert(self.nodes@[id].items@[i] == items[i]);
                }
            }
            let old_node = old(self)@.nodes[id];
            assert(self@.nodes[id].items =~= old_node.items.push(SlotView::Child(child as int)));
            assert(self@.nodes[id].children =~= old_node.children.push((key@, child as int)));
            assert(self@.nodes[child as int].children =~= seq![]);
            assert(self.nodes@[id].children@.drop_last() =~= old(self).nodes@[id].children@);
            assert(self@.nodes[child as int].items =~= seq![]);
            assert(self@ =~= old(self)@.with_child(id, false, key@, loc));
            assert(self.open_at(node_id));
            assert(self.tree_at(node_id).items =~= old(self).tree_at(node_id).with_child(
                false,
                TreeView::leaf(key@, loc),
            ).items);
        }
        child
    }

    /// The last item where it is a node with this key, else a new node behind
    /// the items.
    pub fn get_or_insert_child(&mut self, node_id: NodeId, key: RuleKey, loc: Location) -> (child:
        NodeId)
        requires
            old(self).open_at(node_id),
        ensures
            final(self).grown_from(old(self), node_id),
            node_id < child,
            final(self).open_at(child),
            ({
                let before = old(self).tree_at(node_id);
                let reuse = before.ends_with(key@);
                let target = before.target(reuse, key@, loc);
                &&& final(self).tree_at(child) == target
                &&& final(self).tree_at(node_id) == before.with_child(reuse, target)
            }),
            final(self).nodes@[node_id as int].items@.len() > 0,
            final(self).nodes@[node_id as int].items@.last() == NodeItem::<T>::Child(child),
            ({
                let reuse = old(self)@.ends_with(node_id as int, key@);
                &&& reuse == old(self).tree_at(node_id).ends_with(key@)
                &&& reuse ==> *final(self) == *old(self)
                &&& !reuse ==> final(self).adds_child(old(self), node_id)
                &&& child == old(self)@.child(node_id as int, reuse)
                &&& final(self)@ == old(self)@.with_child(node_id as int, reuse, key@, loc)
            }),
    {
        let ghost before = self.tree_at(node_id);
        let count = self.nodes[node_id].items.len();
        if count > 0 {
            assert(self@.nodes[node_id as int].items.last() == self.nodes@[node_id as int].items@[
                count - 1
            ]@);
            if let NodeItem::Child(last_child) = &self.nodes[node_id].items[count - 1] {
                let last_child = *last_child;
                if let Some(last_key) = &self.nodes[last_child].key {
                    if *last_key == key {
                        proof {
                            assert(before.items.last() == ItemView::Child(
                                self.tree_at(last_child),
                            ));
                            assert(before.with_child(true, self.tree_at(last_child)).items
                                =~= before.items);
                        }
                        return last_child;
                    }
                }
            }
        }
        self.insert_child(node_id, key, loc)
    }

    /// Whether the node itself holds a declaration.
    pub fn node_has_declarations(&self, node_id: NodeId) -> (found: bool)
        requires
            self.open_at(node_id),
        ensures
            found == self.tree_at(node_id).has_declarations(),
            found == self@.nodes[node_id as int].has_declarations(),
    {
        let items = &self.nodes[node_id].items;
        let ghost node = self.tree_at(node_id);
        let ghost slots = self@.nodes[node_id as int].items;
        let mut i: usize = 0;
        while i < items.len()
            invariant
                i <= items.len(),
                self.open_at(node_id),
                node == self.tree_at(node_id),
                *items == self.nodes@[node_id as int].items,
                forall|j: int|
                    0 <= j < i ==> !((#[trigger] node.items[j]) matches ItemView::Declarations(run)
                        && run.len() > 0),
                slots == self@.nodes[node_id as int].items,
                forall|j: int|
                    0 <= j < i ==> !((#[trigger] slots[j]) matches SlotView::Declarations(ids)
                        && ids.len() > 0),
            decreases items.len() - i,
        {
            assert(slots[i as int] == items@[i as int]@);
            if let NodeItem::DeclarationSet(set) = &items[i] {
                if !set.entries.is_empty() {
                    assert(slots[i as int] matches SlotView::Declarations(ids) && ids.len() > 0);
                    assert(node.items[i as int] matches ItemView::Declarations(run) && run.len()
                        > 0);
                    return true;
                }
            }
            i = i + 1;
        }
        false
    }

    /// The node into which a style rule goes: see
    /// [`TreeView::reuses_style`].
    pub fn get_or_insert_style_child(
        &mut self,
        node_id: NodeId,
        key: RuleKey,
        loc: Location,
        has_new_declarations: bool,
        allow_declaration_reuse: bool,
    ) -> (child: NodeId)
        requires
            old(self).open_at(node_id),
        ensures
            final(self).grown_from(old(self), node_id),
            node_id < child,
            final(self).open_at(child),
            ({
                let before = old(self).tree_at(node_id);
                let reuse = before.ends_with(key@) && (!has_new_declarations
                    || allow_declaration_reuse
                    || !before.items.last()->Child_0.has_declarations());
                let target = before.target(reuse, key@, loc);
                &&& final(self).tree_at(child) == target
                &&& final(self).tree_at(node_id) == before.with_child(reuse, target)
            }),
            final(self).nodes@[node_id as int].items@.len() > 0,
            final(self).nodes@[node_id as int].items@.last() == NodeItem::<T>::Child(child),
            ({
                let reuse = old(self)@.ends_with(node_id as int, key@) && (!has_new_declarations
                    || allow_declaration_reuse || !old(self)@.nodes[old(self)@.child(
                    node_id as int,
                    true,
                )].has_declarations());
                &&& reuse ==> *final(self) == *old(self)
                &&& !reuse ==> final(self).adds_child(old(self), node_id)
                &&& child == old(self)@.child(node_id as int, reuse)
                &&& final(self)@ == old(self)@.with_child(node_id as int, reuse, key@, loc)
            }),
    {
        let ghost before = self.tree_at(node_id);
        let count = self.nodes[node_id].items.len();
        if count > 0 {
            assert(self@.nodes[node_id as int].items.last() == self.nodes@[node_id as int].items@[
                count - 1
            ]@);
            if let NodeItem::Child(last_child) = &self.nodes[node_id].items[count - 1] {
                let last_child = *last_child;
                assert(before.items.last() == ItemView::Child(self.tree_at(last_child)));
                if let Some(last_key) = &self.nodes[last_child].key {
                    if *last_key == key && (!has_new_declarations || allow_declaration_reuse
                        || !self.node_has_declarations(last_child)) {
                        assert(before.with_child(true, self.tree_at(last_child)).items
                            =~= before.items);
                        return last_child;
                    }
                }
            }
        }
        self.insert_child(node_id, key, loc)
    }

    /// Adds the declarations of a block to a run: see [`insert_block`].
    pub fn push_declarations_into_set(
        &mut self,
        set: &mut DeclarationSet,
        declarations: DeclarationBlock,
    )
        requires
            old(set).wf(old(self).declarations@),
        ensures
            final(self).nodes@ == old(self).nodes@,
            final(self).dedupe_declarations == old(self).dedupe_declarations,
            extends(old(self).declarations@, final(self).declarations@),
            final(set).wf(final(self).declarations@),
            final(set).run(final(self).declarations@) == insert_block(
                old(set).run(old(self).declarations@),
                declarations@,
                old(self).dedupe_declarations,
            ),
            final(self).declarations@.len() == old(self).declarations@.len()
                + declarations@.normal.len() + declarations@.important.len(),
            final(self)@.declarations == old(self)@.declarations + block_declarations(
                declarations@,
            ),
            final(set).ids() == insert_block_ids(
                old(set).ids(),
                old(set).run(old(self).declarations@),
                declarations@,
                old(self).dedupe_declarations,
                old(self).declarations@.len() as int,
            ),
    {
        let ghost arena = self.declarations@;
        let ghost first = arena.len() as int;
        let ghost ids = set.ids();
        let ghost held = self@.declarations;
        let ghost start = set.run(arena);
        let ghost block = declarations@;
        let ghost dedupe = self.dedupe_declarations;
        assert(held =~= held + with_importance(block.normal.take(0), false));
        let DeclarationBlock { important_declarations, declarations } = declarations;
        let ghost normal = declarations@;
        for declaration in iter: declarations
            invariant
                iter.seq() == normal,
                normal.len() == block.normal.len(),
                forall|i: int| 0 <= i < normal.len() ==> #[trigger] block.normal[i] == normal[i]@,
                self.nodes@ == old(self).nodes@,
                self.dedupe_declarations == dedupe,
                extends(arena, self.declarations@),
                set.wf(self.declarations@),
                set.run(self.declarations@) == insert_properties(
                    start,
                    block.normal,
                    false,
                    dedupe,
                    iter.index() as nat,
                ),
                first == held.len(),
                self@.declarations == held + with_importance(
                    block.normal.take(iter.index()),
                    false,
                ),
                set.ids() == insert_property_ids(
                    ids,
                    start,
                    block.normal,
                    false,
                    dedupe,
                    first,
                    iter.index() as nat,
                ),
        {
            let ghost at = iter.index();
            let ghost so_far = self@.declarations;
            let ghost before = self.declarations@;
            let id = self.declarations.len();
            let key = declaration.id.clone();
            self.declarations.push(DeclarationEntry { declaration, important: false });
            proof {
                assert(self@.declarations =~= so_far.push(self.declarations@[id as int]@));
                assert(self@.declarations =~= held + with_importance(
                    block.normal.take(at + 1),
                    false,
                ));
                lemma_set_extends(*set, before, self.declarations@);
            }
            set.insert(id, key, false, self.dedupe_declarations, &self.declarations);
        }
        let ghost middle = set.run(self.declarations@);
        let ghost middle_ids = set.ids();
        let ghost normals = self@.declarations;
        let ghost important = important_declarations@;
        proof {
            assert(block.normal.take(block.normal.len() as int) =~= block.normal);
            assert(normals + with_importance(block.important.take(0), true) =~= normals);
        }
        for declaration in iter: important_declarations
            invariant
                iter.seq() == important,
                important.len() == block.important.len(),
                forall|i: int|
                    0 <= i < important.len() ==> #[trigger] block.important[i] == important[i]@,
                self.nodes@ == old(self).nodes@,
                self.dedupe_declarations == dedupe,
                extends(arena, self.declarations@),
                set.wf(self.declarations@),
                set.run(self.declarations@) == insert_properties(
                    middle,
                    block.important,
                    true,
                    dedupe,
                    iter.index() as nat,
                ),
                normals.len() == first + block.normal.len(),
                self@.declarations == normals + with_importance(
                    block.important.take(iter.index()),
                    true,
                ),
                set.ids() == insert_property_ids(
                    middle_ids,
                    middle,
                    block.important,
                    true,
                    dedupe,
                    first + block.normal.len(),
                    iter.index() as nat,
                ),
        {
            let ghost at = iter.index();
            let ghost so_far = self@.declarations;
            let ghost before = self.declarations@;
            let id = self.declarations.len();
            let key = declaration.id.clone();
            self.declarations.push(DeclarationEntry { declaration, important: true });
            proof {
                assert(self@.declarations =~= so_far.push(self.declarations@[id as int]@));
                assert(self@.declarations =~= normals + with_importance(
                    block.important.take(at + 1),
                    true,
                ));
                lemma_set_extends(*set, before, self.declarations@);
            }
            set.insert(id, key, true, self.dedupe_declarations, &self.declarations);
        }
        proof {
            assert(block.important.take(block.important.len() as int) =~= block.important);
            assert(self@.declarations =~= held + block_declarations(block));
        }
    }

    /// Adds the declarations of a block to a node: see
    /// [`TreeView::with_block`]. It adds no node.
    pub fn insert_declarations(&mut self, node_id: NodeId, declarations: DeclarationBlock)
        requires
            old(self).open_at(node_id),
        ensures
            final(self).grown_from(old(self), node_id),
            final(self).nodes@.len() == old(self).nodes@.len(),
            final(self).tree_at(node_id) == old(self).tree_at(node_id).with_block(
                declarations@,
                old(self).dedupe_declarations,
            ),
            declarations@.is_empty() ==> *final(self) == *old(self),
            final(self).changes_end_of(old(self), node_id),
            final(self).only_changes(old(self), node_id),
            final(self)@ == old(self)@.with_block(node_id as int, declarations@),
    {
        if declarations.is_empty() {
            return ;
        }
        let ghost before = self.tree_at(node_id);
        let ghost block = declarations@;
        let ghost slots = self@.nodes[node_id as int].items;
        let count = self.nodes[node_id].items.len();
        if count > 0 && matches!(self.nodes[node_id].items[count - 1], NodeItem::DeclarationSet(_)) {
            let item = self.nodes[node_id].items.pop();
            if let Some(NodeItem::DeclarationSet(set)) = item {
                let mut set = set;
                let ghost old_set = set;
                assert(slots.last() == SlotView::<T>::Declarations(old_set.ids()));
                self.push_declarations_into_set(&mut set, declarations);
                self.nodes[node_id].items.push(NodeItem::DeclarationSet(set));
                proof {
                    lemma_push_item(
                        old(self).nodes@,
                        old(self).declarations@,
                        self.nodes@,
                        self.declarations@,
                        node_id as int,
                        count - 1,
                        NodeItem::DeclarationSet(set),
                    );
                    lemma_run_of(*old(self), old_set);
                    assert(self@.nodes[node_id as int].items =~= slots.drop_last().push(
                        SlotView::Declarations(set.ids()),
                    ));
                    assert(self@ =~= old(self)@.with_block(node_id as int, block));
                    assert(self.tree_at(node_id).items =~= before.with_block(
                        block,
                        self.dedupe_declarations,
                    ).items);
                }
            }
            return ;
        }
        let mut set = DeclarationSet::new();
        self.push_declarations_into_set(&mut set, declarations);
        self.nodes[node_id].items.push(NodeItem::DeclarationSet(set));
        proof {
            let items = old(self).nodes@[node_id as int].items@;
            assert(items.take(count as int) =~= items);
            lemma_push_item(
                old(self).nodes@,
                old(self).declarations@,
                self.nodes@,
                self.declarations@,
                node_id as int,
                count as int,
                NodeItem::DeclarationSet(set),
            );
            if count > 0 {
                assert(slots.last() == items[count - 1]@);
            }
            assert(self@.nodes[node_id as int].items =~= slots.push(
                SlotView::Declarations(set.ids()),
            ));
            assert(self@ =~= old(self)@.with_block(node_id as int, block));
            assert(self.tree_at(node_id).items =~= before.with_block(
                block,
                self.dedupe_declarations,
            ).items);
        }
    }

    /// Adds a rule below a node: see [`TreeView::insert_rule`].
    pub fn insert_rule(
        &mut self,
        node_id: NodeId,
        rule: CssRule<T>,
        context: &mut MinifyContext,
    ) -> (result: Result<(), MinifyError>)
        requires
            old(self).open_at(node_id),
        ensures
            *final(context) == *old(context),
            final(self).grown_from(old(self), node_id),
            (final(self).tree_at(node_id), result) == old(self).tree_at(node_id).insert_rule(
                rule@,
                old(self).dedupe_declarations,
                *old(context),
            ),
            (final(self)@, result) == old(self)@.insert_rule(node_id as int, rule@, *old(context)),
            final(self).changes_end_of(old(self), node_id),
            match rule@ {
                RuleView::AtRule { prelude, rules, loc } => at_rule_key(
                    prelude,
                    loc,
                    *old(context),
                ) is Err ==> *final(self) == *old(self),
                RuleView::Style { .. } => true,
                RuleView::NestedDeclarations { block, loc: _ } => {
                    &&& final(self).only_changes(old(self), node_id)
                    &&& block.is_empty() ==> *final(self) == *old(self)
                },
                RuleView::Other(payload) => {
                    let items = old(self).nodes@[node_id as int].items@;
                    &&& final(self).only_changes(old(self), node_id)
                    &&& final(self).nodes@[node_id as int].items@ == items.push(
                        NodeItem::Barrier(payload),
                    )
                    &&& final(self).declarations@ == old(self).declarations@
                },
            },
        decreases rule,
    {
        let ghost before = self.tree_at(node_id);
        match rule {
            CssRule::Media(media) => {
                let key = match normalize_media_key(&media, context) {
                    Ok(query) => RuleKey::Media(query),
                    Err(error) => {
                        return Err(error);
                    },
                };
                let MediaRule { query, rules, loc } = media;
                let ghost prelude = AtRuleView::Media(query@);
                let ghost reuse = before.ends_with(key@);
                let ghost target = before.target(reuse, key@, loc);
                let child = self.get_or_insert_child(node_id, key, loc);
                let ghost opened = *self;
                if self.nodes[child].media_query.is_none() {
                    self.nodes[child].media_query = Some(query);
                    proof {
                        lemma_set_head(
                            opened.nodes@,
                            opened.declarations@,
                            self.nodes@,
                            child as int,
                            opened.nodes@.len() as int,
                        );
                        assert(self@.nodes[child as int].items
                            =~= opened@.nodes[child as int].items);
                        assert(self@ =~= opened@.with_query(child as int, prelude));
                    }
                }
                assert(self@ == opened@.with_query(child as int, prelude));
                assert(self.tree_at(child) == target.with_query(prelude));
                let result = self.insert_rule_list(child, rules, context);
                proof {
                    lemma_attach(before, opened, *self, node_id, child, reuse, target);
                }
                result
            },
            CssRule::Supports(wrapper) => {
                let SupportsRule { condition, rules, loc } = wrapper;
                let key = RuleKey::Supports(condition);
                let ghost reuse = before.ends_with(key@);
                let ghost target = before.target(reuse, key@, loc);
                let child = self.get_or_insert_child(node_id, key, loc);
                let ghost opened = *self;
                let result = self.insert_rule_list(child, rules, context);
                proof {
                    lemma_attach(before, opened, *self, node_id, child, reuse, target);
                }
                result
            },
            CssRule::Container(wrapper) => {
                let ContainerRule { name, condition, rules, loc } = wrapper;
                let key = RuleKey::Container { name, condition };
                let ghost reuse = before.ends_with(key@);
                let ghost target = before.target(reuse, key@, loc);
                let child = self.get_or_insert_child(node_id, key, loc);
                let ghost opened = *self;
                let result = self.insert_rule_list(child, rules, context);
                proof {
                    lemma_attach(before, opened, *self, node_id, child, reuse, target);
                }
                result
            },
            CssRule::Scope(wrapper) => {
                let ScopeRule { scope_start, scope_end, rules, loc } = wrapper;
                let key = RuleKey::Scope { scope_start, scope_end };
                let ghost reuse = before.ends_with(key@);
                let ghost target = before.target(reuse, key@, loc);
                let child = self.get_or_insert_child(node_id, key, loc);
                let ghost opened = *self;
                let result = self.insert_rule_list(child, rules, context);
                proof {
                    lemma_attach(before, opened, *self, node_id, child, reuse, target);
                }
                result
            },
            CssRule::StartingStyle(wrapper) => {
                let StartingStyleRule { rules, loc } = wrapper;
                let key = RuleKey::StartingStyle;
                let ghost reuse = before.ends_with(key@);
                let ghost target = before.target(reuse, key@, loc);
                let child = self.get_or_insert_child(node_id, key, loc);
                let ghost opened = *self;
                let result = self.insert_rule_list(child, rules, context);
                proof {
                    lemma_attach(before, opened, *self, node_id, child, reuse, target);
                }
                result
            },
            CssRule::MozDocument(wrapper) => {
                let MozDocumentRule { rules, loc } = wrapper;
                let key = RuleKey::MozDocument;
                let ghost reuse = before.ends_with(key@);
                let ghost target = before.target(reuse, key@, loc);
                let child = self.get_or_insert_child(node_id, key, loc);
                let ghost opened = *self;
                let result = self.insert_rule_list(child, rules, context);
                proof {
                    lemma_attach(before, opened, *self, node_id, child, reuse, target);
                }
                result
            },
            CssRule::Style(style) => {
                let StyleRule { selectors, vendor_prefix, declarations, rules, loc } = style;
                let has_declarations = !declarations.is_empty();
                let allow_declaration_reuse = can_reuse_style_declarations(context);
                let key = RuleKey::Selector(
                    SelectorKey { selectors, vendor_prefix, source_index: loc.source_index },
                );
                let ghost block = declarations@;
                let ghost reuse = before.reuses_style(key@, block, *context);
                let ghost target = before.target(reuse, key@, loc);
                let child = self.get_or_insert_style_child(
                    node_id,
                    key,
                    loc,
                    has_declarations,
                    allow_declaration_reuse,
                );
                let ghost opened = *self;
                self.insert_declarations(child, declarations);
                let result = self.insert_rule_list(child, rules, context);
                proof {
                    lemma_attach(before, opened, *self, node_id, child, reuse, target);
                }
                result
            },
            CssRule::NestedDeclarations(nested) => {
                self.insert_declarations(node_id, nested.declarations);
                Ok(())
            },
            CssRule::Other(payload) => {
                let count = self.nodes[node_id].items.len();
                self.nodes[node_id].items.push(NodeItem::Barrier(payload));
                proof {
                    let items = old(self).nodes@[node_id as int].items@;
                    assert(items.take(count as int) =~= items);
                    lemma_push_item(
                        old(self).nodes@,
                        old(self).declarations@,
                        self.nodes@,
                        self.declarations@,
                        node_id as int,
                        count as int,
                        NodeItem::Barrier(payload),
                    );
                    let slots = old(self)@.nodes[node_id as int].items;
                    assert(self@.nodes[node_id as int].items =~= slots.push(
                        SlotView::Barrier(payload),
                    ));
                    assert(self@ =~= old(self)@.with_items(
                        node_id as int,
                        slots.push(SlotView::Barrier(payload)),
                    ));
                    assert(before.items.take(count as int) =~= before.items);
                }
                Ok(())
            },
        }
    }

    /// Adds rules below a node, one after the other: see
    /// [`TreeView::insert_rules`].
    pub fn insert_rule_list(
        &mut self,
        node_id: NodeId,
        rules: CssRuleList<T>,
        context: &mut MinifyContext,
    ) -> (result: Result<(), MinifyError>)
        requires
            old(self).open_at(node_id),
        ensures
            *final(context) == *old(context),
            final(self).grown_from(old(self), node_id),
            (final(self).tree_at(node_id), result) == old(self).tree_at(node_id).insert_rules(
                rules@,
                rules@.len(),
                old(self).dedupe_declarations,
                *old(context),
            ),
            (final(self)@, result) == old(self)@.insert_rules(
                node_id as int,
                rules@,
                rules@.len(),
                *old(context),
            ),
            rules@.len() == 0 ==> *final(self) == *old(self),
        decreases rules,
    {
        let ghost before = self.tree_at(node_id);
        let ghost start = self@;
        let ghost dedupe = self.dedupe_declarations;
        let ghost list = rules;
        for rule in iter: rules.0
            invariant
                iter.seq() == list.0@,
                list == rules,
                before == old(self).tree_at(node_id),
                dedupe == old(self).dedupe_declarations,
                *context == *old(context),
                self.grown_from(old(self), node_id),
                self.dedupe_declarations == dedupe,
                iter.index() == 0 ==> *self == *old(self),
                start == old(self)@,
                start.insert_rules(node_id as int, list@, iter.index() as nat, *old(context)).0
                    == self@,
                start.insert_rules(node_id as int, list@, iter.index() as nat, *old(context)).1
                    == Ok::<(), MinifyError>(()),
                before.insert_rules(list@, iter.index() as nat, dedupe, *old(context)).0
                    == self.tree_at(node_id),
                before.insert_rules(list@, iter.index() as nat, dedupe, *old(context)).1 == Ok::<
                    (),
                    MinifyError,
                >(()),
        {
            let ghost done = iter.index() as nat;
            assert(rule == list.0@[done as int]);
            assert(rule@ == list@[done as int]);
            let result = self.insert_rule(node_id, rule, context);
            if result.is_err() {
                proof {
                    lemma_first_error(
                        before,
                        list@,
                        done + 1,
                        list@.len(),
                        dedupe,
                        *old(context),
                    );
                    lemma_nothing_behind_an_error(
                        start,
                        node_id as int,
                        list@,
                        done + 1,
                        list@.len(),
                        *old(context),
                    );
                }
                return result;
            }
            assert(result->Ok_0 == ());
        }
        Ok(())
    }

    /// The declarations with these ids, as a block.
    pub fn materialize_declarations(&self, ids: &Vec<DeclId>) -> (block: DeclarationBlock)
        requires
            forall|i: int| 0 <= i < ids@.len() ==> #[trigger] ids@[i] < self.declarations@.len(),
        ensures
            block@ == run_block(
                Seq::new(ids@.len(), |i: int| self.declarations@[ids@[i] as int]@),
            ),
            block@ == run_block(self@.run(Seq::new(ids@.len(), |i: int| ids@[i] as int))),
    {
        let ghost run = Seq::new(ids@.len(), |i: int| self.declarations@[ids@[i] as int]@);
        let mut block = DeclarationBlock::new();
        let mut i: usize = 0;
        while i < ids.len()
            invariant
                i <= ids.len(),
                run.len() == ids@.len(),
                forall|j: int|
                    0 <= j < ids@.len() ==> #[trigger] ids@[j] < self.declarations@.len(),
                forall|j: int|
                    0 <= j < ids@.len() ==> #[trigger] run[j] == self.declarations@[ids@[j] as int]@,
                block@.important == of_importance(run, true, i as nat),
                block@.normal == of_importance(run, false, i as nat),
            decreases ids.len() - i,
        {
            let ghost before = block@;
            let entry = &self.declarations[ids[i]];
            assert(run[i as int] == entry@);
            if entry.important {
                block.important_declarations.push(entry.declaration.clone());
                assert(block@.important =~= before.important.push(entry.declaration@));
            } else {
                block.declarations.push(entry.declaration.clone());
                assert(block@.normal =~= before.normal.push(entry.declaration@));
            }
            i = i + 1;
        }
        assert(self@.run(Seq::new(ids@.len(), |i: int| ids@[i] as int)) =~= run);
        block
    }

    /// Whether no declaration of one run has to do with one of the other.
    fn sets_independent(&self, a: &DeclarationSet, b: &DeclarationSet) -> (free: bool)
        requires
            a.wf(self.declarations@),
            b.wf(self.declarations@),
        ensures
            free == independent(a.run(self.declarations@), b.run(self.declarations@)),
    {
        let ghost arena = self.declarations@;
        let mut i: usize = 0;
        while i < a.entries.len()
            invariant
                i <= a.entries.len(),
                arena == self.declarations@,
                a.wf(arena),
                b.wf(arena),
                forall|k: int, j: int|
                    0 <= k < i && 0 <= j < b.entries@.len() ==> !entangled(
                        #[trigger] a.run(arena)[k],
                        #[trigger] b.run(arena)[j],
                    ),
            decreases a.entries.len() - i,
        {
            let one = &self.declarations[a.entries[i]];
            assert(a.run(arena)[i as int] == one@);
            let mut j: usize = 0;
            while j < b.entries.len()
                invariant
                    j <= b.entries.len(),
                    i < a.entries.len(),
                    arena == self.declarations@,
                    a.wf(arena),
                    b.wf(arena),
                    a.run(arena)[i as int] == one@,
                    forall|k: int|
                        0 <= k < j ==> !entangled(one@, #[trigger] b.run(arena)[k]),
                decreases b.entries.len() - j,
            {
                let other = &self.declarations[b.entries[j]];
                assert(b.run(arena)[j as int] == other@);
                if one.important == other.important && properties_related(
                    &one.declaration.id,
                    &other.declaration.id,
                ) {
                    assert(entangled(a.run(arena)[i as int], b.run(arena)[j as int]));
                    return false;
                }
                j = j + 1;
            }
            i = i + 1;
        }
        true
    }

    /// Whether the run may be moved across the node: see [`TreeView::clear`].
    /// The node's tree ends before `end`.
    fn node_is_clear(&self, node_id: NodeId, set: &DeclarationSet, Ghost(end): Ghost<int>) -> (free:
        bool)
        requires
            node_wf(self.nodes@, self.declarations@, node_id as int, end),
            set.wf(self.declarations@),
        ensures
            free == self.tree_at(node_id).clear(set.run(self.declarations@)),
        decreases end - node_id,
    {
        let ghost arena = self.declarations@;
        let ghost run = set.run(arena);
        let ghost node = self.tree_at(node_id);
        let items = &self.nodes[node_id].items;
        let mut i: usize = 0;
        while i < items.len()
            invariant
                i <= items.len(),
                node_wf(self.nodes@, arena, node_id as int, end),
                arena == self.declarations@,
                set.wf(arena),
                run == set.run(arena),
                node == self.tree_at(node_id),
                *items == self.nodes@[node_id as int].items,
                forall|j: int|
                    0 <= j < i ==> match #[trigger] node.items[j] {
                        ItemView::Declarations(other) => independent(other, run),
                        ItemView::Child(child) => child.clear(run),
                        ItemView::Barrier(_) => false,
                    },
            decreases items.len() - i,
        {
            assert(items@[i as int] == self.nodes@[node_id as int].items@[i as int]);
            let free = match &items[i] {
                NodeItem::DeclarationSet(other) => {
                    assert(node.items[i as int] == ItemView::<T>::Declarations(other.run(arena)));
                    self.sets_independent(other, set)
                },
                NodeItem::Child(child) => {
                    let ghost stop = next_child(items@, i + 1, end);
                    assert(node.items[i as int] == ItemView::Child(self.tree_at(*child)));
                    self.node_is_clear(*child, set, Ghost(stop))
                },
                NodeItem::Barrier(_) => {
                    assert(node.items[i as int] is Barrier);
                    false
                },
            };
            if !free {
                return false;
            }
            i = i + 1;
        }
        true
    }

    /// The place of the run of a node that another run behind its items joins:
    /// see [`earlier_run`].
    fn earlier_set(&self, node_id: NodeId, set: &DeclarationSet) -> (place: Option<usize>)
        requires
            self.open_at(node_id),
            set.wf(self.declarations@),
        ensures
            ({
                let items = self.tree_at(node_id).items;
                let expected = earlier_run(items, set.run(self.declarations@), items.len());
                match place {
                    Some(at) => at == expected,
                    None => expected == -1,
                }
            }),
    {
        let ghost arena = self.declarations@;
        let ghost run = set.run(arena);
        let ghost views = self.tree_at(node_id).items;
        let ghost end = self.nodes@.len() as int;
        let items = &self.nodes[node_id].items;
        let mut i: usize = items.len();
        while i > 0
            invariant
                i <= items.len(),
                arena == self.declarations@,
                end == self.nodes@.len(),
                run == set.run(arena),
                set.wf(arena),
                *items == self.nodes@[node_id as int].items,
                views == self.tree_at(node_id).items,
                self.open_at(node_id),
                earlier_run(views, run, views.len()) == earlier_run(views, run, i as nat),
            decreases i,
        {
            i = i - 1;
            assert(items@[i as int] == self.nodes@[node_id as int].items@[i as int]);
            match &items[i] {
                NodeItem::DeclarationSet(own) => {
                    assert(views[i as int] == ItemView::<T>::Declarations(own.run(arena)));
                    return Some(i);
                },
                NodeItem::Child(child) => {
                    let ghost stop = next_child(items@, i + 1, end);
                    assert(views[i as int] == ItemView::Child(self.tree_at(*child)));
                    if !self.node_is_clear(*child, set, Ghost(stop)) {
                        return None;
                    }
                },
                NodeItem::Barrier(payload) => {
                    assert(views[i as int] == ItemView::Barrier(*payload));
                    return None;
                },
            }
        }
        None
    }

    /// Adds the declarations of a run to another: see [`insert_run`].
    fn join_sets(&self, own: &mut DeclarationSet, set: &DeclarationSet)
        requires
            old(own).wf(self.declarations@),
            set.wf(self.declarations@),
        ensures
            final(own).wf(self.declarations@),
            final(own).run(self.declarations@) == insert_run(
                old(own).run(self.declarations@),
                set.run(self.declarations@),
                set.entries@.len(),
            ),
    {
        let ghost arena = self.declarations@;
        let ghost start = own.run(arena);
        let ghost run = set.run(arena);
        let mut i: usize = 0;
        while i < set.entries.len()
            invariant
                i <= set.entries.len(),
                arena == self.declarations@,
                own.wf(arena),
                set.wf(arena),
                run == set.run(arena),
                own.run(arena) == insert_run(start, run, i as nat),
            decreases set.entries.len() - i,
        {
            let id = set.entries[i];
            let key = self.declarations[id].declaration.id.clone();
            let important = self.declarations[id].important;
            assert(run[i as int] == arena[id as int]@);
            own.insert(id, key, important, true, &self.declarations);
            i = i + 1;
        }
    }

    /// Adds a run behind the items of a node, where it joins an earlier one that
    /// it can be moved to: see [`join_run`].
    fn insert_set(&mut self, node_id: NodeId, set: DeclarationSet)
        requires
            old(self).open_at(node_id),
            set.wf(old(self).declarations@),
        ensures
            final(self).grown_from(old(self), node_id),
            final(self).declarations@ == old(self).declarations@,
            final(self).only_changes(old(self), node_id),
            final(self).tree_at(node_id) == (TreeView {
                items: join_run(
                    old(self).tree_at(node_id).items,
                    set.run(old(self).declarations@),
                ),
                ..old(self).tree_at(node_id)
            }),
    {
        let ghost arena = self.declarations@;
        let ghost before = self.tree_at(node_id);
        let ghost items = self.nodes@[node_id as int].items@;
        match self.earlier_set(node_id, &set) {
            Some(place) => {
                proof {
                    lemma_earlier_run(before.items, set.run(arena), before.items.len());
                    assert(before.items[place as int] is Declarations);
                    assert(items[place as int] is DeclarationSet);
                }
                let mut own = NodeItem::DeclarationSet(DeclarationSet::new());
                std::mem::swap(&mut self.nodes[node_id].items[place], &mut own);
                if let NodeItem::DeclarationSet(own) = own {
                    let mut own = own;
                    self.join_sets(&mut own, &set);
                    self.nodes[node_id].items[place] = NodeItem::DeclarationSet(own);
                    proof {
                        assert(self.nodes@[node_id as int].items@ =~= items.update(
                            place as int,
                            NodeItem::DeclarationSet(own),
                        ));
                        lemma_update_item(
                            old(self).nodes@,
                            arena,
                            self.nodes@,
                            node_id as int,
                            place as int,
                            own,
                        );
                    }
                }
            },
            None => {
                let count = self.nodes[node_id].items.len();
                self.nodes[node_id].items.push(NodeItem::DeclarationSet(set));
                proof {
                    assert(items.take(count as int) =~= items);
                    lemma_push_item(
                        old(self).nodes@,
                        arena,
                        self.nodes@,
                        arena,
                        node_id as int,
                        count as int,
                        NodeItem::DeclarationSet(set),
                    );
                    assert(before.items.take(count as int) =~= before.items);
                }
            },
        }
    }

    /// Takes the items out of a node of another arena and adds them behind those
    /// of a node: see [`TreeView::take_in`]. The other node's tree ends before
    /// `end`; its declarations are in the arena.
    fn take_in(
        &mut self,
        node_id: NodeId,
        from: &mut Vec<TrieNode<T>>,
        from_id: NodeId,
        Ghost(end): Ghost<int>,
    )
        requires
            old(self).open_at(node_id),
            node_wf(old(from)@, old(self).declarations@, from_id as int, end),
        ensures
            final(self).grown_from(old(self), node_id),
            final(self).declarations@ == old(self).declarations@,
            ({
                let other = tree(old(from)@, old(self).declarations@, from_id as int);
                final(self).tree_at(node_id) == old(self).tree_at(node_id).take_in(
                    other,
                    other.items.len(),
                )
            }),
            final(from)@.len() == old(from)@.len(),
            forall|i: int|
                0 <= i < old(from)@.len() && !(from_id <= i < end) ==> #[trigger] final(from)@[i]
                    == old(from)@[i],
        decreases end - from_id,
    {
        let ghost nodes = from@;
        let ghost arena = self.declarations@;
        let ghost start = self.tree_at(node_id);
        let ghost id = from_id as int;
        let ghost other = tree(nodes, arena, id);
        let mut items: Vec<NodeItem<T>> = Vec::new();
        std::mem::swap(&mut from[from_id].items, &mut items);
        let ghost list = items@;
        proof {
            lemma_next_child_above(nodes, arena, id, end, 0);
        }
        for item in iter: items
            invariant
                iter.seq() == list,
                id == from_id,
                list == nodes[id].items@,
                nodes == old(from)@,
                node_wf(nodes, arena, id, end),
                other == tree(nodes, arena, id),
                arena == old(self).declarations@,
                self.declarations@ == arena,
                start == old(self).tree_at(node_id),
                self.grown_from(old(self), node_id),
                self.tree_at(node_id) == start.take_in(other, iter.index() as nat),
                from@.len() == nodes.len(),
                forall|i: int|
                    0 <= i < from@.len() && (i < id || next_child(list, iter.index(), end) <= i)
                        ==> #[trigger] from@[i] == nodes[i],
        {
            let ghost at = iter.index();
            let ghost stop = next_child(list, at + 1, end);
            let ghost before = self.tree_at(node_id);
            let ghost earlier = *self;
            assert(item == nodes[id].items@[at]);
            match item {
                NodeItem::DeclarationSet(set) => {
                    assert(other.items[at] == ItemView::<T>::Declarations(set.run(arena)));
                    self.insert_set(node_id, set);
                },
                NodeItem::Child(child) => {
                    let ghost inner = tree(nodes, arena, child as int);
                    assert(other.items[at] == ItemView::Child(inner));
                    assert(from@[child as int] == nodes[child as int]);
                    if let Some(key) = &from[child].key {
                        let key = key.clone();
                        let loc = from[child].loc;
                        let count = self.nodes.len();
                        let ghost reuse = before.ends_with(key@);
                        let ghost target = before.target(reuse, key@, loc);
                        let place = self.get_or_insert_child(node_id, key, loc);
                        let ghost opened = *self;
                        if place == count {
                            let query = match &from[child].media_query {
                                Some(query) => Some(query.clone()),
                                None => None,
                            };
                            self.nodes[place].media_query = query;
                            proof {
                                lemma_set_head(
                                    opened.nodes@,
                                    arena,
                                    self.nodes@,
                                    place as int,
                                    opened.nodes@.len() as int,
                                );
                                assert(self.tree_at(place).items =~= seq![]);
                            }
                        }
                        proof {
                            assert(self.tree_at(place) == (if reuse {
                                before.items.last()->Child_0
                            } else {
                                inner.hollow()
                            }));
                            lemma_frame(nodes, arena, from@, arena, child as int, stop);
                        }
                        self.take_in(place, from, child, Ghost(stop));
                        proof {
                            lemma_attach(before, opened, *self, node_id, place, reuse, target);
                        }
                    }
                },
                NodeItem::Barrier(payload) => {
                    let count = self.nodes[node_id].items.len();
                    self.nodes[node_id].items.push(NodeItem::Barrier(payload));
                    proof {
                        assert(other.items[at] == ItemView::Barrier(payload));
                        let own = earlier.nodes@[node_id as int].items@;
                        assert(own.take(count as int) =~= own);
                        lemma_push_item(
                            earlier.nodes@,
                            arena,
                            self.nodes@,
                            arena,
                            node_id as int,
                            count as int,
                            NodeItem::Barrier(payload),
                        );
                        assert(before.items.take(count as int) =~= before.items);
                    }
                },
            }
        }
    }

    /// The tree in which each run of declarations has joined an earlier one of
    /// its node that it can be moved to, and nodes that this brings together have
    /// become one: see [`TreeView::joined`].
    pub fn joined(self) -> (after: Self)
        requires
            self.open_at(0),
        ensures
            after.open_at(0),
            after.tree_at(0) == self.tree_at(0).joined(),
            after.declarations@ == self.declarations@,
            after.dedupe_declarations == self.dedupe_declarations,
    {
        let ghost before = self;
        let RuleTrie { nodes, declarations, dedupe_declarations } = self;
        let mut from = nodes;
        let key = match &from[0].key {
            Some(key) => Some(key.clone()),
            None => None,
        };
        let media_query = match &from[0].media_query {
            Some(query) => Some(query.clone()),
            None => None,
        };
        let loc = from[0].loc;
        let mut fresh: Vec<TrieNode<T>> = Vec::new();
        fresh.push(TrieNode { key, media_query, loc, children: Vec::new(), items: Vec::new() });
        let mut after = RuleTrie { nodes: fresh, declarations, dedupe_declarations };
        assert(after.tree_at(0).items =~= seq![]);
        assert(after.tree_at(0) == before.tree_at(0).hollow());
        let ghost end = from@.len() as int;
        after.take_in(0, &mut from, 0, Ghost(end));
        after
    }

    /// Whether `self` comes from `before` by changing the nodes from `id` up to
    /// `end`: nothing else changed.
    pub open spec fn changed_from(&self, before: &RuleTrie<T>, id: NodeId, end: int) -> bool {
        &&& self.nodes@.len() == before.nodes@.len()
        &&& forall|i: int|
            0 <= i < before.nodes@.len() && !(id <= i < end) ==> #[trigger] self.nodes@[i]
                == before.nodes@[i]
        &&& self.declarations@ == before.declarations@
        &&& self.dedupe_declarations == before.dedupe_declarations
    }

    /// Takes out the rules that a node's items are printed as: see
    /// [`TreeView::print_all`]. The node's tree ends before `end`.
    pub fn emit_rule_list(
        &mut self,
        node_id: NodeId,
        in_style_context: bool,
        Ghost(end): Ghost<int>,
    ) -> (rules: Vec<CssRule<T>>)
        requires
            node_wf(old(self).nodes@, old(self).declarations@, node_id as int, end),
        ensures
            rule_views(rules@) == old(self).tree_at(node_id).print_all(),
            final(self).changed_from(old(self), node_id, end),
        decreases end - node_id, 1nat,
    {
        let ghost before = *self;
        let ghost arena = self.declarations@;
        let ghost node = self.tree_at(node_id);
        let loc = self.nodes[node_id].loc;
        let mut items: Vec<NodeItem<T>> = Vec::new();
        std::mem::swap(&mut self.nodes[node_id].items, &mut items);
        let ghost list = items@;
        let mut rules: Vec<CssRule<T>> = Vec::new();
        proof {
            lemma_next_child_above(before.nodes@, arena, node_id as int, end, 0);
            assert(rule_views(rules@) =~= node.print_items(0));
        }
        for item in iter: items
            invariant
                iter.seq() == list,
                list == before.nodes@[node_id as int].items@,
                before == *old(self),
                node == before.tree_at(node_id),
                loc == node.loc,
                node_wf(before.nodes@, arena, node_id as int, end),
                arena == before.declarations@,
                self.declarations@ == arena,
                self.dedupe_declarations == before.dedupe_declarations,
                self.nodes@.len() == before.nodes@.len(),
                forall|i: int|
                    0 <= i < self.nodes@.len() && (i < node_id || next_child(
                        list,
                        iter.index(),
                        end,
                    ) <= i) ==> #[trigger] self.nodes@[i] == before.nodes@[i],
                rule_views(rules@) == node.print_items(iter.index() as nat),
        {
            let ghost at = iter.index();
            let ghost printed = rule_views(rules@);
            assert(item == before.nodes@[node_id as int].items@[at]);
            match item {
                NodeItem::DeclarationSet(set) => {
                    if !set.entries.is_empty() {
                        rules.push(
                            CssRule::NestedDeclarations(
                                NestedDeclarationsRule {
                                    declarations: self.materialize_declarations(&set.entries),
                                    loc,
                                },
                            ),
                        );
                        assert(rule_views(rules@) =~= printed.push(rules@.last()@));
                    }
                },
                NodeItem::Child(child) => {
                    let ghost stop = next_child(list, at + 1, end);
                    proof {
                        lemma_frame(
                            before.nodes@,
                            arena,
                            self.nodes@,
                            arena,
                            child as int,
                            stop,
                        );
                    }
                    let rule = self.emit_child(child, in_style_context, Ghost(stop));
                    if let Some(rule) = rule {
                        rules.push(rule);
                        assert(rule_views(rules@) =~= printed.push(rules@.last()@));
                    }
                },
                NodeItem::Barrier(payload) => {
                    rules.push(CssRule::Other(payload));
                    assert(rule_views(rules@) =~= printed.push(rules@.last()@));
                },
            }
        }
        rules
    }

    /// Takes out the rule that a node is printed as: see [`TreeView::print`].
    pub fn emit_child(
        &mut self,
        node_id: NodeId,
        in_style_context: bool,
        Ghost(end): Ghost<int>,
    ) -> (rule: Option<CssRule<T>>)
        requires
            node_wf(old(self).nodes@, old(self).declarations@, node_id as int, end),
        ensures
            match old(self).tree_at(node_id).print() {
                Some(printed) => rule matches Some(actual) && actual@ == printed,
                None => rule is None,
            },
            final(self).changed_from(old(self), node_id, end),
        decreases end - node_id, 2nat,
    {
        let ghost before = *self;
        let ghost node = self.tree_at(node_id);
        let loc = self.nodes[node_id].loc;
        let key = self.nodes[node_id].key.take();
        let media_query = self.nodes[node_id].media_query.take();
        proof {
            lemma_set_head(before.nodes@, before.declarations@, self.nodes@, node_id as int, end);
            lemma_print_items(node, self.tree_at(node_id), node.items.len());
        }
        let key = match key {
            Some(key) => key,
            None => {
                return None;
            },
        };
        match key {
            RuleKey::Media(normalized) => {
                let rules = CssRuleList(self.emit_rule_list(node_id, in_style_context, Ghost(end)));
                proof {
                    lemma_list_view(rules);
                }
                if rules.0.is_empty() {
                    return None;
                }
                let query = match media_query {
                    Some(query) => query,
                    None => normalized,
                };
                Some(CssRule::Media(MediaRule { query, rules, loc }))
            },
            RuleKey::Supports(condition) => {
                let rules = CssRuleList(self.emit_rule_list(node_id, in_style_context, Ghost(end)));
                proof {
                    lemma_list_view(rules);
                }
                if rules.0.is_empty() {
                    return None;
                }
                Some(CssRule::Supports(SupportsRule { condition, rules, loc }))
            },
            RuleKey::Container { name, condition } => {
                let rules = CssRuleList(self.emit_rule_list(node_id, in_style_context, Ghost(end)));
                proof {
                    lemma_list_view(rules);
                }
                if rules.0.is_empty() {
                    return None;
                }
                Some(CssRule::Container(ContainerRule { name, condition, rules, loc }))
            },
            RuleKey::Scope { scope_start, scope_end } => {
                let rules = CssRuleList(self.emit_rule_list(node_id, false, Ghost(end)));
                proof {
                    lemma_list_view(rules);
                }
                if rules.0.is_empty() {
                    return None;
                }
                Some(CssRule::Scope(ScopeRule { scope_start, scope_end, rules, loc }))
            },
            RuleKey::StartingStyle => {
                let rules = CssRuleList(self.emit_rule_list(node_id, in_style_context, Ghost(end)));
                proof {
                    lemma_list_view(rules);
                }
                if rules.0.is_empty() {
                    return None;
                }
                Some(CssRule::StartingStyle(StartingStyleRule { rules, loc }))
            },
            RuleKey::MozDocument => {
                let rules = CssRuleList(self.emit_rule_list(node_id, false, Ghost(end)));
                proof {
                    lemma_list_view(rules);
                }
                if rules.0.is_empty() {
                    return None;
                }
                Some(CssRule::MozDocument(MozDocumentRule { rules, loc }))
            },
            RuleKey::Selector(selector) => self.emit_style_rule(node_id, selector, Ghost(end)),
        }
    }

    /// Takes out the style rule that a node with these selectors is printed as.
    /// Declarations in front of the first nested rule are the rule's own.
    pub fn emit_style_rule(
        &mut self,
        node_id: NodeId,
        selector: SelectorKey,
        Ghost(end): Ghost<int>,
    ) -> (rule: Option<CssRule<T>>)
        requires
            node_wf(old(self).nodes@, old(self).declarations@, node_id as int, end),
        ensures
            match print_style(
                old(self).tree_at(node_id).print_all(),
                selector.selectors@,
                selector.vendor_prefix,
                old(self).tree_at(node_id).loc,
            ) {
                Some(printed) => rule matches Some(actual) && actual@ == printed,
                None => rule is None,
            },
            final(self).changed_from(old(self), node_id, end),
        decreases end - node_id, 1nat,
    {
        let ghost before = *self;
        let ghost arena = self.declarations@;
        let ghost node = self.tree_at(node_id);
        let loc = self.nodes[node_id].loc;
        let mut items: Vec<NodeItem<T>> = Vec::new();
        std::mem::swap(&mut self.nodes[node_id].items, &mut items);
        let ghost list = items@;
        let mut declarations = DeclarationBlock::new();
        let mut nested_rules: Vec<CssRule<T>> = Vec::new();
        let mut emitted_child = false;
        proof {
            lemma_next_child_above(before.nodes@, arena, node_id as int, end, 0);
            assert(rule_views(nested_rules@) =~= node.print_items(0).skip(0));
        }
        for item in iter: items
            invariant
                iter.seq() == list,
                list == before.nodes@[node_id as int].items@,
                before == *old(self),
                node == before.tree_at(node_id),
                loc == node.loc,
                node_wf(before.nodes@, arena, node_id as int, end),
                arena == before.declarations@,
                self.declarations@ == arena,
                self.dedupe_declarations == before.dedupe_declarations,
                self.nodes@.len() == before.nodes@.len(),
                forall|i: int|
                    0 <= i < self.nodes@.len() && (i < node_id || next_child(
                        list,
                        iter.index(),
                        end,
                    ) <= i) ==> #[trigger] self.nodes@[i] == before.nodes@[i],
                ({
                    let printed = node.print_items(iter.index() as nat);
                    &&& leading(printed) <= printed.len()
                    &&& emitted_child == (leading(printed) < printed.len())
                    &&& declarations@ == leading_block(printed, leading(printed))
                    &&& rule_views(nested_rules@) == printed.skip(leading(printed) as int)
                }),
        {
            let ghost at = iter.index();
            let ghost printed = node.print_items(at as nat);
            let ghost nested = rule_views(nested_rules@);
            assert(item == before.nodes@[node_id as int].items@[at]);
            match item {
                NodeItem::DeclarationSet(set) => {
                    if !set.entries.is_empty() {
                        let block = self.materialize_declarations(&set.entries);
                        proof {
                            lemma_leading_push(
                                printed,
                                RuleView::NestedDeclarations { block: block@, loc },
                            );
                        }
                        if emitted_child {
                            nested_rules.push(
                                CssRule::NestedDeclarations(
                                    NestedDeclarationsRule { declarations: block, loc },
                                ),
                            );
                            assert(rule_views(nested_rules@) =~= nested.push(
                                nested_rules@.last()@,
                            ));
                        } else {
                            append_declarations(&mut declarations, block);
                            assert(nested =~= Seq::<RuleView<T>>::empty());
                        }
                    }
                },
                NodeItem::Child(child) => {
                    let ghost stop = next_child(list, at + 1, end);
                    proof {
                        lemma_frame(before.nodes@, arena, self.nodes@, arena, child as int, stop);
                    }
                    let rule = self.emit_child(child, true, Ghost(stop));
                    if let Some(rule) = rule {
                        proof {
                            lemma_leading_push(printed, rule@);
                        }
                        nested_rules.push(rule);
                        assert(rule_views(nested_rules@) =~= nested.push(nested_rules@.last()@));
                        emitted_child = true;
                    }
                },
                NodeItem::Barrier(payload) => {
                    proof {
                        lemma_leading_push(printed, RuleView::Other(payload));
                    }
                    nested_rules.push(CssRule::Other(payload));
                    assert(rule_views(nested_rules@) =~= nested.push(nested_rules@.last()@));
                    emitted_child = true;
                },
            }
        }
        let SelectorKey { selectors, vendor_prefix, source_index: _ } = selector;
        let style = StyleRule {
            selectors,
            vendor_prefix,
            declarations,
            rules: CssRuleList(nested_rules),
            loc,
        };
        proof {
            lemma_list_view(style.rules);
        }
        if style.is_empty() {
            None
        } else {
            Some(CssRule::Style(style))
        }
    }
}

} // verus!
