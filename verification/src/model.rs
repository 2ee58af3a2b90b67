//! What merging a rule list means, in terms of trees.
//!
//! Rules are inserted one after the other below the root of a tree. A node
//! stands for a wrapper or for selectors; its items are, in source order, runs
//! of declarations, further nodes, and rules that nothing is merged across.
//! The tree is then printed as a rule list again.
use crate::context::may_reuse;
use crate::context::media_key;
use crate::context::MinifyContext;
use crate::context::MinifyError;
use crate::declaration::conflict;
use crate::declaration::BlockView;
use crate::declaration::PropertyKey;
use crate::declaration::PropertyView;
use crate::names::related;
use crate::rules::AtRuleView;
use crate::rules::RuleView;
use crate::values::Location;
use crate::values::VendorPrefix;
use vstd::prelude::*;

verus! {

/// What a node stands for. The query of an `@media` key is normalized.
#[verifier::ext_equal]
pub enum KeyView {
    AtRule(AtRuleView),
    Selector { selectors: Seq<Seq<char>>, vendor_prefix: VendorPrefix, source_index: u32 },
}

/// A declaration in a run, and whether it is `!important`.
#[verifier::ext_equal]
pub struct DeclarationView {
    pub property: PropertyView,
    pub important: bool,
}

/// A node of the tree.
#[verifier::ext_equal]
pub struct TreeView<T> {
    /// What the node stands for; the root has no key.
    pub key: Option<KeyView>,
    /// Of an `@media` node, the query that it is printed with.
    pub media_query: Option<Seq<char>>,
    /// Where the first rule that the node stands for starts.
    pub loc: Location,
    /// What the node holds, in source order.
    pub items: Seq<ItemView<T>>,
}

/// An item of a node.
#[verifier::ext_equal]
pub enum ItemView<T> {
    Declarations(Seq<DeclarationView>),
    Child(TreeView<T>),
    Barrier(T),
}

/// Whether it is a declaration of this property with this importance.
pub open spec fn in_slot(
    declaration: DeclarationView,
    key: PropertyKey,
    important: bool,
) -> bool {
    declaration.important == important && declaration.property.id.key == key
}

/// Whether one of the two declarations can undo what the other did.
pub open spec fn interferes(a: DeclarationView, b: DeclarationView) -> bool {
    a.important == b.important && conflict(a.property.id, b.property.id)
}

/// The position of the last declaration of this property and importance among
/// the first `end`, or -1.
pub open spec fn last_slot(
    run: Seq<DeclarationView>,
    key: PropertyKey,
    important: bool,
    end: nat,
) -> int
    decreases end,
{
    if end == 0 {
        -1
    } else if in_slot(run[end - 1], key, important) {
        end - 1
    } else {
        last_slot(run, key, important, (end - 1) as nat)
    }
}

/// Whether `declaration` may take the place at `position`: nothing behind it
/// interferes.
pub open spec fn replaceable(
    run: Seq<DeclarationView>,
    position: int,
    declaration: DeclarationView,
) -> bool {
    forall|i: int| position < i < run.len() ==> !interferes(#[trigger] run[i], declaration)
}

/// Where the last declaration of the same property and importance stands in the
/// run, or -1.
pub open spec fn own_slot(run: Seq<DeclarationView>, declaration: DeclarationView) -> int {
    last_slot(run, declaration.property.id.key, declaration.important, run.len())
}

/// Whether the declaration takes the place of the last one of the same property
/// and importance, rather than a place behind the run.
pub open spec fn replaces(
    run: Seq<DeclarationView>,
    declaration: DeclarationView,
    dedupe: bool,
) -> bool {
    let position = own_slot(run, declaration);
    dedupe && position >= 0 && replaceable(run, position, declaration)
}

/// The run with one more declaration. With `dedupe`, it takes the place of the
/// last declaration of the same property and importance, where it may.
pub open spec fn insert_declaration(
    run: Seq<DeclarationView>,
    declaration: DeclarationView,
    dedupe: bool,
) -> Seq<DeclarationView> {
    if replaces(run, declaration, dedupe) {
        run.update(own_slot(run, declaration), declaration)
    } else {
        run.push(declaration)
    }
}

/// The run with the first `count` of the properties, all of one importance.
pub open spec fn insert_properties(
    run: Seq<DeclarationView>,
    properties: Seq<PropertyView>,
    important: bool,
    dedupe: bool,
    count: nat,
) -> Seq<DeclarationView>
    decreases count,
{
    if count == 0 {
        run
    } else {
        insert_declaration(
            insert_properties(run, properties, important, dedupe, (count - 1) as nat),
            DeclarationView { property: properties[count - 1], important },
            dedupe,
        )
    }
}

/// The run with the declarations of a block: first the normal ones, then those
/// that are `!important`.
pub open spec fn insert_block(
    run: Seq<DeclarationView>,
    block: BlockView,
    dedupe: bool,
) -> Seq<DeclarationView> {
    let normal = insert_properties(run, block.normal, false, dedupe, block.normal.len());
    insert_properties(normal, block.important, true, dedupe, block.important.len())
}

/// The properties of this importance among the first `count` declarations.
pub open spec fn of_importance(run: Seq<DeclarationView>, important: bool, count: nat) -> Seq<
    PropertyView,
>
    decreases count,
{
    if count == 0 {
        seq![]
    } else {
        let before = of_importance(run, important, (count - 1) as nat);
        if run[count - 1].important == important {
            before.push(run[count - 1].property)
        } else {
            before
        }
    }
}

/// Whether the two declarations may have to do with each other. That is more
/// than that one can undo what the other did, and is what counts where one is to
/// be moved across the other.
pub open spec fn entangled(a: DeclarationView, b: DeclarationView) -> bool {
    a.important == b.important && related(a.property.id, b.property.id)
}

/// Whether no declaration of one run has to do with one of the other.
pub open spec fn independent(a: Seq<DeclarationView>, b: Seq<DeclarationView>) -> bool {
    forall|i: int, j: int|
        0 <= i < a.len() && 0 <= j < b.len() ==> !entangled(#[trigger] a[i], #[trigger] b[j])
}

/// The run with the first `count` declarations of another, which take the place
/// of its own where they may.
pub open spec fn insert_run(
    run: Seq<DeclarationView>,
    added: Seq<DeclarationView>,
    count: nat,
) -> Seq<DeclarationView>
    decreases count,
{
    if count == 0 {
        run
    } else {
        insert_declaration(insert_run(run, added, (count - 1) as nat), added[count - 1], true)
    }
}

/// The last run of declarations among the first `end` items, where everything
/// behind it is a node that the declarations may be moved across; else -1.
pub open spec fn earlier_run<T>(
    items: Seq<ItemView<T>>,
    run: Seq<DeclarationView>,
    end: nat,
) -> int
    decreases end,
{
    if end == 0 {
        -1
    } else {
        match items[end - 1] {
            ItemView::Declarations(_) => end - 1,
            ItemView::Child(child) => if child.clear(run) {
                earlier_run(items, run, (end - 1) as nat)
            } else {
                -1
            },
            ItemView::Barrier(_) => -1,
        }
    }
}

/// The earlier run is one of the items, and behind it are nodes only, which the
/// declarations may be moved across.
pub proof fn lemma_earlier_run<T>(
    items: Seq<ItemView<T>>,
    run: Seq<DeclarationView>,
    end: nat,
)
    requires
        end <= items.len(),
    ensures
        -1 <= earlier_run(items, run, end) < end,
        earlier_run(items, run, end) >= 0 ==> {
            &&& items[earlier_run(items, run, end)] is Declarations
            &&& forall|i: int|
                earlier_run(items, run, end) < i < end ==> ((#[trigger] items[i]) matches ItemView::Child(
                    child,
                ) && child.clear(run))
        },
    decreases end,
{
    if end > 0 {
        lemma_earlier_run(items, run, (end - 1) as nat);
    }
}

/// The items with one more run of declarations, which joins an earlier one where
/// it can be moved to it.
pub open spec fn join_run<T>(items: Seq<ItemView<T>>, run: Seq<DeclarationView>) -> Seq<
    ItemView<T>,
> {
    let place = earlier_run(items, run, items.len());
    if place >= 0 {
        items.update(
            place,
            ItemView::Declarations(insert_run(items[place]->Declarations_0, run, run.len())),
        )
    } else {
        items.push(ItemView::Declarations(run))
    }
}

/// The run as a block.
pub open spec fn run_block(run: Seq<DeclarationView>) -> BlockView {
    BlockView {
        important: of_importance(run, true, run.len()),
        normal: of_importance(run, false, run.len()),
    }
}

/// The key of an at-rule that wraps other rules. The query of an `@media` rule
/// is normalized, which can fail.
pub open spec fn at_rule_key(
    prelude: AtRuleView,
    loc: Location,
    context: MinifyContext,
) -> Result<KeyView, MinifyError> {
    match prelude {
        AtRuleView::Media(query) => match media_key(query, loc, context) {
            Ok(list) => Ok(KeyView::AtRule(AtRuleView::Media(list))),
            Err(error) => Err(error),
        },
        _ => Ok(KeyView::AtRule(prelude)),
    }
}

impl<T> TreeView<T> {
    /// The root of a tree without rules.
    pub open spec fn root() -> TreeView<T> {
        TreeView {
            key: None,
            media_query: None,
            loc: Location { source_index: 0, line: 0, column: 0 },
            items: seq![],
        }
    }

    /// A node without items.
    pub open spec fn leaf(key: KeyView, loc: Location) -> TreeView<T> {
        TreeView { key: Some(key), media_query: None, loc, items: seq![] }
    }

    /// Whether the last item is a node with this key.
    pub open spec fn ends_with(self, key: KeyView) -> bool {
        self.items.len() > 0 && (self.items.last() matches ItemView::Child(child) && child.key
            == Some(key))
    }

    /// Whether the node itself holds a declaration.
    pub open spec fn has_declarations(self) -> bool {
        exists|i: int|
            0 <= i < self.items.len() && ((#[trigger] self.items[i]) matches ItemView::Declarations(
                run,
            ) && run.len() > 0)
    }

    /// The node into which a rule with this key goes: the last item where it is
    /// reused, else a new node.
    pub open spec fn target(self, reuse: bool, key: KeyView, loc: Location) -> TreeView<T> {
        if reuse {
            self.items.last()->Child_0
        } else {
            TreeView::leaf(key, loc)
        }
    }

    /// The node with `child` in the place of the last item where that was
    /// reused, else behind it.
    pub open spec fn with_child(self, reuse: bool, child: TreeView<T>) -> TreeView<T> {
        TreeView {
            items: if reuse {
                self.items.update(self.items.len() - 1, ItemView::Child(child))
            } else {
                self.items.push(ItemView::Child(child))
            },
            ..self
        }
    }

    /// The node with the query that it is printed with, which the first
    /// `@media` rule gives.
    pub open spec fn with_query(self, prelude: AtRuleView) -> TreeView<T> {
        match prelude {
            AtRuleView::Media(query) if self.media_query is None => TreeView {
                media_query: Some(query),
                ..self
            },
            _ => self,
        }
    }

    /// The node with the block's declarations, which go into the last item
    /// where that is a run of declarations, else into a new one.
    pub open spec fn with_block(self, block: BlockView, dedupe: bool) -> TreeView<T> {
        if block.is_empty() {
            self
        } else if self.items.len() > 0 && self.items.last() is Declarations {
            let run = self.items.last()->Declarations_0;
            TreeView {
                items: self.items.update(
                    self.items.len() - 1,
                    ItemView::Declarations(insert_block(run, block, dedupe)),
                ),
                ..self
            }
        } else {
            TreeView {
                items: self.items.push(
                    ItemView::Declarations(insert_block(seq![], block, dedupe)),
                ),
                ..self
            }
        }
    }

    /// The node with one more rule below it, and whether that went well. Where
    /// a media query in the rule cannot be normalized, its error is returned,
    /// and the node holds what came before it.
    pub open spec fn insert_rule(
        self,
        rule: RuleView<T>,
        dedupe: bool,
        context: MinifyContext,
    ) -> (TreeView<T>, Result<(), MinifyError>)
        decreases rule, 0nat,
    {
        match rule {
            RuleView::AtRule { prelude, rules, loc } => match at_rule_key(prelude, loc, context) {
                Ok(key) => {
                    let reuse = self.ends_with(key);
                    let child = self.target(reuse, key, loc).with_query(prelude);
                    let filled = child.insert_rules(rules, rules.len(), dedupe, context);
                    (self.with_child(reuse, filled.0), filled.1)
                },
                Err(error) => (self, Err(error)),
            },
            RuleView::Style { selectors, vendor_prefix, block, rules, loc } => {
                let key = KeyView::Selector {
                    selectors,
                    vendor_prefix,
                    source_index: loc.source_index,
                };
                let reuse = self.reuses_style(key, block, context);
                let child = self.target(reuse, key, loc).with_block(block, dedupe);
                let filled = child.insert_rules(rules, rules.len(), dedupe, context);
                (self.with_child(reuse, filled.0), filled.1)
            },
            RuleView::NestedDeclarations { block, loc } => (self.with_block(block, dedupe), Ok(())),
            RuleView::Other(payload) => (
                TreeView { items: self.items.push(ItemView::Barrier(payload)), ..self },
                Ok(()),
            ),
        }
    }

    /// Whether a style rule with this key and block goes into the last item. A
    /// node that holds declarations takes no more of them unless they may be
    /// joined.
    pub open spec fn reuses_style(
        self,
        key: KeyView,
        block: BlockView,
        context: MinifyContext,
    ) -> bool {
        &&& self.ends_with(key)
        &&& block.is_empty() || may_reuse(context)
            || !self.items.last()->Child_0.has_declarations()
    }

    /// The node with the first `count` of the rules below it, up to the first
    /// error, and that error.
    pub open spec fn insert_rules(
        self,
        rules: Seq<RuleView<T>>,
        count: nat,
        dedupe: bool,
        context: MinifyContext,
    ) -> (TreeView<T>, Result<(), MinifyError>)
        decreases rules, count,
    {
        if count == 0 || count > rules.len() {
            (self, Ok(()))
        } else {
            let before = self.insert_rules(rules, (count - 1) as nat, dedupe, context);
            if before.1 is Ok {
                before.0.insert_rule(rules[count - 1], dedupe, context)
            } else {
                before
            }
        }
    }

    /// Whether declarations may be moved across the node: nothing below it has
    /// to do with one of them, and it holds no rule that nothing is merged
    /// across.
    pub open spec fn clear(self, run: Seq<DeclarationView>) -> bool
        decreases self,
    {
        forall|i: int|
            0 <= i < self.items.len() ==> match #[trigger] self.items[i] {
                ItemView::Declarations(other) => independent(other, run),
                ItemView::Child(child) => child.clear(run),
                ItemView::Barrier(_) => false,
            }
    }

    /// The node with the first `count` items of another behind its own. A run of
    /// declarations joins an earlier one that it can be moved to, and a node goes
    /// into the last item where that is one with the same key.
    pub open spec fn take_in(self, other: TreeView<T>, count: nat) -> TreeView<T>
        decreases other, count,
    {
        if count == 0 || count > other.items.len() {
            self
        } else {
            let before = self.take_in(other, (count - 1) as nat);
            match other.items[count - 1] {
                ItemView::Declarations(run) => TreeView {
                    items: join_run(before.items, run),
                    ..before
                },
                ItemView::Child(child) => {
                    let reuse = before.ends_like(child);
                    let target = if reuse {
                        before.items.last()->Child_0
                    } else {
                        child.hollow()
                    };
                    before.with_child(reuse, target.take_in(child, child.items.len()))
                },
                ItemView::Barrier(payload) => TreeView {
                    items: before.items.push(ItemView::Barrier(payload)),
                    ..before
                },
            }
        }
    }

    /// Whether the last item is a node with the key of this one.
    pub open spec fn ends_like(self, child: TreeView<T>) -> bool {
        child.key is Some && self.ends_with(child.key->Some_0)
    }

    /// The node without its items.
    pub open spec fn hollow(self) -> TreeView<T> {
        TreeView { items: seq![], ..self }
    }

    /// The node, and those below it, where each run of declarations has joined
    /// an earlier one of its node that it can be moved to, and nodes with the
    /// same key that this brings together have become one.
    pub open spec fn joined(self) -> TreeView<T> {
        self.hollow().take_in(self, self.items.len())
    }

    /// The rules that the first `count` items are printed as. Runs of
    /// declarations and nodes without content are not printed.
    pub open spec fn print_items(self, count: nat) -> Seq<RuleView<T>>
        decreases self, count,
    {
        if count == 0 || count > self.items.len() {
            seq![]
        } else {
            let before = self.print_items((count - 1) as nat);
            match self.items[count - 1] {
                ItemView::Declarations(run) => if run.len() == 0 {
                    before
                } else {
                    before.push(
                        RuleView::NestedDeclarations { block: run_block(run), loc: self.loc },
                    )
                },
                ItemView::Child(child) => match child.print() {
                    Some(rule) => before.push(rule),
                    None => before,
                },
                ItemView::Barrier(payload) => before.push(RuleView::Other(payload)),
            }
        }
    }

    /// The rules that the node's items are printed as.
    pub open spec fn print_all(self) -> Seq<RuleView<T>>
        decreases self, self.items.len() + 1,
    {
        self.print_items(self.items.len())
    }

    /// The rule that the node is printed as, unless it would be empty.
    pub open spec fn print(self) -> Option<RuleView<T>>
        decreases self, self.items.len() + 2,
    {
        let rules = self.print_all();
        match self.key {
            None => None,
            Some(KeyView::AtRule(prelude)) => if rules.len() == 0 {
                None
            } else {
                Some(RuleView::AtRule { prelude: self.printed_prelude(prelude), rules, loc: self.loc })
            },
            Some(KeyView::Selector { selectors, vendor_prefix, source_index: _ }) => print_style(
                rules,
                selectors,
                vendor_prefix,
                self.loc,
            ),
        }
    }

    /// The prelude that the node is printed with: of an `@media` node, the
    /// query as the first rule had it.
    pub open spec fn printed_prelude(self, prelude: AtRuleView) -> AtRuleView {
        match prelude {
            AtRuleView::Media(list) => match self.media_query {
                Some(query) => AtRuleView::Media(query),
                None => prelude,
            },
            _ => prelude,
        }
    }
}

/// How many rules at the start of the list are nested declarations.
pub open spec fn leading<T>(rules: Seq<RuleView<T>>) -> nat
    decreases rules.len(),
{
    if rules.len() == 0 {
        0
    } else {
        let before = leading(rules.drop_last());
        if before == rules.len() - 1 && rules.last() is NestedDeclarations {
            rules.len()
        } else {
            before
        }
    }
}

/// The declarations of the first `count` rules, which are nested declarations,
/// as one block.
pub open spec fn leading_block<T>(rules: Seq<RuleView<T>>, count: nat) -> BlockView
    decreases count,
{
    if count == 0 {
        BlockView::empty()
    } else {
        leading_block(rules, (count - 1) as nat).then_block(
            rules[count - 1]->NestedDeclarations_block,
        )
    }
}

/// The style rule with these items, unless it would be empty. Declarations in
/// front of the first nested rule are the rule's own.
pub open spec fn print_style<T>(
    items: Seq<RuleView<T>>,
    selectors: Seq<Seq<char>>,
    vendor_prefix: VendorPrefix,
    loc: Location,
) -> Option<RuleView<T>> {
    let block = leading_block(items, leading(items));
    let rules = items.skip(leading(items) as int);
    if selectors.len() == 0 || (block.is_empty() && rules.len() == 0) {
        None
    } else {
        Some(RuleView::Style { selectors, vendor_prefix, block, rules, loc })
    }
}

/// The printed items depend on nothing but the items and the location.
pub proof fn lemma_print_items<T>(a: TreeView<T>, b: TreeView<T>, count: nat)
    requires
        a.items == b.items,
        a.loc == b.loc,
    ensures
        a.print_items(count) == b.print_items(count),
    decreases count,
{
    if count > 0 {
        lemma_print_items(a, b, (count - 1) as nat);
    }
}

/// There are no more leading declarations than rules, and one block of them
/// depends on nothing else.
pub proof fn lemma_leading_block<T>(
    rules: Seq<RuleView<T>>,
    longer: Seq<RuleView<T>>,
    count: nat,
)
    requires
        count <= rules.len() <= longer.len(),
        forall|i: int| 0 <= i < rules.len() ==> #[trigger] longer[i] == rules[i],
    ensures
        leading_block(longer, count) == leading_block(rules, count),
    decreases count,
{
    if count > 0 {
        lemma_leading_block(rules, longer, (count - 1) as nat);
    }
}

/// How one more rule changes the leading declarations and the rules behind
/// them.
pub proof fn lemma_leading_push<T>(rules: Seq<RuleView<T>>, rule: RuleView<T>)
    ensures
        leading(rules) <= rules.len(),
        leading(rules) == rules.len() && rule is NestedDeclarations ==> {
            &&& leading(rules.push(rule)) == rules.len() + 1
            &&& leading_block(rules.push(rule), rules.len() + 1) == leading_block(
                rules,
                rules.len(),
            ).then_block(rule->NestedDeclarations_block)
            &&& rules.push(rule).skip(rules.len() as int + 1) == Seq::<RuleView<T>>::empty()
        },
        !(leading(rules) == rules.len() && rule is NestedDeclarations) ==> {
            &&& leading(rules.push(rule)) == leading(rules)
            &&& leading_block(rules.push(rule), leading(rules)) == leading_block(
                rules,
                leading(rules),
            )
            &&& rules.push(rule).skip(leading(rules) as int) == rules.skip(
                leading(rules) as int,
            ).push(rule)
        },
    decreases rules.len(),
{
    if rules.len() > 0 {
        lemma_leading_push(rules.drop_last(), rules.last());
        assert(rules.drop_last().push(rules.last()) =~= rules);
    }
    let longer = rules.push(rule);
    assert(longer.drop_last() =~= rules);
    lemma_leading_block(rules, longer, leading(rules));
    if leading(rules) == rules.len() && rule is NestedDeclarations {
        assert(longer.skip(rules.len() as int + 1) =~= Seq::<RuleView<T>>::empty());
    } else {
        assert(longer.skip(leading(rules) as int) =~= rules.skip(leading(rules) as int).push(rule));
    }
}

} // verus!
