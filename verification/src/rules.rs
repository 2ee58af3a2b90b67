//! Rules, rule lists and their models.
use crate::declaration::BlockView;
use crate::declaration::DeclarationBlock;
use crate::values::option_view;
use crate::values::ContainerCondition;
use crate::values::ContainerName;
use crate::values::Location;
use crate::values::MediaList;
use crate::values::SelectorList;
use crate::values::SupportsCondition;
use crate::values::VendorPrefix;
use vstd::prelude::*;

verus! {

/// A list of rules, in source order.
#[derive(Debug, PartialEq)]
pub struct CssRuleList<T>(pub Vec<CssRule<T>>);

/// An `@media` rule.
#[derive(Debug, PartialEq)]
pub struct MediaRule<T> {
    pub query: MediaList,
    pub rules: CssRuleList<T>,
    pub loc: Location,
}

/// An `@supports` rule.
#[derive(Debug, PartialEq)]
pub struct SupportsRule<T> {
    pub condition: SupportsCondition,
    pub rules: CssRuleList<T>,
    pub loc: Location,
}

/// An `@container` rule.
#[derive(Debug, PartialEq)]
pub struct ContainerRule<T> {
    pub name: Option<ContainerName>,
    pub condition: Option<ContainerCondition>,
    pub rules: CssRuleList<T>,
    pub loc: Location,
}

/// An `@scope` rule.
#[derive(Debug, PartialEq)]
pub struct ScopeRule<T> {
    pub scope_start: Option<SelectorList>,
    pub scope_end: Option<SelectorList>,
    pub rules: CssRuleList<T>,
    pub loc: Location,
}

/// An `@starting-style` rule.
#[derive(Debug, PartialEq)]
pub struct StartingStyleRule<T> {
    pub rules: CssRuleList<T>,
    pub loc: Location,
}

/// An `@-moz-document` rule.
#[derive(Debug, PartialEq)]
pub struct MozDocumentRule<T> {
    pub rules: CssRuleList<T>,
    pub loc: Location,
}

/// A style rule: selectors, declarations, and the rules nested in it.
#[derive(Debug, PartialEq)]
pub struct StyleRule<T> {
    pub selectors: SelectorList,
    pub vendor_prefix: VendorPrefix,
    pub declarations: DeclarationBlock,
    pub rules: CssRuleList<T>,
    pub loc: Location,
}

/// Declarations that stand among the rules nested in another rule.
#[derive(Debug, PartialEq)]
pub struct NestedDeclarationsRule {
    pub declarations: DeclarationBlock,
    pub loc: Location,
}

/// A rule. Rules of every kind that merging does not look into, such as
/// `@import`, `@layer`, `@font-face` or an unknown at-rule, are `Other`.
#[derive(Debug, PartialEq)]
pub enum CssRule<T> {
    Media(MediaRule<T>),
    Supports(SupportsRule<T>),
    Container(ContainerRule<T>),
    Scope(ScopeRule<T>),
    StartingStyle(StartingStyleRule<T>),
    MozDocument(MozDocumentRule<T>),
    Style(StyleRule<T>),
    NestedDeclarations(NestedDeclarationsRule),
    Other(T),
}

/// The name and prelude of an at-rule that wraps other rules.
#[verifier::ext_equal]
pub enum AtRuleView {
    Media(Seq<char>),
    Supports(Seq<char>),
    Container { name: Option<Seq<char>>, condition: Option<Seq<char>> },
    Scope { start: Option<Seq<Seq<char>>>, end: Option<Seq<Seq<char>>> },
    StartingStyle,
    MozDocument,
}

/// The model of a [`CssRule`].
#[verifier::ext_equal]
pub enum RuleView<T> {
    AtRule { prelude: AtRuleView, rules: Seq<RuleView<T>>, loc: Location },
    Style {
        selectors: Seq<Seq<char>>,
        vendor_prefix: VendorPrefix,
        block: BlockView,
        rules: Seq<RuleView<T>>,
        loc: Location,
    },
    NestedDeclarations { block: BlockView, loc: Location },
    Other(T),
}

impl<T> CssRuleList<T> {
    /// The models of the rules, in order.
    pub open spec fn view(&self) -> Seq<RuleView<T>>
        decreases self,
    {
        Seq::new(
            self.0@.len(),
            |i: int|
                if 0 <= i < self.0@.len() {
                    self.0@[i].view()
                } else {
                    arbitrary()
                },
        )
    }
}

impl<T> CssRule<T> {
    /// The rule's model.
    pub open spec fn view(&self) -> RuleView<T>
        decreases self,
    {
        match self {
            CssRule::Media(media) => RuleView::AtRule {
                prelude: AtRuleView::Media(media.query@),
                rules: media.rules.view(),
                loc: media.loc,
            },
            CssRule::Supports(supports) => RuleView::AtRule {
                prelude: AtRuleView::Supports(supports.condition@),
                rules: supports.rules.view(),
                loc: supports.loc,
            },
            CssRule::Container(container) => RuleView::AtRule {
                prelude: AtRuleView::Container {
                    name: option_view(container.name),
                    condition: option_view(container.condition),
                },
                rules: container.rules.view(),
                loc: container.loc,
            },
            CssRule::Scope(scope) => RuleView::AtRule {
                prelude: AtRuleView::Scope {
                    start: option_view(scope.scope_start),
                    end: option_view(scope.scope_end),
                },
                rules: scope.rules.view(),
                loc: scope.loc,
            },
            CssRule::StartingStyle(starting) => RuleView::AtRule {
                prelude: AtRuleView::StartingStyle,
                rules: starting.rules.view(),
                loc: starting.loc,
            },
            CssRule::MozDocument(document) => RuleView::AtRule {
                prelude: AtRuleView::MozDocument,
                rules: document.rules.view(),
                loc: document.loc,
            },
            CssRule::Style(style) => RuleView::Style {
                selectors: style.selectors@,
                vendor_prefix: style.vendor_prefix,
                block: style.declarations@,
                rules: style.rules.view(),
                loc: style.loc,
            },
            CssRule::NestedDeclarations(nested) => RuleView::NestedDeclarations {
                block: nested.declarations@,
                loc: nested.loc,
            },
            CssRule::Other(payload) => RuleView::Other(*payload),
        }
    }
}

/// The models of the rules, in order.
pub open spec fn rule_views<T>(rules: Seq<CssRule<T>>) -> Seq<RuleView<T>> {
    Seq::new(rules.len(), |i: int| rules[i]@)
}

/// The model of a list is that of its rules.
pub proof fn lemma_list_view<T>(list: CssRuleList<T>)
    ensures
        list@ == rule_views(list.0@),
{
    assert(list@ =~= rule_views(list.0@));
}

impl<T> StyleRule<T> {
    /// Whether the rule has no effect: it selects nothing, or it holds neither
    /// declarations nor rules.
    pub fn is_empty(&self) -> (empty: bool)
        ensures
            empty == (self.selectors@.len() == 0 || (self.declarations@.is_empty()
                && self.rules@.len() == 0)),
    {
        self.selectors.selectors.is_empty() || (self.declarations.is_empty()
            && self.rules.0.is_empty())
    }
}

} // verus!
