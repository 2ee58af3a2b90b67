//! What the operations that merging is made of are for, in terms of what they
//! are given.
use crate::context::may_reuse;
use crate::context::media_key;
use crate::context::MinifyContext;
use crate::context::MinifyError;
use crate::declaration::conflict;
use crate::declaration::BlockView;
use crate::declaration::DeclarationBlock;
use crate::declaration::Property;
use crate::declaration::PropertyId;
use crate::declaration::PropertyIdView;
use crate::declaration::PropertyView;
use crate::declaration_set::lemma_last_slot;
use crate::laws::law_neighbours_become_one_node;
use crate::laws::law_only_the_last_item_changes;
use crate::laws::lemma_no_more_rules;
use crate::laws::lemma_takes_no_more;
use crate::laws::substantial;
use crate::merge::finished;
use crate::merge::merged;
use crate::merge::rule_tree;
use crate::mergeable::adjacent;
use crate::mergeable::mergeable;
use crate::mergeable::neighbours_from;
use crate::mergeable::nested_from;
use crate::model::at_rule_key;
use crate::model::earlier_run;
use crate::model::entangled;
use crate::model::independent;
use crate::model::insert_block;
use crate::model::insert_declaration;
use crate::model::insert_properties;
use crate::model::insert_run;
use crate::model::join_run;
use crate::model::leading;
use crate::model::own_slot;
use crate::model::DeclarationView;
use crate::model::ItemView;
use crate::model::KeyView;
use crate::model::TreeView;
use crate::names::may_be_logical;
use crate::names::related;
use crate::names::words;
use crate::output::lemma_items_written;
use crate::output::written;
use crate::preservation::lemma_insert_list_keeps_head;
use crate::preservation::lemma_take_in_keeps_head;
use crate::rules::lemma_list_view;
use crate::rules::AtRuleView;
use crate::rules::CssRule;
use crate::rules::CssRuleList;
use crate::rules::RuleView;
use crate::settled::lemma_full_printed;
use crate::settled::lemma_insert_list_full;
use crate::settled::lemma_leading_block_full;
use crate::settled::lemma_leading_ends;
use crate::settled::lemma_properties_length;
use crate::settled::lemma_rule_step;
use crate::terms::bound;
use crate::terms::clash;
use crate::terms::first_custom;
use crate::terms::first_resolution;
use crate::terms::has_part;
use crate::terms::is_part;
use crate::terms::lemma_bound;
use crate::terms::lemma_clash;
use crate::terms::lemma_listed;
use crate::terms::lemma_one_first;
use crate::terms::lemma_speaks_of_flow;
use crate::terms::lemma_words;
use crate::terms::listed;
use crate::terms::parts_meet;
use crate::terms::query_error;
use crate::terms::refusal;
use crate::terms::silent;
use crate::terms::speaks_of_flow;
use crate::terms::step;
use crate::terms::untargeted;
use crate::values::option_view;
use crate::values::Location;
use crate::values::SelectorList;
use vstd::prelude::*;

verus! {

/// Property ids are the same where their names have the same characters and
/// their prefixes the same bits, and a shorthand has the longhands that it is
/// given, in order.
pub proof fn law_property_ids_are_told_apart(a: PropertyId, b: PropertyId)
    ensures
        a@.key == b@.key <==> a.name@ == b.name@ && a.prefix.bits == b.prefix.bits,
        a@.key.0 == a.name@,
        a@.longhands is Some <==> a.longhands is Some,
        a.longhands matches Some(ids) ==> {
            &&& a@.longhands->Some_0.len() == ids@.len()
            &&& forall|i: int|
                0 <= i < ids@.len() ==> #[trigger] a@.longhands->Some_0[i] == (
                    ids@[i].name@,
                    ids@[i].prefix.bits,
                )
        },
{
}

/// A declaration is its property and the text of its value, and a block is its
/// declarations of either importance, in order.
pub proof fn law_blocks_hold_their_declarations(block: DeclarationBlock, property: Property, i: int)
    ensures
        property@.id == property.id@,
        property@.value == property.value@,
        block@.normal.len() == block.declarations@.len(),
        block@.important.len() == block.important_declarations@.len(),
        0 <= i < block.declarations@.len() ==> block@.normal[i] == block.declarations@[i]@,
        0 <= i < block.important_declarations@.len() ==> block@.important[i]
            == block.important_declarations@[i]@,
{
}

/// A shorthand conflicts with every one of its longhands, whichever comes first.
pub proof fn law_shorthand_conflicts_with_every_longhand(
    shorthand: PropertyIdView,
    longhand: PropertyIdView,
    i: int,
)
    requires
        shorthand.longhands is Some,
        0 <= i < shorthand.longhands->Some_0.len(),
        longhand.key == shorthand.longhands->Some_0[i],
    ensures
        conflict(shorthand, longhand),
        conflict(longhand, shorthand),
{
    lemma_clash(shorthand, longhand);
    lemma_clash(longhand, shorthand);
    assert(shorthand.longhands->Some_0[i] == longhand.key);
}

/// Two shorthands that have a longhand in common conflict, wherever they list it.
pub proof fn law_common_longhand_makes_a_conflict(
    a: PropertyIdView,
    b: PropertyIdView,
    i: int,
    j: int,
)
    requires
        a.longhands is Some,
        b.longhands is Some,
        0 <= i < a.longhands->Some_0.len(),
        0 <= j < b.longhands->Some_0.len(),
        a.longhands->Some_0[i] == b.longhands->Some_0[j],
    ensures
        conflict(a, b),
{
    lemma_clash(a, b);
}

/// Two properties conflict exactly if they are the same, one is `all`, one is
/// among the longhands of the other, or they have a longhand in common.
pub proof fn law_conflicts_have_a_reason(a: PropertyIdView, b: PropertyIdView)
    ensures
        conflict(a, b) <==> {
            ||| a.key.0 == b.key.0 && a.key.1 == b.key.1
            ||| a.key.0 == "all"@
            ||| b.key.0 == "all"@
            ||| a.longhands is Some && exists|i: int|
                0 <= i < a.longhands->Some_0.len() && #[trigger] a.longhands->Some_0[i] == b.key
            ||| b.longhands is Some && exists|i: int|
                0 <= i < b.longhands->Some_0.len() && #[trigger] b.longhands->Some_0[i] == a.key
            ||| a.longhands is Some && b.longhands is Some && exists|i: int, j: int|
                0 <= i < a.longhands->Some_0.len() && 0 <= j < b.longhands->Some_0.len()
                    && #[trigger] a.longhands->Some_0[i] == #[trigger] b.longhands->Some_0[j]
        },
{
    lemma_clash(a, b);
}

/// The words of a name are the parts of it between hyphens: every part is one of
/// them, and they are parts unless they are empty.
pub proof fn law_words_are_the_parts_of_a_name(
    name: Seq<char>,
    word: Seq<char>,
    start: int,
    end: int,
)
    ensures
        0 <= start < end <= name.len() && (start == 0 || name[start - 1] == '-') && (end
            == name.len() || name[end] == '-') && (forall|i: int|
            start <= i < end ==> #[trigger] name[i] != '-') ==> words(name).contains(
            name.subrange(start, end),
        ),
        word.len() > 0 && words(name).contains(word) ==> has_part(name, word),
{
    if is_part(name, start, end) {
        assert(has_part(name, name.subrange(start, end)));
        lemma_words(name, name.subrange(start, end));
    }
    if word.len() > 0 {
        lemma_words(name, word);
    }
}

/// Properties whose names have a part in common, at whatever place, may have to
/// do with each other.
pub proof fn law_names_with_a_common_part_are_related(
    a: PropertyIdView,
    b: PropertyIdView,
    a_start: int,
    a_end: int,
    b_start: int,
    b_end: int,
)
    requires
        0 <= a_start < a_end <= a.key.0.len(),
        a_start == 0 || a.key.0[a_start - 1] == '-',
        a_end == a.key.0.len() || a.key.0[a_end] == '-',
        forall|i: int| a_start <= i < a_end ==> #[trigger] a.key.0[i] != '-',
        0 <= b_start < b_end <= b.key.0.len(),
        b_start == 0 || b.key.0[b_start - 1] == '-',
        b_end == b.key.0.len() || b.key.0[b_end] == '-',
        forall|i: int| b_start <= i < b_end ==> #[trigger] b.key.0[i] != '-',
        a.key.0.subrange(a_start, a_end) == b.key.0.subrange(b_start, b_end),
    ensures
        related(a, b),
{
    let word = a.key.0.subrange(a_start, a_end);
    assert(is_part(a.key.0, a_start, a_end));
    assert(is_part(b.key.0, b_start, b_end));
    assert(has_part(a.key.0, word));
    assert(has_part(b.key.0, word));
    lemma_bound(a, b);
}

/// A property of which a part of the name depends on the writing mode may have to
/// do with every other.
pub proof fn law_names_that_follow_the_writing_mode_are_related(
    a: PropertyIdView,
    b: PropertyIdView,
    start: int,
    end: int,
)
    requires
        0 <= start < end <= a.key.0.len(),
        start == 0 || a.key.0[start - 1] == '-',
        end == a.key.0.len() || a.key.0[end] == '-',
        forall|i: int| start <= i < end ==> #[trigger] a.key.0[i] != '-',
        ({
            let word = a.key.0.subrange(start, end);
            ||| word == "inline"@
            ||| word == "block"@
            ||| word == "start"@
            ||| word == "end"@
            ||| word == "before"@
            ||| word == "after"@
            ||| word == "logical"@
        }),
    ensures
        related(a, b),
        related(b, a),
{
    assert(is_part(a.key.0, start, end));
    assert(has_part(a.key.0, a.key.0.subrange(start, end)));
    lemma_bound(a, b);
    lemma_bound(b, a);
}

/// Properties with different names that do not conflict, that have no part in
/// common, and of which no part depends on the writing mode, have nothing to do
/// with each other.
pub proof fn law_names_without_a_common_part_are_not_related(a: PropertyIdView, b: PropertyIdView)
    requires
        !conflict(a, b),
        a.key.0 != b.key.0,
        forall|a_start: int, a_end: int, b_start: int, b_end: int|
            #![trigger a.key.0.subrange(a_start, a_end), b.key.0.subrange(b_start, b_end)]
            0 <= a_start < a_end <= a.key.0.len() && (a_start == 0 || a.key.0[a_start - 1] == '-')
                && (a_end == a.key.0.len() || a.key.0[a_end] == '-') && 0 <= b_start < b_end
                <= b.key.0.len() && (b_start == 0 || b.key.0[b_start - 1] == '-') && (b_end
                == b.key.0.len() || b.key.0[b_end] == '-') ==> a.key.0.subrange(a_start, a_end)
                != b.key.0.subrange(b_start, b_end),
        forall|name: Seq<char>, start: int, end: int|
            #![trigger name.subrange(start, end)]
            (name == a.key.0 || name == b.key.0) && 0 <= start < end <= name.len() && (start == 0
                || name[start - 1] == '-') && (end == name.len() || name[end] == '-') ==> {
                let word = name.subrange(start, end);
                &&& word != "inline"@
                &&& word != "block"@
                &&& word != "start"@
                &&& word != "end"@
                &&& word != "before"@
                &&& word != "after"@
                &&& word != "logical"@
            },
    ensures
        !related(a, b),
{
    lemma_bound(a, b);
    lemma_clash(a, b);
    if parts_meet(a.key.0, b.key.0) {
        let word = choose|word: Seq<char>|
            #[trigger] has_part(a.key.0, word) && has_part(b.key.0, word);
        let (a_start, a_end) = choose|start: int, end: int|
            #[trigger] is_part(a.key.0, start, end) && a.key.0.subrange(start, end) == word;
        let (b_start, b_end) = choose|start: int, end: int|
            #[trigger] is_part(b.key.0, start, end) && b.key.0.subrange(start, end) == word;
        assert(a.key.0.subrange(a_start, a_end) == b.key.0.subrange(b_start, b_end));
    }
    assert forall|name: Seq<char>, word: Seq<char>|
        (name == a.key.0 || name == b.key.0) && #[trigger] has_part(name, word) implies word
        != "inline"@ && word != "block"@ && word != "start"@ && word != "end"@ && word != "before"@
        && word != "after"@ && word != "logical"@ by {
        let (start, end) = choose|start: int, end: int|
            #[trigger] is_part(name, start, end) && name.subrange(start, end) == word;
        assert(name.subrange(start, end) == word);
    }
}

/// Properties may have to do with each other exactly if they conflict, they have
/// the same name under whatever prefix, their names have a part in common, or a
/// part of either name depends on the writing mode.
pub proof fn law_relations_have_a_reason(a: PropertyIdView, b: PropertyIdView)
    ensures
        related(a, b) <==> {
            ||| clash(a, b)
            ||| a.key.0 == b.key.0
            ||| parts_meet(a.key.0, b.key.0)
            ||| speaks_of_flow(a.key.0)
            ||| speaks_of_flow(b.key.0)
        },
        may_be_logical(a.key.0) <==> speaks_of_flow(a.key.0),
{
    lemma_bound(a, b);
    lemma_speaks_of_flow(a.key.0);
}

/// Declarations are joined exactly where no browser, no feature and no CSS
/// modules are set.
pub proof fn law_declarations_are_joined_without_targets(context: MinifyContext)
    ensures
        may_reuse(context) <==> context.targets.current.browsers is None
            && context.targets.current.included == 0 && context.targets.current.excluded == 0
            && !context.css_modules,
{
}

/// A media query that no table has an entry for is its own key.
pub proof fn law_query_without_entries_is_its_own_key(
    query: Seq<char>,
    loc: Location,
    context: MinifyContext,
)
    requires
        context.custom_media matches Some(custom) ==> forall|i: int|
            0 <= i < custom.rewrites@.len() ==> (#[trigger] custom.rewrites@[i]).query.text@
                != query,
        forall|i: int|
            0 <= i < context.resolutions.rewrites@.len() ==> !((
            #[trigger] context.resolutions.rewrites@[i]).targets == context.targets.current
                && context.resolutions.rewrites@[i].query.text@ == query),
    ensures
        media_key(query, loc, context) == Ok::<Seq<char>, MinifyError>(query),
{
    lemma_listed(query, loc, context);
    if let Some(custom) = context.custom_media {
        assert forall|i: int| !#[trigger] first_custom(custom, query, i) by {}
    }
    assert forall|i: int|
        !#[trigger] first_resolution(context.resolutions, context.targets.current, query, i) by {}
}

/// The first entry of the custom media for a query decides what becomes of it:
/// its reason is the error, at the location given, or its list goes on.
pub proof fn law_first_custom_media_entry_decides(
    query: Seq<char>,
    loc: Location,
    context: MinifyContext,
    i: int,
)
    requires
        context.custom_media is Some,
        0 <= i < context.custom_media->Some_0.rewrites@.len(),
        context.custom_media->Some_0.rewrites@[i].query.text@ == query,
        forall|j: int|
            0 <= j < i ==> (
            #[trigger] context.custom_media->Some_0.rewrites@[j]).query.text@ != query,
    ensures
        match context.custom_media->Some_0.rewrites@[i].outcome {
            Err(kind) => media_key(query, loc, context) == Err::<Seq<char>, MinifyError>(
                MinifyError { kind, loc },
            ),
            Ok(list) => media_key(query, loc, context) == media_key(
                list.text@,
                loc,
                MinifyContext { custom_media: None, ..context },
            ),
        },
{
    let custom = context.custom_media->Some_0;
    let bare = MinifyContext { custom_media: None, ..context };
    assert(first_custom(custom, query, i));
    assert forall|j: int| #[trigger] first_custom(custom, query, j) implies j == i by {
        lemma_one_first(custom, query, i, j);
    }
    lemma_listed(query, loc, context);
    if let Ok(list) = custom.rewrites@[i].outcome {
        lemma_listed(list.text@, loc, bare);
    }
}

/// A query that the custom media have no entry for is treated as without them.
pub proof fn law_query_without_custom_media_entry(
    query: Seq<char>,
    loc: Location,
    context: MinifyContext,
)
    requires
        context.custom_media matches Some(custom) ==> forall|i: int|
            0 <= i < custom.rewrites@.len() ==> (#[trigger] custom.rewrites@[i]).query.text@
                != query,
    ensures
        media_key(query, loc, context) == media_key(
            query,
            loc,
            MinifyContext { custom_media: None, ..context },
        ),
        media_key(query, loc, context) is Ok,
{
    lemma_listed(query, loc, context);
    lemma_listed(query, loc, MinifyContext { custom_media: None, ..context });
    if let Some(custom) = context.custom_media {
        assert forall|i: int| !#[trigger] first_custom(custom, query, i) by {}
    }
}

/// Without custom media, the first resolution entry for the query and the
/// current targets gives the key.
pub proof fn law_first_resolution_entry_decides(
    query: Seq<char>,
    loc: Location,
    context: MinifyContext,
    i: int,
)
    requires
        context.custom_media is None,
        0 <= i < context.resolutions.rewrites@.len(),
        context.resolutions.rewrites@[i].targets == context.targets.current,
        context.resolutions.rewrites@[i].query.text@ == query,
        forall|j: int|
            0 <= j < i ==> !((#[trigger] context.resolutions.rewrites@[j]).targets
                == context.targets.current && context.resolutions.rewrites@[j].query.text@
                == query),
    ensures
        media_key(query, loc, context) == Ok::<Seq<char>, MinifyError>(
            context.resolutions.rewrites@[i].replacement.text@,
        ),
{
    lemma_listed(query, loc, context);
    assert(first_resolution(context.resolutions, context.targets.current, query, i));
    let k = choose|k: int|
        first_resolution(context.resolutions, context.targets.current, query, k);
    if i < k {
        assert(context.resolutions.rewrites@[i].targets == context.targets.current);
    }
    if k < i {
        assert(context.resolutions.rewrites@[k].targets == context.targets.current);
    }
}

/// Two `@media` rules of which the tables make different lists can never be
/// merged, and never become one node.
pub proof fn law_different_lists_are_never_merged<T>(
    node: TreeView<T>,
    first: RuleView<T>,
    second: RuleView<T>,
    dedupe: bool,
    context: MinifyContext,
)
    requires
        first is AtRule && first->prelude is Media,
        second is AtRule && second->prelude is Media,
        refusal(first->prelude->Media_0, context) is None,
        refusal(second->prelude->Media_0, context) is None,
        listed(first->prelude->Media_0, context) != listed(second->prelude->Media_0, context),
    ensures
        adjacent(first, second, context) == Ok::<bool, MinifyError>(false),
        ({
            let between = node.insert_rule(first, dedupe, context).0;
            let after = between.insert_rule(second, dedupe, context).0;
            after.items.len() == between.items.len() + 1
        }),
{
    lemma_rule_step(first, context);
    lemma_rule_step(second, context);
    lemma_listed(first->prelude->Media_0, first->AtRule_loc, context);
    lemma_listed(second->prelude->Media_0, second->AtRule_loc, context);
    let key = at_rule_key(first->prelude, first->AtRule_loc, context)->Ok_0;
    let reuse = node.ends_with(key);
    let child = node.target(reuse, key, first->AtRule_loc).with_query(first->prelude);
    let rules = first->AtRule_rules;
    lemma_insert_list_keeps_head(child, rules, rules.len(), dedupe, context);
}

/// Whether no table has an entry for the query.
pub open spec fn has_no_entry(query: Seq<char>, context: MinifyContext) -> bool {
    &&& context.custom_media is None
    &&& forall|i: int|
        0 <= i < context.resolutions.rewrites@.len() ==> (
        #[trigger] context.resolutions.rewrites@[i]).query.text@ != query
}

/// Without entries in the tables, an `@media` rule stands for its query, and two
/// with different queries can never be merged and never become one node. With the
/// same query they can, and do.
pub proof fn law_queries_are_told_apart<T>(
    node: TreeView<T>,
    first: RuleView<T>,
    second: RuleView<T>,
    dedupe: bool,
    context: MinifyContext,
)
    requires
        first is AtRule && first->prelude is Media,
        second is AtRule && second->prelude is Media,
        has_no_entry(first->prelude->Media_0, context),
        has_no_entry(second->prelude->Media_0, context),
    ensures
        step(first->prelude, context) == KeyView::AtRule(first->prelude),
        adjacent(first, second, context) == Ok::<bool, MinifyError>(
            first->prelude->Media_0 == second->prelude->Media_0,
        ),
        ({
            let between = node.insert_rule(first, dedupe, context).0;
            let after = between.insert_rule(second, dedupe, context).0;
            if first->prelude->Media_0 == second->prelude->Media_0 {
                after.items.len() == between.items.len()
            } else {
                after.items.len() == between.items.len() + 1
            }
        }),
{
    law_query_without_entries_is_its_own_key(
        first->prelude->Media_0,
        first->AtRule_loc,
        context,
    );
    law_query_without_entries_is_its_own_key(
        second->prelude->Media_0,
        second->AtRule_loc,
        context,
    );
    lemma_listed(first->prelude->Media_0, first->AtRule_loc, context);
    let key = at_rule_key(first->prelude, first->AtRule_loc, context)->Ok_0;
    let reuse = node.ends_with(key);
    let child = node.target(reuse, key, first->AtRule_loc).with_query(first->prelude);
    let rules = first->AtRule_rules;
    lemma_insert_list_keeps_head(child, rules, rules.len(), dedupe, context);
}

/// Two at-rules that are not both `@media` rules can be merged, and become one
/// node, exactly if they are of the same kind and have the same prelude.
pub proof fn law_preludes_are_told_apart<T>(
    node: TreeView<T>,
    first: RuleView<T>,
    second: RuleView<T>,
    dedupe: bool,
    context: MinifyContext,
)
    requires
        first is AtRule,
        second is AtRule,
        first->prelude !is Media,
    ensures
        adjacent(first, second, context) == Ok::<bool, MinifyError>(
            first->prelude == second->prelude,
        ),
        ({
            let between = node.insert_rule(first, dedupe, context).0;
            let (after, result) = between.insert_rule(second, dedupe, context);
            if first->prelude == second->prelude {
                after.items.len() == between.items.len()
            } else {
                after.items.len() == between.items.len() + 1 || (second->prelude is Media && result
                    is Err && after == between)
            }
        }),
{
    let key = at_rule_key(first->prelude, first->AtRule_loc, context)->Ok_0;
    let reuse = node.ends_with(key);
    let child = node.target(reuse, key, first->AtRule_loc).with_query(first->prelude);
    let rules = first->AtRule_rules;
    lemma_insert_list_keeps_head(child, rules, rules.len(), dedupe, context);
}

/// Two style rules can be merged only if they have the same selectors, the same
/// prefixes and the same source, and do not become one node otherwise. If they
/// have, and nothing is set, or one of them has no declarations, they can.
pub proof fn law_styles_are_told_apart<T>(
    node: TreeView<T>,
    first: RuleView<T>,
    second: RuleView<T>,
    dedupe: bool,
    context: MinifyContext,
)
    requires
        first is Style,
        second is Style,
    ensures
        ({
            let same = first->selectors == second->selectors && first->vendor_prefix.bits
                == second->vendor_prefix.bits && first->Style_loc.source_index
                == second->Style_loc.source_index;
            let unset = context.targets.current.browsers is None
                && context.targets.current.included == 0 && context.targets.current.excluded == 0
                && !context.css_modules;
            let first_bare = first->Style_block.normal.len() == 0
                && first->Style_block.important.len() == 0;
            let second_bare = second->Style_block.normal.len() == 0
                && second->Style_block.important.len() == 0;
            let between = node.insert_rule(first, dedupe, context).0;
            let after = between.insert_rule(second, dedupe, context).0;
            &&& adjacent(first, second, context) == Ok::<bool, MinifyError>(
                same && (unset || first_bare || second_bare),
            )
            &&& !same ==> after.items.len() == between.items.len() + 1
            &&& same && (unset || second_bare) ==> after.items.len() == between.items.len()
        }),
{
    let key = KeyView::Selector {
        selectors: first->selectors,
        vendor_prefix: first->vendor_prefix,
        source_index: first->Style_loc.source_index,
    };
    let block = first->Style_block;
    let reuse = node.reuses_style(key, block, context);
    let child = node.target(reuse, key, first->Style_loc).with_block(block, dedupe);
    let rules = first->Style_rules;
    lemma_insert_list_keeps_head(child, rules, rules.len(), dedupe, context);
}

/// A rule of another kind merges with nothing, and a style rule never with an
/// at-rule: behind such a rule, one of a different kind becomes an item of its
/// own.
pub proof fn law_kinds_are_told_apart<T>(
    node: TreeView<T>,
    first: RuleView<T>,
    second: RuleView<T>,
    dedupe: bool,
    context: MinifyContext,
)
    requires
        !(first is AtRule && second is AtRule),
        !(first is Style && second is Style),
    ensures
        adjacent(first, second, context) == Ok::<bool, MinifyError>(false),
        ({
            let between = node.insert_rule(first, dedupe, context);
            let after = between.0.insert_rule(second, dedupe, context);
            first !is NestedDeclarations && between.1 is Ok && second !is NestedDeclarations
                && after.1 is Ok ==> after.0.items.len() == between.0.items.len() + 1
        }),
{
    match first {
        RuleView::AtRule { prelude, rules, loc } => {
            if let Ok(key) = at_rule_key(prelude, loc, context) {
                let child = node.target(node.ends_with(key), key, loc).with_query(prelude);
                lemma_insert_list_keeps_head(child, rules, rules.len(), dedupe, context);
            }
        },
        RuleView::Style { selectors, vendor_prefix, block, rules, loc } => {
            let key = KeyView::Selector {
                selectors,
                vendor_prefix,
                source_index: loc.source_index,
            };
            let reuse = node.reuses_style(key, block, context);
            let child = node.target(reuse, key, loc).with_block(block, dedupe);
            lemma_insert_list_keeps_head(child, rules, rules.len(), dedupe, context);
        },
        _ => {},
    }
}

/// The first of the rules that become one node gives it its location and, of an
/// `@media` node, the query. That holds whether or not the rule says anything.
pub proof fn law_first_rule_gives_the_node_its_head<T>(
    node: TreeView<T>,
    rule: RuleView<T>,
    dedupe: bool,
    context: MinifyContext,
)
    requires
        rule is AtRule || rule is Style,
        node.insert_rule(rule, dedupe, context).1 is Ok,
        forall|i: int|
            0 <= i < node.items.len() ==> ((#[trigger] node.items[i]) matches ItemView::Child(child)
                ==> (child.media_query is Some <==> child.key is Some && child.key->Some_0 is AtRule
                && child.key->Some_0->AtRule_0 is Media)),
    ensures
        ({
            let after = node.insert_rule(rule, dedupe, context).0;
            let child = after.items.last()->Child_0;
            &&& after.items.len() > 0
            &&& after.items.last() is Child
            &&& after.items.len() == node.items.len() ==> {
                let old_child = node.items.last()->Child_0;
                &&& node.items.last() is Child
                &&& child.key == old_child.key
                &&& child.loc == old_child.loc
                &&& child.media_query == old_child.media_query
            }
            &&& after.items.len() > node.items.len() ==> match rule {
                RuleView::AtRule { prelude, rules: _, loc } => {
                    &&& child.loc == loc
                    &&& child.key is Some && child.key->Some_0 is AtRule
                    &&& prelude !is Media ==> child.key->Some_0->AtRule_0 == prelude
                        && child.media_query is None
                    &&& prelude is Media ==> child.key->Some_0->AtRule_0 is Media
                        && child.media_query == Some(prelude->Media_0)
                },
                RuleView::Style { selectors, vendor_prefix, block: _, rules: _, loc } => {
                    &&& child.loc == loc
                    &&& child.key is Some && child.key->Some_0 is Selector
                    &&& child.key->Some_0->selectors == selectors
                    &&& child.key->Some_0->vendor_prefix == vendor_prefix
                    &&& child.key->Some_0->source_index == loc.source_index
                    &&& child.media_query is None
                },
                _ => true,
            }
        }),
{
    if node.items.len() > 0 {
        assert(node.items[node.items.len() - 1] == node.items.last());
    }
    match rule {
        RuleView::AtRule { prelude, rules, loc } => {
            let key = at_rule_key(prelude, loc, context)->Ok_0;
            let child = node.target(node.ends_with(key), key, loc).with_query(prelude);
            lemma_insert_list_keeps_head(child, rules, rules.len(), dedupe, context);
        },
        RuleView::Style { selectors, vendor_prefix, block, rules, loc } => {
            let key = KeyView::Selector {
                selectors,
                vendor_prefix,
                source_index: loc.source_index,
            };
            let reuse = node.reuses_style(key, block, context);
            let child = node.target(reuse, key, loc).with_block(block, dedupe);
            lemma_insert_list_keeps_head(child, rules, rules.len(), dedupe, context);
        },
        _ => {},
    }
}

/// A node that takes in what another holds keeps its head, and a node that comes
/// to stand behind its items has the head that it had.
pub proof fn law_taken_in_nodes_keep_their_head<T>(
    node: TreeView<T>,
    other: TreeView<T>,
    count: nat,
)
    requires
        0 < count <= other.items.len(),
    ensures
        ({
            let before = node.take_in(other, (count - 1) as nat);
            let after = node.take_in(other, count);
            let child = after.items.last()->Child_0;
            &&& after.key == node.key
            &&& after.loc == node.loc
            &&& after.media_query == node.media_query
            &&& other.items[count - 1] is Child ==> {
                let head = if after.items.len() > before.items.len() {
                    other.items[count - 1]->Child_0
                } else {
                    before.items.last()->Child_0
                };
                &&& after.items.len() > 0
                &&& after.items.last() is Child
                &&& child.key == head.key
                &&& child.loc == head.loc
                &&& child.media_query == head.media_query
            }
        }),
{
    let before = node.take_in(other, (count - 1) as nat);
    lemma_take_in_keeps_head(node, other, count);
    if let ItemView::Child(child) = other.items[count - 1] {
        let reuse = before.ends_like(child);
        let target = if reuse {
            before.items.last()->Child_0
        } else {
            child.hollow()
        };
        lemma_take_in_keeps_head(target, child, child.items.len());
    }
}

/// A node is printed as a rule with its location, with the selectors and prefixes
/// or the at-rule that it stands for, and an `@media` node with the query that it
/// was given. It is not printed if it has no selectors, or holds nothing that is
/// printed.
pub proof fn law_nodes_are_printed_with_their_head<T>(node: TreeView<T>)
    ensures
        match node.print() {
            None => {
                ||| node.key is None
                ||| node.print_all().len() == 0
                ||| node.key->Some_0 is Selector && node.key->Some_0->selectors.len() == 0
            },
            Some(RuleView::AtRule { prelude, rules, loc }) => {
                &&& node.key is Some && node.key->Some_0 is AtRule
                &&& loc == node.loc
                &&& rules == node.print_all()
                &&& if node.key->Some_0->AtRule_0 is Media && node.media_query is Some {
                    prelude == AtRuleView::Media(node.media_query->Some_0)
                } else {
                    prelude == node.key->Some_0->AtRule_0
                }
            },
            Some(RuleView::Style { selectors, vendor_prefix, block: _, rules: _, loc }) => {
                &&& node.key is Some && node.key->Some_0 is Selector
                &&& loc == node.loc
                &&& selectors == node.key->Some_0->selectors
                &&& vendor_prefix == node.key->Some_0->vendor_prefix
            },
            _ => false,
        },
{
    let printed = node.print_all();
    lemma_items_written(node, node.items.len());
    assert(printed == node.print_items(node.items.len()));
    lemma_leading_ends(printed);
    if leading(printed) > 0 {
        assert(written(printed[0], node.loc));
        lemma_leading_block_full(printed, leading(printed));
    }
}

/// A block is empty exactly if it has no declaration of either importance.
pub proof fn law_empty_blocks_hold_nothing(block: BlockView)
    ensures
        block.is_empty() <==> block.normal.len() == 0 && block.important.len() == 0,
{
}

/// Whether two rules can be merged, the second right behind the first, where
/// their queries can be normalized.
pub open spec fn joinable<T>(a: RuleView<T>, b: RuleView<T>, context: MinifyContext) -> bool {
    ||| a is AtRule && b is AtRule && step(a->prelude, context) == step(b->prelude, context)
    ||| {
        &&& a is Style
        &&& b is Style
        &&& a->selectors == b->selectors
        &&& a->vendor_prefix.bits == b->vendor_prefix.bits
        &&& a->Style_loc.source_index == b->Style_loc.source_index
        &&& untargeted(context) || silent(a->Style_block) || silent(b->Style_block)
    }
}

/// The answer for two rules, the second right behind the first: the error of the
/// first of two media queries that cannot be normalized, or whether the rules
/// can be merged.
pub open spec fn verdict<T>(
    pair: (RuleView<T>, RuleView<T>),
    context: MinifyContext,
) -> Result<bool, MinifyError> {
    let (a, b) = pair;
    let both = a is AtRule && b is AtRule && a->prelude is Media && b->prelude is Media;
    if both && query_error(a->prelude, a->AtRule_loc, context) is Some {
        Err(query_error(a->prelude, a->AtRule_loc, context)->Some_0)
    } else if both && query_error(b->prelude, b->AtRule_loc, context) is Some {
        Err(query_error(b->prelude, b->AtRule_loc, context)->Some_0)
    } else {
        Ok(joinable(a, b, context))
    }
}

/// Two neighbours are answered for by what they wrap their rules in, or by their
/// selectors, prefixes and sources.
pub proof fn law_neighbours_are_judged_by_what_they_are<T>(
    a: RuleView<T>,
    b: RuleView<T>,
    context: MinifyContext,
)
    ensures
        adjacent(a, b, context) == verdict((a, b), context),
{
    lemma_rule_step(a, context);
    lemma_rule_step(b, context);
    if a is AtRule && a->prelude is Media {
        lemma_listed(a->prelude->Media_0, a->AtRule_loc, context);
    }
    if b is AtRule && b->prelude is Media {
        lemma_listed(b->prelude->Media_0, b->AtRule_loc, context);
    }
}

/// The neighbours in a list, from `start` on.
pub open spec fn own_pairs<T>(rules: Seq<RuleView<T>>, start: int) -> Seq<
    (RuleView<T>, RuleView<T>),
>
    decreases rules.len() - start,
{
    if start < 0 || start + 1 >= rules.len() {
        seq![]
    } else {
        seq![(rules[start], rules[start + 1])] + own_pairs(rules, start + 1)
    }
}

/// The neighbours in the lists nested in the rules from `start` on, list by list.
pub open spec fn inner_pairs<T>(rules: Seq<RuleView<T>>, start: int) -> Seq<
    (RuleView<T>, RuleView<T>),
>
    decreases rules, 0nat, rules.len() - start,
{
    if start < 0 || start >= rules.len() {
        seq![]
    } else {
        (match rules[start] {
            RuleView::AtRule { prelude: _, rules: nested, loc: _ } => pairs(nested),
            RuleView::Style {
                selectors: _,
                vendor_prefix: _,
                block: _,
                rules: nested,
                loc: _,
            } => pairs(nested),
            _ => seq![],
        }) + inner_pairs(rules, start + 1)
    }
}

/// All neighbours at any depth, in the order in which they are asked about: a
/// list's own before those of the lists in it.
pub open spec fn pairs<T>(rules: Seq<RuleView<T>>) -> Seq<(RuleView<T>, RuleView<T>)>
    decreases rules, 1nat, 0int,
{
    own_pairs(rules, 0) + inner_pairs(rules, 0)
}

/// The first answer other than "no" among the pairs from `start` on.
spec fn first_answer<T>(
    list: Seq<(RuleView<T>, RuleView<T>)>,
    context: MinifyContext,
    start: int,
) -> Result<bool, MinifyError>
    decreases list.len() - start,
{
    if start < 0 || start >= list.len() {
        Ok(false)
    } else if verdict(list[start], context) != Ok::<bool, MinifyError>(false) {
        verdict(list[start], context)
    } else {
        first_answer(list, context, start + 1)
    }
}

proof fn lemma_first_answer_tail<T>(
    a: Seq<(RuleView<T>, RuleView<T>)>,
    b: Seq<(RuleView<T>, RuleView<T>)>,
    context: MinifyContext,
    start: int,
)
    requires
        0 <= start,
    ensures
        first_answer(a + b, context, a.len() + start) == first_answer(b, context, start),
    decreases b.len() - start,
{
    if start < b.len() {
        assert((a + b)[a.len() + start] == b[start]);
        lemma_first_answer_tail(a, b, context, start + 1);
    }
}

proof fn lemma_first_answer_concat<T>(
    a: Seq<(RuleView<T>, RuleView<T>)>,
    b: Seq<(RuleView<T>, RuleView<T>)>,
    context: MinifyContext,
    start: int,
)
    requires
        0 <= start <= a.len(),
    ensures
        first_answer(a + b, context, start) == (if first_answer(a, context, start) != Ok::<
            bool,
            MinifyError,
        >(false) {
            first_answer(a, context, start)
        } else {
            first_answer(b, context, 0)
        }),
    decreases a.len() - start,
{
    if start < a.len() {
        assert((a + b)[start] == a[start]);
        lemma_first_answer_concat(a, b, context, start + 1);
    } else {
        lemma_first_answer_tail(a, b, context, 0);
    }
}

proof fn lemma_own_answer<T>(rules: Seq<RuleView<T>>, start: int, context: MinifyContext)
    requires
        0 <= start,
    ensures
        neighbours_from(rules, start, context) == first_answer(
            own_pairs(rules, start),
            context,
            0,
        ),
    decreases rules.len() - start,
{
    if start + 1 < rules.len() {
        let one = seq![(rules[start], rules[start + 1])];
        law_neighbours_are_judged_by_what_they_are(rules[start], rules[start + 1], context);
        lemma_own_answer(rules, start + 1, context);
        lemma_first_answer_concat(one, own_pairs(rules, start + 1), context, 0);
        assert(one[0] == (rules[start], rules[start + 1]));
        assert(first_answer(one, context, 1) == Ok::<bool, MinifyError>(false));
    }
}

proof fn lemma_inner_answer<T>(rules: Seq<RuleView<T>>, start: int, context: MinifyContext)
    requires
        0 <= start,
    ensures
        nested_from(rules, start, context) == first_answer(
            inner_pairs(rules, start),
            context,
            0,
        ),
    decreases rules, 0nat, rules.len() - start,
{
    if start < rules.len() {
        lemma_inner_answer(rules, start + 1, context);
        let rest = inner_pairs(rules, start + 1);
        match rules[start] {
            RuleView::AtRule { prelude: _, rules: nested, loc: _ } => {
                lemma_answer(nested, context);
                lemma_first_answer_concat(pairs(nested), rest, context, 0);
            },
            RuleView::Style {
                selectors: _,
                vendor_prefix: _,
                block: _,
                rules: nested,
                loc: _,
            } => {
                lemma_answer(nested, context);
                lemma_first_answer_concat(pairs(nested), rest, context, 0);
            },
            _ => {
                assert(seq![] + rest =~= rest);
            },
        }
    }
}

proof fn lemma_answer<T>(rules: Seq<RuleView<T>>, context: MinifyContext)
    ensures
        mergeable(rules, context) == first_answer(pairs(rules), context, 0),
    decreases rules, 1nat, 0int,
{
    lemma_own_answer(rules, 0, context);
    lemma_inner_answer(rules, 0, context);
    lemma_first_answer_concat(own_pairs(rules, 0), inner_pairs(rules, 0), context, 0);
}

proof fn lemma_first_answer_at<T>(
    list: Seq<(RuleView<T>, RuleView<T>)>,
    context: MinifyContext,
    start: int,
    at: int,
)
    requires
        0 <= start <= at <= list.len(),
        forall|i: int|
            start <= i < at ==> verdict(#[trigger] list[i], context) == Ok::<bool, MinifyError>(
                false,
            ),
        at < list.len() ==> verdict(list[at], context) != Ok::<bool, MinifyError>(false),
    ensures
        first_answer(list, context, start) == (if at < list.len() {
            verdict(list[at], context)
        } else {
            Ok(false)
        }),
    decreases at - start,
{
    if start < at {
        assert(verdict(list[start], context) == Ok::<bool, MinifyError>(false));
        lemma_first_answer_at(list, context, start + 1, at);
    }
}

/// Whether a list is merged at all is the first answer other than "no" among its
/// neighbours at any depth, in order: "no" where all are, else that of pair `at`
/// where all in front of it are "no".
pub proof fn law_first_answer_decides<T>(
    rules: Seq<RuleView<T>>,
    context: MinifyContext,
    at: int,
)
    requires
        0 <= at <= pairs(rules).len(),
        forall|i: int|
            0 <= i < at ==> verdict(#[trigger] pairs(rules)[i], context) == Ok::<
                bool,
                MinifyError,
            >(false),
        at < pairs(rules).len() ==> verdict(pairs(rules)[at], context) != Ok::<bool, MinifyError>(
            false,
        ),
    ensures
        mergeable(rules, context) == (if at < pairs(rules).len() {
            verdict(pairs(rules)[at], context)
        } else {
            Ok(false)
        }),
{
    lemma_answer(rules, context);
    lemma_first_answer_at(pairs(rules), context, 0, at);
}

/// Whether the second rule goes into the node of the first whatever that holds:
/// the two can be merged and, with targets, the second is no style rule with
/// declarations.
pub open spec fn goes_together<T>(
    first: RuleView<T>,
    second: RuleView<T>,
    context: MinifyContext,
) -> bool {
    &&& verdict((first, second), context) == Ok::<bool, MinifyError>(true)
    &&& untargeted(context) || second is AtRule || silent(second->Style_block)
}

/// How many of the first `count` rules go together with the one in front.
pub open spec fn together<T>(
    rules: Seq<RuleView<T>>,
    count: nat,
    context: MinifyContext,
) -> nat
    decreases count,
{
    if count <= 1 || count > rules.len() {
        0
    } else {
        together(rules, (count - 1) as nat, context) + if goes_together(
            rules[count - 2],
            rules[count - 1],
            context,
        ) {
            1nat
        } else {
            0
        }
    }
}

proof fn lemma_together<T>(
    rules: Seq<RuleView<T>>,
    count: nat,
    dedupe: bool,
    context: MinifyContext,
)
    requires
        TreeView::<T>::root().insert_rules(rules, count, dedupe, context).1 is Ok,
        count <= rules.len(),
    ensures
        TreeView::<T>::root().insert_rules(rules, count, dedupe, context).0.items.len() + together(
            rules,
            count,
            context,
        ) <= count,
    decreases count,
{
    let root = TreeView::<T>::root();
    if count > 0 {
        let shorter = (count - 1) as nat;
        let before = root.insert_rules(rules, shorter, dedupe, context).0;
        lemma_together(rules, shorter, dedupe, context);
        law_only_the_last_item_changes(before, rules[count - 1], dedupe, context);
        if count > 1 && goes_together(rules[count - 2], rules[count - 1], context) {
            let earlier = root.insert_rules(rules, (shorter - 1) as nat, dedupe, context).0;
            assert(before == earlier.insert_rule(rules[shorter - 1], dedupe, context).0);
            law_neighbours_are_judged_by_what_they_are(
                rules[count - 2],
                rules[count - 1],
                context,
            );
            law_neighbours_become_one_node(
                earlier,
                rules[count - 2],
                rules[count - 1],
                dedupe,
                context,
            );
        }
    }
}

proof fn lemma_not_together<T>(rules: Seq<RuleView<T>>, count: nat, context: MinifyContext)
    requires
        count <= rules.len(),
        neighbours_from(rules, 0, context) == Ok::<bool, MinifyError>(false),
    ensures
        together(rules, count, context) == 0,
    decreases count,
{
    if count > 1 {
        lemma_not_together(rules, (count - 1) as nat, context);
        lemma_no_answer(rules, 0, count - 2, context);
        law_neighbours_are_judged_by_what_they_are(rules[count - 2], rules[count - 1], context);
    }
}

proof fn lemma_no_answer<T>(
    rules: Seq<RuleView<T>>,
    start: int,
    place: int,
    context: MinifyContext,
)
    requires
        0 <= start <= place < rules.len() - 1,
        neighbours_from(rules, start, context) == Ok::<bool, MinifyError>(false),
    ensures
        adjacent(rules[place], rules[place + 1], context) == Ok::<bool, MinifyError>(false),
    decreases place - start,
{
    if start < place {
        lemma_no_answer(rules, start + 1, place, context);
    }
}

/// Merging makes a list shorter by at least as many rules as go together with the
/// one in front, whatever else the list holds.
pub proof fn law_rules_that_go_together_are_merged<T>(
    rules: Seq<RuleView<T>>,
    context: MinifyContext,
)
    requires
        !context.css_modules,
        merged(rules, context).0 is Ok,
    ensures
        merged(rules, context).1.len() + together(rules, rules.len(), context) <= rules.len(),
{
    if mergeable(rules, context) == Ok::<bool, MinifyError>(true) {
        let tree = rule_tree(rules, context).0;
        let printed = finished(tree, context);
        lemma_together(rules, rules.len(), may_reuse(context), context);
        lemma_takes_no_more(tree.hollow(), tree, tree.items.len());
        lemma_no_more_rules(printed, printed.items.len());
    } else {
        lemma_not_together(rules, rules.len(), context);
    }
}

/// The at-rules in the first `count` rules and in those nested in them, in source
/// order, with their locations.
pub open spec fn at_rules<T>(rules: Seq<RuleView<T>>, count: nat) -> Seq<(AtRuleView, Location)>
    decreases rules, count,
{
    if count == 0 || count > rules.len() {
        seq![]
    } else {
        at_rules(rules, (count - 1) as nat) + at_rules_of(rules[count - 1])
    }
}

/// The at-rules that the rule is or holds, in source order, with their
/// locations.
pub open spec fn at_rules_of<T>(rule: RuleView<T>) -> Seq<(AtRuleView, Location)>
    decreases rule, 0nat,
{
    match rule {
        RuleView::AtRule { prelude, rules, loc } => seq![(prelude, loc)] + at_rules(
            rules,
            rules.len(),
        ),
        RuleView::Style { selectors: _, vendor_prefix: _, block: _, rules, loc: _ } => at_rules(
            rules,
            rules.len(),
        ),
        _ => seq![],
    }
}

/// The first error among the first `count` at-rules.
spec fn outcome_of(
    list: Seq<(AtRuleView, Location)>,
    count: nat,
    context: MinifyContext,
) -> Result<(), MinifyError>
    decreases count,
{
    if count == 0 || count > list.len() {
        Ok(())
    } else {
        let before = outcome_of(list, (count - 1) as nat, context);
        if before is Err {
            before
        } else {
            match query_error(list[count - 1].0, list[count - 1].1, context) {
                Some(error) => Err(error),
                None => Ok(()),
            }
        }
    }
}

proof fn lemma_outcome_prefix(
    a: Seq<(AtRuleView, Location)>,
    b: Seq<(AtRuleView, Location)>,
    count: nat,
    context: MinifyContext,
)
    requires
        count <= a.len(),
    ensures
        outcome_of(a + b, count, context) == outcome_of(a, count, context),
    decreases count,
{
    if count > 0 {
        lemma_outcome_prefix(a, b, (count - 1) as nat, context);
        assert((a + b)[count - 1] == a[count - 1]);
    }
}

proof fn lemma_outcome_concat(
    a: Seq<(AtRuleView, Location)>,
    b: Seq<(AtRuleView, Location)>,
    count: nat,
    context: MinifyContext,
)
    requires
        count <= b.len(),
    ensures
        outcome_of(a + b, a.len() + count, context) == (if outcome_of(a, a.len(), context) is Err {
            outcome_of(a, a.len(), context)
        } else {
            outcome_of(b, count, context)
        }),
    decreases count,
{
    if count == 0 {
        lemma_outcome_prefix(a, b, a.len(), context);
        lemma_outcome_unit(a, a.len(), context);
    } else {
        lemma_outcome_concat(a, b, (count - 1) as nat, context);
        assert((a + b)[a.len() + count - 1] == b[count - 1]);
    }
}

proof fn lemma_outcome_unit(list: Seq<(AtRuleView, Location)>, count: nat, context: MinifyContext)
    ensures
        outcome_of(list, count, context) is Ok ==> outcome_of(list, count, context) == Ok::<
            (),
            MinifyError,
        >(()),
    decreases count,
{
    if count > 0 {
        lemma_outcome_unit(list, (count - 1) as nat, context);
    }
}

proof fn lemma_rule_outcome<T>(
    node: TreeView<T>,
    rule: RuleView<T>,
    dedupe: bool,
    context: MinifyContext,
)
    ensures
        node.insert_rule(rule, dedupe, context).1 == outcome_of(
            at_rules_of(rule),
            at_rules_of(rule).len(),
            context,
        ),
    decreases rule, 0nat,
{
    lemma_rule_step(rule, context);
    match rule {
        RuleView::AtRule { prelude, rules, loc } => {
            let own = seq![(prelude, loc)];
            let nested = at_rules(rules, rules.len());
            lemma_outcome_concat(own, nested, nested.len(), context);
            assert(outcome_of(own, 0, context) == Ok::<(), MinifyError>(()));
            assert(own[0] == (prelude, loc));
            assert(outcome_of(own, 1, context) == (match query_error(prelude, loc, context) {
                Some(error) => Err(error),
                None => Ok(()),
            }));
            if let Ok(key) = at_rule_key(prelude, loc, context) {
                let reuse = node.ends_with(key);
                let child = node.target(reuse, key, loc).with_query(prelude);
                lemma_list_outcome(child, rules, rules.len(), dedupe, context);
            }
        },
        RuleView::Style { selectors, vendor_prefix, block, rules, loc } => {
            let key = KeyView::Selector {
                selectors,
                vendor_prefix,
                source_index: loc.source_index,
            };
            let reuse = node.reuses_style(key, block, context);
            let child = node.target(reuse, key, loc).with_block(block, dedupe);
            lemma_list_outcome(child, rules, rules.len(), dedupe, context);
        },
        _ => {},
    }
}

proof fn lemma_list_outcome<T>(
    node: TreeView<T>,
    rules: Seq<RuleView<T>>,
    count: nat,
    dedupe: bool,
    context: MinifyContext,
)
    requires
        count <= rules.len(),
    ensures
        node.insert_rules(rules, count, dedupe, context).1 == outcome_of(
            at_rules(rules, count),
            at_rules(rules, count).len(),
            context,
        ),
    decreases rules, count,
{
    if count > 0 {
        let before = at_rules(rules, (count - 1) as nat);
        let last = at_rules_of(rules[count - 1]);
        lemma_list_outcome(node, rules, (count - 1) as nat, dedupe, context);
        lemma_outcome_concat(before, last, last.len(), context);
        let tree = node.insert_rules(rules, (count - 1) as nat, dedupe, context).0;
        lemma_rule_outcome(tree, rules[count - 1], dedupe, context);
    }
}

proof fn lemma_outcome_at(
    list: Seq<(AtRuleView, Location)>,
    count: nat,
    at: int,
    context: MinifyContext,
)
    requires
        count <= list.len(),
        0 <= at <= list.len(),
        forall|i: int|
            0 <= i < at ==> query_error((#[trigger] list[i]).0, list[i].1, context) is None,
        at < list.len() ==> query_error(list[at].0, list[at].1, context) is Some,
    ensures
        outcome_of(list, count, context) == (if at < count {
            Err::<(), MinifyError>(query_error(list[at].0, list[at].1, context)->Some_0)
        } else {
            Ok(())
        }),
    decreases count,
{
    if count > 0 {
        lemma_outcome_at(list, (count - 1) as nat, at, context);
        if count - 1 < at {
            assert(query_error(list[count - 1].0, list[count - 1].1, context) is None);
        }
    }
}

/// Where a tree is built, merging fails exactly if some media query at any depth
/// cannot be normalized, with the error of the first such query in source order,
/// and no list is left. It returns `Ok` where there is none.
pub proof fn law_first_failing_query_is_the_error<T>(
    rules: Seq<RuleView<T>>,
    context: MinifyContext,
    at: int,
)
    requires
        !context.css_modules,
        mergeable(rules, context) == Ok::<bool, MinifyError>(true),
        0 <= at <= at_rules(rules, rules.len()).len(),
        forall|i: int|
            0 <= i < at ==> query_error(
                (#[trigger] at_rules(rules, rules.len())[i]).0,
                at_rules(rules, rules.len())[i].1,
                context,
            ) is None,
        at < at_rules(rules, rules.len()).len() ==> query_error(
            at_rules(rules, rules.len())[at].0,
            at_rules(rules, rules.len())[at].1,
            context,
        ) is Some,
    ensures
        at < at_rules(rules, rules.len()).len() ==> merged(rules, context) == (
            Err::<(), MinifyError>(
                query_error(
                    at_rules(rules, rules.len())[at].0,
                    at_rules(rules, rules.len())[at].1,
                    context,
                )->Some_0,
            ),
            Seq::<RuleView<T>>::empty(),
        ),
        at == at_rules(rules, rules.len()).len() ==> merged(rules, context).0 == Ok::<
            (),
            MinifyError,
        >(()),
{
    let list = at_rules(rules, rules.len());
    let root = TreeView::<T>::root();
    lemma_list_outcome(root, rules, rules.len(), may_reuse(context), context);
    lemma_outcome_at(list, list.len(), at, context);
}

/// Where it is not merged, the list stays as it is: with CSS modules, where the
/// answer is "no", and where the answer is an error, which is then returned.
pub proof fn law_what_is_not_merged_stays<T>(rules: Seq<RuleView<T>>, context: MinifyContext)
    ensures
        context.css_modules ==> merged(rules, context) == (Ok::<(), MinifyError>(()), rules),
        !context.css_modules && mergeable(rules, context) == Ok::<bool, MinifyError>(false)
            ==> merged(rules, context) == (Ok::<(), MinifyError>(()), rules),
        !context.css_modules ==> (mergeable(rules, context) matches Err(error) ==> merged(
            rules,
            context,
        ) == (Err::<(), MinifyError>(error), rules)),
{
}

/// A node that holds declarations still does, whatever is inserted.
proof fn lemma_keeps_declarations<T>(
    node: TreeView<T>,
    rule: RuleView<T>,
    dedupe: bool,
    context: MinifyContext,
)
    requires
        node.has_declarations(),
    ensures
        node.insert_rule(rule, dedupe, context).0.has_declarations(),
{
    let after = node.insert_rule(rule, dedupe, context).0;
    let i = choose|i: int|
        0 <= i < node.items.len() && ((#[trigger] node.items[i]) matches ItemView::Declarations(
            run,
        ) && run.len() > 0);
    let block = match rule {
        RuleView::NestedDeclarations { block, loc: _ } => block,
        _ => BlockView { important: seq![], normal: seq![] },
    };
    lemma_block_length(node.items[i]->Declarations_0, block, dedupe);
    assert(after.items[i] matches ItemView::Declarations(run) && run.len() > 0);
}

proof fn lemma_list_keeps_declarations<T>(
    node: TreeView<T>,
    rules: Seq<RuleView<T>>,
    count: nat,
    dedupe: bool,
    context: MinifyContext,
)
    requires
        node.has_declarations(),
    ensures
        node.insert_rules(rules, count, dedupe, context).0.has_declarations(),
    decreases count,
{
    if count > 0 && count <= rules.len() {
        lemma_list_keeps_declarations(node, rules, (count - 1) as nat, dedupe, context);
        let before = node.insert_rules(rules, (count - 1) as nat, dedupe, context).0;
        lemma_keeps_declarations(before, rules[count - 1], dedupe, context);
    }
}

proof fn lemma_block_length(run: Seq<DeclarationView>, block: BlockView, dedupe: bool)
    ensures
        insert_block(run, block, dedupe).len() >= run.len(),
        !silent(block) ==> insert_block(run, block, dedupe).len() > 0,
{
    let normal = insert_properties(run, block.normal, false, dedupe, block.normal.len());
    lemma_properties_length(run, block.normal, false, dedupe, block.normal.len());
    lemma_properties_length(normal, block.important, true, dedupe, block.important.len());
}

proof fn lemma_style_has_declarations<T>(
    node: TreeView<T>,
    rule: RuleView<T>,
    dedupe: bool,
    context: MinifyContext,
)
    requires
        rule is Style,
        !silent(rule->Style_block),
    ensures
        ({
            let after = node.insert_rule(rule, dedupe, context).0;
            &&& after.items.len() > 0
            &&& after.items.last() is Child
            &&& after.items.last()->Child_0.has_declarations()
        }),
{
    let key = KeyView::Selector {
        selectors: rule->selectors,
        vendor_prefix: rule->vendor_prefix,
        source_index: rule->Style_loc.source_index,
    };
    let block = rule->Style_block;
    let reuse = node.reuses_style(key, block, context);
    let target = node.target(reuse, key, rule->Style_loc);
    let child = target.with_block(block, dedupe);
    let rules = rule->Style_rules;
    let run = if target.items.len() > 0 && target.items.last() is Declarations {
        target.items.last()->Declarations_0
    } else {
        seq![]
    };
    lemma_block_length(run, block, dedupe);
    assert(child.items[child.items.len() - 1] matches ItemView::Declarations(run) && run.len()
        > 0);
    assert(child.has_declarations());
    lemma_list_keeps_declarations(child, rules, rules.len(), dedupe, context);
}

/// With targets of any kind, two style rules that both have declarations, the
/// second right behind the first, stay two.
pub proof fn law_targets_keep_rules_with_declarations_apart<T>(
    node: TreeView<T>,
    first: RuleView<T>,
    second: RuleView<T>,
    dedupe: bool,
    context: MinifyContext,
)
    requires
        context.targets.current.browsers is Some || context.targets.current.included != 0
            || context.targets.current.excluded != 0,
        first is Style,
        second is Style,
        first->Style_block.normal.len() > 0 || first->Style_block.important.len() > 0,
        second->Style_block.normal.len() > 0 || second->Style_block.important.len() > 0,
    ensures
        adjacent(first, second, context) == Ok::<bool, MinifyError>(false),
        ({
            let between = node.insert_rule(first, dedupe, context).0;
            let after = between.insert_rule(second, dedupe, context).0;
            after.items.len() == between.items.len() + 1
        }),
{
    lemma_style_has_declarations(node, first, dedupe, context);
}

proof fn lemma_targets_one_item_each<T>(
    rules: Seq<RuleView<T>>,
    count: nat,
    dedupe: bool,
    context: MinifyContext,
)
    requires
        context.targets.current.browsers is Some || context.targets.current.included != 0
            || context.targets.current.excluded != 0,
        forall|i: int|
            0 <= i < rules.len() ==> (#[trigger] rules[i]) is Style && !silent(
                rules[i]->Style_block,
            ),
        count <= rules.len(),
        TreeView::<T>::root().insert_rules(rules, count, dedupe, context).1 is Ok,
    ensures
        TreeView::<T>::root().insert_rules(rules, count, dedupe, context).0.items.len() == count,
    decreases count,
{
    let root = TreeView::<T>::root();
    if count > 0 {
        let shorter = (count - 1) as nat;
        lemma_targets_one_item_each(rules, shorter, dedupe, context);
        assert(rules[count - 1] is Style);
        let before = root.insert_rules(rules, shorter, dedupe, context).0;
        if count > 1 {
            let earlier = root.insert_rules(rules, (shorter - 1) as nat, dedupe, context).0;
            assert(rules[shorter - 1] is Style);
            lemma_style_has_declarations(earlier, rules[shorter - 1], dedupe, context);
            assert(before == earlier.insert_rule(rules[shorter - 1], dedupe, context).0);
        }
        let last = rules[count - 1];
        let key = KeyView::Selector {
            selectors: last->selectors,
            vendor_prefix: last->vendor_prefix,
            source_index: last->Style_loc.source_index,
        };
        assert(!before.reuses_style(key, last->Style_block, context));
        assert(before.insert_rule(last, dedupe, context).0.items.len() == before.items.len() + 1);
    }
}

/// With targets of any kind, a list of style rules that all have declarations
/// keeps its length: no two of them become one.
pub proof fn law_targets_keep_every_rule_with_declarations<T>(
    rules: Seq<RuleView<T>>,
    context: MinifyContext,
)
    requires
        context.targets.current.browsers is Some || context.targets.current.included != 0
            || context.targets.current.excluded != 0,
        merged(rules, context).0 is Ok,
        forall|i: int|
            0 <= i < rules.len() ==> (#[trigger] rules[i]) is Style && !silent(
                rules[i]->Style_block,
            ) && substantial(rules[i]),
    ensures
        merged(rules, context).1.len() == rules.len(),
{
    let root = TreeView::<T>::root();
    if !context.css_modules && mergeable(rules, context) == Ok::<bool, MinifyError>(true) {
        let tree = rule_tree(rules, context).0;
        lemma_targets_one_item_each(rules, rules.len(), false, context);
        lemma_insert_list_full(root, rules, rules.len(), false, context);
        lemma_full_printed(tree, tree.items.len());
    }
}

/// Whether the rule is a style rule that matches something and has declarations.
pub open spec fn declares_something<T>(rule: RuleView<T>) -> bool {
    &&& rule is Style
    &&& rule->selectors.len() > 0
    &&& rule->Style_block.normal.len() > 0 || rule->Style_block.important.len() > 0
}

/// How many of the first `count` rules are such.
pub open spec fn declaring<T>(rules: Seq<RuleView<T>>, count: nat) -> nat
    decreases count,
{
    if count == 0 || count > rules.len() {
        0
    } else {
        declaring(rules, (count - 1) as nat) + if declares_something(rules[count - 1]) {
            1nat
        } else {
            0
        }
    }
}

/// Whether the item is a node for selectors that holds declarations.
spec fn declared_item<T>(item: ItemView<T>) -> bool {
    &&& item is Child
    &&& item->Child_0.key is Some
    &&& item->Child_0.key->Some_0 is Selector
    &&& item->Child_0.key->Some_0->selectors.len() > 0
    &&& item->Child_0.has_declarations()
}

/// How many of the first `count` items are such.
spec fn declared_items<T>(items: Seq<ItemView<T>>, count: nat) -> nat
    decreases count,
{
    if count == 0 || count > items.len() {
        0
    } else {
        declared_items(items, (count - 1) as nat) + if declared_item(items[count - 1]) {
            1nat
        } else {
            0
        }
    }
}

proof fn lemma_declared_items_same<T>(a: Seq<ItemView<T>>, b: Seq<ItemView<T>>, count: nat)
    requires
        count <= a.len(),
        count <= b.len(),
        forall|i: int| 0 <= i < count ==> #[trigger] a[i] == b[i],
    ensures
        declared_items(a, count) == declared_items(b, count),
    decreases count,
{
    if count > 0 {
        lemma_declared_items_same(a, b, (count - 1) as nat);
        assert(a[count - 1] == b[count - 1]);
    }
}

proof fn lemma_insert_declared<T>(
    node: TreeView<T>,
    rule: RuleView<T>,
    dedupe: bool,
    context: MinifyContext,
)
    requires
        context.targets.current.browsers is Some || context.targets.current.included != 0
            || context.targets.current.excluded != 0,
    ensures
        ({
            let after = node.insert_rule(rule, dedupe, context).0;
            declared_items(after.items, after.items.len()) >= declared_items(
                node.items,
                node.items.len(),
            ) + if declares_something(rule) {
                1nat
            } else {
                0
            }
        }),
{
    let after = node.insert_rule(rule, dedupe, context).0;
    let count = node.items.len();
    law_only_the_last_item_changes(node, rule, dedupe, context);
    if declares_something(rule) {
        lemma_style_has_declarations(node, rule, dedupe, context);
    }
    match rule {
        RuleView::AtRule { prelude, rules, loc } => {
            if let Ok(key) = at_rule_key(prelude, loc, context) {
                let child = node.target(node.ends_with(key), key, loc).with_query(prelude);
                lemma_insert_list_keeps_head(child, rules, rules.len(), dedupe, context);
            }
        },
        RuleView::Style { selectors, vendor_prefix, block, rules, loc } => {
            let key = KeyView::Selector {
                selectors,
                vendor_prefix,
                source_index: loc.source_index,
            };
            let reuse = node.reuses_style(key, block, context);
            let target = node.target(reuse, key, loc);
            let child = target.with_block(block, dedupe);
            lemma_insert_list_keeps_head(child, rules, rules.len(), dedupe, context);
            if reuse && target.has_declarations() {
                assert(child == target);
                lemma_list_keeps_declarations(child, rules, rules.len(), dedupe, context);
            }
        },
        _ => {},
    }
    if after.items.len() > count {
        if count > 0 {
            assert(after.items[count - 1] == node.items[count - 1]);
        }
        lemma_declared_items_same(node.items, after.items, count);
    } else if count > 0 {
        lemma_declared_items_same(node.items, after.items, (count - 1) as nat);
        assert(node.items[count - 1] == node.items.last());
        assert(declared_item(node.items[count - 1]) ==> declared_item(after.items[count - 1]));
    }
}

proof fn lemma_insert_list_declared<T>(
    node: TreeView<T>,
    rules: Seq<RuleView<T>>,
    count: nat,
    dedupe: bool,
    context: MinifyContext,
)
    requires
        context.targets.current.browsers is Some || context.targets.current.included != 0
            || context.targets.current.excluded != 0,
        node.insert_rules(rules, count, dedupe, context).1 is Ok,
        count <= rules.len(),
    ensures
        ({
            let after = node.insert_rules(rules, count, dedupe, context).0;
            declared_items(after.items, after.items.len()) >= declared_items(
                node.items,
                node.items.len(),
            ) + declaring(rules, count)
        }),
    decreases count,
{
    if count > 0 {
        lemma_insert_list_declared(node, rules, (count - 1) as nat, dedupe, context);
        let before = node.insert_rules(rules, (count - 1) as nat, dedupe, context).0;
        lemma_insert_declared(before, rules[count - 1], dedupe, context);
    }
}

proof fn lemma_declared_items_printed<T>(node: TreeView<T>, count: nat)
    ensures
        node.print_items(count).len() >= declared_items(node.items, count),
    decreases count,
{
    if count > 0 && count <= node.items.len() {
        lemma_declared_items_printed(node, (count - 1) as nat);
        if declared_item(node.items[count - 1]) {
            let child = node.items[count - 1]->Child_0;
            law_nodes_are_printed_with_their_head(child);
            let i = choose|i: int|
                0 <= i < child.items.len() && ((
                #[trigger] child.items[i]) matches ItemView::Declarations(run) && run.len() > 0);
            lemma_run_is_printed(child, i, child.items.len());
        }
    }
}

proof fn lemma_run_is_printed<T>(node: TreeView<T>, place: int, count: nat)
    requires
        0 <= place < count <= node.items.len(),
        node.items[place] is Declarations,
        node.items[place]->Declarations_0.len() > 0,
    ensures
        node.print_items(count).len() > 0,
    decreases count,
{
    if place < count - 1 {
        lemma_run_is_printed(node, place, (count - 1) as nat);
    }
}

proof fn lemma_declaring_bounded<T>(rules: Seq<RuleView<T>>, count: nat)
    ensures
        declaring(rules, count) <= count,
    decreases count,
{
    if count > 0 {
        lemma_declaring_bounded(rules, (count - 1) as nat);
    }
}

/// With targets of any kind, no two style rules of a list that both have
/// declarations become one: what is left has at least as many rules as there are
/// such style rules in the list.
pub proof fn law_targets_keep_as_many_rules<T>(rules: Seq<RuleView<T>>, context: MinifyContext)
    requires
        context.targets.current.browsers is Some || context.targets.current.included != 0
            || context.targets.current.excluded != 0,
        merged(rules, context).0 is Ok,
    ensures
        merged(rules, context).1.len() >= declaring(rules, rules.len()),
{
    lemma_declaring_bounded(rules, rules.len());
    if !context.css_modules && mergeable(rules, context) == Ok::<bool, MinifyError>(true) {
        let root = TreeView::<T>::root();
        let tree = rule_tree(rules, context).0;
        lemma_insert_list_declared(root, rules, rules.len(), false, context);
        lemma_declared_items_printed(tree, tree.items.len());
    }
}

/// Whether the declaration at `place` is the last of the same property and
/// importance in the run, and nothing of that importance behind it sets anything
/// in common with the declaration.
pub open spec fn may_give_way(
    run: Seq<DeclarationView>,
    place: int,
    declaration: DeclarationView,
) -> bool {
    &&& 0 <= place < run.len()
    &&& run[place].important == declaration.important
    &&& run[place].property.id.key == declaration.property.id.key
    &&& forall|i: int|
        place < i < run.len() ==> !((#[trigger] run[i]).important == declaration.important
            && clash(run[i].property.id, declaration.property.id))
}

/// A declaration takes the place of one that may give way to it, and goes behind
/// the run where there is none, and always without dedupe.
pub proof fn law_declaration_takes_a_place_or_goes_behind(
    run: Seq<DeclarationView>,
    declaration: DeclarationView,
    dedupe: bool,
    place: int,
)
    ensures
        dedupe && may_give_way(run, place, declaration) ==> insert_declaration(
            run,
            declaration,
            dedupe,
        ) == run.update(place, declaration),
        !dedupe || (forall|i: int| !#[trigger] may_give_way(run, i, declaration))
            ==> insert_declaration(run, declaration, dedupe) == run.push(declaration),
{
    let slot = own_slot(run, declaration);
    lemma_last_slot(run, declaration.property.id.key, declaration.important, run.len());
    assert forall|i: int| 0 <= i < run.len() implies conflict(
        (#[trigger] run[i]).property.id,
        declaration.property.id,
    ) == clash(run[i].property.id, declaration.property.id) by {
        lemma_clash(run[i].property.id, declaration.property.id);
    }
    if may_give_way(run, place, declaration) {
        if slot > place {
            assert(clash(run[slot].property.id, declaration.property.id));
        }
        if slot < place {
            assert(run[place].important == declaration.important);
        }
    }
    if insert_declaration(run, declaration, dedupe) != run.push(declaration) {
        assert(may_give_way(run, slot, declaration));
    }
}

/// A block goes into a run one declaration after the other: first the normal
/// ones, then those that are `!important`.
pub proof fn law_block_goes_in_one_after_the_other(
    run: Seq<DeclarationView>,
    block: BlockView,
    property: PropertyView,
    dedupe: bool,
)
    ensures
        insert_block(run, BlockView { important: seq![], normal: seq![] }, dedupe) == run,
        block.important.len() == 0 ==> insert_block(
            run,
            BlockView { normal: block.normal.push(property), ..block },
            dedupe,
        ) == insert_declaration(
            insert_block(run, block, dedupe),
            DeclarationView { property, important: false },
            dedupe,
        ),
        insert_block(
            run,
            BlockView { important: block.important.push(property), ..block },
            dedupe,
        ) == insert_declaration(
            insert_block(run, block, dedupe),
            DeclarationView { property, important: true },
            dedupe,
        ),
{
    let empty = Seq::<PropertyView>::empty();
    assert(insert_properties(run, empty, false, dedupe, 0) == run);
    let count = block.normal.len();
    let normal = insert_properties(run, block.normal, false, dedupe, count);
    lemma_properties_prefix(run, block.normal, property, false, dedupe, count);
    lemma_properties_prefix(
        normal,
        block.important,
        property,
        true,
        dedupe,
        block.important.len(),
    );
}

proof fn lemma_properties_prefix(
    run: Seq<DeclarationView>,
    properties: Seq<PropertyView>,
    property: PropertyView,
    important: bool,
    dedupe: bool,
    count: nat,
)
    requires
        count <= properties.len(),
    ensures
        insert_properties(run, properties.push(property), important, dedupe, count)
            == insert_properties(run, properties, important, dedupe, count),
    decreases count,
{
    if count > 0 {
        lemma_properties_prefix(run, properties, property, important, dedupe, (count - 1) as nat);
        assert(properties.push(property)[count - 1] == properties[count - 1]);
    }
}

/// Two lists of selectors are the same exactly if their texts are, one by one.
pub proof fn law_selectors_are_told_apart(a: SelectorList, b: SelectorList)
    ensures
        a@ == b@ <==> a.selectors@.len() == b.selectors@.len() && forall|i: int|
            0 <= i < a.selectors@.len() ==> (#[trigger] a.selectors@[i])@ == b.selectors@[i]@,
{
    if a@ == b@ {
        assert(a@.len() == b@.len());
        assert forall|i: int| 0 <= i < a.selectors@.len() implies (#[trigger] a.selectors@[i])@
            == b.selectors@[i]@ by {
            assert(a@[i] == b@[i]);
        }
    }
    if a.selectors@.len() == b.selectors@.len() && forall|i: int|
        0 <= i < a.selectors@.len() ==> (#[trigger] a.selectors@[i])@ == b.selectors@[i]@ {
        assert(a@ =~= b@);
    }
}

/// Two optional parts of a rule are the same exactly if both are missing, or
/// both are there and the same.
pub proof fn law_optional_parts_are_told_apart<A: View>(a: Option<A>, b: Option<A>)
    ensures
        option_view(a) == option_view(b) <==> (a is None && b is None) || (a is Some && b is Some
            && a->Some_0@ == b->Some_0@),
{
}

/// Two rules are the same to merging exactly if they are of the same kind and
/// have the same text, the same location, and the same rules and declarations in
/// them.
pub proof fn law_rules_are_told_apart<T>(a: CssRule<T>, b: CssRule<T>)
    ensures
        a@ == b@ <==> match (a, b) {
            (CssRule::Media(a), CssRule::Media(b)) => a.query.text@ == b.query.text@ && a.rules@
                == b.rules@ && a.loc == b.loc,
            (CssRule::Supports(a), CssRule::Supports(b)) => a.condition.text@ == b.condition.text@
                && a.rules@ == b.rules@ && a.loc == b.loc,
            (CssRule::Container(a), CssRule::Container(b)) => option_view(a.name) == option_view(
                b.name,
            ) && option_view(a.condition) == option_view(b.condition) && a.rules@ == b.rules@
                && a.loc == b.loc,
            (CssRule::Scope(a), CssRule::Scope(b)) => option_view(a.scope_start) == option_view(
                b.scope_start,
            ) && option_view(a.scope_end) == option_view(b.scope_end) && a.rules@ == b.rules@
                && a.loc == b.loc,
            (CssRule::StartingStyle(a), CssRule::StartingStyle(b)) => a.rules@ == b.rules@ && a.loc
                == b.loc,
            (CssRule::MozDocument(a), CssRule::MozDocument(b)) => a.rules@ == b.rules@ && a.loc
                == b.loc,
            (CssRule::Style(a), CssRule::Style(b)) => a.selectors@ == b.selectors@
                && a.vendor_prefix == b.vendor_prefix && a.declarations@ == b.declarations@
                && a.rules@ == b.rules@ && a.loc == b.loc,
            (CssRule::NestedDeclarations(a), CssRule::NestedDeclarations(b)) => a.declarations@
                == b.declarations@ && a.loc == b.loc,
            (CssRule::Other(a), CssRule::Other(b)) => a == b,
            _ => false,
        },
{
}

/// Two rule lists are the same to merging exactly if they hold the same rules,
/// one by one.
pub proof fn law_rule_lists_are_told_apart<T>(a: CssRuleList<T>, b: CssRuleList<T>)
    ensures
        a@ == b@ <==> a.0@.len() == b.0@.len() && forall|i: int|
            0 <= i < a.0@.len() ==> (#[trigger] a.0@[i])@ == b.0@[i]@,
{
    lemma_list_view(a);
    lemma_list_view(b);
    if a@ == b@ {
        assert(a@.len() == b@.len());
        assert forall|i: int| 0 <= i < a.0@.len() implies (#[trigger] a.0@[i])@ == b.0@[i]@ by {
            assert(a@[i] == b@[i]);
        }
    }
    if a.0@.len() == b.0@.len() && forall|i: int|
        0 <= i < a.0@.len() ==> (#[trigger] a.0@[i])@ == b.0@[i]@ {
        assert(a@ =~= b@);
    }
}

/// Whether the declarations may be moved across the node: it holds no rule that
/// nothing is merged across, at any depth, and no declaration of the same
/// importance that has to do with one of them.
pub open spec fn crossable<T>(node: TreeView<T>, run: Seq<DeclarationView>) -> bool
    decreases node,
{
    forall|i: int|
        0 <= i < node.items.len() ==> match #[trigger] node.items[i] {
            ItemView::Declarations(other) => forall|j: int, k: int|
                0 <= j < other.len() && 0 <= k < run.len() && (#[trigger] other[j]).important == (
                #[trigger] run[k]).important ==> !bound(other[j].property.id, run[k].property.id),
            ItemView::Child(child) => crossable(child, run),
            ItemView::Barrier(_) => false,
        }
}

/// Whether a run behind the items can be moved to the one at `place`: that is a
/// run, and everything behind it is a node that it may be moved across.
pub open spec fn reaches<T>(
    items: Seq<ItemView<T>>,
    run: Seq<DeclarationView>,
    place: int,
) -> bool {
    &&& 0 <= place < items.len()
    &&& items[place] is Declarations
    &&& forall|i: int|
        place < i < items.len() ==> (#[trigger] items[i]) is Child && crossable(
            items[i]->Child_0,
            run,
        )
}

pub proof fn lemma_crossable<T>(node: TreeView<T>, run: Seq<DeclarationView>)
    ensures
        node.clear(run) == crossable(node, run),
    decreases node,
{
    assert forall|a: PropertyIdView, b: PropertyIdView| #[trigger] related(a, b) == bound(a, b) by {
        lemma_bound(a, b);
    }
    assert forall|i: int| 0 <= i < node.items.len() implies (match #[trigger] node.items[i] {
        ItemView::Declarations(other) => independent(other, run),
        ItemView::Child(child) => child.clear(run),
        ItemView::Barrier(_) => false,
    }) == (match node.items[i] {
        ItemView::Declarations(other) => forall|j: int, k: int|
            0 <= j < other.len() && 0 <= k < run.len() && (#[trigger] other[j]).important == (
            #[trigger] run[k]).important ==> !bound(other[j].property.id, run[k].property.id),
        ItemView::Child(child) => crossable(child, run),
        ItemView::Barrier(_) => false,
    }) by {
        match node.items[i] {
            ItemView::Declarations(other) => {
                if independent(other, run) {
                    assert forall|j: int, k: int|
                        0 <= j < other.len() && 0 <= k < run.len() && (
                        #[trigger] other[j]).important == (
                        #[trigger] run[k]).important implies !bound(
                        other[j].property.id,
                        run[k].property.id,
                    ) by {
                        assert(!entangled(other[j], run[k]));
                        assert(related(other[j].property.id, run[k].property.id) == bound(
                            other[j].property.id,
                            run[k].property.id,
                        ));
                    }
                } else {
                    let (j, k) = choose|j: int, k: int|
                        0 <= j < other.len() && 0 <= k < run.len() && entangled(
                            #[trigger] other[j],
                            #[trigger] run[k],
                        );
                    assert(bound(other[j].property.id, run[k].property.id));
                }
            },
            ItemView::Child(child) => {
                lemma_crossable(child, run);
            },
            ItemView::Barrier(_) => {},
        }
    }
    if node.clear(run) {
        assert(crossable(node, run));
    }
    if crossable(node, run) {
        assert(node.clear(run));
    }
}

proof fn lemma_reaches<T>(
    items: Seq<ItemView<T>>,
    run: Seq<DeclarationView>,
    place: int,
    end: nat,
)
    requires
        end <= items.len(),
        forall|i: int|
            end <= i < items.len() ==> (#[trigger] items[i]) is Child && crossable(
                items[i]->Child_0,
                run,
            ),
    ensures
        reaches(items, run, place) ==> earlier_run(items, run, end) == place,
        earlier_run(items, run, end) >= 0 ==> reaches(items, run, earlier_run(items, run, end)),
    decreases end,
{
    if end > 0 {
        match items[end - 1] {
            ItemView::Declarations(_) => {
                if reaches(items, run, place) && place != end - 1 {
                    assert(items[end - 1] is Child || items[place] is Child);
                }
            },
            ItemView::Child(child) => {
                lemma_crossable(child, run);
                if child.clear(run) {
                    lemma_reaches(items, run, place, (end - 1) as nat);
                } else if reaches(items, run, place) {
                    assert(place < end - 1 ==> crossable(items[end - 1]->Child_0, run));
                    assert(place > end - 1 ==> items[place] is Child);
                }
            },
            ItemView::Barrier(_) => {
                if reaches(items, run, place) {
                    assert(place < end - 1 ==> items[end - 1] is Child);
                    assert(place > end - 1 ==> items[place] is Child);
                }
            },
        }
    } else if reaches(items, run, place) {
        assert(items[place] is Child);
    }
}

/// A run behind the items joins the one that it can be moved to, where there is
/// one, and stays behind them otherwise.
pub proof fn law_run_joins_the_one_that_it_reaches<T>(
    items: Seq<ItemView<T>>,
    run: Seq<DeclarationView>,
    place: int,
)
    ensures
        reaches(items, run, place) ==> join_run(items, run) == items.update(
            place,
            ItemView::Declarations(insert_run(items[place]->Declarations_0, run, run.len())),
        ),
        (forall|i: int| !#[trigger] reaches(items, run, i)) ==> join_run(items, run)
            == items.push(ItemView::Declarations(run)),
{
    lemma_reaches(items, run, place, items.len());
    if earlier_run(items, run, items.len()) >= 0 {
        assert(reaches(items, run, earlier_run(items, run, items.len())));
    }
}

/// A run joins another one declaration after the other.
pub proof fn law_run_joins_one_after_the_other(
    run: Seq<DeclarationView>,
    added: Seq<DeclarationView>,
    declaration: DeclarationView,
)
    ensures
        insert_run(run, Seq::<DeclarationView>::empty(), 0) == run,
        insert_run(run, added.push(declaration), added.len() + 1) == insert_declaration(
            insert_run(run, added, added.len()),
            declaration,
            true,
        ),
{
    lemma_insert_run_prefix(run, added, declaration, added.len());
}

proof fn lemma_insert_run_prefix(
    run: Seq<DeclarationView>,
    added: Seq<DeclarationView>,
    declaration: DeclarationView,
    count: nat,
)
    requires
        count <= added.len(),
    ensures
        insert_run(run, added.push(declaration), count) == insert_run(run, added, count),
    decreases count,
{
    if count > 0 {
        lemma_insert_run_prefix(run, added, declaration, (count - 1) as nat);
        assert(added.push(declaration)[count - 1] == added[count - 1]);
    }
}

} // verus!
