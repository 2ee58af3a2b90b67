//! The terms in which the laws speak: what is said of properties, media queries
//! and contexts here is said of their parts alone.
use crate::context::may_reuse;
use crate::context::media_key;
use crate::context::CustomMedia;
use crate::context::MinifyContext;
use crate::context::MinifyError;
use crate::context::MinifyErrorKind;
use crate::context::ResolutionTable;
use crate::declaration::conflict;
use crate::declaration::lists;
use crate::declaration::BlockView;
use crate::declaration::PropertyIdView;
use crate::declaration::PropertyKey;
use crate::model::at_rule_key;
use crate::model::KeyView;
use crate::names::may_be_logical;
use crate::names::related;
use crate::names::share_word;
use crate::names::words;
use crate::names::words_of;
use crate::rules::AtRuleView;
use crate::values::Location;
use crate::values::Targets;
use vstd::prelude::*;

verus! {

/// Whether neither targets nor CSS modules are set: no browser, and no feature
/// singled out.
pub open spec fn untargeted(context: MinifyContext) -> bool {
    &&& context.targets.current.browsers is None
    &&& context.targets.current.included == 0
    &&& context.targets.current.excluded == 0
    &&& !context.css_modules
}

/// Whether the block holds no declaration of either importance.
pub open spec fn silent(block: BlockView) -> bool {
    block.important.len() == 0 && block.normal.len() == 0
}

/// Whether the property with this key is among the longhands of the other, at
/// whatever place.
pub open spec fn covers(id: PropertyIdView, key: PropertyKey) -> bool {
    id.longhands is Some && exists|i: int|
        0 <= i < id.longhands->Some_0.len() && #[trigger] id.longhands->Some_0[i] == key
}

/// Whether one longhand is among those of both properties.
pub open spec fn overlap(a: PropertyIdView, b: PropertyIdView) -> bool {
    a.longhands is Some && b.longhands is Some && exists|i: int, j: int|
        0 <= i < a.longhands->Some_0.len() && 0 <= j < b.longhands->Some_0.len()
            && #[trigger] a.longhands->Some_0[i] == #[trigger] b.longhands->Some_0[j]
}

/// Whether the two properties set something in common: they are the same, one of
/// them is `all`, one is a longhand of the other, or they have one in common.
pub open spec fn clash(a: PropertyIdView, b: PropertyIdView) -> bool {
    ||| a.key == b.key
    ||| a.key.0 == "all"@
    ||| b.key.0 == "all"@
    ||| covers(a, b.key)
    ||| covers(b, a.key)
    ||| overlap(a, b)
}

/// Whether the characters of the name from `start` up to `end` are a part of it
/// that stands between hyphens, or between one and an end.
pub open spec fn is_part(name: Seq<char>, start: int, end: int) -> bool {
    &&& 0 <= start < end <= name.len()
    &&& start == 0 || name[start - 1] == '-'
    &&& end == name.len() || name[end] == '-'
    &&& forall|i: int| start <= i < end ==> #[trigger] name[i] != '-'
}

/// Whether some part of the name is this word.
pub open spec fn has_part(name: Seq<char>, word: Seq<char>) -> bool {
    exists|start: int, end: int|
        #[trigger] is_part(name, start, end) && name.subrange(start, end) == word
}

/// Whether the names have a part in common.
pub open spec fn parts_meet(a: Seq<char>, b: Seq<char>) -> bool {
    exists|word: Seq<char>| #[trigger] has_part(a, word) && has_part(b, word)
}

/// Whether a part of the name speaks of an axis or a side that depends on the
/// writing mode.
pub open spec fn speaks_of_flow(name: Seq<char>) -> bool {
    ||| has_part(name, "inline"@)
    ||| has_part(name, "block"@)
    ||| has_part(name, "start"@)
    ||| has_part(name, "end"@)
    ||| has_part(name, "before"@)
    ||| has_part(name, "after"@)
    ||| has_part(name, "logical"@)
}

/// Whether declarations of the two properties may have to do with each other, at
/// different places.
pub open spec fn bound(a: PropertyIdView, b: PropertyIdView) -> bool {
    ||| clash(a, b)
    ||| a.key.0 == b.key.0
    ||| parts_meet(a.key.0, b.key.0)
    ||| speaks_of_flow(a.key.0)
    ||| speaks_of_flow(b.key.0)
}

/// Whether entry `i` is the first for this media query.
pub open spec fn first_custom(custom: CustomMedia, query: Seq<char>, i: int) -> bool {
    &&& 0 <= i < custom.rewrites@.len()
    &&& custom.rewrites@[i].query.text@ == query
    &&& forall|j: int| 0 <= j < i ==> (#[trigger] custom.rewrites@[j]).query.text@ != query
}

/// Whether entry `i` is the first for this media query and these targets.
pub open spec fn first_resolution(
    table: ResolutionTable,
    targets: Targets,
    query: Seq<char>,
    i: int,
) -> bool {
    &&& 0 <= i < table.rewrites@.len()
    &&& table.rewrites@[i].targets == targets
    &&& table.rewrites@[i].query.text@ == query
    &&& forall|j: int|
        0 <= j < i ==> !((#[trigger] table.rewrites@[j]).targets == targets
            && table.rewrites@[j].query.text@ == query)
}

/// Why the custom media in force cannot replace the query, if they cannot.
pub open spec fn refusal(query: Seq<char>, context: MinifyContext) -> Option<MinifyErrorKind> {
    if context.custom_media is Some && exists|i: int|
        #[trigger] first_custom(context.custom_media->Some_0, query, i)
            && context.custom_media->Some_0.rewrites@[i].outcome is Err {
        let i = choose|i: int|
            #[trigger] first_custom(context.custom_media->Some_0, query, i)
                && context.custom_media->Some_0.rewrites@[i].outcome is Err;
        Some(context.custom_media->Some_0.rewrites@[i].outcome->Err_0)
    } else {
        None
    }
}

/// The query with what the custom media in force make of it.
pub open spec fn without_custom(query: Seq<char>, context: MinifyContext) -> Seq<char> {
    if context.custom_media is Some && exists|i: int|
        #[trigger] first_custom(context.custom_media->Some_0, query, i)
            && context.custom_media->Some_0.rewrites@[i].outcome is Ok {
        let i = choose|i: int|
            #[trigger] first_custom(context.custom_media->Some_0, query, i)
                && context.custom_media->Some_0.rewrites@[i].outcome is Ok;
        context.custom_media->Some_0.rewrites@[i].outcome->Ok_0.text@
    } else {
        query
    }
}

/// The query with what its resolutions become for the current targets.
pub open spec fn with_resolutions(query: Seq<char>, context: MinifyContext) -> Seq<char> {
    if exists|i: int|
        first_resolution(context.resolutions, context.targets.current, query, i) {
        let i = choose|i: int|
            first_resolution(context.resolutions, context.targets.current, query, i);
        context.resolutions.rewrites@[i].replacement.text@
    } else {
        query
    }
}

/// The list that the tables make of the query.
pub open spec fn listed(query: Seq<char>, context: MinifyContext) -> Seq<char> {
    with_resolutions(without_custom(query, context), context)
}

/// The error of an at-rule whose query the custom media cannot replace.
pub open spec fn query_error(
    prelude: AtRuleView,
    loc: Location,
    context: MinifyContext,
) -> Option<MinifyError> {
    match prelude {
        AtRuleView::Media(query) => match refusal(query, context) {
            Some(kind) => Some(MinifyError { kind, loc }),
            None => None,
        },
        _ => None,
    }
}

/// What an at-rule wraps its rules in: of an `@media` rule, the list that the
/// tables make of its query.
pub open spec fn step(prelude: AtRuleView, context: MinifyContext) -> KeyView {
    match prelude {
        AtRuleView::Media(query) => KeyView::AtRule(AtRuleView::Media(listed(query, context))),
        _ => KeyView::AtRule(prelude),
    }
}

pub proof fn lemma_untargeted(context: MinifyContext)
    ensures
        may_reuse(context) == untargeted(context),
{
}

pub proof fn lemma_silent(block: BlockView)
    ensures
        block.is_empty() == silent(block),
{
}

pub proof fn lemma_covers(id: PropertyIdView, key: PropertyKey)
    ensures
        lists(id, key) == covers(id, key),
{
    if lists(id, key) {
        let keys = id.longhands->Some_0;
        let i = choose|i: int| 0 <= i < keys.len() && keys[i] == key;
        assert(keys[i] == key);
    }
}

pub proof fn lemma_clash(a: PropertyIdView, b: PropertyIdView)
    ensures
        conflict(a, b) == clash(a, b),
{
    lemma_covers(a, b.key);
    lemma_covers(b, a.key);
    if exists|key: PropertyKey| #[trigger] lists(a, key) && lists(b, key) {
        let key = choose|key: PropertyKey| #[trigger] lists(a, key) && lists(b, key);
        lemma_covers(a, key);
        lemma_covers(b, key);
        let i = choose|i: int|
            0 <= i < a.longhands->Some_0.len() && #[trigger] a.longhands->Some_0[i] == key;
        let j = choose|j: int|
            0 <= j < b.longhands->Some_0.len() && #[trigger] b.longhands->Some_0[j] == key;
        assert(a.longhands->Some_0[i] == b.longhands->Some_0[j]);
    }
    if overlap(a, b) {
        let (i, j) = choose|i: int, j: int|
            0 <= i < a.longhands->Some_0.len() && 0 <= j < b.longhands->Some_0.len()
                && #[trigger] a.longhands->Some_0[i] == #[trigger] b.longhands->Some_0[j];
        let key = a.longhands->Some_0[i];
        assert(covers(a, key) && covers(b, key));
        lemma_covers(a, key);
        lemma_covers(b, key);
        assert(lists(a, key) && lists(b, key));
    }
}

/// Two properties that cover the same one set something in common.
pub proof fn lemma_overlap(a: PropertyIdView, b: PropertyIdView, key: PropertyKey)
    requires
        covers(a, key),
        covers(b, key),
    ensures
        overlap(a, b),
        clash(a, b),
{
    let i = choose|i: int|
        0 <= i < a.longhands->Some_0.len() && #[trigger] a.longhands->Some_0[i] == key;
    let j = choose|j: int|
        0 <= j < b.longhands->Some_0.len() && #[trigger] b.longhands->Some_0[j] == key;
    assert(a.longhands->Some_0[i] == b.longhands->Some_0[j]);
}

/// What is in common does not depend on which comes first.
pub proof fn lemma_symmetric(a: PropertyIdView, b: PropertyIdView)
    ensures
        clash(a, b) == clash(b, a),
        bound(a, b) == bound(b, a),
{
    if overlap(a, b) {
        let (i, j) = choose|i: int, j: int|
            0 <= i < a.longhands->Some_0.len() && 0 <= j < b.longhands->Some_0.len()
                && #[trigger] a.longhands->Some_0[i] == #[trigger] b.longhands->Some_0[j];
        assert(b.longhands->Some_0[j] == a.longhands->Some_0[i]);
    }
    if overlap(b, a) {
        let (i, j) = choose|i: int, j: int|
            0 <= i < b.longhands->Some_0.len() && 0 <= j < a.longhands->Some_0.len()
                && #[trigger] b.longhands->Some_0[i] == #[trigger] a.longhands->Some_0[j];
        assert(a.longhands->Some_0[j] == b.longhands->Some_0[i]);
    }
    if parts_meet(a.key.0, b.key.0) {
        let word = choose|word: Seq<char>|
            #[trigger] has_part(a.key.0, word) && has_part(b.key.0, word);
        assert(has_part(b.key.0, word) && has_part(a.key.0, word));
    }
    if parts_meet(b.key.0, a.key.0) {
        let word = choose|word: Seq<char>|
            #[trigger] has_part(b.key.0, word) && has_part(a.key.0, word);
        assert(has_part(a.key.0, word) && has_part(b.key.0, word));
    }
}

/// Where the part that ends at `end` starts.
spec fn part_start(name: Seq<char>, end: int) -> int
    decreases end,
{
    if end <= 0 || name[end - 1] == '-' {
        end
    } else {
        part_start(name, end - 1)
    }
}

proof fn lemma_part_start(name: Seq<char>, end: int)
    requires
        0 <= end <= name.len(),
    ensures
        0 <= part_start(name, end) <= end,
        part_start(name, end) == 0 || name[part_start(name, end) - 1] == '-',
        forall|i: int| part_start(name, end) <= i < end ==> #[trigger] name[i] != '-',
    decreases end,
{
    if end > 0 && name[end - 1] != '-' {
        lemma_part_start(name, end - 1);
    }
}

/// The words of the first `count` characters: the last of them is what stands
/// behind the last hyphen, and the others are parts of the name.
proof fn lemma_words_are_parts(name: Seq<char>, count: nat)
    requires
        count <= name.len(),
    ensures
        ({
            let list = words_of(name, count);
            &&& list.len() > 0
            &&& list.last() == name.subrange(part_start(name, count as int), count as int)
            &&& forall|i: int|
                0 <= i < list.len() - 1 && (#[trigger] list[i]).len() > 0 ==> has_part(
                    name,
                    list[i],
                )
        }),
    decreases count,
{
    if count == 0 {
        assert(words_of(name, 0).last() =~= name.subrange(0, 0));
    } else {
        let shorter = (count - 1) as nat;
        lemma_words_are_parts(name, shorter);
        lemma_part_start(name, shorter as int);
        let before = words_of(name, shorter);
        let list = words_of(name, count);
        let start = part_start(name, shorter as int);
        if name[count - 1] == '-' {
            assert(list.last() =~= name.subrange(count as int, count as int));
            assert forall|i: int| 0 <= i < list.len() - 1 && (#[trigger] list[i]).len()
                > 0 implies has_part(name, list[i]) by {
                assert(list[i] == before[i]);
                if i == before.len() - 1 {
                    assert(is_part(name, start, shorter as int));
                    assert(name.subrange(start, shorter as int) == list[i]);
                }
            }
        } else {
            assert(list.last() =~= name.subrange(start, count as int));
            assert forall|i: int| 0 <= i < list.len() - 1 && (#[trigger] list[i]).len()
                > 0 implies has_part(name, list[i]) by {
                assert(list[i] == before[i]);
            }
        }
    }
}

/// A part of the name is one of its words.
proof fn lemma_part_is_word(name: Seq<char>, start: int, end: int, count: nat)
    requires
        is_part(name, start, end),
        end <= count <= name.len(),
    ensures
        end < count || end == name.len() ==> exists|i: int|
            0 <= i < words_of(name, count).len() && #[trigger] words_of(name, count)[i]
                == name.subrange(start, end),
        end == count ==> words_of(name, count).last() == name.subrange(start, end),
    decreases count,
{
    if end == count {
        lemma_words_are_parts(name, count);
        lemma_part_start(name, end);
        let from = part_start(name, end);
        if from < start {
            assert(name[start - 1] == '-');
        }
        if from > start {
            assert(name[from - 1] == '-');
        }
        let list = words_of(name, count);
        assert(list[list.len() - 1] == name.subrange(start, end));
    } else {
        let shorter = (count - 1) as nat;
        lemma_part_is_word(name, start, end, shorter);
        lemma_words_are_parts(name, shorter);
        let before = words_of(name, shorter);
        let list = words_of(name, count);
        if end == shorter {
            assert(name[end] == '-');
            assert(list[before.len() - 1] == name.subrange(start, end));
        } else {
            lemma_settled_word(name, start, end, count);
        }
    }
}

/// Once a part has ended, it is one of the words.
proof fn lemma_settled_word(name: Seq<char>, start: int, end: int, count: nat)
    requires
        is_part(name, start, end),
        end < count <= name.len(),
    ensures
        exists|i: int|
            0 <= i < words_of(name, count).len() - 1 && #[trigger] words_of(name, count)[i]
                == name.subrange(start, end),
    decreases count,
{
    let shorter = (count - 1) as nat;
    let before = words_of(name, shorter);
    let list = words_of(name, count);
    lemma_words_are_parts(name, shorter);
    if end == shorter {
        assert(name[end] == '-');
        lemma_part_start(name, end);
        let from = part_start(name, end);
        if from < start {
            assert(name[start - 1] == '-');
        }
        if from > start {
            assert(name[from - 1] == '-');
        }
        assert(list[before.len() - 1] == before.last());
        assert(list[before.len() - 1] == name.subrange(start, end));
    } else {
        lemma_settled_word(name, start, end, shorter);
        let i = choose|i: int|
            0 <= i < before.len() - 1 && #[trigger] before[i] == name.subrange(start, end);
        assert(list[i] == before[i]);
    }
}

/// The words of a name that are not empty are its parts.
pub proof fn lemma_words(name: Seq<char>, word: Seq<char>)
    requires
        word.len() > 0,
    ensures
        words(name).contains(word) <==> has_part(name, word),
{
    let count = name.len();
    lemma_words_are_parts(name, count);
    lemma_part_start(name, count as int);
    let list = words(name);
    if list.contains(word) {
        let i = choose|i: int| 0 <= i < list.len() && list[i] == word;
        if i == list.len() - 1 {
            assert(is_part(name, part_start(name, count as int), count as int));
        }
    }
    if has_part(name, word) {
        let (start, end) = choose|start: int, end: int|
            #[trigger] is_part(name, start, end) && name.subrange(start, end) == word;
        lemma_part_is_word(name, start, end, count);
        let i = choose|i: int| 0 <= i < list.len() && #[trigger] list[i] == word;
        assert(list.contains(word));
    }
}

pub proof fn lemma_parts_meet(a: Seq<char>, b: Seq<char>)
    ensures
        share_word(a, b) == parts_meet(a, b),
{
    if share_word(a, b) {
        let (i, j) = choose|i: int, j: int|
            0 <= i < words(a).len() && 0 <= j < words(b).len() && (#[trigger] words(a)[i]).len()
                > 0 && words(a)[i] == #[trigger] words(b)[j];
        let word = words(a)[i];
        assert(words(a).contains(word) && words(b).contains(word));
        lemma_words(a, word);
        lemma_words(b, word);
        assert(has_part(a, word) && has_part(b, word));
    }
    if parts_meet(a, b) {
        let word = choose|word: Seq<char>| #[trigger] has_part(a, word) && has_part(b, word);
        lemma_words(a, word);
        lemma_words(b, word);
        let i = choose|i: int| 0 <= i < words(a).len() && words(a)[i] == word;
        let j = choose|j: int| 0 <= j < words(b).len() && words(b)[j] == word;
        assert(words(a)[i].len() > 0 && words(a)[i] == words(b)[j]);
    }
}

/// A word without hyphens is its own only part.
proof fn lemma_one_word(name: Seq<char>, word: Seq<char>)
    requires
        word.len() > 0,
        forall|i: int| 0 <= i < word.len() ==> #[trigger] word[i] != '-',
    ensures
        share_word(name, word) == has_part(name, word),
{
    lemma_parts_meet(name, word);
    let end = word.len() as int;
    assert(is_part(word, 0, end));
    assert(word.subrange(0, end) =~= word);
    assert(has_part(word, word));
    if parts_meet(name, word) {
        let part = choose|part: Seq<char>| #[trigger] has_part(name, part) && has_part(word, part);
        let (from, to) = choose|from: int, to: int|
            #[trigger] is_part(word, from, to) && word.subrange(from, to) == part;
        if from > 0 {
            assert(word[from - 1] == '-');
        }
        if to < word.len() {
            assert(word[to] == '-');
        }
    }
}

pub proof fn lemma_speaks_of_flow(name: Seq<char>)
    ensures
        may_be_logical(name) == speaks_of_flow(name),
{
    reveal_strlit("inline");
    reveal_strlit("block");
    reveal_strlit("start");
    reveal_strlit("end");
    reveal_strlit("before");
    reveal_strlit("after");
    reveal_strlit("logical");
    lemma_one_word(name, "inline"@);
    lemma_one_word(name, "block"@);
    lemma_one_word(name, "start"@);
    lemma_one_word(name, "end"@);
    lemma_one_word(name, "before"@);
    lemma_one_word(name, "after"@);
    lemma_one_word(name, "logical"@);
}

pub proof fn lemma_bound(a: PropertyIdView, b: PropertyIdView)
    ensures
        related(a, b) == bound(a, b),
{
    lemma_clash(a, b);
    lemma_parts_meet(a.key.0, b.key.0);
    lemma_speaks_of_flow(a.key.0);
    lemma_speaks_of_flow(b.key.0);
}

proof fn lemma_custom_from(custom: CustomMedia, query: Seq<char>, start: int)
    requires
        0 <= start,
        forall|j: int|
            0 <= j < start && j < custom.rewrites@.len() ==> (#[trigger] custom.rewrites@[j]).query.text@
                != query,
    ensures
        (exists|i: int| first_custom(custom, query, i)) ==> {
            let i = choose|i: int| first_custom(custom, query, i);
            custom.outcome_from(query, start) == (match custom.rewrites@[i].outcome {
                Ok(list) => Ok(list.text@),
                Err(kind) => Err(kind),
            })
        },
        !(exists|i: int| first_custom(custom, query, i)) ==> custom.outcome_from(query, start)
            == Ok::<Seq<char>, MinifyErrorKind>(query),
    decreases custom.rewrites@.len() - start,
{
    if start < custom.rewrites@.len() {
        if custom.rewrites@[start].query.text@ == query {
            assert(first_custom(custom, query, start));
            let i = choose|i: int| first_custom(custom, query, i);
            if i < start {
                assert(custom.rewrites@[i].query.text@ != query);
            }
            if start < i {
                assert(custom.rewrites@[start].query.text@ != query);
            }
        } else {
            lemma_custom_from(custom, query, start + 1);
        }
    } else if exists|i: int| first_custom(custom, query, i) {
        let i = choose|i: int| first_custom(custom, query, i);
        assert(custom.rewrites@[i].query.text@ == query);
    }
}

proof fn lemma_resolution_from(
    table: ResolutionTable,
    targets: Targets,
    query: Seq<char>,
    start: int,
)
    requires
        0 <= start,
        forall|j: int|
            0 <= j < start && j < table.rewrites@.len() ==> !((
            #[trigger] table.rewrites@[j]).targets == targets && table.rewrites@[j].query.text@
                == query),
    ensures
        (exists|i: int| first_resolution(table, targets, query, i)) ==> {
            let i = choose|i: int| first_resolution(table, targets, query, i);
            table.outcome_from(targets, query, start) == table.rewrites@[i].replacement.text@
        },
        !(exists|i: int| first_resolution(table, targets, query, i)) ==> table.outcome_from(
            targets,
            query,
            start,
        ) == query,
    decreases table.rewrites@.len() - start,
{
    if start < table.rewrites@.len() {
        if table.rewrites@[start].targets == targets && table.rewrites@[start].query.text@
            == query {
            assert(first_resolution(table, targets, query, start));
            let i = choose|i: int| first_resolution(table, targets, query, i);
            if i < start {
                assert(table.rewrites@[i].targets == targets);
            }
            if start < i {
                assert(table.rewrites@[start].targets == targets);
            }
        } else {
            lemma_resolution_from(table, targets, query, start + 1);
        }
    } else if exists|i: int| first_resolution(table, targets, query, i) {
        let i = choose|i: int| first_resolution(table, targets, query, i);
        assert(table.rewrites@[i].targets == targets);
    }
}

/// There is one first entry at most.
pub proof fn lemma_one_first(custom: CustomMedia, query: Seq<char>, i: int, j: int)
    requires
        first_custom(custom, query, i),
        first_custom(custom, query, j),
    ensures
        i == j,
{
    if i < j {
        assert(custom.rewrites@[i].query.text@ == query);
    }
    if j < i {
        assert(custom.rewrites@[j].query.text@ == query);
    }
}

pub proof fn lemma_listed(query: Seq<char>, loc: Location, context: MinifyContext)
    ensures
        media_key(query, loc, context) == (match refusal(query, context) {
            Some(kind) => Err(MinifyError { kind, loc }),
            None => Ok(listed(query, context)),
        }),
{
    if let Some(custom) = context.custom_media {
        lemma_custom_from(custom, query, 0);
        if exists|i: int| first_custom(custom, query, i) {
            let i = choose|i: int| first_custom(custom, query, i);
            assert forall|j: int| #[trigger] first_custom(custom, query, j) implies j == i by {
                lemma_one_first(custom, query, i, j);
            }
            assert(first_custom(custom, query, i));
        }
    }
    let list = without_custom(query, context);
    lemma_resolution_from(context.resolutions, context.targets.current, list, 0);
}

pub proof fn lemma_step(prelude: AtRuleView, loc: Location, context: MinifyContext)
    ensures
        at_rule_key(prelude, loc, context) == (match query_error(prelude, loc, context) {
            Some(error) => Err(error),
            None => Ok(step(prelude, context)),
        }),
{
    if let AtRuleView::Media(query) = prelude {
        lemma_listed(query, loc, context);
    }
}

} // verus!
