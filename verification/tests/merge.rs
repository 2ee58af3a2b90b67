//! Merging rule lists.
use trie_minify::context::CustomMedia;
use trie_minify::context::CustomMediaRewrite;
use trie_minify::context::MinifyContext;
use trie_minify::context::MinifyError;
use trie_minify::context::MinifyErrorKind;
use trie_minify::context::ResolutionTable;
use trie_minify::context::ScopedTargets;
use trie_minify::declaration::DeclarationBlock;
use trie_minify::declaration::Property;
use trie_minify::declaration::PropertyId;
use trie_minify::merge::merge_rule_list;
use trie_minify::mergeable::adjacent_rules_can_merge;
use trie_minify::mergeable::should_merge_nested_rule_list;
use trie_minify::mergeable::should_merge_rule_list;
use trie_minify::rules::ContainerRule;
use trie_minify::rules::CssRule;
use trie_minify::rules::CssRuleList;
use trie_minify::rules::MediaRule;
use trie_minify::rules::MozDocumentRule;
use trie_minify::rules::NestedDeclarationsRule;
use trie_minify::rules::ScopeRule;
use trie_minify::rules::StartingStyleRule;
use trie_minify::rules::StyleRule;
use trie_minify::rules::SupportsRule;
use trie_minify::values::ContainerCondition;
use trie_minify::values::ContainerName;
use trie_minify::values::Location;
use trie_minify::values::MediaList;
use trie_minify::values::SelectorList;
use trie_minify::values::SupportsCondition;
use trie_minify::values::Targets;
use trie_minify::values::VendorPrefix;

type Rule = CssRule<String>;

fn at(line: u32) -> Location {
    Location { source_index: 0, line, column: 1 }
}

fn id(name: &str) -> PropertyId {
    let longhands: Option<Vec<&str>> = match name {
        "margin" => Some(vec!["margin-top", "margin-right", "margin-bottom", "margin-left"]),
        "border-color" => Some(vec!["border-top-color", "border-left-color"]),
        "border-left" => Some(vec!["border-left-width", "border-left-color"]),
        _ => None,
    };
    PropertyId {
        name: name.to_string(),
        prefix: VendorPrefix { bits: 0 },
        longhands: longhands.map(|names| names.into_iter().map(id).collect()),
    }
}

fn properties(declarations: &[(&str, &str)]) -> Vec<Property> {
    declarations
        .iter()
        .map(|(name, value)| Property { id: id(name), value: value.to_string() })
        .collect()
}

fn block(normal: &[(&str, &str)], important: &[(&str, &str)]) -> DeclarationBlock {
    DeclarationBlock {
        important_declarations: properties(important),
        declarations: properties(normal),
    }
}

fn selectors(list: &[&str]) -> SelectorList {
    SelectorList { selectors: list.iter().map(|selector| selector.to_string()).collect() }
}

fn full_style(
    selector: &str,
    loc: Location,
    declarations: DeclarationBlock,
    rules: Vec<Rule>,
) -> Rule {
    CssRule::Style(StyleRule {
        selectors: selectors(&[selector]),
        vendor_prefix: VendorPrefix { bits: 1 },
        declarations,
        rules: CssRuleList(rules),
        loc,
    })
}

fn style(selector: &str, line: u32, normal: &[(&str, &str)]) -> Rule {
    full_style(selector, at(line), block(normal, &[]), vec![])
}

fn nesting(selector: &str, line: u32, normal: &[(&str, &str)], rules: Vec<Rule>) -> Rule {
    full_style(selector, at(line), block(normal, &[]), rules)
}

fn nested(line: u32, normal: &[(&str, &str)]) -> Rule {
    CssRule::NestedDeclarations(NestedDeclarationsRule {
        declarations: block(normal, &[]),
        loc: at(line),
    })
}

fn media(query: &str, line: u32, rules: Vec<Rule>) -> Rule {
    CssRule::Media(MediaRule {
        query: MediaList { text: query.to_string() },
        rules: CssRuleList(rules),
        loc: at(line),
    })
}

fn supports(condition: &str, line: u32, rules: Vec<Rule>) -> Rule {
    CssRule::Supports(SupportsRule {
        condition: SupportsCondition { text: condition.to_string() },
        rules: CssRuleList(rules),
        loc: at(line),
    })
}

fn container(name: Option<&str>, condition: Option<&str>, line: u32, rules: Vec<Rule>) -> Rule {
    CssRule::Container(ContainerRule {
        name: name.map(|ident| ContainerName { ident: ident.to_string() }),
        condition: condition.map(|text| ContainerCondition { text: text.to_string() }),
        rules: CssRuleList(rules),
        loc: at(line),
    })
}

fn scope(start: Option<&[&str]>, end: Option<&[&str]>, line: u32, rules: Vec<Rule>) -> Rule {
    CssRule::Scope(ScopeRule {
        scope_start: start.map(selectors),
        scope_end: end.map(selectors),
        rules: CssRuleList(rules),
        loc: at(line),
    })
}

fn starting_style(line: u32, rules: Vec<Rule>) -> Rule {
    CssRule::StartingStyle(StartingStyleRule { rules: CssRuleList(rules), loc: at(line) })
}

fn moz_document(line: u32, rules: Vec<Rule>) -> Rule {
    CssRule::MozDocument(MozDocumentRule { rules: CssRuleList(rules), loc: at(line) })
}

fn other(text: &str) -> Rule {
    CssRule::Other(text.to_string())
}

fn red(selector: &str, line: u32) -> Rule {
    style(selector, line, &[("color", "red")])
}

fn blue(selector: &str, line: u32) -> Rule {
    style(selector, line, &[("color", "blue")])
}

fn plain() -> MinifyContext {
    MinifyContext {
        targets: ScopedTargets { current: Targets::default() },
        custom_media: None,
        resolutions: ResolutionTable { rewrites: vec![] },
        css_modules: false,
    }
}

fn with_targets() -> MinifyContext {
    let mut context = plain();
    context.targets.current = Targets { browsers: None, included: 4, excluded: 0 };
    context
}

fn with_css_modules() -> MinifyContext {
    let mut context = plain();
    context.css_modules = true;
    context
}

fn narrow() -> MinifyErrorKind {
    MinifyErrorKind::CustomMediaNotDefined { name: "--narrow".to_string() }
}

fn looping() -> MinifyErrorKind {
    MinifyErrorKind::CircularCustomMedia { name: "--loop".to_string() }
}

fn with_custom_media() -> MinifyContext {
    let rewrite = |query: &str, outcome: Result<&str, MinifyErrorKind>| CustomMediaRewrite {
        query: MediaList { text: query.to_string() },
        outcome: outcome.map(|text| MediaList { text: text.to_string() }),
    };
    let mut context = plain();
    context.custom_media = Some(CustomMedia {
        rewrites: vec![
            rewrite("(--wide)", Ok("(width >= 900px)")),
            rewrite("(--broad)", Ok("(width >= 900px)")),
            rewrite("(--narrow)", Err(narrow())),
            rewrite("(--loop)", Err(looping())),
        ],
    });
    context
}

fn merge_in(mut context: MinifyContext, rules: Vec<Rule>) -> Vec<Rule> {
    let mut list = CssRuleList(rules);
    assert_eq!(merge_rule_list(&mut list, &mut context), Ok(()));
    list.0
}

fn merge(rules: Vec<Rule>) -> Vec<Rule> {
    merge_in(plain(), rules)
}

#[test]
fn adjacent_media_rules_merge() {
    assert_eq!(
        merge(vec![
            media("(hover)", 1, vec![red(".a", 2)]),
            media("(hover)", 3, vec![blue(".b", 4)]),
        ]),
        vec![media("(hover)", 1, vec![red(".a", 2), blue(".b", 4)])]
    );
}

#[test]
fn adjacent_supports_rules_merge() {
    assert_eq!(
        merge(vec![
            supports("(display: grid)", 1, vec![red(".a", 2)]),
            supports("(display: grid)", 3, vec![blue(".b", 4)]),
            supports("(display: flex)", 5, vec![blue(".c", 6)]),
        ]),
        vec![
            supports("(display: grid)", 1, vec![red(".a", 2), blue(".b", 4)]),
            supports("(display: flex)", 5, vec![blue(".c", 6)]),
        ]
    );
}

#[test]
fn adjacent_container_rules_merge_by_name_and_condition() {
    let side = Some("side");
    let wide = Some("(width > 1px)");
    assert_eq!(
        merge(vec![
            container(side, wide, 1, vec![red(".a", 2)]),
            container(side, wide, 3, vec![blue(".b", 4)]),
            container(None, wide, 5, vec![red(".c", 6)]),
            container(side, None, 7, vec![red(".d", 8)]),
            container(side, None, 9, vec![red(".e", 10)]),
        ]),
        vec![
            container(side, wide, 1, vec![red(".a", 2), blue(".b", 4)]),
            container(None, wide, 5, vec![red(".c", 6)]),
            container(side, None, 7, vec![red(".d", 8), red(".e", 10)]),
        ]
    );
}

#[test]
fn adjacent_scope_rules_merge_by_start_and_end() {
    let card: Option<&[&str]> = Some(&[".card"]);
    let end: Option<&[&str]> = Some(&[".x", ".y"]);
    let shorter: Option<&[&str]> = Some(&[".x"]);
    assert_eq!(
        merge(vec![
            scope(card, end, 1, vec![red(".a", 2)]),
            scope(card, end, 3, vec![blue(".b", 4)]),
            scope(card, shorter, 5, vec![red(".c", 6)]),
            scope(None, shorter, 7, vec![red(".d", 8)]),
        ]),
        vec![
            scope(card, end, 1, vec![red(".a", 2), blue(".b", 4)]),
            scope(card, shorter, 5, vec![red(".c", 6)]),
            scope(None, shorter, 7, vec![red(".d", 8)]),
        ]
    );
}

#[test]
fn adjacent_starting_style_rules_merge() {
    assert_eq!(
        merge(vec![starting_style(1, vec![red(".a", 2)]), starting_style(3, vec![blue(".b", 4)])]),
        vec![starting_style(1, vec![red(".a", 2), blue(".b", 4)])]
    );
}

#[test]
fn adjacent_moz_document_rules_merge() {
    assert_eq!(
        merge(vec![moz_document(1, vec![red(".a", 2)]), moz_document(3, vec![blue(".b", 4)])]),
        vec![moz_document(1, vec![red(".a", 2), blue(".b", 4)])]
    );
}

#[test]
fn equal_selectors_merge_declarations() {
    assert_eq!(
        merge(vec![red(".a", 1), style(".a", 2, &[("display", "grid")])]),
        vec![style(".a", 1, &[("color", "red"), ("display", "grid")])]
    );
}

#[test]
fn later_duplicate_takes_the_place_of_the_earlier() {
    assert_eq!(
        merge(vec![
            style(".a", 1, &[("color", "red"), ("display", "grid")]),
            style(".a", 2, &[("color", "blue")]),
        ]),
        vec![style(".a", 1, &[("color", "blue"), ("display", "grid")])]
    );
}

#[test]
fn duplicates_in_one_block_are_replaced_too() {
    assert_eq!(
        merge(vec![
            style(".a", 1, &[("color", "red"), ("color", "blue")]),
            style(".a", 2, &[("color", "green")]),
        ]),
        vec![style(".a", 1, &[("color", "green")])]
    );
}

#[test]
fn importance_keeps_declarations_apart() {
    let rules = vec![
        full_style(".a", at(1), block(&[], &[("color", "red")]), vec![]),
        full_style(".a", at(2), block(&[("color", "blue")], &[]), vec![]),
        full_style(".a", at(3), block(&[], &[("color", "green")]), vec![]),
    ];
    assert_eq!(
        merge(rules),
        vec![full_style(
            ".a",
            at(1),
            block(&[("color", "blue")], &[("color", "green")]),
            vec![]
        )]
    );
}

#[test]
fn conflicts_of_the_other_importance_do_not_matter() {
    let rules = vec![
        full_style(".a", at(1), block(&[("margin-left", "1px")], &[("margin", "2px")]), vec![]),
        full_style(".a", at(2), block(&[("margin-left", "3px")], &[]), vec![]),
    ];
    assert_eq!(
        merge(rules),
        vec![full_style(
            ".a",
            at(1),
            block(&[("margin-left", "3px")], &[("margin", "2px")]),
            vec![]
        )]
    );
}

#[test]
fn nothing_is_replaced_across_a_shorthand() {
    assert_eq!(
        merge(vec![
            style(".a", 1, &[("margin-left", "1px"), ("margin", "2px")]),
            style(".a", 2, &[("margin-left", "3px")]),
        ]),
        vec![style(".a", 1, &[("margin-left", "1px"), ("margin", "2px"), ("margin-left", "3px")])]
    );
}

#[test]
fn the_last_of_several_declarations_is_replaced() {
    assert_eq!(
        merge(vec![
            style(".a", 1, &[("margin-left", "1px"), ("margin", "2px")]),
            style(".a", 2, &[("margin-left", "3px")]),
            style(".a", 3, &[("margin-left", "4px")]),
        ]),
        vec![style(".a", 1, &[("margin-left", "1px"), ("margin", "2px"), ("margin-left", "4px")])]
    );
}

#[test]
fn nothing_is_replaced_across_a_longhand() {
    assert_eq!(
        merge(vec![
            style(".a", 1, &[("margin", "1px"), ("margin-left", "2px")]),
            style(".a", 2, &[("margin", "3px")]),
        ]),
        vec![style(".a", 1, &[("margin", "1px"), ("margin-left", "2px"), ("margin", "3px")])]
    );
}

#[test]
fn nothing_is_replaced_across_all() {
    assert_eq!(
        merge(vec![
            style(".a", 1, &[("color", "red"), ("all", "unset")]),
            style(".a", 2, &[("color", "blue")]),
        ]),
        vec![style(".a", 1, &[("color", "red"), ("all", "unset"), ("color", "blue")])]
    );
}

#[test]
fn nothing_is_replaced_across_a_common_longhand() {
    assert_eq!(
        merge(vec![
            style(".a", 1, &[("border-color", "red"), ("border-left", "1px")]),
            style(".a", 2, &[("border-color", "blue")]),
        ]),
        vec![style(
            ".a",
            1,
            &[("border-color", "red"), ("border-left", "1px"), ("border-color", "blue")]
        )]
    );
}

#[test]
fn prefixes_keep_properties_apart() {
    let prefixed = |line: u32, bits: u8, value: &str| {
        let property = Property {
            id: PropertyId {
                name: "transition".to_string(),
                prefix: VendorPrefix { bits },
                longhands: None,
            },
            value: value.to_string(),
        };
        (line, property)
    };
    let rule = |line: u32, declarations: Vec<Property>| {
        let declarations = DeclarationBlock { important_declarations: vec![], declarations };
        full_style(".a", at(line), declarations, vec![])
    };
    let (first, webkit) = prefixed(1, 2, "none");
    let (second, moz) = prefixed(2, 4, "none");
    let (third, later) = prefixed(3, 2, "all");
    assert_eq!(
        merge(vec![
            rule(first, vec![webkit]),
            rule(second, vec![moz.clone()]),
            rule(third, vec![later.clone()]),
        ]),
        vec![rule(1, vec![later, moz])]
    );
}

#[test]
fn many_properties_are_found_again() {
    let names: Vec<String> = (0..50).map(|i| format!("--p{}", i)).collect();
    let first: Vec<(&str, &str)> = names.iter().map(|name| (name.as_str(), "a")).collect();
    let second: Vec<(&str, &str)> = names.iter().rev().map(|name| (name.as_str(), "b")).collect();
    let expected: Vec<(&str, &str)> = names.iter().map(|name| (name.as_str(), "b")).collect();
    assert_eq!(
        merge(vec![style(".a", 1, &first), style(".a", 2, &second)]),
        vec![style(".a", 1, &expected)]
    );
}

#[test]
fn media_rules_do_not_merge_across_a_style_rule() {
    let rules = || {
        vec![
            media("(hover)", 1, vec![red(".a", 2)]),
            blue(".a", 3),
            media("(hover)", 4, vec![style(".a", 5, &[("color", "green")])]),
        ]
    };
    assert_eq!(merge(rules()), rules());
    let mut more = rules();
    more.push(red(".b", 6));
    more.push(style(".b", 7, &[("display", "grid")]));
    let mut expected = rules();
    expected.push(style(".b", 6, &[("color", "red"), ("display", "grid")]));
    assert_eq!(merge(more), expected);
}

#[test]
fn nothing_merges_across_other_rules() {
    let mut rules = vec![
        media("(hover)", 1, vec![red(".a", 2)]),
        other("@font-face"),
        media("(hover)", 3, vec![red(".a", 4)]),
        red(".b", 5),
        other("@layer"),
        blue(".b", 6),
    ];
    rules.push(blue(".b", 7));
    assert_eq!(
        merge(rules),
        vec![
            media("(hover)", 1, vec![red(".a", 2)]),
            other("@font-face"),
            media("(hover)", 3, vec![red(".a", 4)]),
            red(".b", 5),
            other("@layer"),
            blue(".b", 6),
        ]
    );
}

#[test]
fn equal_other_rules_stay_apart() {
    let rules = || vec![other("@import"), other("@import")];
    assert_eq!(merge(rules()), rules());
}

#[test]
fn other_rules_end_a_run_of_declarations() {
    assert_eq!(
        merge(vec![
            nesting(".a", 1, &[("color", "red")], vec![other("@x"), nested(2, &[("color", "blue")])]),
            style(".a", 3, &[("color", "green")]),
        ]),
        vec![nesting(
            ".a",
            1,
            &[("color", "red")],
            vec![other("@x"), nested(1, &[("color", "green")])]
        )]
    );
}

#[test]
fn repeated_paths_share_one_prefix() {
    let path = |line: u32, rule: Rule| {
        media("(hover)", line, vec![supports("(display: grid)", line + 1, vec![rule])])
    };
    assert_eq!(
        merge(vec![
            path(1, red(".a", 3)),
            path(4, style(".a", 6, &[("display", "grid")])),
            path(7, blue(".b", 9)),
        ]),
        vec![media(
            "(hover)",
            1,
            vec![supports(
                "(display: grid)",
                2,
                vec![style(".a", 3, &[("color", "red"), ("display", "grid")]), blue(".b", 9)]
            )]
        )]
    );
}

#[test]
fn alternating_rules_stay_apart() {
    let rules = || vec![red(".a", 1), red(".b", 2), red(".a", 3), red(".b", 4)];
    assert_eq!(merge(rules()), rules());
}

#[test]
fn declarations_keep_their_place_among_nested_rules() {
    assert_eq!(
        merge(vec![
            nesting(
                ".a",
                1,
                &[],
                vec![
                    media("(hover)", 2, vec![nested(3, &[("color", "red")])]),
                    nested(4, &[("color", "blue")]),
                ]
            ),
            style(".a", 5, &[("display", "grid")]),
        ]),
        vec![nesting(
            ".a",
            1,
            &[],
            vec![
                media("(hover)", 2, vec![nested(2, &[("color", "red")])]),
                nested(1, &[("color", "blue"), ("display", "grid")]),
            ]
        )]
    );
}

#[test]
fn later_declarations_join_the_rule_across_a_nested_rule() {
    assert_eq!(
        merge(vec![
            media(
                "(width >= 900px)",
                1,
                vec![nesting(
                    ".card",
                    2,
                    &[("color", "red")],
                    vec![supports("(display: grid)", 3, vec![nested(4, &[("display", "grid")])])]
                )]
            ),
            media("(width >= 900px)", 5, vec![blue(".card", 6)]),
        ]),
        vec![media(
            "(width >= 900px)",
            1,
            vec![nesting(
                ".card",
                2,
                &[("color", "blue")],
                vec![supports("(display: grid)", 3, vec![nested(3, &[("display", "grid")])])]
            )]
        )]
    );
}

#[test]
fn joining_declarations_that_replace_nothing_go_behind_the_others() {
    assert_eq!(
        merge(vec![
            nesting(
                ".a",
                1,
                &[("color", "red")],
                vec![
                    supports("(display: grid)", 2, vec![nested(3, &[("display", "grid")])]),
                    media("(hover)", 4, vec![nested(5, &[("order", "1")])]),
                ]
            ),
            style(".a", 6, &[("width", "1px"), ("color", "blue")]),
        ]),
        vec![nesting(
            ".a",
            1,
            &[("color", "blue"), ("width", "1px")],
            vec![
                supports("(display: grid)", 2, vec![nested(2, &[("display", "grid")])]),
                media("(hover)", 4, vec![nested(4, &[("order", "1")])]),
            ]
        )]
    );
}

#[test]
fn declarations_do_not_join_across_a_conflict() {
    let crossed = |declaration: (&'static str, &'static str)| {
        supports("(display: grid)", 2, vec![nesting(".b", 3, &[declaration], vec![])])
    };
    for declaration in [("color", "green"), ("all", "unset")] {
        assert_eq!(
            merge(vec![
                nesting(".a", 1, &[("color", "red")], vec![crossed(declaration)]),
                style(".a", 4, &[("color", "blue"), ("order", "1")]),
            ]),
            vec![nesting(
                ".a",
                1,
                &[("color", "red")],
                vec![
                    crossed(declaration),
                    nested(1, &[("color", "blue"), ("order", "1")]),
                ]
            )]
        );
    }
}

#[test]
fn declarations_do_not_join_across_other_rules_at_any_depth() {
    let crossed = || media("(hover)", 2, vec![other("@x")]);
    assert_eq!(
        merge(vec![
            nesting(".a", 1, &[("color", "red")], vec![crossed()]),
            style(".a", 4, &[("order", "1")]),
        ]),
        vec![nesting(
            ".a",
            1,
            &[("color", "red")],
            vec![crossed(), nested(1, &[("order", "1")])]
        )]
    );
}

#[test]
fn declarations_join_across_those_of_the_other_importance() {
    let crossed = || {
        media(
            "(hover)",
            2,
            vec![full_style(".b", at(3), block(&[], &[("color", "green")]), vec![])],
        )
    };
    assert_eq!(
        merge(vec![
            nesting(".a", 1, &[("color", "red")], vec![crossed()]),
            blue(".a", 4),
        ]),
        vec![nesting(".a", 1, &[("color", "blue")], vec![crossed()])]
    );
}

#[test]
fn targets_keep_declarations_behind_a_nested_rule() {
    let rules = || {
        vec![nesting(
            ".a",
            1,
            &[("color", "red")],
            vec![
                media("(hover)", 2, vec![nested(2, &[("order", "1")])]),
                nested(1, &[("color", "blue")]),
                blue(".b", 3),
            ],
        )]
    };
    let mut twice = rules();
    if let CssRule::Style(rule) = &mut twice[0] {
        rule.rules.0.push(style(".b", 4, &[]));
    }
    assert_eq!(merge_in(with_targets(), twice), rules());
}

#[test]
fn a_second_merge_changes_nothing() {
    let lists = || {
        vec![
            vec![
                media("(hover)", 1, vec![red(".a", 2)]),
                media("(hover)", 3, vec![blue(".a", 4), other("@x")]),
            ],
            vec![
                style(".a", 1, &[("margin-left", "1px"), ("margin", "2px")]),
                style(".a", 2, &[("margin-left", "3px")]),
            ],
            vec![
                nesting(".a", 1, &[], vec![red(".b", 2), nested(3, &[("order", "1")])]),
                style(".a", 4, &[("color", "blue"), ("color", "green")]),
                nesting(".a", 5, &[], vec![red(".c", 6)]),
            ],
            vec![
                nesting(".a", 1, &[("color", "red")], vec![media("(hover)", 2, vec![red(".b", 3)])]),
                style(".a", 4, &[("order", "1")]),
            ],
        ]
    };
    for context in [plain, with_targets] {
        for list in lists() {
            let once = merge_in(context(), list);
            let mut again = CssRuleList(once);
            let copy = format!("{:?}", again);
            if context().targets.current == Targets::default() {
                assert_eq!(should_merge_rule_list(&again, &context()), Ok(false));
            }
            assert_eq!(merge_rule_list(&mut again, &mut context()), Ok(()));
            assert_eq!(format!("{:?}", again), copy);
        }
    }
}

#[test]
fn nodes_that_joining_brings_together_become_one() {
    let wrapper = |line: u32, name: &str| supports("(x)", line, vec![nested(line, &[(name, "1")])]);
    let merged = || {
        vec![nesting(
            ".a",
            1,
            &[("color", "blue")],
            vec![supports("(x)", 2, vec![nested(2, &[("order", "1"), ("gap", "1")])])],
        )]
    };
    assert_eq!(
        merge(vec![
            nesting(".a", 1, &[("color", "red")], vec![wrapper(2, "order")]),
            nesting(".a", 3, &[("color", "blue")], vec![wrapper(4, "gap")]),
        ]),
        merged()
    );
    assert_eq!(should_merge_rule_list(&CssRuleList(merged()), &plain()), Ok(false));
    assert_eq!(merge(merged()), merged());
}

#[test]
fn nodes_that_joining_brings_together_become_one_at_any_depth() {
    let path = |line: u32, name: &str| {
        media(
            "(hover)",
            line,
            vec![nesting(
                ".b",
                line + 1,
                &[(name, "1")],
                vec![supports("(x)", line + 2, vec![nested(line + 2, &[("width", "1px")])])],
            )],
        )
    };
    assert_eq!(
        merge(vec![
            nesting(".a", 1, &[("color", "red")], vec![path(2, "order")]),
            nesting(".a", 5, &[("color", "blue")], vec![path(6, "gap")]),
        ]),
        vec![nesting(
            ".a",
            1,
            &[("color", "blue")],
            vec![media(
                "(hover)",
                2,
                vec![nesting(
                    ".b",
                    3,
                    &[("order", "1"), ("gap", "1")],
                    vec![supports("(x)", 4, vec![nested(4, &[("width", "1px")])])]
                )]
            )]
        )]
    );
}

#[test]
fn the_query_of_the_first_of_such_nodes_is_printed() {
    let wrapper = |query: &str, line: u32, name: &str| {
        media(query, line, vec![nested(line, &[(name, "1")])])
    };
    assert_eq!(
        merge_in(
            with_custom_media(),
            vec![
                nesting(".a", 1, &[("color", "red")], vec![wrapper("(--wide)", 2, "order")]),
                nesting(".a", 3, &[("color", "blue")], vec![wrapper("(width >= 900px)", 4, "gap")]),
            ]
        ),
        vec![nesting(
            ".a",
            1,
            &[("color", "blue")],
            vec![media("(--wide)", 2, vec![nested(2, &[("order", "1"), ("gap", "1")])])]
        )]
    );
}

#[test]
fn declarations_do_not_join_across_what_they_may_have_to_do_with() {
    let stays = |own: &'static str, crossed: &'static str| {
        let wrapper = || supports("(x)", 2, vec![nested(2, &[(crossed, "2px")])]);
        assert_eq!(
            merge(vec![
                nesting(".a", 1, &[(own, "1px")], vec![wrapper()]),
                style(".a", 3, &[(own, "3px")]),
            ]),
            vec![nesting(".a", 1, &[(own, "1px")], vec![wrapper(), nested(1, &[(own, "3px")])])]
        );
    };
    stays("margin-left", "margin-inline-start");
    stays("margin-inline-start", "margin-left");
    stays("width", "inline-size");
    stays("left", "inset-block-end");
    stays("gap", "grid-gap");
    stays("mask", "-webkit-mask");
}

#[test]
fn declarations_do_not_join_across_the_same_name_with_another_prefix() {
    let prefixed = |bits: u8, value: &str| DeclarationBlock {
        important_declarations: vec![],
        declarations: vec![Property {
            id: PropertyId {
                name: "transition".to_string(),
                prefix: VendorPrefix { bits },
                longhands: None,
            },
            value: value.to_string(),
        }],
    };
    let wrapper = || media("(hover)", 2, vec![full_style(".b", at(3), prefixed(2, "b"), vec![])]);
    assert_eq!(
        merge(vec![
            full_style(".a", at(1), prefixed(1, "a"), vec![wrapper()]),
            full_style(".a", at(4), prefixed(1, "c"), vec![]),
        ]),
        vec![full_style(
            ".a",
            at(1),
            prefixed(1, "a"),
            vec![
                wrapper(),
                CssRule::NestedDeclarations(NestedDeclarationsRule {
                    declarations: prefixed(1, "c"),
                    loc: at(1),
                })
            ]
        )]
    );
}

#[test]
fn an_empty_nested_rule_does_not_end_the_rule_block() {
    assert_eq!(
        merge(vec![
            red(".a", 1),
            nesting(".a", 2, &[], vec![supports("(display: grid)", 3, vec![])]),
            blue(".a", 4),
        ]),
        vec![blue(".a", 1)]
    );
    assert_eq!(
        merge_in(
            with_targets(),
            vec![
                nesting(".a", 2, &[], vec![supports("(display: grid)", 3, vec![])]),
                blue(".a", 4),
            ]
        ),
        vec![blue(".a", 2)]
    );
}

#[test]
fn nested_rules_merge_in_a_list_of_one() {
    assert_eq!(
        merge(vec![nesting(".a", 1, &[], vec![red(".b", 2), blue(".b", 3)])]),
        vec![nesting(".a", 1, &[], vec![blue(".b", 2)])]
    );
}

#[test]
fn nested_declarations_of_a_wrapper_merge() {
    assert_eq!(
        merge(vec![
            media("(hover)", 1, vec![nested(2, &[("color", "red")])]),
            media("(hover)", 3, vec![nested(4, &[("color", "blue"), ("order", "1")])]),
        ]),
        vec![media("(hover)", 1, vec![nested(1, &[("color", "blue"), ("order", "1")])])]
    );
}

#[test]
fn lists_without_neighbours_stay_as_they_are() {
    assert_eq!(merge(vec![]), vec![]);
    let rules = || vec![supports("(display: grid)", 1, vec![]), style(".a", 2, &[])];
    assert_eq!(merge(rules()), rules());
    let duplicates = || vec![style(".a", 1, &[("color", "red"), ("color", "blue")])];
    assert_eq!(merge(duplicates()), duplicates());
}

#[test]
fn css_modules_keep_the_list() {
    let rules = || {
        vec![
            red(".a", 1),
            blue(".a", 2),
            media("(hover)", 3, vec![]),
            media("(hover)", 4, vec![]),
        ]
    };
    assert_eq!(merge_in(with_css_modules(), rules()), rules());
}

#[test]
fn sources_stay_apart() {
    let elsewhere = |line: u32| {
        let loc = Location { source_index: 1, line, column: 1 };
        full_style(".a", loc, block(&[("color", "blue")], &[]), vec![])
    };
    assert_eq!(merge(vec![red(".a", 1), elsewhere(2)]), vec![red(".a", 1), elsewhere(2)]);
    assert_eq!(
        merge(vec![red(".a", 1), elsewhere(2), elsewhere(3)]),
        vec![red(".a", 1), elsewhere(2)]
    );
}

#[test]
fn vendor_prefixes_keep_rules_apart() {
    let prefixed = |line: u32, bits: u8| {
        CssRule::Style(StyleRule::<String> {
            selectors: selectors(&[".a"]),
            vendor_prefix: VendorPrefix { bits },
            declarations: block(&[("color", "red")], &[]),
            rules: CssRuleList(vec![]),
            loc: at(line),
        })
    };
    let rules = || vec![prefixed(1, 2), prefixed(2, 4)];
    assert_eq!(merge(rules()), rules());
    assert_eq!(merge(vec![prefixed(1, 2), prefixed(2, 2)]), vec![prefixed(1, 2)]);
}

#[test]
fn selector_lists_merge_only_whole() {
    let listed = |line: u32, list: &[&str]| {
        CssRule::Style(StyleRule::<String> {
            selectors: selectors(list),
            vendor_prefix: VendorPrefix { bits: 1 },
            declarations: block(&[("color", "red")], &[]),
            rules: CssRuleList(vec![]),
            loc: at(line),
        })
    };
    assert_eq!(
        merge(vec![
            listed(1, &[".a", ".b"]),
            listed(2, &[".a", ".b"]),
            listed(3, &[".b", ".a"]),
            listed(4, &[".b"]),
        ]),
        vec![listed(1, &[".a", ".b"]), listed(3, &[".b", ".a"]), listed(4, &[".b"])]
    );
}

#[test]
fn normalized_queries_merge_under_the_first() {
    assert_eq!(
        merge_in(
            with_custom_media(),
            vec![
                media("(--wide)", 1, vec![red(".a", 2)]),
                media("(width >= 900px)", 3, vec![red(".b", 4)]),
                media("(--broad)", 5, vec![red(".c", 6)]),
            ]
        ),
        vec![media("(--wide)", 1, vec![red(".a", 2), red(".b", 4), red(".c", 6)])]
    );
}

#[test]
fn targets_keep_runs_of_declarations_apart() {
    let rules = || vec![red(".a", 1), blue(".a", 2)];
    assert_eq!(merge_in(with_targets(), rules()), rules());
    assert_eq!(
        merge_in(
            with_targets(),
            vec![media("(hover)", 1, vec![red(".a", 2)]), media("(hover)", 3, vec![blue(".a", 4)])]
        ),
        vec![media("(hover)", 1, vec![red(".a", 2), blue(".a", 4)])]
    );
}

#[test]
fn targets_let_rules_without_declarations_merge() {
    assert_eq!(
        merge_in(
            with_targets(),
            vec![
                nesting(".a", 1, &[], vec![red(".b", 2)]),
                style(".a", 3, &[("color", "blue"), ("color", "green")]),
                nesting(".a", 4, &[], vec![red(".c", 5)]),
            ]
        ),
        vec![nesting(
            ".a",
            1,
            &[],
            vec![
                red(".b", 2),
                nested(1, &[("color", "blue"), ("color", "green")]),
                red(".c", 5),
            ]
        )]
    );
}

#[test]
fn targets_keep_a_rule_apart_from_nested_declarations() {
    let rules = vec![
        nesting(".a", 1, &[], vec![nested(2, &[("color", "red")])]),
        blue(".a", 3),
    ];
    assert_eq!(merge_in(with_targets(), rules), vec![red(".a", 1), blue(".a", 3)]);
}

#[test]
fn empty_rules_are_dropped() {
    assert_eq!(
        merge(vec![
            supports("(display: grid)", 1, vec![]),
            supports("(display: grid)", 2, vec![style(".a", 3, &[])]),
        ]),
        vec![]
    );
    assert_eq!(
        merge(vec![
            media("(hover)", 1, vec![container(None, None, 2, vec![])]),
            starting_style(3, vec![]),
            moz_document(4, vec![scope(None, None, 5, vec![])]),
            red(".a", 6),
            red(".a", 7),
        ]),
        vec![red(".a", 6)]
    );
}

#[test]
fn rules_without_selectors_are_dropped() {
    let nowhere = |line: u32| {
        CssRule::Style(StyleRule::<String> {
            selectors: selectors(&[]),
            vendor_prefix: VendorPrefix { bits: 1 },
            declarations: block(&[("color", "red")], &[]),
            rules: CssRuleList(vec![]),
            loc: at(line),
        })
    };
    assert_eq!(merge(vec![nowhere(1), nowhere(2), blue(".a", 3)]), vec![blue(".a", 3)]);
}

#[test]
fn style_rule_without_content_is_empty() {
    let rule = |list: &[&str], declarations: DeclarationBlock, rules: Vec<Rule>| StyleRule {
        selectors: selectors(list),
        vendor_prefix: VendorPrefix { bits: 1 },
        declarations,
        rules: CssRuleList(rules),
        loc: at(1),
    };
    assert!(rule(&[".a"], block(&[], &[]), vec![]).is_empty());
    assert!(rule(&[], block(&[("color", "red")], &[]), vec![]).is_empty());
    assert!(!rule(&[".a"], block(&[("color", "red")], &[]), vec![]).is_empty());
    assert!(!rule(&[".a"], block(&[], &[("color", "red")]), vec![]).is_empty());
    assert!(!rule(&[".a"], block(&[], &[]), vec![other("@x")]).is_empty());
}

#[test]
fn error_while_looking_for_neighbours_keeps_the_list() {
    let rules = || {
        vec![media("(--wide)", 1, vec![red(".a", 2)]), media("(--narrow)", 3, vec![red(".b", 4)])]
    };
    let mut list = CssRuleList(rules());
    let mut context = with_custom_media();
    let error = MinifyError { kind: narrow(), loc: at(3) };
    assert_eq!(merge_rule_list(&mut list, &mut context), Err(error));
    assert_eq!(list.0, rules());
    assert_eq!(context, with_custom_media());
}

#[test]
fn error_of_the_first_query_counts() {
    let mut list = CssRuleList::<String>(vec![
        media("(--loop)", 1, vec![]),
        media("(--narrow)", 2, vec![]),
    ]);
    let error = MinifyError { kind: looping(), loc: at(1) };
    assert_eq!(merge_rule_list(&mut list, &mut with_custom_media()), Err(error));
}

#[test]
fn error_while_building_the_tree_loses_the_list() {
    let mut list = CssRuleList(vec![
        red(".a", 1),
        blue(".a", 2),
        nesting(".b", 3, &[], vec![media("(--narrow)", 4, vec![])]),
    ]);
    let mut context = with_custom_media();
    let error = MinifyError { kind: narrow(), loc: at(4) };
    assert_eq!(merge_rule_list(&mut list, &mut context), Err(error));
    assert_eq!(list.0, vec![]);
    assert_eq!(context, with_custom_media());
}

#[test]
fn queries_without_a_neighbour_are_not_looked_at() {
    let rules = || vec![media("(--narrow)", 1, vec![]), red(".a", 2)];
    assert_eq!(merge_in(with_custom_media(), rules()), rules());
}

#[test]
fn without_custom_media_no_query_fails() {
    assert_eq!(
        merge(vec![
            media("(--narrow)", 1, vec![red(".a", 2)]),
            media("(--narrow)", 3, vec![red(".b", 4)]),
        ]),
        vec![media("(--narrow)", 1, vec![red(".a", 2), red(".b", 4)])]
    );
}

#[test]
fn adjacent_rules_of_different_kinds_do_not_merge() {
    let context = plain();
    let kinds = [
        media("x", 1, vec![]),
        supports("x", 1, vec![]),
        container(None, None, 1, vec![]),
        scope(None, None, 1, vec![]),
        starting_style(1, vec![]),
        moz_document(1, vec![]),
        style(".a", 1, &[]),
        nested(1, &[]),
        other("x"),
    ];
    for (i, a) in kinds.iter().enumerate() {
        for (j, b) in kinds.iter().enumerate() {
            assert_eq!(adjacent_rules_can_merge(a, b, &context), Ok(i == j && i < 7));
        }
    }
}

#[test]
fn adjacent_style_rules_with_targets_need_one_without_declarations() {
    let context = with_targets();
    assert_eq!(adjacent_rules_can_merge(&red(".a", 1), &red(".a", 2), &context), Ok(false));
    assert_eq!(adjacent_rules_can_merge(&style(".a", 1, &[]), &red(".a", 2), &context), Ok(true));
    assert_eq!(adjacent_rules_can_merge(&red(".a", 1), &style(".a", 2, &[]), &context), Ok(true));
    assert_eq!(adjacent_rules_can_merge(&red(".a", 1), &red(".b", 2), &plain()), Ok(false));
    assert_eq!(adjacent_rules_can_merge(&red(".a", 1), &red(".a", 2), &plain()), Ok(true));
}

#[test]
fn adjacent_media_rules_report_errors() {
    let context = with_custom_media();
    let good: Rule = media("(--wide)", 1, vec![]);
    let bad: Rule = media("(--narrow)", 2, vec![]);
    let error = || Err(MinifyError { kind: narrow(), loc: at(2) });
    assert_eq!(adjacent_rules_can_merge(&good, &bad, &context), error());
    assert_eq!(adjacent_rules_can_merge(&bad, &good, &context), error());
    assert_eq!(adjacent_rules_can_merge(&bad, &red(".a", 3), &context), Ok(false));
}

#[test]
fn neighbours_are_found_at_any_depth() {
    let context = plain();
    let deep = CssRuleList(vec![supports(
        "(display: grid)",
        1,
        vec![nesting(".a", 2, &[], vec![starting_style(3, vec![]), starting_style(4, vec![])])],
    )]);
    assert_eq!(should_merge_rule_list(&deep, &context), Ok(true));
    assert_eq!(should_merge_nested_rule_list(&deep, &context), Ok(true));
    let flat = CssRuleList(vec![red(".a", 1), red(".a", 2)]);
    assert_eq!(should_merge_rule_list(&flat, &context), Ok(true));
    assert_eq!(should_merge_nested_rule_list(&flat, &context), Ok(false));
    let apart = CssRuleList(vec![red(".a", 1), other("x"), red(".a", 2)]);
    assert_eq!(should_merge_rule_list(&apart, &context), Ok(false));
}

#[test]
fn neighbours_of_the_list_come_before_those_in_it() {
    let context = with_custom_media();
    let bad = || vec![media("(--narrow)", 3, vec![]), media("(--narrow)", 4, vec![])];
    let list = CssRuleList(vec![
        supports("(display: grid)", 1, bad()),
        red(".a", 5),
        red(".a", 6),
    ]);
    let error = || Err(MinifyError { kind: narrow(), loc: at(3) });
    assert_eq!(should_merge_rule_list(&list, &context), Ok(true));
    assert_eq!(should_merge_nested_rule_list(&list, &context), error());
    let only = CssRuleList(vec![supports("(display: grid)", 1, bad()), red(".a", 5)]);
    assert_eq!(should_merge_rule_list(&only, &context), error());
}

#[test]
fn merged_list_is_no_longer_than_before() {
    let rules = vec![
        nested(1, &[("color", "red")]),
        nested(2, &[("display", "grid")]),
        red(".a", 3),
        red(".a", 4),
        other("x"),
    ];
    let before = rules.len();
    let after = merge(rules);
    assert!(after.len() <= before);
    assert_eq!(
        after,
        vec![
            CssRule::NestedDeclarations(NestedDeclarationsRule {
                declarations: block(&[("color", "red"), ("display", "grid")], &[]),
                loc: Location { source_index: 0, line: 0, column: 0 },
            }),
            red(".a", 3),
            other("x"),
        ]
    );
}
