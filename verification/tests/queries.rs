//! Media queries, and what the context makes of them.
use trie_minify::context::can_reuse_style_declarations;
use trie_minify::context::normalize_media_key;
use trie_minify::context::CustomMedia;
use trie_minify::context::CustomMediaRewrite;
use trie_minify::context::MinifyContext;
use trie_minify::context::MinifyError;
use trie_minify::context::MinifyErrorKind;
use trie_minify::context::ResolutionRewrite;
use trie_minify::context::ResolutionTable;
use trie_minify::context::ScopedTargets;
use trie_minify::rules::CssRuleList;
use trie_minify::rules::MediaRule;
use trie_minify::values::Browsers;
use trie_minify::values::Location;
use trie_minify::values::MediaList;
use trie_minify::values::Targets;

fn list(text: &str) -> MediaList {
    MediaList { text: text.to_string() }
}

fn place(line: u32) -> Location {
    Location { source_index: 0, line, column: 7 }
}

fn media_rule(query: &str, line: u32) -> MediaRule<String> {
    MediaRule { query: list(query), rules: CssRuleList(vec![]), loc: place(line) }
}

fn safari() -> Targets {
    let browsers = Browsers {
        android: None,
        chrome: None,
        edge: None,
        firefox: None,
        ie: None,
        ios_saf: None,
        opera: None,
        safari: Some(14 << 16),
        samsung: None,
    };
    Targets { browsers: Some(browsers), included: 0, excluded: 0 }
}

fn unresolved() -> MinifyErrorKind {
    MinifyErrorKind::CustomMediaNotDefined { name: "--narrow".to_string() }
}

fn circular() -> MinifyErrorKind {
    MinifyErrorKind::CircularCustomMedia { name: "--loop".to_string() }
}

fn unsupported() -> MinifyErrorKind {
    MinifyErrorKind::UnsupportedCustomMediaBooleanLogic { custom_media_loc: place(1) }
}

fn custom() -> CustomMedia {
    CustomMedia {
        rewrites: vec![
            CustomMediaRewrite { query: list("(--wide)"), outcome: Ok(list("(width >= 900px)")) },
            CustomMediaRewrite { query: list("(--narrow)"), outcome: Err(unresolved()) },
            CustomMediaRewrite { query: list("(--loop)"), outcome: Err(circular()) },
            CustomMediaRewrite { query: list("not (--print)"), outcome: Err(unsupported()) },
            CustomMediaRewrite { query: list("(--wide)"), outcome: Ok(list("(width >= 1px)")) },
            CustomMediaRewrite { query: list("(--sharp)"), outcome: Ok(list("(resolution: 2dppx)")) },
        ],
    }
}

fn resolutions() -> ResolutionTable {
    ResolutionTable {
        rewrites: vec![ResolutionRewrite {
            targets: safari(),
            query: list("(resolution: 2dppx)"),
            replacement: list("(-webkit-device-pixel-ratio: 2), (resolution: 2dppx)"),
        }],
    }
}

fn surroundings(targets: Targets, custom_media: Option<CustomMedia>) -> MinifyContext {
    MinifyContext {
        targets: ScopedTargets { current: targets },
        custom_media,
        resolutions: resolutions(),
        css_modules: false,
    }
}

#[test]
fn custom_media_is_replaced_by_the_first_entry() {
    let mut query = list("(--wide)");
    assert_eq!(query.transform_custom_media(place(3), &custom()), Ok(()));
    assert_eq!(query, list("(width >= 900px)"));
}

#[test]
fn query_without_custom_media_stays() {
    let mut query = list("(hover)");
    assert_eq!(query.transform_custom_media(place(3), &custom()), Ok(()));
    assert_eq!(query, list("(hover)"));
}

#[test]
fn undefined_custom_media_is_an_error() {
    let mut query = list("(--narrow)");
    let error = MinifyError { kind: unresolved(), loc: place(3) };
    assert_eq!(query.transform_custom_media(place(3), &custom()), Err(error));
    assert_eq!(query, list("(--narrow)"));
}

#[test]
fn circular_custom_media_is_an_error() {
    let mut query = list("(--loop)");
    let error = MinifyError { kind: circular(), loc: place(4) };
    assert_eq!(query.transform_custom_media(place(4), &custom()), Err(error));
}

#[test]
fn unsupported_boolean_logic_is_an_error() {
    let mut query = list("not (--print)");
    let error = MinifyError { kind: unsupported(), loc: place(5) };
    assert_eq!(query.transform_custom_media(place(5), &custom()), Err(error));
}

#[test]
fn resolution_depends_on_the_targets() {
    let mut query = list("(resolution: 2dppx)");
    query.transform_resolution(Targets::default(), &resolutions());
    assert_eq!(query, list("(resolution: 2dppx)"));
    query.transform_resolution(safari(), &resolutions());
    assert_eq!(query, list("(-webkit-device-pixel-ratio: 2), (resolution: 2dppx)"));
}

#[test]
fn media_key_replaces_custom_media_and_then_resolutions() {
    let rule = media_rule("(--sharp)", 6);
    assert_eq!(
        normalize_media_key(&rule, &surroundings(safari(), Some(custom()))),
        Ok(list("(-webkit-device-pixel-ratio: 2), (resolution: 2dppx)"))
    );
    assert_eq!(
        normalize_media_key(&rule, &surroundings(Targets::default(), Some(custom()))),
        Ok(list("(resolution: 2dppx)"))
    );
    assert_eq!(
        normalize_media_key(&rule, &surroundings(safari(), None)),
        Ok(list("(--sharp)"))
    );
    assert_eq!(rule.query, list("(--sharp)"));
}

#[test]
fn media_key_error_bears_the_location_of_the_rule() {
    let rule = media_rule("(--narrow)", 8);
    let error = MinifyError { kind: unresolved(), loc: place(8) };
    assert_eq!(
        normalize_media_key(&rule, &surroundings(Targets::default(), Some(custom()))),
        Err(error)
    );
}

#[test]
fn declarations_are_reused_without_targets_and_css_modules() {
    let mut context = surroundings(Targets::default(), None);
    assert!(can_reuse_style_declarations(&context));
    context.css_modules = true;
    assert!(!can_reuse_style_declarations(&context));
    context.css_modules = false;
    context.targets.current = safari();
    assert!(!can_reuse_style_declarations(&context));
    context.targets.current = Targets { browsers: None, included: 1, excluded: 0 };
    assert!(!can_reuse_style_declarations(&context));
    context.targets.current = Targets { browsers: None, included: 0, excluded: 1 };
    assert!(!can_reuse_style_declarations(&context));
}
