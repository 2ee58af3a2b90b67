//! Properties and declaration blocks.
use trie_minify::declaration::append_declarations;
use trie_minify::declaration::longhands_include;
use trie_minify::declaration::properties_conflict;
use trie_minify::declaration::same_property_id;
use trie_minify::declaration::DeclarationBlock;
use trie_minify::declaration::Property;
use trie_minify::declaration::PropertyId;
use trie_minify::names::names_share_word;
use trie_minify::names::properties_related;
use trie_minify::names::split_words;
use trie_minify::values::VendorPrefix;

fn prefixed(name: &str, bits: u8) -> PropertyId {
    PropertyId { name: name.to_string(), prefix: VendorPrefix { bits }, longhands: None }
}

fn longhand(name: &str) -> PropertyId {
    prefixed(name, 0)
}

fn shorthand(name: &str, longhands: &[&str]) -> PropertyId {
    PropertyId {
        name: name.to_string(),
        prefix: VendorPrefix { bits: 0 },
        longhands: Some(longhands.iter().map(|name| longhand(name)).collect()),
    }
}

fn margin() -> PropertyId {
    shorthand("margin", &["margin-top", "margin-right", "margin-bottom", "margin-left"])
}

fn declare(name: &str, value: &str) -> Property {
    Property { id: longhand(name), value: value.to_string() }
}

#[test]
fn same_property_needs_name_and_prefix() {
    assert!(same_property_id(&longhand("color"), &longhand("color")));
    assert!(!same_property_id(&longhand("color"), &longhand("display")));
    assert!(!same_property_id(&prefixed("transition", 2), &prefixed("transition", 4)));
    assert!(same_property_id(&prefixed("transition", 2), &prefixed("transition", 2)));
}

#[test]
fn longhands_do_not_matter_for_the_same_property() {
    assert!(same_property_id(&margin(), &longhand("margin")));
}

#[test]
fn shorthand_lists_its_longhands() {
    assert!(longhands_include(&margin(), &longhand("margin-left")));
    assert!(!longhands_include(&margin(), &longhand("padding-left")));
    assert!(!longhands_include(&margin(), &prefixed("margin-left", 2)));
    assert!(!longhands_include(&longhand("margin-left"), &margin()));
    assert!(!longhands_include(&shorthand("none", &[]), &longhand("color")));
}

#[test]
fn same_properties_conflict() {
    assert!(properties_conflict(&longhand("color"), &longhand("color")));
    assert!(!properties_conflict(&longhand("color"), &longhand("display")));
    assert!(!properties_conflict(&prefixed("transition", 2), &prefixed("transition", 4)));
}

#[test]
fn all_conflicts_with_every_property() {
    assert!(properties_conflict(&longhand("all"), &longhand("color")));
    assert!(properties_conflict(&longhand("color"), &longhand("all")));
    assert!(!properties_conflict(&longhand("color"), &longhand("all-small-caps")));
}

#[test]
fn shorthand_conflicts_with_its_longhands_either_way() {
    assert!(properties_conflict(&margin(), &longhand("margin-left")));
    assert!(properties_conflict(&longhand("margin-left"), &margin()));
    assert!(!properties_conflict(&margin(), &longhand("color")));
    assert!(!properties_conflict(&longhand("color"), &margin()));
}

#[test]
fn shorthands_conflict_through_a_common_longhand() {
    let color = shorthand("border-color", &["border-top-color", "border-left-color"]);
    let left = shorthand("border-left", &["border-left-width", "border-left-color"]);
    let top = shorthand("border-top", &["border-top-width", "border-top-color"]);
    assert!(properties_conflict(&color, &left));
    assert!(properties_conflict(&left, &color));
    assert!(properties_conflict(&color, &top));
    assert!(!properties_conflict(&left, &top));
    assert!(!properties_conflict(&top, &left));
}

#[test]
fn appended_declarations_follow_the_others() {
    let mut to = DeclarationBlock {
        important_declarations: vec![declare("color", "red")],
        declarations: vec![declare("display", "grid"), declare("gap", "1px")],
    };
    let from = DeclarationBlock {
        important_declarations: vec![declare("color", "blue"), declare("order", "1")],
        declarations: vec![declare("display", "flex")],
    };
    append_declarations(&mut to, from);
    assert_eq!(
        to,
        DeclarationBlock {
            important_declarations: vec![
                declare("color", "red"),
                declare("color", "blue"),
                declare("order", "1"),
            ],
            declarations: vec![
                declare("display", "grid"),
                declare("gap", "1px"),
                declare("display", "flex"),
            ],
        }
    );
}

#[test]
fn block_is_empty_without_declarations_of_either_importance() {
    assert!(DeclarationBlock::new().is_empty());
    let mut normal = DeclarationBlock::new();
    normal.declarations.push(declare("color", "red"));
    assert!(!normal.is_empty());
    let mut important = DeclarationBlock::new();
    important.important_declarations.push(declare("color", "red"));
    assert!(!important.is_empty());
}

#[test]
fn cloned_property_is_the_same() {
    let property = Property { id: margin(), value: "1px".to_string() };
    assert_eq!(property.clone(), property);
}

#[test]
fn words_are_what_hyphens_separate() {
    let words = |name: &str| -> Vec<String> {
        split_words(&name.to_string()).into_iter().map(|word| word.into_iter().collect()).collect()
    };
    assert_eq!(words("margin-inline-start"), vec!["margin", "inline", "start"]);
    assert_eq!(words("color"), vec!["color"]);
    assert_eq!(words("--x"), vec!["", "", "x"]);
    assert_eq!(words("a-"), vec!["a", ""]);
    assert_eq!(words(""), vec![""]);
}

#[test]
fn names_share_words_but_no_empty_ones() {
    let share = |a: &str, b: &str| names_share_word(&a.to_string(), &b.to_string());
    assert!(share("gap", "grid-gap"));
    assert!(share("color", "color"));
    assert!(!share("margin-left", "padding-top"));
    assert!(!share("marginal", "margin"));
    assert!(!share("--x", "--y"));
    assert!(!share("", ""));
}

#[test]
fn related_properties_are_more_than_conflicting_ones() {
    assert!(properties_related(&longhand("color"), &longhand("color")));
    assert!(properties_related(&longhand("all"), &longhand("color")));
    assert!(properties_related(&longhand("background-color"), &longhand("color")));
    assert!(properties_related(&prefixed("transition", 2), &prefixed("transition", 4)));
    assert!(properties_related(&longhand("width"), &longhand("inline-size")));
    assert!(properties_related(&longhand("block-size"), &longhand("height")));
    assert!(!properties_related(&longhand("color"), &longhand("display")));
    let font = shorthand("font", &["line-height"]);
    assert!(properties_related(&font, &longhand("line-height")));
    assert!(!properties_related(&font, &longhand("color")));
}
