//! The values that rules are made of: locations, vendor prefixes, targets, and
//! the conditions and selectors that a rule is keyed by.
use vstd::prelude::*;

verus! {

/// Where a rule starts: the source file's index, the line and the column.
#[derive(Clone, Copy, Debug, PartialEq, Eq, Structural)]
pub struct Location {
    pub source_index: u32,
    pub line: u32,
    pub column: u32,
}

/// A set of vendor prefixes, one bit for each.
#[derive(Clone, Copy, Debug, PartialEq, Eq, Structural)]
pub struct VendorPrefix {
    pub bits: u8,
}

/// The lowest supported version of each browser, where there is one.
#[derive(Clone, Copy, Debug, PartialEq, Eq, Structural)]
pub struct Browsers {
    pub android: Option<u32>,
    pub chrome: Option<u32>,
    pub edge: Option<u32>,
    pub firefox: Option<u32>,
    pub ie: Option<u32>,
    pub ios_saf: Option<u32>,
    pub opera: Option<u32>,
    pub safari: Option<u32>,
    pub samsung: Option<u32>,
}

/// What the output is compiled for: the browsers, and the features that are
/// compiled, or left alone, whatever the browsers are.
#[derive(Clone, Copy, Debug, PartialEq, Eq, Structural)]
pub struct Targets {
    pub browsers: Option<Browsers>,
    pub included: u32,
    pub excluded: u32,
}

impl Targets {
    /// No browsers, and no feature singled out.
    pub open spec fn unset() -> Targets {
        Targets { browsers: None, included: 0, excluded: 0 }
    }
}

impl Default for Targets {
    fn default() -> (targets: Self)
        ensures
            targets == Targets::unset(),
    {
        Targets { browsers: None, included: 0, excluded: 0 }
    }
}

/// The view of an optional value: the view of the value, where there is one.
pub open spec fn option_view<A: View>(value: Option<A>) -> Option<A::V> {
    match value {
        Some(inner) => Some(inner@),
        None => None,
    }
}

/// The media queries of an `@media` rule, in the text that they are printed in.
/// Two lists are the same where the texts are.
#[derive(Debug)]
pub struct MediaList {
    pub text: String,
}

impl View for MediaList {
    type V = Seq<char>;

    open spec fn view(&self) -> Seq<char> {
        self.text@
    }
}

impl Clone for MediaList {
    fn clone(&self) -> (copy: Self)
        ensures
            copy@ == self@,
    {
        MediaList { text: self.text.clone() }
    }
}

impl PartialEq for MediaList {
    fn eq(&self, other: &Self) -> (same: bool) {
        self.text == other.text
    }
}

impl vstd::std_specs::cmp::PartialEqSpecImpl for MediaList {
    open spec fn obeys_eq_spec() -> bool {
        true
    }

    open spec fn eq_spec(&self, other: &Self) -> bool {
        self@ == other@
    }
}

/// The condition of an `@supports` rule, in the text that it is printed in.
#[derive(Debug)]
pub struct SupportsCondition {
    pub text: String,
}

impl View for SupportsCondition {
    type V = Seq<char>;

    open spec fn view(&self) -> Seq<char> {
        self.text@
    }
}

impl Clone for SupportsCondition {
    fn clone(&self) -> (copy: Self)
        ensures
            copy@ == self@,
    {
        SupportsCondition { text: self.text.clone() }
    }
}

impl PartialEq for SupportsCondition {
    fn eq(&self, other: &Self) -> (same: bool) {
        self.text == other.text
    }
}

impl vstd::std_specs::cmp::PartialEqSpecImpl for SupportsCondition {
    open spec fn obeys_eq_spec() -> bool {
        true
    }

    open spec fn eq_spec(&self, other: &Self) -> bool {
        self@ == other@
    }
}

/// The name of an `@container` rule.
#[derive(Debug)]
pub struct ContainerName {
    pub ident: String,
}

impl View for ContainerName {
    type V = Seq<char>;

    open spec fn view(&self) -> Seq<char> {
        self.ident@
    }
}

impl Clone for ContainerName {
    fn clone(&self) -> (copy: Self)
        ensures
            copy@ == self@,
    {
        ContainerName { ident: self.ident.clone() }
    }
}

impl PartialEq for ContainerName {
    fn eq(&self, other: &Self) -> (same: bool) {
        self.ident == other.ident
    }
}

impl vstd::std_specs::cmp::PartialEqSpecImpl for ContainerName {
    open spec fn obeys_eq_spec() -> bool {
        true
    }

    open spec fn eq_spec(&self, other: &Self) -> bool {
        self@ == other@
    }
}

/// The condition of an `@container` rule, in the text that it is printed in.
#[derive(Debug)]
pub struct ContainerCondition {
    pub text: String,
}

impl View for ContainerCondition {
    type V = Seq<char>;

    open spec fn view(&self) -> Seq<char> {
        self.text@
    }
}

impl Clone for ContainerCondition {
    fn clone(&self) -> (copy: Self)
        ensures
            copy@ == self@,
    {
        ContainerCondition { text: self.text.clone() }
    }
}

impl PartialEq for ContainerCondition {
    fn eq(&self, other: &Self) -> (same: bool) {
        self.text == other.text
    }
}

impl vstd::std_specs::cmp::PartialEqSpecImpl for ContainerCondition {
    open spec fn obeys_eq_spec() -> bool {
        true
    }

    open spec fn eq_spec(&self, other: &Self) -> bool {
        self@ == other@
    }
}

/// The selectors of a style rule or of a scope's boundary, each in the text
/// that it is printed in.
#[derive(Debug)]
pub struct SelectorList {
    pub selectors: Vec<String>,
}

impl View for SelectorList {
    type V = Seq<Seq<char>>;

    open spec fn view(&self) -> Seq<Seq<char>> {
        Seq::new(self.selectors@.len(), |i: int| self.selectors@[i]@)
    }
}

impl Clone for SelectorList {
    fn clone(&self) -> (copy: Self)
        ensures
            copy@ == self@,
    {
        let mut selectors: Vec<String> = Vec::new();
        let mut i: usize = 0;
        while i < self.selectors.len()
            invariant
                i <= self.selectors.len(),
                selectors.len() == i,
                forall|j: int| 0 <= j < i ==> (#[trigger] selectors@[j])@ == self@[j],
            decreases self.selectors.len() - i,
        {
            selectors.push(self.selectors[i].clone());
            i = i + 1;
        }
        let copy = SelectorList { selectors };
        assert(copy@ =~= self@);
        copy
    }
}

impl PartialEq for SelectorList {
    fn eq(&self, other: &Self) -> (same: bool) {
        if self.selectors.len() != other.selectors.len() {
            assert(self@.len() != other@.len());
            return false;
        }
        let mut i: usize = 0;
        while i < self.selectors.len()
            invariant
                i <= self.selectors.len(),
                self.selectors.len() == other.selectors.len(),
                forall|j: int| 0 <= j < i ==> self@[j] == other@[j],
            decreases self.selectors.len() - i,
        {
            if self.selectors[i] != other.selectors[i] {
                assert(self@[i as int] != other@[i as int]);
                return false;
            }
            i = i + 1;
        }
        assert(self@ =~= other@);
        true
    }
}

impl vstd::std_specs::cmp::PartialEqSpecImpl for SelectorList {
    open spec fn obeys_eq_spec() -> bool {
        true
    }

    open spec fn eq_spec(&self, other: &Self) -> bool {
        self@ == other@
    }
}

} // verus!
