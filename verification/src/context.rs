//! What merging depends on besides the rules: the targets, and what custom
//! media and the targets make of a media query.
use crate::rules::MediaRule;
use crate::values::Location;
use crate::values::MediaList;
use crate::values::Targets;
use vstd::prelude::*;

verus! {

/// Why a rule list could not be minified.
#[derive(Debug, PartialEq, Eq)]
pub enum MinifyErrorKind {
    /// A media query names a custom media that no rule defines.
    CustomMediaNotDefined { name: String },
    /// A custom media is defined in terms of itself.
    CircularCustomMedia { name: String },
    /// The custom media's media types cannot be combined with the query's.
    UnsupportedCustomMediaBooleanLogic { custom_media_loc: Location },
}

impl Clone for MinifyErrorKind {
    fn clone(&self) -> (copy: Self)
        ensures
            copy == *self,
    {
        match self {
            MinifyErrorKind::CustomMediaNotDefined { name } => {
                MinifyErrorKind::CustomMediaNotDefined { name: name.clone() }
            },
            MinifyErrorKind::CircularCustomMedia { name } => {
                MinifyErrorKind::CircularCustomMedia { name: name.clone() }
            },
            MinifyErrorKind::UnsupportedCustomMediaBooleanLogic { custom_media_loc } => {
                MinifyErrorKind::UnsupportedCustomMediaBooleanLogic {
                    custom_media_loc: *custom_media_loc,
                }
            },
        }
    }
}

/// An error, and the location of the rule that it comes from.
#[derive(Debug, PartialEq, Eq)]
pub struct MinifyError {
    pub kind: MinifyErrorKind,
    pub loc: Location,
}

/// What the custom media in force make of one media query list: the list that
/// replaces it, or the reason why none can.
#[derive(Debug, PartialEq)]
pub struct CustomMediaRewrite {
    pub query: MediaList,
    pub outcome: Result<MediaList, MinifyErrorKind>,
}

/// The custom media in force, by their effect on the media query lists that
/// name one. The first entry for a list counts; a list without an entry stays
/// as it is.
#[derive(Debug, PartialEq)]
pub struct CustomMedia {
    pub rewrites: Vec<CustomMediaRewrite>,
}

/// What a media query list with a resolution becomes for one choice of
/// targets.
#[derive(Debug, PartialEq)]
pub struct ResolutionRewrite {
    pub targets: Targets,
    pub query: MediaList,
    pub replacement: MediaList,
}

/// The prefixed resolution queries, by targets and media query list. The first
/// entry for the two counts; a list without an entry stays as it is.
#[derive(Debug, PartialEq)]
pub struct ResolutionTable {
    pub rewrites: Vec<ResolutionRewrite>,
}

/// The targets that hold at the place that is being minified.
#[derive(Debug, PartialEq)]
pub struct ScopedTargets {
    pub current: Targets,
}

/// What minifying a rule list depends on besides the list.
#[derive(Debug, PartialEq)]
pub struct MinifyContext {
    pub targets: ScopedTargets,
    pub custom_media: Option<CustomMedia>,
    pub resolutions: ResolutionTable,
    pub css_modules: bool,
}

impl CustomMedia {
    /// What becomes of the media query list, by the entries from `start` on.
    pub open spec fn outcome_from(&self, query: Seq<char>, start: int) -> Result<
        Seq<char>,
        MinifyErrorKind,
    >
        decreases self.rewrites@.len() - start,
    {
        if start < 0 || start >= self.rewrites@.len() {
            Ok(query)
        } else if self.rewrites@[start].query@ == query {
            match self.rewrites@[start].outcome {
                Ok(replacement) => Ok(replacement@),
                Err(kind) => Err(kind),
            }
        } else {
            self.outcome_from(query, start + 1)
        }
    }

    /// What becomes of the media query list.
    pub open spec fn outcome(&self, query: Seq<char>) -> Result<Seq<char>, MinifyErrorKind> {
        self.outcome_from(query, 0)
    }
}

impl ResolutionTable {
    /// What becomes of the media query list, by the entries from `start` on.
    pub open spec fn outcome_from(&self, targets: Targets, query: Seq<char>, start: int) -> Seq<
        char,
    >
        decreases self.rewrites@.len() - start,
    {
        if start < 0 || start >= self.rewrites@.len() {
            query
        } else if self.rewrites@[start].targets == targets && self.rewrites@[start].query@
            == query {
            self.rewrites@[start].replacement@
        } else {
            self.outcome_from(targets, query, start + 1)
        }
    }

    /// What becomes of the media query list for these targets.
    pub open spec fn outcome(&self, targets: Targets, query: Seq<char>) -> Seq<char> {
        self.outcome_from(targets, query, 0)
    }
}

impl MediaList {
    /// Replaces the custom media that the list names. Where that fails the list
    /// stays as it is, and the error bears the location given.
    pub fn transform_custom_media(&mut self, loc: Location, custom_media: &CustomMedia) -> (result:
        Result<(), MinifyError>)
        ensures
            match custom_media.outcome(old(self)@) {
                Ok(replacement) => result == Ok::<(), MinifyError>(()) && final(self)@
                    == replacement,
                Err(kind) => result == Err::<(), MinifyError>(MinifyError { kind, loc })
                    && final(self)@ == old(self)@,
            },
    {
        let mut i: usize = 0;
        while i < custom_media.rewrites.len()
            invariant
                i <= custom_media.rewrites.len(),
                self@ == old(self)@,
                custom_media.outcome(self@) == custom_media.outcome_from(self@, i as int),
            decreases custom_media.rewrites.len() - i,
        {
            let rewrite = &custom_media.rewrites[i];
            if rewrite.query == *self {
                match &rewrite.outcome {
                    Ok(replacement) => {
                        *self = replacement.clone();
                        return Ok(());
                    },
                    Err(kind) => {
                        return Err(MinifyError { kind: kind.clone(), loc });
                    },
                }
            }
            i = i + 1;
        }
        Ok(())
    }

    /// Replaces the list by what its resolutions become for these targets.
    pub fn transform_resolution(&mut self, targets: Targets, resolutions: &ResolutionTable)
        ensures
            final(self)@ == resolutions.outcome(targets, old(self)@),
    {
        let mut i: usize = 0;
        while i < resolutions.rewrites.len()
            invariant
                i <= resolutions.rewrites.len(),
                self@ == old(self)@,
                resolutions.outcome(targets, self@) == resolutions.outcome_from(
                    targets,
                    self@,
                    i as int,
                ),
            decreases resolutions.rewrites.len() - i,
        {
            let rewrite = &resolutions.rewrites[i];
            if rewrite.targets == targets && rewrite.query == *self {
                *self = rewrite.replacement.clone();
                return ;
            }
            i = i + 1;
        }
    }
}

/// The key under which an `@media` rule with this media query list, at this
/// location, is merged: the list with custom media replaced, if there are any,
/// and then with the resolutions that the current targets need.
pub open spec fn media_key(query: Seq<char>, loc: Location, context: MinifyContext) -> Result<
    Seq<char>,
    MinifyError,
> {
    let replaced = match context.custom_media {
        Some(custom_media) => custom_media.outcome(query),
        None => Ok(query),
    };
    match replaced {
        Ok(list) => Ok(context.resolutions.outcome(context.targets.current, list)),
        Err(kind) => Err(MinifyError { kind, loc }),
    }
}

/// Whether the declarations of one style rule may be joined with those of
/// another that has the same selectors.
pub open spec fn may_reuse(context: MinifyContext) -> bool {
    context.targets.current == Targets::unset() && !context.css_modules
}

/// The key under which the rule is merged: see [`media_key`].
pub fn normalize_media_key<T>(media: &MediaRule<T>, context: &MinifyContext) -> (key: Result<
    MediaList,
    MinifyError,
>)
    ensures
        match media_key(media.query@, media.loc, *context) {
            Ok(list) => key matches Ok(actual) && actual@ == list,
            Err(error) => key == Err::<MediaList, MinifyError>(error),
        },
{
    let mut query = media.query.clone();
    if let Some(custom_media) = &context.custom_media {
        match query.transform_custom_media(media.loc, custom_media) {
            Ok(()) => {},
            Err(error) => {
                return Err(error);
            },
        }
    }
    query.transform_resolution(context.targets.current, &context.resolutions);
    Ok(query)
}

/// Whether the declarations of one style rule may be joined with those of
/// another that has the same selectors.
///
/// With targets or CSS modules, a declaration can give rise to further rules.
/// Runs of declarations then stay apart until those rules have been placed in
/// source order.
pub fn can_reuse_style_declarations(context: &MinifyContext) -> (allowed: bool)
    ensures
        allowed == may_reuse(*context),
{
    context.targets.current == Targets::default() && !context.css_modules
}

} // verus!
