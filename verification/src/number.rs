//! Decimal text and matching grammar prepared for string arguments.
use vstd::prelude::*;

verus! {

/// The six grammatical categories of CLDR plural rules.
///
/// A category is grammar, not an exact number: many values share one.
#[derive(Debug, Clone, Copy, PartialEq, Eq, PartialOrd, Ord, Hash, Structural)]
pub enum PluralCategory {
    /// CLDR `zero`.
    Zero,
    /// CLDR `one`.
    One,
    /// CLDR `two`.
    Two,
    /// CLDR `few`.
    Few,
    /// CLDR `many`.
    Many,
    /// CLDR `other`.
    Other,
}

/// The stable CLDR keyword of a category.
pub open spec fn keyword_of(category: PluralCategory) -> Seq<char> {
    match category {
        PluralCategory::Zero => "zero"@,
        PluralCategory::One => "one"@,
        PluralCategory::Two => "two"@,
        PluralCategory::Few => "few"@,
        PluralCategory::Many => "many"@,
        PluralCategory::Other => "other"@,
    }
}

/// Map a typed category to its stable CLDR string-selector keyword.
///
/// This does not select a category from a number or parse localized digits.
pub fn plural_keyword(category: PluralCategory) -> (keyword: &'static str)
    ensures
        keyword@ == keyword_of(category),
{
    match category {
        PluralCategory::Zero => "zero",
        PluralCategory::One => "one",
        PluralCategory::Two => "two",
        PluralCategory::Few => "few",
        PluralCategory::Many => "many",
        PluralCategory::Other => "other",
    }
}

/// Distinct categories have distinct keywords, so a keyword selects exactly
/// the category it was made from.
pub proof fn lemma_keywords_are_distinct(a: PluralCategory, b: PluralCategory)
    ensures
        keyword_of(a) == keyword_of(b) ==> a == b,
{
    reveal_strlit("zero");
    reveal_strlit("one");
    reveal_strlit("two");
    reveal_strlit("few");
    reveal_strlit("many");
    reveal_strlit("other");
    if keyword_of(a) == keyword_of(b) && a != b {
        assert(keyword_of(a).len() == keyword_of(b).len());
        assert(keyword_of(a)[0] == keyword_of(b)[0]);
        assert(keyword_of(a)[1] == keyword_of(b)[1]);
    }
}


/// A text and selector argument pair prepared for one locale and precision
/// policy.
///
/// Pass [`Self::text`] and [`Self::selector`] to the corresponding String
/// parameters of a message. Recompute after value, language, numbering-system
/// or formatting changes; retain the original numeric input instead of this
/// snapshot. A category keyword is not an exact numeric selector.
#[derive(Debug, Clone, PartialEq, Eq)]
pub struct LocalizedNumber {
    pub(crate) text: String,
    pub(crate) category: PluralCategory,
}

impl View for LocalizedNumber {
    type V = (Seq<char>, PluralCategory);

    closed spec fn view(&self) -> (Seq<char>, PluralCategory) {
        (self.text@, self.category)
    }
}

impl LocalizedNumber {
    /// A snapshot of `text` and `category`.
    pub(crate) fn new(text: String, category: PluralCategory) -> (number: LocalizedNumber)
        ensures
            number@ == (text@, category),
    {
        LocalizedNumber { text, category }
    }

    /// Locale-formatted number, without units or surrounding prose.
    pub fn text(&self) -> (text: &str)
        ensures
            text@ == self@.0,
    {
        self.text.as_str()
    }

    /// Grammatical category computed from the same prepared decimal as the text.
    pub fn category(&self) -> (category: PluralCategory)
        ensures
            category == self@.1,
    {
        self.category
    }

    /// CLDR keyword for a string selector, such as `one` or `few`.
    ///
    /// This is not the displayed number, a translated word, or a numeric `[0]` case.
    pub fn selector(&self) -> (keyword: &'static str)
        ensures
            keyword@ == keyword_of(self@.1),
    {
        plural_keyword(self.category)
    }

    /// Consume this snapshot into its owned text and typed category.
    pub fn into_parts(self) -> (parts: (String, PluralCategory))
        ensures
            (parts.0@, parts.1) == self@,
    {
        (self.text, self.category)
    }
}

} // verus!
