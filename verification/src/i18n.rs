//! Localized strings.

use vstd::prelude::*;

verus! {

/// One of the languages that a name can be written in.
#[derive(Debug, Clone, Copy, PartialEq, Eq, Structural)]
pub enum Locale {
    ZhHans,
    ZhHant,
    En,
}

/// A text written in one locale.
#[derive(Debug, Clone, PartialEq, Eq)]
pub struct LocaleValue {
    locale: Locale,
    value: String,
}

impl View for LocaleValue {
    type V = (Locale, Seq<char>);

    closed spec fn view(&self) -> (Locale, Seq<char>) {
        (self.locale, self.value@)
    }
}

impl Locale {
    /// Tags `value` with this locale.
    pub fn value(self, value: String) -> (lv: LocaleValue)
        ensures
            lv@ == (self, value@),
    {
        LocaleValue { locale: self, value }
    }
}

/// A name with at most one text per locale.
#[derive(Debug, Clone, PartialEq, Eq)]
pub struct I18nStr {
    zh_hans: Option<String>,
    zh_hant: Option<String>,
    en: Option<String>,
}

impl I18nStr {
    /// The slot that holds the text of locale `l`.
    closed spec fn slot(&self, l: Locale) -> Option<String> {
        match l {
            Locale::ZhHans => self.zh_hans,
            Locale::ZhHant => self.zh_hant,
            Locale::En => self.en,
        }
    }
}

impl View for I18nStr {
    type V = Map<Locale, Seq<char>>;

    /// The texts, keyed by their locale.
    closed spec fn view(&self) -> Map<Locale, Seq<char>> {
        Map::new(|l: Locale| self.slot(l) is Some, |l: Locale| self.slot(l)->0@)
    }
}

/// The texts that result from localizing `start` with each of `values` in turn.
pub open spec fn localize_all(
    start: Map<Locale, Seq<char>>,
    values: Seq<(Locale, Seq<char>)>,
) -> Map<Locale, Seq<char>>
    decreases values.len(),
{
    if values.len() == 0 {
        start
    } else {
        localize_all(start, values.drop_last()).insert(values.last().0, values.last().1)
    }
}

/// The views of a list of locale values.
pub open spec fn locale_value_views(values: Seq<LocaleValue>) -> Seq<(Locale, Seq<char>)> {
    values.map_values(|v: LocaleValue| v@)
}

/// The last text given in locale `l` among `values`, if any.
pub open spec fn last_value(values: Seq<(Locale, Seq<char>)>, l: Locale) -> Option<Seq<char>>
    decreases values.len(),
{
    if values.len() == 0 {
        None
    } else if values.last().0 == l {
        Some(values.last().1)
    } else {
        last_value(values.drop_last(), l)
    }
}

/// A name built from a list of locale values holds, for each locale, the last
/// text given in that locale, and no text for a locale that none was given in.
pub proof fn lemma_localize_all_keeps_last(values: Seq<(Locale, Seq<char>)>, l: Locale)
    ensures
        localize_all(Map::empty(), values).contains_key(l) == last_value(values, l) is Some,
        last_value(values, l) matches Some(t) ==> localize_all(Map::empty(), values)[l] == t,
    decreases values.len(),
{
    if values.len() > 0 {
        lemma_localize_all_keeps_last(values.drop_last(), l);
    }
}

/// Localizing with `a + b` is localizing with `a`, then with each value of `b`
/// in order.
pub proof fn lemma_localize_all_concat(
    start: Map<Locale, Seq<char>>,
    a: Seq<(Locale, Seq<char>)>,
    b: Seq<(Locale, Seq<char>)>,
)
    ensures
        localize_all(start, a + b) == localize_all(localize_all(start, a), b),
    decreases b.len(),
{
    if b.len() == 0 {
        assert(a + b =~= a);
    } else {
        lemma_localize_all_concat(start, a, b.drop_last());
        assert((a + b).drop_last() =~= a + b.drop_last());
    }
}

/// Building a name from the values `a + b` is building it from `a` and then
/// localizing it with each value of `b`, in order.
pub proof fn lemma_new_concat(a: Seq<LocaleValue>, b: Seq<LocaleValue>)
    ensures
        localize_all(Map::empty(), locale_value_views(a + b)) == localize_all(
            localize_all(Map::empty(), locale_value_views(a)),
            locale_value_views(b),
        ),
{
    assert(locale_value_views(a + b) =~= locale_value_views(a) + locale_value_views(b));
    lemma_localize_all_concat(Map::empty(), locale_value_views(a), locale_value_views(b));
}

impl I18nStr {
    /// Builds a name from a list of locale values; a later value replaces an
    /// earlier one of the same locale.
    pub fn new(locale_values: Vec<LocaleValue>) -> (s: Self)
        ensures
            s@ == localize_all(Map::empty(), locale_value_views(locale_values@)),
    {
        let mut s = I18nStr { zh_hans: None, zh_hant: None, en: None };
        assert(s@ =~= Map::empty());
        let ghost all = locale_value_views(locale_values@);
        for lv in it: locale_values
            invariant
                all == locale_value_views(it.seq()),
                s@ == localize_all(Map::empty(), all.take(it.index())),
        {
            assert(all.take(it.index() + 1).drop_last() =~= all.take(it.index()));
            s.localize(lv);
        }
        assert(all.take(all.len() as int) =~= all);
        s
    }

    /// Puts the text of `locale_value` in the slot of its locale.
    pub fn localize(&mut self, locale_value: LocaleValue) -> (r: &Self)
        ensures
            final(self)@ == old(self)@.insert(locale_value@.0, locale_value@.1),
            *r == *final(self),
    {
        match locale_value.locale {
            Locale::ZhHans => self.zh_hans = Some(locale_value.value),
            Locale::ZhHant => self.zh_hant = Some(locale_value.value),
            Locale::En => self.en = Some(locale_value.value),
        }
        assert(self@ =~= old(self)@.insert(locale_value@.0, locale_value@.1));
        self
    }
}

} // verus!

verus! {

/// A copy of an optional text.
fn duplicate_text(t: &Option<String>) -> (r: Option<String>)
    ensures
        r == *t,
{
    match t {
        Some(s) => Some(s.clone()),
        None => None,
    }
}

impl I18nStr {
    /// The text of locale `locale`, if there is one.
    pub fn text(&self, locale: Locale) -> (t: Option<&String>)
        ensures
            match t {
                Some(s) => self@.contains_key(locale) && self@[locale] == s@,
                None => !self@.contains_key(locale),
            },
    {
        match locale {
            Locale::ZhHans => self.zh_hans.as_ref(),
            Locale::ZhHant => self.zh_hant.as_ref(),
            Locale::En => self.en.as_ref(),
        }
    }

    /// A copy of this name.
    pub(crate) fn duplicate(&self) -> (r: I18nStr)
        ensures
            r == *self,
    {
        I18nStr {
            zh_hans: duplicate_text(&self.zh_hans),
            zh_hant: duplicate_text(&self.zh_hant),
            en: duplicate_text(&self.en),
        }
    }
}

} // verus!
