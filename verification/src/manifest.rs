//! The manifest of an assets root: its categories and the formats of their images.

use vstd::prelude::*;

use crate::category::{
    categories_repaired, category_ids, lemma_filter_membership, first_with_id, fresh_category, is_fresh, is_repaired,
    lemma_first_with_id, repaired_parents, str_views, Category,
};
use crate::i18n::Locale;

verus! {

/// The version of this generator.
pub const VERSION: &'static str = "0.1.0";

/// The environment variable that names the assets root.
pub const VAR_MINI_ASSETS_PREFIX: &'static str = "MINI_ASSETS_PREFIX";

/// The environment variable that names the output folder.
pub const VAR_MINI_ASSETS_OUTPUT: &'static str = "MINI_ASSETS_OUTPUT";

/// The environment variable that holds the width of the generated images.
pub const VAR_MINI_ASSETS_WIDTH: &'static str = "MINI_ASSETS_WIDTH";

/// The file name of a manifest.
pub const MANIFEST_FILE: &'static str = "Manifest.yaml";

/// The comments at the top of the copy of the manifest in the output folder.
pub const OUTPUT_MANIFEST_COMMENTS: &'static str = "# 本文件由 mini-assets-gen 生成到输出目录中，请不要修改此文件。\n# 若要修改，请改动源 Manifest.yaml 文件以后再重写生成。\n";

/// The manifest of an assets root.
#[derive(Debug, PartialEq, Eq)]
pub struct Manifest {
    /// The version of the generator that wrote the manifest.
    version: String,
    /// When the manifest was generated.
    pub datetime: String,
    /// The width of the generated images.
    width: usize,
    /// The extensions of the image files that the categories hold.
    pub include_formats: Vec<String>,
    /// The configuration of each category.
    pub categories: Vec<Category>,
}

/// What a manifest holds, as plain values.
pub struct ManifestView {
    pub version: Seq<char>,
    pub datetime: Seq<char>,
    pub width: usize,
    pub include_formats: Seq<Seq<char>>,
    pub categories: Seq<Category>,
}

impl View for Manifest {
    type V = ManifestView;

    closed spec fn view(&self) -> ManifestView {
        ManifestView {
            version: self.version@,
            datetime: self.datetime@,
            width: self.width,
            include_formats: str_views(self.include_formats@),
            categories: self.categories@,
        }
    }
}

impl Manifest {
    /// The first category whose id is `id`, if there is one.
    pub fn get_category(&self, id: &str) -> (r: Option<&Category>)
        ensures
            match first_with_id(self@.categories, id@) {
                Some(i) => r == Some(&self@.categories[i]),
                None => r is None,
            },
    {
        let key = id.to_owned();
        let n = self.categories.len();
        for i in 0..n
            invariant
                n == self.categories@.len(),
                key@ == id@,
                forall|j: int| 0 <= j < i ==> self.categories@[j].id@ != id@,
        {
            if self.categories[i].id == key {
                proof {
                    lemma_first_with_id(self.categories@, id@);
                    assert(self.categories@[i as int].id@ == id@);
                    assert(category_ids(self.categories@)[i as int] == id@);
                    let k = first_with_id(self.categories@, id@)->0;
                    assert(self.categories@[k].id@ == id@);
                    assert(k == i);
                }
                return Some(&self.categories[i]);
            }
        }
        proof {
            lemma_first_with_id(self.categories@, id@);
        }
        None
    }

    /// Whether a category with id `id` is configured.
    pub fn category_exists(&self, id: &str) -> (b: bool)
        ensures
            b == category_ids(self@.categories).contains(id@),
    {
        proof {
            lemma_first_with_id(self.categories@, id@);
        }
        self.get_category(id).is_some()
    }

    /// Repairs the parents of every category: a parent is dropped when it is the
    /// category itself or when no category has its id. Ids, names and order stay.
    pub fn override_categories(&mut self) -> (r: &mut Self)
        ensures
            r@.version == old(self)@.version,
            r@.datetime == old(self)@.datetime,
            r@.width == old(self)@.width,
            r@.include_formats == old(self)@.include_formats,
            categories_repaired(r@.categories, old(self)@.categories),
            *final(self) == *final(r),
    {
        let ghost ids = category_ids(self.categories@);
        let n = self.categories.len();
        let mut categories: Vec<Category> = Vec::new();
        for i in 0..n
            invariant
                n == self.categories@.len(),
                ids == category_ids(self.categories@),
                categories@.len() == i,
                forall|k: int|
                    0 <= k < i ==> is_repaired(#[trigger] categories@[k], self.categories@[k], ids),
        {
            let category = &self.categories[i];
            let m = category.parents.len();
            let mut parents: Vec<String> = Vec::new();
            for j in 0..m
                invariant
                    n == self.categories@.len(),
                    ids == category_ids(self.categories@),
                    *category == self.categories@[i as int],
                    m == category.parents@.len(),
                    str_views(parents@) == repaired_parents(
                        str_views(category.parents@.take(j as int)),
                        category.id@,
                        ids,
                    ),
            {
                let parent_id = &category.parents[j];
                let ghost before = str_views(category.parents@.take(j as int));
                proof {
                    assert(str_views(category.parents@.take(j + 1)) =~= before.push(parent_id@));
                    reveal_with_fuel(Seq::<_>::filter, 1);
                    assert(before.push(parent_id@).drop_last() =~= before);
                    lemma_first_with_id(self.categories@, parent_id@);
                }
                if self.get_category(parent_id.as_str()).is_some() {
                    if category.id != *parent_id {
                        let ghost kept = parents@;
                        parents.push(parent_id.clone());
                        assert(str_views(parents@) =~= str_views(kept).push(parent_id@));
                    }
                }
            }
            assert(category.parents@.take(m as int) =~= category.parents@);
            categories.push(category.with_parents(parents));
        }
        self.categories = categories;
        self
    }
}


/// The lists of `lists`, one after the other.
pub open spec fn joined(lists: Seq<Seq<Seq<char>>>) -> Seq<Seq<char>>
    decreases lists.len(),
{
    if lists.len() == 0 {
        Seq::empty()
    } else {
        joined(lists.drop_last()) + lists.last()
    }
}

/// An extension is in the joined lists exactly when it is in one of them.
pub proof fn lemma_joined_membership(lists: Seq<Seq<Seq<char>>>, x: Seq<char>)
    ensures
        joined(lists).contains(x) <==> exists|i: int|
            0 <= i < lists.len() && #[trigger] lists[i].contains(x),
    decreases lists.len(),
{
    if lists.len() > 0 {
        let rest = lists.drop_last();
        let last = lists.last();
        lemma_joined_membership(rest, x);
        let j = joined(rest);
        if (j + last).contains(x) {
            let k = choose|k: int| 0 <= k < (j + last).len() && (j + last)[k] == x;
            if k < j.len() {
                assert(j[k] == x);
                let i = choose|i: int| 0 <= i < rest.len() && #[trigger] rest[i].contains(x);
                assert(lists[i] == rest[i]);
            } else {
                assert(last[k - j.len()] == x);
                assert(lists[lists.len() - 1].contains(x));
            }
        }
        if exists|i: int| 0 <= i < lists.len() && #[trigger] lists[i].contains(x) {
            let i = choose|i: int| 0 <= i < lists.len() && #[trigger] lists[i].contains(x);
            if i < lists.len() - 1 {
                assert(rest[i] == lists[i]);
                assert(rest[i].contains(x));
                let k = choose|k: int| 0 <= k < j.len() && j[k] == x;
                assert((j + last)[k] == x);
            } else {
                let k = choose|k: int| 0 <= k < last.len() && last[k] == x;
                assert((j + last)[j.len() + k] == x);
            }
        }
    }
}

/// The included formats are exactly the extensions found in some category's
/// list, each once.
pub proof fn lemma_include_formats_membership(lists: Seq<Seq<Seq<char>>>, x: Seq<char>)
    ensures
        dedup(joined(lists)).contains(x) <==> exists|i: int|
            0 <= i < lists.len() && #[trigger] lists[i].contains(x),
        no_duplicates(dedup(joined(lists))),
{
    lemma_dedup(joined(lists));
    lemma_joined_membership(lists, x);
}

/// `s` with every item after its first occurrence left out.
pub open spec fn dedup(s: Seq<Seq<char>>) -> Seq<Seq<char>>
    decreases s.len(),
{
    if s.len() == 0 {
        s
    } else {
        let d = dedup(s.drop_last());
        if d.contains(s.last()) {
            d
        } else {
            d.push(s.last())
        }
    }
}

/// No item of `s` occurs twice.
pub open spec fn no_duplicates(s: Seq<Seq<char>>) -> bool {
    forall|i: int, j: int| 0 <= i < j < s.len() ==> s[i] != s[j]
}

/// Deduplicating leaves no item twice and keeps exactly the items of the input:
/// the included formats hold each extension once, and only extensions found.
pub proof fn lemma_dedup(s: Seq<Seq<char>>)
    ensures
        no_duplicates(dedup(s)),
        forall|x: Seq<char>| dedup(s).contains(x) <==> s.contains(x),
    decreases s.len(),
{
    if s.len() > 0 {
        lemma_dedup(s.drop_last());
        let d = dedup(s.drop_last());
        assert forall|x: Seq<char>| dedup(s).contains(x) <==> s.contains(x) by {
            if s.contains(x) {
                let k = choose|k: int| 0 <= k < s.len() && s[k] == x;
                if k < s.len() - 1 {
                    assert(s.drop_last()[k] == x);
                }
            }
            if s.drop_last().contains(x) {
                let k = choose|k: int| 0 <= k < s.len() - 1 && s.drop_last()[k] == x;
                assert(s[k] == x);
            }
            if !d.contains(s.last()) {
                if d.push(s.last()).contains(x) && x != s.last() {
                    let k = choose|k: int| 0 <= k < d.len() + 1 && d.push(s.last())[k] == x;
                    assert(d[k] == x);
                }
                if d.contains(x) {
                    let k = choose|k: int| 0 <= k < d.len() && d[k] == x;
                    assert(d.push(s.last())[k] == x);
                }
                assert(d.push(s.last())[d.len() as int] == s.last());
            }
        }
        if !d.contains(s.last()) {
            assert forall|i: int, j: int| 0 <= i < j < dedup(s).len() implies dedup(s)[i] != dedup(
                s,
            )[j] by {
                if j == d.len() {
                    assert(d[i] == dedup(s)[i]);
                }
            }
        }
    }
}

/// A list without duplicates is its own deduplication.
pub proof fn lemma_dedup_unique(s: Seq<Seq<char>>)
    requires
        no_duplicates(s),
    ensures
        dedup(s) == s,
    decreases s.len(),
{
    if s.len() > 0 {
        lemma_dedup_unique(s.drop_last());
        lemma_dedup(s.drop_last());
        if s.drop_last().contains(s.last()) {
            let k = choose|k: int| 0 <= k < s.len() - 1 && s.drop_last()[k] == s.last();
            assert(s[k] == s[s.len() - 1]);
        }
        assert(s.drop_last().push(s.last()) =~= s);
    }
}

/// Deduplicating twice is deduplicating once.
pub proof fn lemma_dedup_idempotent(s: Seq<Seq<char>>)
    ensures
        dedup(dedup(s)) == dedup(s),
{
    lemma_dedup(s);
    lemma_dedup_unique(dedup(s));
}

/// The texts of a list of lists of strings.
pub open spec fn str_list_views(lists: Seq<Vec<String>>) -> Seq<Seq<Seq<char>>> {
    lists.map_values(|v: Vec<String>| str_views(v@))
}

/// Whether `s` is one of the strings of `v`.
fn contains_str(v: &Vec<String>, s: &String) -> (b: bool)
    ensures
        b == str_views(v@).contains(s@),
{
    let n = v.len();
    for i in 0..n
        invariant
            n == v@.len(),
            forall|j: int| 0 <= j < i ==> v@[j]@ != s@,
    {
        if v[i] == *s {
            assert(str_views(v@)[i as int] == s@);
            return true;
        }
    }
    proof {
        if str_views(v@).contains(s@) {
            let k = choose|k: int| 0 <= k < v@.len() && str_views(v@)[k] == s@;
            assert(v@[k]@ == s@);
        }
    }
    false
}

/// The text of the copy of a manifest in the output folder, whose YAML is `yaml`.
pub fn output_manifest_text(yaml: &str) -> (text: String)
    ensures
        text@ == OUTPUT_MANIFEST_COMMENTS@ + yaml@,
{
    let mut text = OUTPUT_MANIFEST_COMMENTS.to_owned();
    text.append(yaml);
    text
}

/// Whether `c` is a decimal digit.
pub open spec fn is_decimal_digit(c: char) -> bool {
    '0' <= c && c <= '9'
}

/// Whether `s` has the shape of an RFC 3339 time in UTC with whole seconds
/// and a `Z`: a year of at least four characters, then `-MM-DDTHH:MM:SSZ`.
pub open spec fn is_utc_seconds_timestamp(s: Seq<char>) -> bool {
    let n = s.len() as int;
    &&& n >= 20
    &&& s[n - 16] == '-'
    &&& is_decimal_digit(s[n - 15]) && is_decimal_digit(s[n - 14])
    &&& s[n - 13] == '-'
    &&& is_decimal_digit(s[n - 12]) && is_decimal_digit(s[n - 11])
    &&& s[n - 10] == 'T'
    &&& is_decimal_digit(s[n - 9]) && is_decimal_digit(s[n - 8])
    &&& s[n - 7] == ':'
    &&& is_decimal_digit(s[n - 6]) && is_decimal_digit(s[n - 5])
    &&& s[n - 4] == ':'
    &&& is_decimal_digit(s[n - 3]) && is_decimal_digit(s[n - 2])
    &&& s[n - 1] == 'Z'
}

/// The RFC 3339 text, with whole seconds and a `Z`, that `chrono` gives the
/// UTC time `secs` seconds and `nanos` nanoseconds after the Unix epoch, or
/// nothing when that time is out of `chrono`'s range.
pub uninterp spec fn chrono_rfc3339_secs(secs: i64, nanos: u32) -> Option<Seq<char>>;

/// The time elapsed since the Unix epoch, as whole seconds and the nanoseconds
/// beyond them; nothing when the clock reads before the epoch.
///
/// Calls `std::time::SystemTime::duration_since` on `SystemTime::now()` and
/// the epoch, and converts the `Duration` with `as_secs` and `subsec_nanos`.
/// Which time comes out depends on the clock and is not stated; the
/// nanoseconds are below one billion, as `subsec_nanos` documents.
#[verifier::external_body]
fn time_since_epoch() -> (t: Option<(u64, u32)>)
    ensures
        t matches Some(p) ==> p.1 < 1_000_000_000,
{
    match std::time::SystemTime::now().duration_since(std::time::UNIX_EPOCH) {
        Ok(d) => Some((d.as_secs(), d.subsec_nanos())),
        Err(_) => None,
    }
}

/// The RFC 3339 text, with whole seconds and a `Z`, of the UTC time `secs`
/// seconds and `nanos` nanoseconds after the Unix epoch; nothing when that
/// time is out of `chrono`'s range.
///
/// Calls `chrono::DateTime::<Utc>::from_timestamp`, which returns `None`
/// rather than panic on out-of-range input, and formats the time with
/// `DateTime::to_rfc3339_opts`, `SecondsFormat::Secs` and `use_z`. Its result
/// is named by `chrono_rfc3339_secs`. The writer puts out the year (four digits
/// in 0..=9999, else a sign and at least four digits), then `-MM-DDTHH:MM:SS`
/// in two-digit fields, then `Z` for the zero offset; its `expect` cannot
/// fail, since every field it writes with two digits is below one hundred.
#[verifier::external_body]
fn rfc3339_of_timestamp(secs: i64, nanos: u32) -> (s: Option<String>)
    ensures
        s.deep_view() == chrono_rfc3339_secs(secs, nanos),
        s matches Some(t) ==> is_utc_seconds_timestamp(t@),
{
    match chrono::DateTime::<chrono::Utc>::from_timestamp(secs, nanos) {
        Some(time) => Some(time.to_rfc3339_opts(chrono::SecondsFormat::Secs, true)),
        None => None,
    }
}

/// The text of a manifest's date for a clock reading of `secs` seconds and
/// `nanos` nanoseconds after the Unix epoch; nothing when it is out of range.
pub open spec fn datetime_text(secs: u64, nanos: u32) -> Option<Seq<char>> {
    if secs <= i64::MAX {
        chrono_rfc3339_secs(secs as i64, nanos)
    } else {
        None
    }
}

/// The date of a manifest for a clock reading, `None` when the clock could
/// not be read: the text of the reading, or empty when there is none.
pub open spec fn dated_text(reading: Option<(u64, u32)>) -> Seq<char> {
    match reading {
        Some(p) => match datetime_text(p.0, p.1) {
            Some(t) => t,
            None => Seq::empty(),
        },
        None => Seq::empty(),
    }
}

/// The RFC 3339 text, with whole seconds and a `Z`, of the UTC time `secs`
/// seconds and `nanos` nanoseconds after the Unix epoch; nothing when that
/// time is out of range.
pub fn datetime_of(secs: u64, nanos: u32) -> (s: Option<String>)
    ensures
        s.deep_view() == datetime_text(secs, nanos),
        s matches Some(t) ==> is_utc_seconds_timestamp(t@),
{
    if secs > i64::MAX as u64 {
        None
    } else {
        rfc3339_of_timestamp(secs as i64, nanos)
    }
}

/// The date of a manifest for the clock reading `reading`: the text of the
/// reading, or empty when there is none or it is out of range.
fn dated(reading: Option<(u64, u32)>) -> (s: String)
    ensures
        s@ == dated_text(reading),
        is_utc_seconds_timestamp(s@) || s@.len() == 0,
{
    match reading {
        Some((secs, nanos)) => match datetime_of(secs, nanos) {
            Some(t) => t,
            None => String::new(),
        },
        None => String::new(),
    }
}

impl Default for Manifest {
    /// An empty manifest: no version, no time, width 0, no formats, no categories.
    fn default() -> (m: Self)
        ensures
            m@.version.len() == 0,
            m@.datetime.len() == 0,
            m@.width == 0,
            m@.include_formats.len() == 0,
            m@.categories.len() == 0,
    {
        Manifest {
            version: String::new(),
            datetime: String::new(),
            width: 0,
            include_formats: Vec::new(),
            categories: Vec::new(),
        }
    }
}

impl Manifest {
    /// A new manifest for images of width `width`, dated now; undated (an
    /// empty time) when the clock cannot be read. Which reading the clock gives
    /// is not known here; the date is the text of some reading.
    pub fn new(width: usize) -> (m: Self)
        ensures
            m@.version.len() == 0,
            exists|reading: Option<(u64, u32)>| #[trigger] dated_text(reading) == m@.datetime,
            is_utc_seconds_timestamp(m@.datetime) || m@.datetime.len() == 0,
            m@.width == width,
            m@.include_formats.len() == 0,
            m@.categories.len() == 0,
    {
        let reading = time_since_epoch();
        Self::new_dated(width, reading)
    }

    /// A new manifest for images of width `width`, dated by the clock reading
    /// `reading` (`None` when the clock could not be read).
    pub fn new_dated(width: usize, reading: Option<(u64, u32)>) -> (m: Self)
        ensures
            m@.version.len() == 0,
            m@.datetime == dated_text(reading),
            is_utc_seconds_timestamp(m@.datetime) || m@.datetime.len() == 0,
            m@.width == width,
            m@.include_formats.len() == 0,
            m@.categories.len() == 0,
    {
        Manifest {
            version: String::new(),
            datetime: dated(reading),
            width,
            include_formats: Vec::new(),
            categories: Vec::new(),
        }
    }

    /// A manifest with the given contents.
    pub fn from_parts(
        version: String,
        datetime: String,
        width: usize,
        include_formats: Vec<String>,
        categories: Vec<Category>,
    ) -> (m: Self)
        ensures
            m@ == (ManifestView {
                version: version@,
                datetime: datetime@,
                width,
                include_formats: str_views(include_formats@),
                categories: categories@,
            }),
    {
        Manifest { version, datetime, width, include_formats, categories }
    }

    /// The version of the generator that wrote the manifest.
    pub fn version(&self) -> (v: &String)
        ensures
            v@ == self@.version,
    {
        &self.version
    }

    /// The width of the generated images.
    pub fn width(&self) -> (w: usize)
        ensures
            w == self@.width,
    {
        self.width
    }

    /// Sets the width of the generated images.
    pub fn set_width(&mut self, width: usize)
        ensures
            final(self)@ == (ManifestView { width, ..old(self)@ }),
    {
        self.width = width;
    }

    /// Dates the manifest now, in UTC with whole seconds, or leaves it undated
    /// (an empty time) when the clock cannot be read; nothing else changes.
    /// Which reading the clock gives is not known here; the date is the text of
    /// some reading.
    pub fn override_dt_now(&mut self) -> (r: &mut Self)
        ensures
            r@ == (ManifestView { datetime: r@.datetime, ..old(self)@ }),
            exists|reading: Option<(u64, u32)>| #[trigger] dated_text(reading) == r@.datetime,
            is_utc_seconds_timestamp(r@.datetime) || r@.datetime.len() == 0,
            *final(self) == *final(r),
    {
        let reading = time_since_epoch();
        self.override_dt(reading)
    }

    /// Dates the manifest by the clock reading `reading` (`None` when the clock
    /// could not be read); nothing else changes.
    pub fn override_dt(&mut self, reading: Option<(u64, u32)>) -> (r: &mut Self)
        ensures
            r@ == (ManifestView { datetime: dated_text(reading), ..old(self)@ }),
            is_utc_seconds_timestamp(r@.datetime) || r@.datetime.len() == 0,
            *final(self) == *final(r),
    {
        self.datetime = dated(reading);
        self
    }

    /// Sets the version to this generator's; nothing else changes.
    pub fn override_version(&mut self) -> (r: &mut Self)
        ensures
            r@ == (ManifestView { version: VERSION@, ..old(self)@ }),
            *final(self) == *final(r),
    {
        self.version = VERSION.to_owned();
        self
    }

    /// Sets the included formats to the extensions of the categories' files,
    /// `extensions[i]` being those of the `i`-th category, each kept once, in
    /// the order of its first occurrence.
    pub fn override_include_formats(&mut self, extensions: Vec<Vec<String>>) -> (r: &mut Self)
        ensures
            r@ == (ManifestView {
                include_formats: dedup(joined(str_list_views(extensions@))),
                ..old(self)@
            }),
            *final(self) == *final(r),
    {
        let ghost lists = str_list_views(extensions@);
        let mut formats: Vec<String> = Vec::new();
        let n = extensions.len();
        for i in 0..n
            invariant
                n == extensions@.len(),
                lists == str_list_views(extensions@),
                str_views(formats@) == dedup(joined(lists.take(i as int))),
        {
            let list = &extensions[i];
            let m = list.len();
            assert(joined(lists.take(i + 1)) =~= joined(lists.take(i as int)) + lists[i as int]) by {
                assert(lists.take(i + 1).drop_last() =~= lists.take(i as int));
            }
            for j in 0..m
                invariant
                    n == extensions@.len(),
                    lists == str_list_views(extensions@),
                    *list == extensions@[i as int],
                    m == list@.len(),
                    str_views(formats@) == dedup(
                        joined(lists.take(i as int)) + str_views(list@).take(j as int),
                    ),
            {
                let extension = &list[j];
                let ghost before = joined(lists.take(i as int)) + str_views(list@).take(j as int);
                assert(joined(lists.take(i as int)) + str_views(list@).take(j + 1) =~= before.push(
                    extension@,
                ));
                assert(before.push(extension@).drop_last() =~= before);
                if !contains_str(&formats, extension) {
                    let ghost kept = formats@;
                    formats.push(extension.clone());
                    assert(str_views(formats@) =~= str_views(kept).push(extension@));
                }
            }
            assert(str_views(list@).take(m as int) =~= lists[i as int]);
        }
        assert(lists.take(n as int) =~= lists);
        self.include_formats = formats;
        self
    }
}

/// The configured categories whose folder still exists: `config[i]` stays
/// exactly when `exists[i]` holds, and the order is kept.
pub open spec fn kept_categories(config: Seq<Category>, exists: Seq<bool>) -> Seq<Category>
    decreases config.len(),
{
    if config.len() == 0 {
        Seq::empty()
    } else {
        let rest = kept_categories(config.drop_last(), exists);
        if exists[config.len() - 1] {
            rest.push(config.last())
        } else {
            rest
        }
    }
}

/// The scanned categories whose id no configured category has, in their order.
pub open spec fn unconfigured(config: Seq<Category>, scanned: Seq<Category>) -> Seq<Category> {
    scanned.filter(is_unconfigured(config))
}

/// Whether no category of `config` has the id of `c`.
pub open spec fn is_unconfigured(config: Seq<Category>) -> spec_fn(Category) -> bool {
    |c: Category| !category_ids(config).contains(c.id@)
}

/// A scanned category is appended exactly when no configured category has
/// its id: an already configured id is never appended again.
pub proof fn lemma_unconfigured_membership(
    config: Seq<Category>,
    scanned: Seq<Category>,
    c: Category,
)
    ensures
        unconfigured(config, scanned).contains(c) <==> (scanned.contains(c)
            && !category_ids(config).contains(c.id@)),
        forall|k: int|
            0 <= k < unconfigured(config, scanned).len() ==> !category_ids(config).contains(
                (#[trigger] unconfigured(config, scanned)[k]).id@,
            ),
{
    lemma_filter_membership(scanned, is_unconfigured(config), c);
    assert forall|k: int| 0 <= k < unconfigured(config, scanned).len() implies !category_ids(
        config,
    ).contains((#[trigger] unconfigured(config, scanned)[k]).id@) by {
        let d = unconfigured(config, scanned)[k];
        assert(unconfigured(config, scanned).contains(d));
        lemma_filter_membership(scanned, is_unconfigured(config), d);
    }
}

/// A configured category stays exactly when the folder of one of its
/// occurrences still exists.
pub proof fn lemma_kept_categories(config: Seq<Category>, exists: Seq<bool>, c: Category)
    ensures
        kept_categories(config, exists).contains(c) <==> exists|i: int|
            0 <= i < config.len() && config[i] == c && #[trigger] exists[i],
    decreases config.len(),
{
    if config.len() > 0 {
        let rest = kept_categories(config.drop_last(), exists);
        lemma_kept_categories(config.drop_last(), exists, c);
        let last = config.len() - 1;
        if exists[last] {
            assert(rest.push(config.last())[rest.len() as int] == config.last());
            if rest.contains(c) {
                let k = choose|k: int| 0 <= k < rest.len() && rest[k] == c;
                assert(rest.push(config.last())[k] == c);
            }
            if rest.push(config.last()).contains(c) && c != config.last() {
                let k = choose|k: int| 0 <= k < rest.len() + 1 && rest.push(config.last())[k] == c;
                assert(rest[k] == c);
            }
        }
        if exists|i: int| 0 <= i < config.len() && config[i] == c && #[trigger] exists[i] {
            let i = choose|i: int| 0 <= i < config.len() && config[i] == c && #[trigger] exists[i];
            if i < last {
                assert(config.drop_last()[i] == c);
            }
        }
        if exists|i: int| 0 <= i < config.len() - 1 && config.drop_last()[i] == c && #[trigger] exists[i] {
            let i = choose|i: int| 0 <= i < config.len() - 1 && config.drop_last()[i] == c && #[trigger] exists[i];
            assert(config[i] == c);
        }
    }
}

/// After reconciling, every scanned folder has a category with its id, as
/// long as each configured category of a scanned folder is marked as existing.
pub proof fn lemma_reconcile_covers_scanned(
    config: Seq<Category>,
    exists: Seq<bool>,
    scanned: Seq<Category>,
)
    requires
        exists.len() == config.len(),
        forall|i: int|
            0 <= i < config.len() && category_ids(scanned).contains(#[trigger] config[i].id@)
                ==> exists[i],
    ensures
        forall|j: int|
            0 <= j < scanned.len() ==> category_ids(
                kept_categories(config, exists) + unconfigured(config, scanned),
            ).contains(#[trigger] scanned[j].id@),
{
    broadcast use vstd::seq_lib::group_filter_ensures;

    let kept = kept_categories(config, exists);
    let added = unconfigured(config, scanned);
    let all = kept + added;
    assert forall|j: int| 0 <= j < scanned.len() implies category_ids(all).contains(
        #[trigger] scanned[j].id@,
    ) by {
        let id = scanned[j].id@;
        assert(category_ids(scanned)[j] == id);
        if category_ids(config).contains(id) {
            let i = choose|i: int| 0 <= i < config.len() && category_ids(config)[i] == id;
            assert(config[i].id@ == id);
            assert(exists[i]);
            lemma_kept_categories(config, exists, config[i]);
            let k = choose|k: int| 0 <= k < kept.len() && kept[k] == config[i];
            assert(all[k] == config[i]);
            assert(category_ids(all)[k] == id);
        } else {
            assert(is_unconfigured(config)(scanned[j]));
            assert(added.contains(scanned[j]));
            let k = choose|k: int| 0 <= k < added.len() && added[k] == scanned[j];
            assert(all[kept.len() + k] == scanned[j]);
            assert(category_ids(all)[kept.len() + k] == id);
        }
    }
}

impl Manifest {
    /// Brings the configured categories in line with the folders found under
    /// the assets root. `scanned` are the categories of those folders, and
    /// `dir_exists[i]` tells whether the folder of the `i`-th configured
    /// category still exists.
    ///
    /// Without configured categories, each scanned folder gets a fresh
    /// category. Otherwise the configured categories whose folder is gone are
    /// dropped, and the scanned categories whose id is not configured are
    /// appended. Nothing else changes.
    pub fn reconcile_categories(&mut self, scanned: Vec<Category>, dir_exists: Vec<bool>)
        requires
            dir_exists@.len() == old(self)@.categories.len(),
        ensures
            final(self)@ == (ManifestView { categories: final(self)@.categories, ..old(self)@ }),
            old(self)@.categories.len() == 0 ==> {
                &&& final(self)@.categories.len() == scanned@.len()
                &&& forall|i: int|
                    0 <= i < scanned@.len() ==> is_fresh(
                        #[trigger] final(self)@.categories[i],
                        scanned@[i].id@,
                        Locale::ZhHans,
                    )
            },
            old(self)@.categories.len() > 0 ==> final(self)@.categories == kept_categories(
                old(self)@.categories,
                dir_exists@,
            ) + unconfigured(old(self)@.categories, scanned@),
    {
        if self.categories.len() == 0 {
            let mut categories: Vec<Category> = Vec::new();
            let n = scanned.len();
            for i in 0..n
                invariant
                    n == scanned@.len(),
                    categories@.len() == i,
                    forall|k: int|
                        0 <= k < i ==> is_fresh(#[trigger] categories@[k], scanned@[k].id@, Locale::ZhHans),
            {
                categories.push(fresh_category(Locale::ZhHans, &scanned[i].id));
            }
            self.categories = categories;
        } else {
            let ghost config = self.categories@;
            let n = scanned.len();
            let mut new_flags: Vec<bool> = Vec::new();
            for j in 0..n
                invariant
                    n == scanned@.len(),
                    self.categories@ == config,
                    new_flags@.len() == j,
                    forall|k: int|
                        0 <= k < j ==> new_flags@[k] == !category_ids(config).contains(
                            #[trigger] scanned@[k].id@,
                        ),
            {
                new_flags.push(!self.category_exists(scanned[j].id.as_str()));
            }
            let mut configured: Vec<Category> = Vec::new();
            std::mem::swap(&mut configured, &mut self.categories);
            let mut categories: Vec<Category> = Vec::new();
            let mut i: usize = 0;
            for c in it: configured
                invariant
                    it.seq() == config,
                    i == it.index(),
                    dir_exists@.len() == config.len(),
                    categories@ == kept_categories(config.take(i as int), dir_exists@),
            {
                assert(config.take(i + 1).drop_last() =~= config.take(i as int));
                if dir_exists[i] {
                    categories.push(c);
                }
                i = i + 1;
            }
            assert(config.take(config.len() as int) =~= config);
            let ghost kept = categories@;
            let mut j: usize = 0;
            for c in it: scanned
                invariant
                    it.seq() == scanned@,
                    j == it.index(),
                    new_flags@.len() == scanned@.len(),
                    n == scanned@.len(),
                    forall|k: int|
                        0 <= k < scanned@.len() ==> new_flags@[k] == !category_ids(config).contains(
                            #[trigger] scanned@[k].id@,
                        ),
                    categories@ == kept + unconfigured(config, scanned@.take(j as int)),
            {
                proof {
                    reveal_with_fuel(Seq::<_>::filter, 1);
                    assert(scanned@.take(j + 1).drop_last() =~= scanned@.take(j as int));
                }
                if new_flags[j] {
                    categories.push(c);
                    assert(categories@ =~= kept + unconfigured(config, scanned@.take(j + 1)));
                } else {
                    assert(categories@ =~= kept + unconfigured(config, scanned@.take(j + 1)));
                }
                j = j + 1;
            }
            assert(scanned@.take(scanned@.len() as int) =~= scanned@);
            self.categories = categories;
        }
    }
}
} // verus!
