//! Categories of images and how they refer to each other.

use vstd::prelude::*;

use crate::error::Error;
use crate::i18n::{I18nStr, Locale};

verus! {

/// One category of images: a folder under the assets root.
#[derive(Debug, Clone, PartialEq, Eq)]
pub struct Category {
    /// The category's id, which is the name of its folder.
    pub id: String,
    /// The ids of the parent categories.
    pub parents: Vec<String>,
    /// The category's localized name.
    pub name: I18nStr,
}

/// The texts of a list of strings.
pub open spec fn str_views(v: Seq<String>) -> Seq<Seq<char>> {
    v.map_values(|s: String| s@)
}

/// The ids of a list of categories, in order.
pub open spec fn category_ids(cats: Seq<Category>) -> Seq<Seq<char>> {
    cats.map_values(|c: Category| c.id@)
}

/// The index of the first category whose id is `id`, if there is one.
pub open spec fn first_with_id(cats: Seq<Category>, id: Seq<char>) -> Option<int>
    decreases cats.len(),
{
    if cats.len() == 0 {
        None
    } else if cats.last().id@ == id && first_with_id(cats.drop_last(), id) is None {
        Some(cats.len() - 1)
    } else {
        first_with_id(cats.drop_last(), id)
    }
}

/// The parents that are kept of a category `id`: those that name a category
/// of `ids` and are not the category itself, in their order.
pub open spec fn repaired_parents(
    parents: Seq<Seq<char>>,
    id: Seq<char>,
    ids: Seq<Seq<char>>,
) -> Seq<Seq<char>> {
    parents.filter(keeps_parent(id, ids))
}

/// Whether the repair keeps a parent of category `id`: it names a category of
/// `ids` and is not the category itself.
pub open spec fn keeps_parent(id: Seq<char>, ids: Seq<Seq<char>>) -> spec_fn(Seq<char>) -> bool {
    |p: Seq<char>| ids.contains(p) && p != id
}

/// `repaired` is `before` with its parents repaired against `ids`.
pub open spec fn is_repaired(repaired: Category, before: Category, ids: Seq<Seq<char>>) -> bool {
    &&& repaired.id == before.id
    &&& repaired.name == before.name
    &&& str_views(repaired.parents@) == repaired_parents(
        str_views(before.parents@),
        before.id@,
        ids,
    )
}

/// `repaired` is the list `before` with the parents of each category repaired
/// against the ids of `before`.
pub open spec fn categories_repaired(repaired: Seq<Category>, before: Seq<Category>) -> bool {
    &&& repaired.len() == before.len()
    &&& forall|i: int|
        0 <= i < repaired.len() ==> is_repaired(
            #[trigger] repaired[i],
            before[i],
            category_ids(before),
        )
}

/// A repaired parent list holds exactly the parents that name a category of
/// `ids` and are not the category itself.
pub proof fn lemma_repaired_parents_valid(
    parents: Seq<Seq<char>>,
    id: Seq<char>,
    ids: Seq<Seq<char>>,
    p: Seq<char>,
)
    ensures
        repaired_parents(parents, id, ids).contains(p) <==> (parents.contains(p) && ids.contains(p)
            && p != id),
{
    broadcast use vstd::seq_lib::group_filter_ensures;

    let pred = keeps_parent(id, ids);
    if repaired_parents(parents, id, ids).contains(p) {
        parents.lemma_filter_contains_rev(pred, p);
    }
    if parents.contains(p) && ids.contains(p) && p != id {
        let k = choose|k: int| 0 <= k < parents.len() && parents[k] == p;
        assert(pred(parents[k]));
    }
}

/// Repairing a repaired parent list changes nothing.
pub proof fn lemma_repaired_parents_idempotent(
    parents: Seq<Seq<char>>,
    id: Seq<char>,
    ids: Seq<Seq<char>>,
)
    ensures
        repaired_parents(repaired_parents(parents, id, ids), id, ids) == repaired_parents(
            parents,
            id,
            ids,
        ),
    decreases parents.len(),
{
    reveal_with_fuel(Seq::<_>::filter, 1);
    if parents.len() > 0 {
        lemma_repaired_parents_idempotent(parents.drop_last(), id, ids);
        let once = repaired_parents(parents.drop_last(), id, ids);
        if ids.contains(parents.last()) && parents.last() != id {
            assert(once.push(parents.last()).drop_last() =~= once);
        }
    }
}

/// Repairing the parents of a list that was just repaired changes nothing:
/// the ids, names and parents stay as they are.
pub proof fn lemma_categories_repaired_idempotent(
    before: Seq<Category>,
    once: Seq<Category>,
    twice: Seq<Category>,
)
    requires
        categories_repaired(once, before),
        categories_repaired(twice, once),
    ensures
        twice.len() == once.len(),
        forall|i: int|
            0 <= i < twice.len() ==> {
                &&& (#[trigger] twice[i]).id == once[i].id
                &&& twice[i].name == once[i].name
                &&& str_views(twice[i].parents@) == str_views(once[i].parents@)
            },
{
    assert(category_ids(once) =~= category_ids(before));
    assert forall|i: int| 0 <= i < twice.len() implies str_views(twice[i].parents@) == str_views(
        once[i].parents@,
    ) by {
        lemma_repaired_parents_idempotent(
            str_views(before[i].parents@),
            before[i].id@,
            category_ids(before),
        );
    }
}

/// After a repair, every parent of every category names a category of the
/// list and is not the category itself.
pub proof fn lemma_categories_repaired_valid(repaired: Seq<Category>, before: Seq<Category>)
    requires
        categories_repaired(repaired, before),
    ensures
        forall|i: int, p: Seq<char>|
            0 <= i < repaired.len() && #[trigger] str_views(repaired[i].parents@).contains(p)
                ==> category_ids(repaired).contains(p) && p != repaired[i].id@,
{
    assert(category_ids(repaired) =~= category_ids(before));
    assert forall|i: int, p: Seq<char>|
        0 <= i < repaired.len() && #[trigger] str_views(repaired[i].parents@).contains(
            p,
        ) implies category_ids(repaired).contains(p) && p != repaired[i].id@ by {
        lemma_repaired_parents_valid(
            str_views(before[i].parents@),
            before[i].id@,
            category_ids(before),
            p,
        );
    }
}

/// Facts about `first_with_id`.
pub proof fn lemma_first_with_id(cats: Seq<Category>, id: Seq<char>)
    ensures
        first_with_id(cats, id) is Some <==> category_ids(cats).contains(id),
        first_with_id(cats, id) matches Some(i) ==> 0 <= i < cats.len() && cats[i].id@ == id
            && forall|j: int| 0 <= j < i ==> cats[j].id@ != id,
    decreases cats.len(),
{
    if cats.len() > 0 {
        lemma_first_with_id(cats.drop_last(), id);
        assert(category_ids(cats.drop_last()) =~= category_ids(cats).drop_last());
        if category_ids(cats).contains(id) {
            let k = choose|k: int| 0 <= k < cats.len() && category_ids(cats)[k] == id;
            if k < cats.len() - 1 {
                assert(category_ids(cats.drop_last())[k] == id);
            }
        }
        if category_ids(cats.drop_last()).contains(id) {
            let k = choose|k: int| 0 <= k < cats.len() - 1 && category_ids(cats.drop_last())[k] == id;
            assert(category_ids(cats)[k] == id);
        }
        assert(category_ids(cats)[cats.len() - 1] == cats.last().id@);
        assert(forall|j: int| 0 <= j < cats.len() - 1 ==> cats.drop_last()[j] == cats[j]);
        if first_with_id(cats.drop_last(), id) is None {
            assert forall|j: int| 0 <= j < cats.len() - 1 implies cats[j].id@ != id by {
                assert(category_ids(cats.drop_last())[j] == cats[j].id@);
            }
        }
    }
}

impl Category {
    /// A category with the same id and name and the given parents.
    pub(crate) fn with_parents(&self, parents: Vec<String>) -> (c: Category)
        ensures
            c.id == self.id,
            c.name == self.name,
            c.parents == parents,
    {
        Category { id: self.id.clone(), parents, name: self.name.duplicate() }
    }
}


/// `c` is the category that a fresh folder named `id` gets: no parents, and
/// `id` as its name in `locale`.
pub open spec fn is_fresh(c: Category, id: Seq<char>, locale: Locale) -> bool {
    &&& c.id@ == id
    &&& c.parents@.len() == 0
    &&& c.name@ == Map::<Locale, Seq<char>>::empty().insert(locale, id)
}

/// The category that a fresh folder named `id` gets, named in `locale`.
pub(crate) fn fresh_category(locale: Locale, id: &String) -> (c: Category)
    ensures
        is_fresh(c, id@, locale),
{
    let mut values = Vec::new();
    values.push(locale.value(id.clone()));
    let name = I18nStr::new(values);
    proof {
        let views = crate::i18n::locale_value_views(values@);
        assert(views.drop_last() =~= Seq::<(Locale, Seq<char>)>::empty());
        reveal_with_fuel(crate::i18n::localize_all, 2);
    }
    Category { id: id.clone(), parents: Vec::new(), name }
}

/// The texts of a list of string slices.
pub open spec fn str_slice_views(v: Seq<&str>) -> Seq<Seq<char>> {
    v.map_values(|s: &str| s@)
}

/// The folder names that are not skipped, in their order.
pub open spec fn unskipped(names: Seq<Seq<char>>, skips: Seq<Seq<char>>) -> Seq<Seq<char>> {
    names.filter(not_skipped(skips))
}

/// Whether a folder name is not one of `skips`.
pub open spec fn not_skipped(skips: Seq<Seq<char>>) -> spec_fn(Seq<char>) -> bool {
    |n: Seq<char>| !skips.contains(n)
}

/// Whether a text differs from `s`.
pub open spec fn differs_from(s: Seq<char>) -> spec_fn(Seq<char>) -> bool {
    |n: Seq<char>| n != s
}

/// `cats` is what a scan of the folders `names`, skipping `skips`, gives in
/// `locale`: each folder name that is not skipped, in order, as a fresh
/// category named in `locale`.
pub open spec fn scanned_from(
    cats: Seq<Category>,
    names: Seq<Seq<char>>,
    skips: Seq<Seq<char>>,
    locale: Locale,
) -> bool {
    let kept = unskipped(names, skips);
    &&& cats.len() == kept.len()
    &&& forall|i: int| 0 <= i < kept.len() ==> is_fresh(#[trigger] cats[i], kept[i], locale)
}

/// Skipping one more name `s` leaves out exactly the folders named `s`.
pub proof fn lemma_unskipped_one_more(names: Seq<Seq<char>>, skips: Seq<Seq<char>>, s: Seq<char>)
    ensures
        unskipped(names, skips.push(s)) == unskipped(names, skips).filter(differs_from(s)),
    decreases names.len(),
{
    reveal_with_fuel(Seq::<_>::filter, 1);
    if names.len() > 0 {
        lemma_unskipped_one_more(names.drop_last(), skips, s);
        let n = names.last();
        if skips.contains(n) {
            let k = choose|k: int| 0 <= k < skips.len() && skips[k] == n;
            assert(skips.push(s)[k] == n);
        }
        if n == s {
            assert(skips.push(s)[skips.len() as int] == n);
        }
        if skips.push(s).contains(n) && n != s {
            let k = choose|k: int| 0 <= k < skips.len() + 1 && skips.push(s)[k] == n;
            assert(skips[k] == n);
        }
        let u = unskipped(names.drop_last(), skips);
        assert(u.push(n).drop_last() =~= u);
    }
}

/// An item is kept by a filter exactly when it is in the sequence and meets
/// the predicate.
pub proof fn lemma_filter_membership<A>(s: Seq<A>, p: spec_fn(A) -> bool, x: A)
    ensures
        s.filter(p).contains(x) <==> (s.contains(x) && p(x)),
{
    broadcast use vstd::seq_lib::group_filter_ensures;

    if s.filter(p).contains(x) {
        let k = choose|k: int| 0 <= k < s.filter(p).len() && s.filter(p)[k] == x;
        s.lemma_filter_pred(p, k);
        s.lemma_filter_contains_rev(p, x);
    }
    if s.contains(x) && p(x) {
        let k = choose|k: int| 0 <= k < s.len() && s[k] == x;
        s.lemma_filter_contains(p, k);
    }
}

/// A folder becomes a category of a scan exactly when it is one of the
/// folders and its name is not skipped; with nothing skipped, every folder
/// does, in order.
pub proof fn lemma_unskipped_membership(
    names: Seq<Seq<char>>,
    skips: Seq<Seq<char>>,
    n: Seq<char>,
)
    ensures
        unskipped(names, skips).contains(n) <==> (names.contains(n) && !skips.contains(n)),
        unskipped(names, Seq::empty()) == names,
    decreases names.len(),
{
    lemma_filter_membership(names, not_skipped(skips), n);
    reveal_with_fuel(Seq::<_>::filter, 1);
    if names.len() > 0 {
        lemma_unskipped_membership(names.drop_last(), skips, n);
        assert(!Seq::<Seq<char>>::empty().contains(names.last()));
        assert(unskipped(names.drop_last(), Seq::empty()).push(names.last()) =~= names);
    }
}

/// The ids of a scan are exactly the folder names that are not skipped.
pub proof fn lemma_scan_membership(
    cats: Seq<Category>,
    names: Seq<Seq<char>>,
    skips: Seq<Seq<char>>,
    locale: Locale,
    n: Seq<char>,
)
    requires
        scanned_from(cats, names, skips, locale),
    ensures
        category_ids(cats).contains(n) <==> (names.contains(n) && !skips.contains(n)),
{
    lemma_scanned_ids(cats, names, skips, locale);
    lemma_unskipped_membership(names, skips, n);
}

/// The ids of a scan are the folder names that are not skipped.
pub proof fn lemma_scanned_ids(
    cats: Seq<Category>,
    names: Seq<Seq<char>>,
    skips: Seq<Seq<char>>,
    locale: Locale,
)
    requires
        scanned_from(cats, names, skips, locale),
    ensures
        category_ids(cats) == unskipped(names, skips),
{
    assert(category_ids(cats) =~= unskipped(names, skips));
}

/// A scan with one more skipped name `s` gives the same categories without
/// those named `s`, in the same order.
pub proof fn lemma_scan_one_more_skip(
    cats: Seq<Category>,
    fewer: Seq<Category>,
    names: Seq<Seq<char>>,
    skips: Seq<Seq<char>>,
    s: Seq<char>,
    locale: Locale,
)
    requires
        scanned_from(cats, names, skips, locale),
        scanned_from(fewer, names, skips.push(s), locale),
    ensures
        category_ids(fewer) == category_ids(cats).filter(differs_from(s)),
        forall|i: int| 0 <= i < fewer.len() ==> is_fresh(#[trigger] fewer[i], fewer[i].id@, locale),
{
    lemma_scanned_ids(cats, names, skips, locale);
    lemma_scanned_ids(fewer, names, skips.push(s), locale);
    lemma_unskipped_one_more(names, skips, s);
    assert forall|i: int| 0 <= i < fewer.len() implies is_fresh(
        #[trigger] fewer[i],
        fewer[i].id@,
        locale,
    ) by {
        assert(category_ids(fewer)[i] == fewer[i].id@);
    }
}

/// A scan in another locale gives the same folders, in the same order, each
/// named in that locale instead.
pub proof fn lemma_scan_other_locale(
    cats: Seq<Category>,
    other: Seq<Category>,
    names: Seq<Seq<char>>,
    skips: Seq<Seq<char>>,
    locale: Locale,
    other_locale: Locale,
)
    requires
        scanned_from(cats, names, skips, locale),
        scanned_from(other, names, skips, other_locale),
    ensures
        other.len() == cats.len(),
        forall|i: int|
            0 <= i < other.len() ==> {
                &&& (#[trigger] other[i]).id@ == cats[i].id@
                &&& other[i].parents@.len() == 0
                &&& other[i].name@ == Map::<Locale, Seq<char>>::empty().insert(
                    other_locale,
                    cats[i].id@,
                )
            },
{
}

/// Whether `name` is one of `skips`.
fn is_skipped(skips: &Vec<&str>, name: &String) -> (b: bool)
    ensures
        b == str_slice_views(skips@).contains(name@),
{
    let n = skips.len();
    for i in 0..n
        invariant
            n == skips@.len(),
            forall|j: int| 0 <= j < i ==> skips@[j]@ != name@,
    {
        let skip = skips[i].to_owned();
        if skip == *name {
            assert(str_slice_views(skips@)[i as int] == name@);
            return true;
        }
    }
    proof {
        if str_slice_views(skips@).contains(name@) {
            let k = choose|k: int| 0 <= k < skips@.len() && str_slice_views(skips@)[k] == name@;
            assert(skips@[k]@ == name@);
        }
    }
    false
}

/// The categories of the folders under the assets root `prefix`.
///
/// `dir_names` are the names of the folders under `prefix`, or nothing when
/// `prefix` is not a folder, which is an error. Each folder whose name is not
/// one of `skips` becomes a category with that name as its id and as its name
/// in `default_locale`, and no parents.
pub fn scan_categories(
    default_locale: Locale,
    skips: Vec<&str>,
    prefix: &str,
    dir_names: Option<Vec<String>>,
) -> (r: Result<Vec<Category>, Error>)
    ensures
        r is Err <==> dir_names is None,
        r matches Err(e) ==> e matches Error::NonFolder(p) && p@ == prefix@,
        r matches Ok(cats) ==> scanned_from(
            cats@,
            str_views(dir_names->0@),
            str_slice_views(skips@),
            default_locale,
        ),
{
    match dir_names {
        None => Err(Error::NonFolder(prefix.to_owned())),
        Some(names) => {
            let ghost skip_views = str_slice_views(skips@);
            let ghost all = str_views(names@);
            let mut categories: Vec<Category> = Vec::new();
            let n = names.len();
            for i in 0..n
                invariant
                    n == names@.len(),
                    skip_views == str_slice_views(skips@),
                    all == str_views(names@),
                    categories@.len() == unskipped(all.take(i as int), skip_views).len(),
                    forall|k: int|
                        0 <= k < categories@.len() ==> is_fresh(
                            #[trigger] categories@[k],
                            unskipped(all.take(i as int), skip_views)[k],
                            default_locale,
                        ),
            {
                let name = &names[i];
                proof {
                    reveal_with_fuel(Seq::<_>::filter, 1);
                    assert(all.take(i + 1).drop_last() =~= all.take(i as int));
                    assert(all.take(i + 1).last() == name@);
                }
                if !is_skipped(&skips, name) {
                    categories.push(fresh_category(default_locale, name));
                }
            }
            assert(all.take(n as int) =~= all);
            Ok(categories)
        }
    }
}
} // verus!
