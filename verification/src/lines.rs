//! What both emitters start from: the strings of a catalog, each with its language, and
//! their grouping by language.

use vstd::prelude::*;
use crate::grouping::{
    group_by_key, group_views, grouped, keyed, keys_in_order, lemma_grouped_map,
    lemma_keys_complete, map_entries, map_groups,
};
use crate::parse::{Key, KeyView, LocalizedStringView, StringValue, StringValueView};

verus! {

/// One string of one language: the resource's name and its text.
pub struct LineView {
    pub name: Seq<char>,
    pub value: StringValueView,
}

/// A file to be written: where it goes and what it holds.
#[derive(Debug, PartialEq, Eq, Clone)]
pub struct OutputFile {
    pub directory: String,
    pub name: String,
    pub content: String,
}

/// What an `OutputFile` holds.
pub struct OutputFileView {
    pub directory: Seq<char>,
    pub name: Seq<char>,
    pub content: Seq<char>,
}

impl View for OutputFile {
    type V = OutputFileView;

    open spec fn view(&self) -> OutputFileView {
        OutputFileView { directory: self.directory@, name: self.name@, content: self.content@ }
    }
}

/// A resource's name and its text in one language.
pub type NamedValue = (String, StringValue);

/// The string that a name and a text stand for.
pub open spec fn named_view(v: NamedValue) -> LineView {
    LineView { name: v.0@, value: v.1@ }
}

/// The strings of one key, each with its language.
pub open spec fn key_lines(key: KeyView) -> Seq<(Seq<char>, LineView)> {
    key.localizations.map_values(
        |l: LocalizedStringView| (l.language_code, LineView { name: key.name, value: l.value }),
    )
}

/// The strings of all keys in catalog order, each with its language.
pub open spec fn all_lines(keys: Seq<KeyView>) -> Seq<(Seq<char>, LineView)>
    decreases keys.len(),
{
    if keys.len() == 0 {
        Seq::empty()
    } else {
        all_lines(keys.drop_last()) + key_lines(keys.last())
    }
}

/// The strings of the keys by language: the languages in the order in which they first
/// appear, each with its strings in catalog order.
pub open spec fn lines_by_locale(keys: Seq<KeyView>) -> Seq<(Seq<char>, Seq<LineView>)> {
    grouped(all_lines(keys))
}

/// Some key has a localization in the language `locale`.
pub open spec fn has_locale(keys: Seq<KeyView>, locale: Seq<char>) -> bool {
    exists|k: int, l: int|
        0 <= k < keys.len() && 0 <= l < keys[k].localizations.len() && (
        #[trigger] keys[k].localizations[l]).language_code == locale
}

/// One of the entries has the language `locale`.
pub open spec fn has_entry(entries: Seq<(Seq<char>, LineView)>, locale: Seq<char>) -> bool {
    exists|j: int| 0 <= j < entries.len() && (#[trigger] entries[j]).0 == locale
}

/// The strings of the keys have the languages of the keys' localizations.
proof fn lemma_lines_have_locales(keys: Seq<KeyView>, locale: Seq<char>)
    ensures
        has_entry(all_lines(keys), locale) <==> has_locale(keys, locale),
    decreases keys.len(),
{
    if keys.len() > 0 {
        let front = keys.drop_last();
        let last = keys.last();
        let before = all_lines(front);
        let added = key_lines(last);
        lemma_lines_have_locales(front, locale);
        if has_entry(all_lines(keys), locale) {
            let j = choose|j: int|
                0 <= j < all_lines(keys).len() && (#[trigger] all_lines(keys)[j]).0 == locale;
            if j < before.len() {
                assert(before[j].0 == locale);
                let (k, l) = choose|k: int, l: int|
                    0 <= k < front.len() && 0 <= l < front[k].localizations.len() && (
                    #[trigger] front[k].localizations[l]).language_code == locale;
                assert(keys[k].localizations[l].language_code == locale);
            } else {
                let l = j - before.len();
                assert(added[l].0 == locale);
                assert(keys[keys.len() - 1].localizations[l].language_code == locale);
            }
        }
        if has_locale(keys, locale) {
            let (k, l) = choose|k: int, l: int|
                0 <= k < keys.len() && 0 <= l < keys[k].localizations.len() && (
                #[trigger] keys[k].localizations[l]).language_code == locale;
            if k < front.len() {
                assert(front[k].localizations[l].language_code == locale);
                let j = choose|j: int| 0 <= j < before.len() && (#[trigger] before[j]).0 == locale;
                assert(all_lines(keys)[j].0 == locale);
            } else {
                assert(added[l].0 == locale);
                assert(all_lines(keys)[before.len() + l].0 == locale);
            }
        }
    }
}

/// Every language that a key has a localization in has its strings, and no other language
/// has any.
pub proof fn lemma_every_locale_has_lines(keys: Seq<KeyView>, locale: Seq<char>)
    ensures
        has_locale(keys, locale) <==> exists|j: int|
            0 <= j < lines_by_locale(keys).len() && (#[trigger] lines_by_locale(keys)[j]).0
                == locale,
{
    let entries = all_lines(keys);
    let groups = lines_by_locale(keys);
    lemma_lines_have_locales(keys, locale);
    lemma_keys_complete(entries, locale);
    assert(groups.len() == keys_in_order(entries).len());
    if keys_in_order(entries).contains(locale) {
        let j = choose|j: int|
            0 <= j < keys_in_order(entries).len() && keys_in_order(entries)[j] == locale;
        assert(groups[j].0 == locale);
    }
    if exists|j: int| 0 <= j < groups.len() && (#[trigger] groups[j]).0 == locale {
        let j = choose|j: int| 0 <= j < groups.len() && (#[trigger] groups[j]).0 == locale;
        assert(keys_in_order(entries)[j] == locale);
    }
}

/// The strings that the entries stand for, each with its language.
pub open spec fn line_entries(entries: Seq<(String, NamedValue)>) -> Seq<(Seq<char>, LineView)> {
    map_entries(keyed(entries), |v: NamedValue| named_view(v))
}

/// The strings that the groups stand for, by language.
pub open spec fn line_groups(groups: Seq<(String, Vec<NamedValue>)>) -> Seq<
    (Seq<char>, Seq<LineView>),
> {
    map_groups(group_views(groups), |v: NamedValue| named_view(v))
}

/// Appends the strings of `keys`, in catalog order and each with its language, to `entries`.
pub fn push_key_lines(entries: &mut Vec<(String, NamedValue)>, keys: &Vec<Key>)
    ensures
        line_entries(final(entries)@) == line_entries(old(entries)@) + all_lines(
            keys@.map_values(|k: Key| k@),
        ),
{
    let ghost views = keys@.map_values(|k: Key| k@);
    let ghost start = line_entries(entries@);
    let mut k: usize = 0;
    assert(views.take(0) =~= Seq::empty());
    assert(line_entries(entries@) =~= start + all_lines(views.take(0)));
    while k < keys.len()
        invariant
            k <= keys.len(),
            views == keys@.map_values(|k: Key| k@),
            line_entries(entries@) == start + all_lines(views.take(k as int)),
        decreases keys.len() - k,
    {
        let key = &keys[k];
        let ghost before = line_entries(entries@);
        let ghost wanted = key_lines(key@);
        let mut j: usize = 0;
        assert(before + wanted.take(0) =~= before);
        while j < key.localizations.len()
            invariant
                j <= key.localizations.len(),
                wanted == key_lines(key@),
                line_entries(entries@) == before + wanted.take(j as int),
            decreases key.localizations.len() - j,
        {
            let localized = &key.localizations[j];
            let named = (key.name.clone(), localized.value.duplicate());
            let code = localized.language_code.clone();
            let ghost at = entries@;
            entries.push((code, named));
            proof {
                assert(line_entries(entries@) =~= line_entries(at).push(
                    (code@, named_view(named)),
                ));
                assert(wanted.take(j + 1) =~= wanted.take(j as int).push(wanted[j as int]));
                assert(before + wanted.take(j + 1) =~= (before + wanted.take(j as int)).push(
                    wanted[j as int],
                ));
            }
            j += 1;
        }
        proof {
            assert(wanted.take(key.localizations.len() as int) =~= wanted);
            let next = views.take(k + 1);
            assert(next.drop_last() =~= views.take(k as int));
            assert(next.last() == key@);
            assert(start + all_lines(next) =~= (start + all_lines(views.take(k as int)))
                + wanted);
        }
        k += 1;
    }
    assert(views.take(keys.len() as int) =~= views);
}

/// Groups strings by language: the languages in the order in which they first appear, each
/// with its strings in order.
pub fn group_by_locale(entries: Vec<(String, NamedValue)>) -> (groups: Vec<
    (String, Vec<NamedValue>),
>)
    ensures
        line_groups(groups@) == grouped(line_entries(entries@)),
{
    let ghost gathered = keyed(entries@);
    let groups = group_by_key(entries);
    proof {
        lemma_grouped_map(gathered, |v: NamedValue| named_view(v));
    }
    groups
}

} // verus!
