//! The catalog model, the rewriting of catalog values, and the building of the model from
//! the sections of a catalog.

use vstd::prelude::*;
use crate::escape::{
    escape_around_tags, escape_chars, is_special, lemma_escape_plain, supported_tags, tag_regions,
};
use crate::grouping::{
    group_by_key, group_views, grouped, keyed, lemma_grouped_map, map_entries, map_groups,
};
use crate::placeholder::{
    add_positional_number_chars, add_positional_numbers, contains_placeholder,
    convert_object_chars, convert_object_specifiers, double_percent_chars, double_percents,
    doubled_from, has_placeholder, placeholder_len,
};
use crate::text::{
    copy_range, from_chars, has_char, lemma_line_len_bound, line_len, lines, lines_from,
    matches_at, push_range, push_str, rows, same_chars, split_lines, strip, stripped, to_chars,
    trimmed, trimmed_lines, CharClass,
};
use configparser::ini::{Ini, IniDefault};

verus! {

/// A catalog: its sections, in order.
#[derive(Debug)]
pub struct File {
    pub sections: Vec<Section>,
}

/// A section of a catalog: its keys, in order.
#[derive(Debug)]
pub struct Section {
    pub keys: Vec<Key>,
}

/// A string resource: its name and what it reads in each language.
#[derive(Debug)]
pub struct Key {
    pub name: String,
    pub localizations: Vec<LocalizedString>,
}

/// What a resource reads in one language.
#[derive(Debug)]
pub struct LocalizedString {
    pub language_code: String,
    pub value: StringValue,
}

/// The text of a resource: one text, or one for each plural quantity.
#[derive(PartialEq, Eq, Debug, PartialOrd, Ord, Clone)]
pub enum StringValue {
    Single(String),
    Plural { quantities: Vec<PluralValue> },
}

/// The text for one plural quantity (`zero`, `one`, `two`, `few`, `many` or `other`).
#[derive(PartialEq, Eq, Debug, PartialOrd, Ord, Clone)]
pub struct PluralValue {
    pub quantity: String,
    pub text: String,
}

/// What a `PluralValue` holds.
pub struct PluralValueView {
    pub quantity: Seq<char>,
    pub text: Seq<char>,
}

/// What a `StringValue` holds.
pub enum StringValueView {
    Single(Seq<char>),
    Plural { quantities: Seq<PluralValueView> },
}

/// What a `LocalizedString` holds.
pub struct LocalizedStringView {
    pub language_code: Seq<char>,
    pub value: StringValueView,
}

/// What a `Key` holds.
pub struct KeyView {
    pub name: Seq<char>,
    pub localizations: Seq<LocalizedStringView>,
}

/// What a `Section` holds.
pub struct SectionView {
    pub keys: Seq<KeyView>,
}

/// What a `File` holds.
pub struct FileView {
    pub sections: Seq<SectionView>,
}

impl View for PluralValue {
    type V = PluralValueView;

    open spec fn view(&self) -> PluralValueView {
        PluralValueView { quantity: self.quantity@, text: self.text@ }
    }
}

impl View for StringValue {
    type V = StringValueView;

    open spec fn view(&self) -> StringValueView {
        match self {
            StringValue::Single(text) => StringValueView::Single(text@),
            StringValue::Plural { quantities } => StringValueView::Plural {
                quantities: quantities@.map_values(|q: PluralValue| q@),
            },
        }
    }
}

impl View for LocalizedString {
    type V = LocalizedStringView;

    open spec fn view(&self) -> LocalizedStringView {
        LocalizedStringView { language_code: self.language_code@, value: self.value@ }
    }
}

impl View for Key {
    type V = KeyView;

    open spec fn view(&self) -> KeyView {
        KeyView {
            name: self.name@,
            localizations: self.localizations@.map_values(|l: LocalizedString| l@),
        }
    }
}

impl View for Section {
    type V = SectionView;

    open spec fn view(&self) -> SectionView {
        SectionView { keys: self.keys@.map_values(|k: Key| k@) }
    }
}

impl View for File {
    type V = FileView;

    open spec fn view(&self) -> FileView {
        FileView { sections: self.sections@.map_values(|s: Section| s@) }
    }
}

impl PluralValue {
    /// A copy of the value.
    pub fn duplicate(&self) -> (r: PluralValue)
        ensures
            r@ == self@,
    {
        PluralValue { quantity: self.quantity.clone(), text: self.text.clone() }
    }
}

impl StringValue {
    /// A copy of the value.
    pub fn duplicate(&self) -> (r: StringValue)
        ensures
            r@ == self@,
    {
        match self {
            StringValue::Single(text) => StringValue::Single(text.clone()),
            StringValue::Plural { quantities } => {
                let mut copy: Vec<PluralValue> = Vec::new();
                let mut i: usize = 0;
                while i < quantities.len()
                    invariant
                        i <= quantities.len(),
                        copy.len() == i,
                        forall|j: int| 0 <= j < i ==> copy[j]@ == quantities[j]@,
                    decreases quantities.len() - i,
                {
                    copy.push(quantities[i].duplicate());
                    i += 1;
                }
                assert(copy@.map_values(|q: PluralValue| q@) =~= quantities@.map_values(
                    |q: PluralValue| q@,
                ));
                StringValue::Plural { quantities: copy }
            },
        }
    }
}

/// What a raw catalog value becomes in the model: escaped around supported markup, its
/// literal percent signs doubled, and, where it holds a placeholder, its object specifiers
/// converted and its placeholders numbered.
pub open spec fn transform(raw: Seq<char>) -> Seq<char> {
    let doubled = double_percents(escape_around_tags(raw));
    if has_placeholder(doubled) {
        add_positional_numbers(convert_object_specifiers(doubled))
    } else {
        doubled
    }
}

/// Text without a percent sign is left as it is by the doubling of percent signs.
pub proof fn lemma_double_plain(s: Seq<char>, i: int)
    requires
        0 <= i <= s.len(),
        forall|k: int| i <= k < s.len() ==> s[k] != '%',
    ensures
        doubled_from(s, i) == s.subrange(i, s.len() as int),
    decreases s.len() - i,
{
    if i < s.len() {
        lemma_double_plain(s, i + 1);
        assert(seq![s[i]] + s.subrange(i + 1, s.len() as int) =~= s.subrange(i, s.len() as int));
    } else {
        assert(s.subrange(i, s.len() as int) =~= Seq::<char>::empty());
    }
}

/// A value that holds none of the characters `&`, `<`, `'`, `"` and `%` enters the model
/// unchanged.
pub proof fn lemma_transform_plain(raw: Seq<char>)
    requires
        forall|k: int|
            0 <= k < raw.len() ==> !is_special(#[trigger] raw[k]) && raw[k] != '%',
    ensures
        transform(raw) == raw,
{
    lemma_escape_plain(raw, tag_regions(raw, supported_tags()), 0);
    assert(raw.subrange(0, raw.len() as int) =~= raw);
    lemma_double_plain(raw, 0);
    assert forall|i: int| (#[trigger] placeholder_len(raw, i)) is None by {}
}

/// Rewrites a raw catalog value into the form that the model holds. Never fails.
pub fn parse_localized_string_value(raw_value: String) -> (r: Result<String, String>)
    ensures
        r matches Ok(value) && value@ == transform(raw_value@),
{
    let escaped = escape_chars(to_chars(raw_value.as_str()));
    let doubled = double_percent_chars(&escaped);
    if !contains_placeholder(&doubled) {
        return Ok(from_chars(&doubled));
    }
    let converted = convert_object_chars(&doubled);
    let numbered = add_positional_number_chars(&converted);
    Ok(from_chars(&numbered))
}

/// The entries of one catalog section as they are read: an identifier and, where the line
/// had a delimiter, the text behind it.
pub type RawEntries = Vec<(String, Option<String>)>;

/// The sections of a catalog as they are read: a name and its entries.
pub type RawSections = Vec<(String, RawEntries)>;

/// The characters of an entry's text, where it has one.
pub open spec fn text_view(text: Option<String>) -> Option<Seq<char>> {
    match text {
        Some(t) => Some(t@),
        None => None,
    }
}

/// The entries of a section as identifiers and texts.
pub open spec fn entry_views(raw: Seq<(String, Option<String>)>) -> Seq<
    (Seq<char>, Option<Seq<char>>),
> {
    raw.map_values(|e: (String, Option<String>)| (e.0@, text_view(e.1)))
}

/// The sections of a catalog as names and entries.
pub open spec fn section_views(sections: Seq<(String, RawEntries)>) -> Seq<
    (Seq<char>, Seq<(Seq<char>, Option<Seq<char>>)>),
> {
    sections.map_values(|s: (String, RawEntries)| (s.0@, entry_views(s.1@)))
}

/// What the localizations hold.
pub open spec fn localization_views(v: Seq<LocalizedString>) -> Seq<LocalizedStringView> {
    v.map_values(|l: LocalizedString| l@)
}

/// What the keys hold.
pub open spec fn key_views(v: Seq<Key>) -> Seq<KeyView> {
    v.map_values(|k: Key| k@)
}

/// What marks the name of a section that repeats an earlier header.
pub open spec fn dedup_suffix() -> Seq<char> {
    seq!['_', 'd', 'e', 'd', 'u', 'p']
}

/// `name` without the suffix `_dedup`, where it ends in it.
pub open spec fn strip_dedup(name: Seq<char>) -> Seq<char> {
    if name.len() >= 6 && name.subrange(name.len() - 6, name.len() as int) == dedup_suffix() {
        name.take(name.len() - 6)
    } else {
        name
    }
}

/// A key is plural where one of its identifiers holds a colon.
pub open spec fn is_plural_key(raw: Seq<(Seq<char>, Option<Seq<char>>)>) -> bool {
    exists|j: int| 0 <= j < raw.len() && (#[trigger] raw[j]).0.contains(':')
}

/// An identifier that names no language: catalog metadata.
pub open spec fn is_reserved(id: Seq<char>) -> bool {
    id == "comment"@ || id == "tags"@
}

/// The localizations of a key without plurals: one for each entry that has a text and whose
/// identifier is not reserved, in order.
pub open spec fn single_localizations(raw: Seq<(Seq<char>, Option<Seq<char>>)>) -> Seq<
    LocalizedStringView,
>
    decreases raw.len(),
{
    if raw.len() == 0 {
        Seq::empty()
    } else {
        let before = single_localizations(raw.drop_last());
        let (id, text) = raw.last();
        match text {
            Some(t) if !is_reserved(id) => before.push(
                LocalizedStringView {
                    language_code: id,
                    value: StringValueView::Single(transform(t)),
                },
            ),
            _ => before,
        }
    }
}

/// The number of characters of `id` from `i` on that stand before its first colon.
pub open spec fn colon_distance(id: Seq<char>, i: int) -> nat
    decreases id.len() - i,
{
    if 0 <= i < id.len() && id[i] != ':' {
        1 + colon_distance(id, i + 1)
    } else {
        0
    }
}

/// The language of an identifier: what stands before its first colon, or all of it.
pub open spec fn locale_of(id: Seq<char>) -> Seq<char> {
    id.take(colon_distance(id, 0) as int)
}

/// The quantity of an identifier: what stands behind its first colon, or `other`.
pub open spec fn quantity_of(id: Seq<char>) -> Seq<char> {
    let c = colon_distance(id, 0) as int;
    if c < id.len() {
        id.skip(c + 1)
    } else {
        "other"@
    }
}

/// The plural values of a key, each with its language: one for each entry that has a text
/// and whose identifier is not reserved.
pub open spec fn plural_entries(raw: Seq<(Seq<char>, Option<Seq<char>>)>) -> Seq<
    (Seq<char>, PluralValueView),
>
    decreases raw.len(),
{
    if raw.len() == 0 {
        Seq::empty()
    } else {
        let before = plural_entries(raw.drop_last());
        let (id, text) = raw.last();
        match text {
            Some(t) if !is_reserved(id) => before.push(
                (
                    locale_of(id),
                    PluralValueView { quantity: quantity_of(id), text: transform(t) },
                ),
            ),
            _ => before,
        }
    }
}

/// The localization that holds the plural values of one language.
pub open spec fn plural_localization(group: (Seq<char>, Seq<PluralValueView>))
    -> LocalizedStringView {
    LocalizedStringView {
        language_code: group.0,
        value: StringValueView::Plural { quantities: group.1 },
    }
}

/// The localizations of a plural key: one for each language, in the order in which the
/// languages first appear, with that language's plural values in order.
pub open spec fn plural_localizations(raw: Seq<(Seq<char>, Option<Seq<char>>)>) -> Seq<
    LocalizedStringView,
> {
    grouped(plural_entries(raw)).map_values(
        |g: (Seq<char>, Seq<PluralValueView>)| plural_localization(g),
    )
}

/// The key that a section of the catalog stands for.
pub open spec fn key_of(name: Seq<char>, raw: Seq<(Seq<char>, Option<Seq<char>>)>) -> KeyView {
    KeyView {
        name: strip_dedup(name),
        localizations: if is_plural_key(raw) {
            plural_localizations(raw)
        } else {
            single_localizations(raw)
        },
    }
}

/// The name of a section that stands for a group marker, a line `[[group]]`: the loader
/// hands out what stands between the outer brackets, so the name starts with a bracket.
pub open spec fn is_group_name(name: Seq<char>) -> bool {
    name.len() > 0 && name[0] == '['
}

/// The keys of the sections, in order. A group marker is no key, and what stands right
/// under it belongs to no key; a section without entries is a key without localizations.
pub open spec fn keys_of(
    sections: Seq<(Seq<char>, Seq<(Seq<char>, Option<Seq<char>>)>)>,
) -> Seq<KeyView>
    decreases sections.len(),
{
    if sections.len() == 0 {
        Seq::empty()
    } else {
        let before = keys_of(sections.drop_last());
        let (name, raw) = sections.last();
        if is_group_name(name) {
            before
        } else {
            before.push(key_of(name, raw))
        }
    }
}

/// The catalog that the sections stand for: one section that holds all keys.
pub open spec fn file_of(
    sections: Seq<(Seq<char>, Seq<(Seq<char>, Option<Seq<char>>)>)>,
) -> FileView {
    FileView { sections: seq![SectionView { keys: keys_of(sections) }] }
}

/// The localizations hold one text each.
pub open spec fn all_single(localizations: Seq<LocalizedStringView>) -> bool {
    forall|i: int|
        0 <= i < localizations.len() ==> (#[trigger] localizations[i]).value is Single
}

/// The localizations hold plural values each, and no two have the same language.
pub open spec fn all_plural(localizations: Seq<LocalizedStringView>) -> bool {
    &&& forall|i: int|
        0 <= i < localizations.len() ==> (#[trigger] localizations[i]).value is Plural
    &&& forall|i: int, j: int|
        0 <= i < j < localizations.len() ==> (#[trigger] localizations[i]).language_code != (
        #[trigger] localizations[j]).language_code
}

proof fn lemma_single_localizations(raw: Seq<(Seq<char>, Option<Seq<char>>)>)
    ensures
        all_single(single_localizations(raw)),
    decreases raw.len(),
{
    if raw.len() > 0 {
        lemma_single_localizations(raw.drop_last());
    }
}

/// A key never mixes the two forms: its localizations hold one text each, or they hold
/// plural values each, one localization for a language.
pub proof fn lemma_key_has_one_form(name: Seq<char>, raw: Seq<(Seq<char>, Option<Seq<char>>)>)
    ensures
        is_plural_key(raw) ==> all_plural(key_of(name, raw).localizations),
        !is_plural_key(raw) ==> all_single(key_of(name, raw).localizations),
{
    lemma_single_localizations(raw);
    let entries = plural_entries(raw);
    crate::grouping::lemma_keys_distinct(entries);
    let found = plural_localizations(raw);
    assert forall|i: int, j: int| 0 <= i < j < found.len() implies (#[trigger] found[i]).language_code
        != (#[trigger] found[j]).language_code by {
        assert(found[i].language_code == crate::grouping::keys_in_order(entries)[i]);
        assert(found[j].language_code == crate::grouping::keys_in_order(entries)[j]);
    }
}

/// Builds the key `name` from entries that hold no plural: one localization for each entry
/// with a text, but for the reserved identifiers `comment` and `tags`.
pub fn key_from_locale_single_value_map(name: &str, raw_localizations: RawEntries) -> (r: Result<
    Key,
    String,
>)
    ensures
        r matches Ok(key) && key@ == (KeyView {
            name: name@,
            localizations: single_localizations(entry_views(raw_localizations@)),
        }),
{
    let mut localizations: Vec<LocalizedString> = Vec::new();
    let ghost all = entry_views(raw_localizations@);
    assert(all.take(0) =~= Seq::empty());
    let comment = to_chars("comment");
    let tags = to_chars("tags");
    for entry in it: raw_localizations
        invariant
            all == entry_views(it.seq()),
            comment@ == "comment"@,
            tags@ == "tags"@,
            localization_views(localizations@) == single_localizations(
                all.take(it.index() as int),
            ),
    {
        let (locale_name, string_value_opt) = entry;
        proof {
            let next = all.take(it.index() + 1);
            assert(next.drop_last() =~= all.take(it.index() as int));
            assert(next.last() == (locale_name@, text_view(string_value_opt)));
        }
        let id = to_chars(locale_name.as_str());
        let reserved = same_chars(&id, &comment) || same_chars(&id, &tags);
        if let Some(string_value) = string_value_opt {
            if !reserved {
                let text = match parse_localized_string_value(string_value) {
                    Ok(text) => text,
                    Err(error) => {
                        return Err(error);
                    },
                };
                let ghost before = localizations@;
                let localized = LocalizedString {
                    language_code: locale_name,
                    value: StringValue::Single(text),
                };
                localizations.push(localized);
                assert(localization_views(localizations@) =~= localization_views(before).push(
                    localized@,
                ));
            }
        }
    }
    assert(all.take(all.len() as int) =~= all);
    let key = Key { name: name.to_owned(), localizations };
    Ok(key)
}

/// Splits an identifier at its first colon into language and quantity.
fn split_identifier(id: &Vec<char>) -> (r: (String, String))
    ensures
        r.0@ == locale_of(id@),
        r.1@ == quantity_of(id@),
{
    let mut c: usize = 0;
    while c < id.len() && id[c] != ':'
        invariant
            c <= id.len(),
            colon_distance(id@, 0) == c + colon_distance(id@, c as int),
        decreases id.len() - c,
    {
        c += 1;
    }
    let locale = from_chars(&copy_range(id, 0, c));
    if c < id.len() {
        let quantity = from_chars(&copy_range(id, c + 1, id.len()));
        (locale, quantity)
    } else {
        (locale, "other".to_owned())
    }
}

/// Builds the key `name` from entries that hold plurals: one localization for each
/// language, in the order in which the languages first appear, with one plural value for
/// each entry of that language that has a text. The reserved identifiers `comment` and
/// `tags` name no language and are left out.
pub fn key_from_locale_plural_value_map(name: &str, raw_localizations: RawEntries) -> (r: Result<
    Key,
    String,
>)
    ensures
        r matches Ok(key) && key@ == (KeyView {
            name: name@,
            localizations: plural_localizations(entry_views(raw_localizations@)),
        }),
{
    let mut entries: Vec<(String, PluralValue)> = Vec::new();
    let ghost all = entry_views(raw_localizations@);
    let ghost view_of = |q: PluralValue| q@;
    let comment = to_chars("comment");
    let tags = to_chars("tags");
    assert(all.take(0) =~= Seq::empty());
    assert(map_entries(keyed(entries@), view_of) =~= plural_entries(all.take(0)));
    for entry in it: raw_localizations
        invariant
            all == entry_views(it.seq()),
            view_of == |q: PluralValue| q@,
            comment@ == "comment"@,
            tags@ == "tags"@,
            map_entries(keyed(entries@), view_of) == plural_entries(all.take(it.index() as int)),
    {
        let (locale_name_and_quantity, string_value_opt) = entry;
        proof {
            let next = all.take(it.index() + 1);
            assert(next.drop_last() =~= all.take(it.index() as int));
            assert(next.last() == (locale_name_and_quantity@, text_view(string_value_opt)));
        }
        let id = to_chars(locale_name_and_quantity.as_str());
        let reserved = same_chars(&id, &comment) || same_chars(&id, &tags);
        if let Some(string_value) = string_value_opt {
            if !reserved {
                let (locale_name, quantity) = split_identifier(&id);
                let text = match parse_localized_string_value(string_value) {
                    Ok(text) => text,
                    Err(error) => {
                        return Err(error);
                    },
                };
                let ghost before = entries@;
                let value = PluralValue { quantity, text };
                entries.push((locale_name, value));
                assert(map_entries(keyed(entries@), view_of) =~= map_entries(
                    keyed(before),
                    view_of,
                ).push((locale_name@, value@)));
            }
        }
    }
    assert(all.take(all.len() as int) =~= all);
    let ghost gathered = keyed(entries@);
    let groups = group_by_key(entries);
    proof {
        lemma_grouped_map(gathered, view_of);
    }
    let mut localizations: Vec<LocalizedString> = Vec::new();
    let ghost wanted = plural_localizations(all);
    assert(wanted.len() == groups@.len()) by {
        assert(group_views(groups@).len() == groups@.len());
        assert(map_groups(grouped(gathered), view_of).len() == grouped(gathered).len());
    }
    for group in it: groups
        invariant
            view_of == |q: PluralValue| q@,
            wanted.len() == it.seq().len(),
            forall|j: int|
                0 <= j < it.seq().len() ==> wanted[j] == plural_localization(
                    ((#[trigger] it.seq()[j]).0@, it.seq()[j].1@.map_values(view_of)),
                ),
            localizations.len() == it.index(),
            forall|j: int| 0 <= j < it.index() ==> (#[trigger] localizations[j])@ == wanted[j],
    {
        let (language_code, quantities) = group;
        let localized = LocalizedString {
            language_code,
            value: StringValue::Plural { quantities },
        };
        assert(localized@ == wanted[it.index() as int]) by {
            assert(quantities@.map_values(|q: PluralValue| q@) =~= quantities@.map_values(
                view_of,
            ));
        }
        localizations.push(localized);
    }
    assert(localization_views(localizations@) =~= wanted);
    let key = Key { name: name.to_owned(), localizations };
    Ok(key)
}

/// `name` without the suffix `_dedup`, where it ends in it.
fn strip_dedup_suffix(name: &str) -> (r: String)
    ensures
        r@ == strip_dedup(name@),
{
    let chars = to_chars(name);
    let mut suffix: Vec<char> = Vec::new();
    suffix.push('_');
    suffix.push('d');
    suffix.push('e');
    suffix.push('d');
    suffix.push('u');
    suffix.push('p');
    assert(suffix@ =~= dedup_suffix());
    if chars.len() >= 6 && matches_at(&chars, &suffix, chars.len() - 6) {
        assert(chars@.take(chars.len() - 6) =~= chars@.subrange(0, chars.len() - 6));
        from_chars(&copy_range(&chars, 0, chars.len() - 6))
    } else {
        name.to_owned()
    }
}

/// Whether one of the identifiers holds a colon.
fn holds_plural(raw: &RawEntries) -> (r: bool)
    ensures
        r == is_plural_key(entry_views(raw@)),
{
    let mut i: usize = 0;
    while i < raw.len()
        invariant
            i <= raw.len(),
            forall|j: int| 0 <= j < i ==> !(#[trigger] entry_views(raw@)[j]).0.contains(':'),
        decreases raw.len() - i,
    {
        if has_char(&to_chars(raw[i].0.as_str()), ':') {
            assert(entry_views(raw@)[i as int].0.contains(':'));
            return true;
        }
        i += 1;
    }
    false
}

/// Builds the key that the section `name` with the entries `raw_localizations` stands for.
/// The key is plural where an identifier holds a colon; a suffix `_dedup` of the name is
/// dropped.
pub fn key_from_locale_value_map(name: String, raw_localizations: RawEntries) -> (r: Result<
    Key,
    String,
>)
    ensures
        r matches Ok(key) && key@ == key_of(name@, entry_views(raw_localizations@)),
{
    let stripped_name = strip_dedup_suffix(name.as_str());
    if holds_plural(&raw_localizations) {
        key_from_locale_plural_value_map(stripped_name.as_str(), raw_localizations)
    } else {
        key_from_locale_single_value_map(stripped_name.as_str(), raw_localizations)
    }
}

/// A trimmed line opens a section: it starts with one square bracket, not with two.
pub open spec fn is_header(line: Seq<char>) -> bool {
    line.len() > 0 && line[0] == '[' && !(line.len() > 1 && line[1] == '[')
}

/// The header lines among the first `i` lines.
pub open spec fn seen_headers(lines: Seq<Seq<char>>, i: int) -> Set<Seq<char>>
    decreases i,
{
    if i <= 0 || i > lines.len() {
        Set::empty()
    } else {
        let before = seen_headers(lines, i - 1);
        if is_header(lines[i - 1]) {
            before.insert(lines[i - 1])
        } else {
            before
        }
    }
}

/// Line `i` is the same as a header above it.
pub open spec fn repeats(lines: Seq<Seq<char>>, i: int) -> bool {
    seen_headers(lines, i).contains(lines[i])
}

/// What a repeated header is renamed to: its name without brackets, the suffix `_dedup`
/// behind it, the whole in one pair of brackets.
pub open spec fn renamed(header: Seq<char>) -> Seq<char> {
    seq!['['] + stripped(header, CharClass::Bracket) + dedup_suffix().push(']')
}

/// The lines of `raw`, each trimmed.
pub open spec fn trimmed_rows(raw: Seq<Seq<char>>) -> Seq<Seq<char>> {
    raw.map_values(|l: Seq<char>| trimmed(l))
}

/// Line `i` as it is written out: a line that, trimmed, repeats an earlier header is
/// renamed; every other line stays as it is.
pub open spec fn dedup_line(raw: Seq<Seq<char>>, i: int) -> Seq<char> {
    if repeats(trimmed_rows(raw), i) {
        renamed(trimmed(raw[i]))
    } else {
        raw[i]
    }
}

/// The lines from `i` on as they are written out, with a line feed between two lines.
pub open spec fn dedup_from(raw: Seq<Seq<char>>, i: int) -> Seq<char>
    decreases raw.len() - i,
{
    if 0 <= i < raw.len() {
        dedup_line(raw, i) + (if i + 1 < raw.len() {
            seq!['\n'] + dedup_from(raw, i + 1)
        } else {
            Seq::empty()
        })
    } else {
        Seq::empty()
    }
}

/// The line feed at the very end of `text`, where it has one.
pub open spec fn last_feed(text: Seq<char>) -> Seq<char> {
    if text.len() > 0 && text.last() == '\n' {
        seq!['\n']
    } else {
        Seq::empty()
    }
}

/// The catalog text with every repeated header renamed, and nothing else changed.
pub open spec fn deduplicated(text: Seq<char>) -> Seq<char> {
    dedup_from(lines(text), 0) + last_feed(text)
}

/// The lines of `rows` from `i` on, with a line feed between two lines.
pub open spec fn joined_from(rows: Seq<Seq<char>>, i: int) -> Seq<char>
    decreases rows.len() - i,
{
    if 0 <= i < rows.len() {
        rows[i] + (if i + 1 < rows.len() {
            seq!['\n'] + joined_from(rows, i + 1)
        } else {
            Seq::empty()
        })
    } else {
        Seq::empty()
    }
}

/// Joining the lines behind the first is joining what is left without the first.
proof fn lemma_joined_tail(rows: Seq<Seq<char>>)
    requires
        rows.len() > 1,
    ensures
        joined_from(rows, 1) == joined_from(rows.skip(1), 0),
{
    lemma_joined_shift(rows, 1);
}

/// Joining from line `k` on is joining from line `k - 1` on once the first line is gone.
proof fn lemma_joined_shift(rows: Seq<Seq<char>>, k: int)
    requires
        1 <= k <= rows.len(),
    ensures
        joined_from(rows, k) == joined_from(rows.skip(1), k - 1),
    decreases rows.len() - k,
{
    if k < rows.len() {
        lemma_joined_shift(rows, k + 1);
        assert(rows.skip(1)[k - 1] == rows[k]);
    }
}

/// The lines of a text, joined by line feeds, give the text back, but for a line feed at
/// its very end.
pub proof fn lemma_lines_join(s: Seq<char>, i: int)
    requires
        0 <= i <= s.len(),
    ensures
        i < s.len() ==> joined_from(lines_from(s, i), 0) + last_feed(s) == s.subrange(
            i,
            s.len() as int,
        ),
    decreases s.len() - i,
{
    if i < s.len() {
        lemma_line_len_bound(s, i);
        let e = i + line_len(s, i);
        let rows = lines_from(s, i);
        let head = s.subrange(i, e);
        if e < s.len() {
            let rest = lines_from(s, e + 1);
            assert(rows =~= seq![head] + rest);
            if e + 1 < s.len() {
                lemma_lines_join(s, e + 1);
                assert(rest.len() > 0);
                lemma_joined_tail(rows);
                assert(rows.skip(1) =~= rest);
                assert(head + (seq!['\n'] + joined_from(rest, 0)) + last_feed(s) =~= head + seq![
                    '\n',
                ] + (joined_from(rest, 0) + last_feed(s)));
                assert(head + seq!['\n'] + s.subrange(e + 1, s.len() as int) =~= s.subrange(
                    i,
                    s.len() as int,
                ));
            } else {
                assert(rest =~= Seq::<Seq<char>>::empty());
                assert(head + Seq::<char>::empty() + seq!['\n'] =~= s.subrange(
                    i,
                    s.len() as int,
                ));
            }
        } else {
            assert(rows =~= seq![head]);
            assert(s.last() != '\n') by {
                lemma_line_has_no_feed(s, i, s.len() - 1);
            }
            assert(head + Seq::<char>::empty() + Seq::<char>::empty() =~= s.subrange(
                i,
                s.len() as int,
            ));
        }
    }
}

/// A line holds no line feed.
proof fn lemma_line_has_no_feed(s: Seq<char>, i: int, k: int)
    requires
        0 <= i <= k < i + line_len(s, i),
    ensures
        k < s.len(),
        s[k] != '\n',
    decreases s.len() - i,
{
    if i < k {
        lemma_line_has_no_feed(s, i + 1, k);
    }
}

/// Without repeated headers the lines are written out as they are.
proof fn lemma_dedup_is_join(raw: Seq<Seq<char>>, i: int)
    requires
        0 <= i,
        forall|k: int| 0 <= k < raw.len() ==> !repeats(trimmed_rows(raw), k),
    ensures
        dedup_from(raw, i) == joined_from(raw, i),
    decreases raw.len() - i,
{
    if i < raw.len() {
        lemma_dedup_is_join(raw, i + 1);
    }
}

/// A catalog in which no line repeats an earlier header is left as it is.
pub proof fn lemma_dedup_unchanged(text: Seq<char>)
    requires
        forall|k: int| 0 <= k < lines(text).len() ==> !repeats(trimmed_lines(text), k),
    ensures
        deduplicated(text) == text,
{
    assert(trimmed_rows(lines(text)) =~= trimmed_lines(text));
    lemma_dedup_is_join(lines(text), 0);
    lemma_lines_join(text, 0);
    if text.len() == 0 {
        assert(deduplicated(text) =~= text);
    } else {
        assert(text.subrange(0, text.len() as int) =~= text);
    }
}

/// A name that got the suffix `_dedup` loses it again when the key is built.
pub proof fn lemma_dedup_suffix_round_trip(name: Seq<char>)
    ensures
        strip_dedup(name + dedup_suffix()) == name,
{
    let marked = name + dedup_suffix();
    assert(marked.subrange(marked.len() - 6, marked.len() as int) =~= dedup_suffix());
    assert(marked.take(marked.len() - 6) =~= name);
}

/// Rewrites a catalog so that no two sections have the same name: a line that, trimmed, is
/// the same as an earlier header becomes `[name_dedup]`. Nothing else changes.
pub fn dedup_keys(text: &str) -> (r: String)
    ensures
        r@ == deduplicated(text@),
{
    let chars = to_chars(text);
    let lines = split_lines(&chars);
    let ghost all = rows(lines@);
    let ghost cut = trimmed_rows(all);
    let mut out: Vec<char> = Vec::new();
    let mut seen: Vec<Vec<char>> = Vec::new();
    let mut i: usize = 0;
    assert(out@ + dedup_from(all, 0) =~= dedup_from(all, 0));
    while i < lines.len()
        invariant
            i <= lines.len(),
            all == rows(lines@),
            all == crate::text::lines(text@),
            cut == trimmed_rows(all),
            dedup_from(all, 0) == out@ + dedup_from(all, i as int),
            forall|l: Seq<char>|
                rows(seen@).contains(l) <==> #[trigger] seen_headers(cut, i as int).contains(l),
        decreases lines.len() - i,
    {
        let line = strip(&lines[i], CharClass::Space);
        assert(cut[i as int] == line@);
        let found = holds_row(&seen, &line);
        let ghost before = out@;
        let ghost seen_before = rows(seen@);
        if found {
            out.push('[');
            let name = strip(&line, CharClass::Bracket);
            push_range(&mut out, &name, 0, name.len());
            assert(name@.subrange(0, name.len() as int) =~= name@);
            push_str(&mut out, "_dedup]");
            proof {
                reveal_strlit("_dedup]");
                assert("_dedup]"@ =~= dedup_suffix().push(']'));
                assert(out@ =~= before + renamed(line@));
            }
        } else {
            push_range(&mut out, &lines[i], 0, lines[i].len());
            assert(lines[i as int]@.subrange(0, lines[i as int].len() as int) =~= lines[i as int]@);
            let header = line.len() > 0 && line[0] == '[' && !(line.len() > 1 && line[1] == '[');
            if header {
                seen.push(line);
                assert(rows(seen@) =~= seen_before.push(cut[i as int]));
            }
        }
        let ghost written = out@;
        assert(written == before + dedup_line(all, i as int));
        if i + 1 < lines.len() {
            out.push('\n');
        }
        proof {
            if i + 1 < lines.len() {
                assert(out@ + dedup_from(all, i + 1) =~= before + (dedup_line(all, i as int) + (
                seq!['\n'] + dedup_from(all, i + 1))));
            } else {
                assert(out@ + dedup_from(all, i + 1) =~= before + (dedup_line(all, i as int)
                    + Seq::<char>::empty()));
            }
            assert forall|l: Seq<char>|
                rows(seen@).contains(l) <==> #[trigger] seen_headers(cut, i + 1).contains(
                    l,
                ) by {
                lemma_push_contains(seen_before, cut[i as int], l);
            }
        }
        i += 1;
    }
    assert(out@ + dedup_from(all, i as int) =~= out@);
    if chars.len() > 0 && chars[chars.len() - 1] == '\n' {
        out.push('\n');
    }
    assert(out@ =~= deduplicated(text@));
    from_chars(&out)
}

/// What a sequence holds after one more element.
proof fn lemma_push_contains(s: Seq<Seq<char>>, a: Seq<char>, x: Seq<char>)
    ensures
        s.push(a).contains(x) <==> (s.contains(x) || x == a),
{
    if s.contains(x) {
        let k = choose|k: int| 0 <= k < s.len() && s[k] == x;
        assert(s.push(a)[k] == x);
    }
    if x == a {
        assert(s.push(a)[s.len() as int] == x);
    }
}

/// Whether one of `seen` holds the characters of `line`.
fn holds_row(seen: &Vec<Vec<char>>, line: &Vec<char>) -> (r: bool)
    ensures
        r == rows(seen@).contains(line@),
{
    let mut k: usize = 0;
    while k < seen.len()
        invariant
            k <= seen.len(),
            forall|n: int| 0 <= n < k ==> rows(seen@)[n] != line@,
        decreases seen.len() - k,
    {
        if same_chars(&seen[k], line) {
            assert(rows(seen@)[k as int] == line@);
            return true;
        }
        k += 1;
    }
    false
}

/// What the catalog loader makes of a text: its sections in order, each with its entries in
/// order, or the loader's message where it gives up.
pub uninterp spec fn ini_sections(
    text: Seq<char>,
    delimiter: char,
    comment: char,
    case_sensitive: bool,
) -> Result<Seq<(Seq<char>, Seq<(Seq<char>, Option<Seq<char>>)>)>, Seq<char>>;

/// What the loader handed out: the sections, or its message.
pub open spec fn loaded_view(loaded: Result<RawSections, String>) -> Result<
    Seq<(Seq<char>, Seq<(Seq<char>, Option<Seq<char>>)>)>,
    Seq<char>,
> {
    match loaded {
        Ok(sections) => Ok(section_views(sections@)),
        Err(message) => Err(message@),
    }
}

/// The text is short enough for the loader, which numbers the lines of a text, and the end
/// behind the last line, in a 32-bit integer.
pub open spec fn loadable(text: Seq<char>) -> bool {
    text.len() + 1 < i32::MAX
}

/// `Ini::read` of configparser, on a loader that `Ini::new_from_defaults` makes from the
/// default settings with the one delimiter, the one comment symbol and the case sensitivity
/// given. With the crate's `indexmap` feature the loader's maps keep the order of the text, so
/// the sections and entries handed out, or else the error message, are the same whenever the
/// text and these settings are. Nothing more is claimed of them. The loader counts lines in
/// an `i32` and may fail on overflow; a text has no more lines than characters, so a
/// loadable text stays below that.
#[verifier::external_body]
fn read_ini(text: &str, delimiter: char, comment: char, case_sensitive: bool) -> (r: Result<
    RawSections,
    String,
>)
    requires
        loadable(text@),
    ensures
        loaded_view(r) == ini_sections(text@, delimiter, comment, case_sensitive),
{
    let mut defaults = IniDefault::default();
    defaults.case_sensitive = case_sensitive;
    defaults.delimiters = vec![delimiter];
    defaults.comment_symbols = vec![comment];
    let map = Ini::new_from_defaults(defaults).read(text.to_string())?;
    Ok(map.into_iter().map(|(name, entries)| (name, entries.into_iter().collect())).collect())
}

/// Whether `name` is the name of a group marker.
fn names_group(name: &String) -> (r: bool)
    ensures
        r == is_group_name(name@),
{
    let chars = to_chars(name.as_str());
    chars.len() > 0 && chars[0] == '['
}

/// Builds the catalog from its sections as read: one key for each section that is no group
/// marker, all in one section of the model.
pub fn file_from_sections(sections: RawSections) -> (r: Result<File, String>)
    ensures
        r matches Ok(file) && file@ == file_of(section_views(sections@)),
        r matches Ok(file) && file.sections.len() == 1,
{
    let mut keys: Vec<Key> = Vec::new();
    let ghost all = section_views(sections@);
    assert(all.take(0) =~= Seq::empty());
    for section in it: sections
        invariant
            all == section_views(it.seq()),
            key_views(keys@) == keys_of(all.take(it.index() as int)),
    {
        let (name, entries) = section;
        proof {
            let next = all.take(it.index() + 1);
            assert(next.drop_last() =~= all.take(it.index() as int));
            assert(next.last() == (name@, entry_views(entries@)));
        }
        if !names_group(&name) {
            let key = match key_from_locale_value_map(name, entries) {
                Ok(key) => key,
                Err(error) => {
                    return Err(error);
                },
            };
            let ghost before = keys@;
            keys.push(key);
            assert(key_views(keys@) =~= key_views(before).push(key@));
        }
    }
    assert(all.take(all.len() as int) =~= all);
    let mut all_sections: Vec<Section> = Vec::new();
    let section = Section { keys };
    all_sections.push(section);
    let file = File { sections: all_sections };
    assert(file@.sections =~= seq![section@]);
    Ok(file)
}

/// An entry that stays out of the model because it has no text.
#[derive(Debug, PartialEq, Eq, Clone)]
pub struct SkippedEntry {
    /// The name of the key that the entry belongs to.
    pub key: String,
    /// The entry's identifier.
    pub identifier: String,
    /// The key is plural.
    pub plural: bool,
}

/// What a `SkippedEntry` holds.
pub struct SkippedEntryView {
    pub key: Seq<char>,
    pub identifier: Seq<char>,
    pub plural: bool,
}

impl View for SkippedEntry {
    type V = SkippedEntryView;

    open spec fn view(&self) -> SkippedEntryView {
        SkippedEntryView { key: self.key@, identifier: self.identifier@, plural: self.plural }
    }
}

/// What the notes hold.
pub open spec fn skipped_views(v: Seq<SkippedEntry>) -> Seq<SkippedEntryView> {
    v.map_values(|e: SkippedEntry| e@)
}

/// The note on a skipped entry, in words.
pub open spec fn skipped_message(entry: SkippedEntryView) -> Seq<char> {
    if entry.plural {
        "skipped key \""@ + entry.identifier + "\" for \""@ + entry.key
            + "\" because it's empty"@
    } else {
        "skipped key \""@ + entry.identifier + "\" because it's empty"@
    }
}

impl SkippedEntry {
    /// The note in words.
    pub fn message(&self) -> (r: String)
        ensures
            r@ == skipped_message(self@),
    {
        let mut out: Vec<char> = Vec::new();
        push_str(&mut out, "skipped key \"");
        push_str(&mut out, self.identifier.as_str());
        if self.plural {
            push_str(&mut out, "\" for \"");
            push_str(&mut out, self.key.as_str());
        }
        push_str(&mut out, "\" because it's empty");
        assert(out@ =~= skipped_message(self@));
        from_chars(&out)
    }
}

/// The entries of the first `n` entries of a key that stay out of the model for want of a
/// text, in order. The reserved identifiers are no such entries.
pub open spec fn skipped_in_key(
    name: Seq<char>,
    raw: Seq<(Seq<char>, Option<Seq<char>>)>,
    n: int,
) -> Seq<SkippedEntryView>
    decreases n,
{
    if n <= 0 || n > raw.len() {
        Seq::empty()
    } else {
        let before = skipped_in_key(name, raw, n - 1);
        let (id, text) = raw[n - 1];
        let plural = is_plural_key(raw);
        if text is None && !is_reserved(id) {
            before.push(SkippedEntryView { key: strip_dedup(name), identifier: id, plural })
        } else {
            before
        }
    }
}

/// The entries of all keys that stay out of the model for want of a text, in order.
pub open spec fn skipped_of(
    sections: Seq<(Seq<char>, Seq<(Seq<char>, Option<Seq<char>>)>)>,
) -> Seq<SkippedEntryView>
    decreases sections.len(),
{
    if sections.len() == 0 {
        Seq::empty()
    } else {
        let (name, raw) = sections.last();
        skipped_of(sections.drop_last()) + (if is_group_name(name) {
            Seq::empty()
        } else {
            skipped_in_key(name, raw, raw.len() as int)
        })
    }
}

/// The entries of the sections that stay out of the model because they have no text.
pub fn skipped_entries(sections: &RawSections) -> (r: Vec<SkippedEntry>)
    ensures
        skipped_views(r@) == skipped_of(section_views(sections@)),
{
    let ghost all = section_views(sections@);
    let mut out: Vec<SkippedEntry> = Vec::new();
    let comment = to_chars("comment");
    let tags = to_chars("tags");
    let mut k: usize = 0;
    assert(all.take(0) =~= Seq::empty());
    assert(skipped_views(out@) =~= skipped_of(all.take(0)));
    while k < sections.len()
        invariant
            k <= sections.len(),
            all == section_views(sections@),
            comment@ == "comment"@,
            tags@ == "tags"@,
            skipped_views(out@) == skipped_of(all.take(k as int)),
        decreases sections.len() - k,
    {
        let name = &sections[k].0;
        let raw = &sections[k].1;
        let ghost views = entry_views(raw@);
        let ghost before = skipped_views(out@);
        if names_group(name) {
            assert(before + Seq::<SkippedEntryView>::empty() =~= before);
        } else {
            let plural = holds_plural(raw);
            let key = strip_dedup_suffix(name.as_str());
            let mut j: usize = 0;
            assert(before + skipped_in_key(name@, views, 0) =~= before);
            while j < raw.len()
                invariant
                    j <= raw.len(),
                    views == entry_views(raw@),
                    comment@ == "comment"@,
                    tags@ == "tags"@,
                    plural == is_plural_key(views),
                    key@ == strip_dedup(name@),
                    skipped_views(out@) == before + skipped_in_key(name@, views, j as int),
                decreases raw.len() - j,
            {
                let id = to_chars(raw[j].0.as_str());
                let reserved = same_chars(&id, &comment) || same_chars(&id, &tags);
                assert(views[j as int] == (raw[j as int].0@, text_view(raw[j as int].1)));
                if raw[j].1.is_none() && !reserved {
                    let ghost at = skipped_views(out@);
                    let entry = SkippedEntry {
                        key: key.clone(),
                        identifier: raw[j].0.clone(),
                        plural,
                    };
                    out.push(entry);
                    assert(skipped_views(out@) =~= at.push(entry@));
                    assert(before + skipped_in_key(name@, views, j + 1) =~= (before
                        + skipped_in_key(name@, views, j as int)).push(entry@));
                }
                j += 1;
            }
        }
        proof {
            let next = all.take(k + 1);
            assert(next.drop_last() =~= all.take(k as int));
            assert(next.last() == (name@, views));
        }
        k += 1;
    }
    assert(all.take(sections.len() as int) =~= all);
    out
}

/// Whether the text of a catalog, once its repeated headers are told apart, is short enough
/// for the loader.
pub fn fits_loader(text: &str) -> (r: bool)
    ensures
        r == loadable(deduplicated(text@)),
{
    let deduplicated = dedup_keys(text);
    to_chars(deduplicated.as_str()).len() < 2147483646usize
}

/// Splits the text of a catalog into its sections and entries: repeated headers are told
/// apart first, then the loader reads the text. Fails with the loader's message where the
/// loader gives up. The text must be short enough for the loader.
pub fn load_sections(text: &str) -> (r: Result<RawSections, String>)
    requires
        loadable(deduplicated(text@)),
    ensures
        loaded_view(r) == ini_sections(deduplicated(text@), '=', '#', true),
{
    let deduplicated = dedup_keys(text);
    read_ini(deduplicated.as_str(), '=', '#', true)
}

/// Parses the text of a catalog, and notes the entries that stay out of the model because
/// they have no text. Fails with the loader's message where the loader gives up. The text
/// must be short enough for the loader.
pub fn parse_with_skipped(text: &str) -> (r: Result<(File, Vec<SkippedEntry>), String>)
    requires
        loadable(deduplicated(text@)),
    ensures
        match ini_sections(deduplicated(text@), '=', '#', true) {
            Ok(sections) => r matches Ok(parsed) && parsed.0@ == file_of(sections)
                && skipped_views(parsed.1@) == skipped_of(sections),
            Err(message) => r matches Err(error) && error@ == message,
        },
        r matches Ok(parsed) ==> parsed.0.sections.len() == 1,
{
    match load_sections(text) {
        Ok(sections) => {
            let skipped = skipped_entries(&sections);
            match file_from_sections(sections) {
                Ok(file) => Ok((file, skipped)),
                Err(error) => Err(error),
            }
        },
        Err(message) => Err(message),
    }
}

/// Parses the text of a catalog. Repeated headers are told apart first, then the loader
/// splits the text into sections and entries, and each section that is no group marker
/// becomes a key. Fails with the loader's message where the loader gives up. The text must be
/// short enough for the loader.
pub fn parse(text: &str) -> (r: Result<File, String>)
    requires
        loadable(deduplicated(text@)),
    ensures
        match ini_sections(deduplicated(text@), '=', '#', true) {
            Ok(sections) => r matches Ok(file) && file@ == file_of(sections),
            Err(message) => r matches Err(error) && error@ == message,
        },
        r matches Ok(file) ==> file.sections.len() == 1,
{
    match load_sections(text) {
        Ok(sections) => file_from_sections(sections),
        Err(message) => Err(message),
    }
}

/// Parses the text of a catalog where it is short enough for the loader, and gives `None`
/// where it is not.
pub fn parse_checked(text: &str) -> (r: Option<Result<File, String>>)
    ensures
        r is Some <==> loadable(deduplicated(text@)),
        r matches Some(parsed) ==> (match ini_sections(deduplicated(text@), '=', '#', true) {
            Ok(sections) => parsed matches Ok(file) && file@ == file_of(sections)
                && file.sections.len() == 1,
            Err(message) => parsed matches Err(error) && error@ == message,
        }),
{
    if fits_loader(text) {
        Some(parse(text))
    } else {
        None
    }
}

/// Parses the text of a catalog and notes the entries without a text where the text is
/// short enough for the loader, and gives `None` where it is not.
pub fn parse_with_skipped_checked(text: &str) -> (r: Option<
    Result<(File, Vec<SkippedEntry>), String>,
>)
    ensures
        r is Some <==> loadable(deduplicated(text@)),
        r matches Some(parsed) ==> (match ini_sections(deduplicated(text@), '=', '#', true) {
            Ok(sections) => parsed matches Ok(found) && found.0@ == file_of(sections)
                && found.0.sections.len() == 1 && skipped_views(found.1@) == skipped_of(
                sections,
            ),
            Err(message) => parsed matches Err(error) && error@ == message,
        }),
{
    if fits_loader(text) {
        Some(parse_with_skipped(text))
    } else {
        None
    }
}

} // verus!
