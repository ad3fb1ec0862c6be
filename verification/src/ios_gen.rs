//! The iOS emitter: merges the strings of several catalogs by language, fills what a
//! language lacks from the default language, and renders each language's strings as a
//! `.strings` file and a `.stringsdict` file.

use vstd::prelude::*;
use crate::grouping::{
    grouped, keys_in_order, lemma_keys_distinct, lemma_values_concat, values_of,
};
use crate::lines::{
    all_lines, group_by_locale, line_entries, line_groups, named_view, push_key_lines, LineView,
    NamedValue, OutputFile, OutputFileView,
};
use crate::parse::{File, FileView, PluralValue, PluralValueView, StringValue, StringValueView};
use crate::text::{from_chars, push_str};

verus! {

/// A language of the catalogs.
#[derive(PartialEq, Eq, Hash, Debug, PartialOrd, Ord, Clone)]
pub struct Locale {
    pub value: String,
}

/// The strings of one language, in order.
#[derive(PartialEq, Eq, Debug, PartialOrd, Ord, Clone)]
pub struct StrLines {
    pub value: Vec<Line>,
}

/// One string of one language: the resource's name and its text. Two lines are equal
/// where their names are.
#[derive(Eq, Debug, PartialOrd, Ord, Clone)]
pub struct Line {
    pub name: String,
    pub value: StringValue,
}

impl PartialEq for Line {
    fn eq(&self, other: &Self) -> (r: bool) {
        self.name == other.name
    }
}

impl vstd::std_specs::cmp::PartialEqSpecImpl for Line {
    open spec fn obeys_eq_spec() -> bool {
        true
    }

    open spec fn eq_spec(&self, other: &Self) -> bool {
        self.name@ == other.name@
    }
}

/// What the emitter makes of the catalogs: for each language its strings. No language
/// stands twice.
pub struct GenResult {
    pub value: Vec<(Locale, StrLines)>,
}

/// Why the catalogs cannot be emitted.
#[derive(Debug, PartialEq, Eq, Clone, Copy)]
pub enum GenError {
    /// There is no catalog at all.
    NoSource,
    /// One of the catalogs has no section.
    NoSection,
}

impl View for Line {
    type V = LineView;

    open spec fn view(&self) -> LineView {
        LineView { name: self.name@, value: self.value@ }
    }
}

impl View for StrLines {
    type V = Seq<LineView>;

    open spec fn view(&self) -> Seq<LineView> {
        self.value@.map_values(|l: Line| l@)
    }
}

impl Default for StrLines {
    /// No strings.
    fn default() -> (r: Self)
        ensures
            r@ == Seq::<LineView>::empty(),
    {
        let r = StrLines { value: Vec::new() };
        assert(r@ =~= Seq::<LineView>::empty());
        r
    }
}

impl View for GenResult {
    type V = Seq<(Seq<char>, Seq<LineView>)>;

    open spec fn view(&self) -> Seq<(Seq<char>, Seq<LineView>)> {
        self.value@.map_values(|e: (Locale, StrLines)| (e.0.value@, e.1@))
    }
}

impl GenError {
    /// The error in words.
    pub fn message(&self) -> (r: String)
        ensures
            r@ == (match self {
                GenError::NoSource => "Expected at least one successfuly generated file"@,
                GenError::NoSection => "Expected at least one section"@,
            }),
    {
        match self {
            GenError::NoSource => "Expected at least one successfuly generated file".to_owned(),
            GenError::NoSection => "Expected at least one section".to_owned(),
        }
    }
}

/// The languages of `groups`, in order.
pub open spec fn locales_of(groups: Seq<(Seq<char>, Seq<LineView>)>) -> Seq<Seq<char>> {
    groups.map_values(|e: (Seq<char>, Seq<LineView>)| e.0)
}

impl GenResult {
    /// No language stands twice.
    pub open spec fn wf(&self) -> bool {
        locales_of(self@).no_duplicates()
    }
}

/// The strings of one catalog in order, each with its language.
pub open spec fn file_lines(file: FileView) -> Seq<(Seq<char>, LineView)> {
    if file.sections.len() > 0 {
        all_lines(file.sections[0].keys)
    } else {
        Seq::empty()
    }
}

/// The strings of all catalogs, catalog after catalog, each with its language.
pub open spec fn all_file_lines(files: Seq<FileView>) -> Seq<(Seq<char>, LineView)>
    decreases files.len(),
{
    if files.len() == 0 {
        Seq::empty()
    } else {
        all_file_lines(files.drop_last()) + file_lines(files.last())
    }
}

/// The strings of all catalogs by language: the languages in the order in which they first
/// appear, each with its strings from the first catalog, then those from the second, and
/// so on.
pub open spec fn merged_lines(files: Seq<FileView>) -> Seq<(Seq<char>, Seq<LineView>)> {
    grouped(all_file_lines(files))
}

/// The strings of a language in the catalogs with one more catalog behind them are its
/// strings in the catalogs, followed by its strings in that catalog.
pub proof fn lemma_merge_appends(files: Seq<FileView>, file: FileView, locale: Seq<char>)
    ensures
        values_of(all_file_lines(files.push(file)), locale) == values_of(
            all_file_lines(files),
            locale,
        ) + values_of(file_lines(file), locale),
{
    assert(files.push(file).drop_last() =~= files);
    lemma_values_concat(all_file_lines(files), file_lines(file), locale);
}

/// One of `lines` has the name `name`.
pub open spec fn has_name(lines: Seq<LineView>, name: Seq<char>) -> bool {
    exists|j: int| 0 <= j < lines.len() && (#[trigger] lines[j]).name == name
}

/// The strings of `defaults` whose name `own` lacks, in order; of several with one name,
/// the first.
pub open spec fn missing_lines(defaults: Seq<LineView>, own: Seq<LineView>) -> Seq<LineView>
    decreases defaults.len(),
{
    if defaults.len() == 0 {
        Seq::empty()
    } else {
        let before = missing_lines(defaults.drop_last(), own);
        let line = defaults.last();
        if has_name(own, line.name) || has_name(before, line.name) {
            before
        } else {
            before.push(line)
        }
    }
}

/// The strings of the language `locale` in `groups`, if it is among them.
pub open spec fn lines_of(groups: Seq<(Seq<char>, Seq<LineView>)>, locale: Seq<char>) -> Option<
    Seq<LineView>,
>
    decreases groups.len(),
{
    if groups.len() == 0 {
        None
    } else if groups.last().0 == locale {
        Some(groups.last().1)
    } else {
        lines_of(groups.drop_last(), locale)
    }
}

/// One language's strings after filling: the default language keeps its strings, every
/// other gets the strings of `defaults` that it lacks appended.
pub open spec fn fill_group(
    group: (Seq<char>, Seq<LineView>),
    lang: Seq<char>,
    defaults: Seq<LineView>,
) -> (Seq<char>, Seq<LineView>) {
    if group.0 == lang {
        group
    } else {
        (group.0, group.1 + missing_lines(defaults, group.1))
    }
}

/// `groups` after filling from the default language. Without a default language, or where
/// no string has it, nothing changes.
pub open spec fn fill_absent(groups: Seq<(Seq<char>, Seq<LineView>)>, default: Option<Seq<char>>)
    -> Seq<(Seq<char>, Seq<LineView>)> {
    match default {
        None => groups,
        Some(lang) => match lines_of(groups, lang) {
            None => groups,
            Some(defaults) => groups.map_values(
                |g: (Seq<char>, Seq<LineView>)| fill_group(g, lang, defaults),
            ),
        },
    }
}

/// The characters of the default language, where one is given.
pub open spec fn lang_view(lang: Option<String>) -> Option<Seq<char>> {
    match lang {
        Some(l) => Some(l@),
        None => None,
    }
}

/// Every name of `defaults` is in `own` or among the missing lines, and the missing lines
/// have no name of `own`.
pub proof fn lemma_missing_names(defaults: Seq<LineView>, own: Seq<LineView>, name: Seq<char>)
    ensures
        has_name(defaults, name) ==> has_name(own, name) || has_name(
            missing_lines(defaults, own),
            name,
        ),
        has_name(missing_lines(defaults, own), name) ==> !has_name(own, name),
    decreases defaults.len(),
{
    if defaults.len() > 0 {
        let front = defaults.drop_last();
        let before = missing_lines(front, own);
        let line = defaults.last();
        let now = missing_lines(defaults, own);
        lemma_missing_names(front, own, name);
        if has_name(defaults, name) {
            let j = choose|j: int| 0 <= j < defaults.len() && (#[trigger] defaults[j]).name == name;
            if j < front.len() {
                assert(front[j].name == name);
            }
            if has_name(before, name) {
                let w = choose|w: int| 0 <= w < before.len() && (#[trigger] before[w]).name == name;
                if now.len() > before.len() {
                    assert(now[w] == before[w]);
                }
                assert(now[w].name == name);
            } else if !has_name(own, name) {
                assert(line.name == name);
                assert(now[before.len() as int] == line);
            }
        }
        if has_name(now, name) {
            let w = choose|w: int| 0 <= w < now.len() && (#[trigger] now[w]).name == name;
            if w < before.len() {
                assert(before[w].name == name);
            }
        }
    }
}

/// Where `own` has every name of `defaults`, nothing is missing.
pub proof fn lemma_missing_none(defaults: Seq<LineView>, own: Seq<LineView>)
    requires
        forall|j: int| 0 <= j < defaults.len() ==> has_name(own, (#[trigger] defaults[j]).name),
    ensures
        missing_lines(defaults, own).len() == 0,
    decreases defaults.len(),
{
    if defaults.len() > 0 {
        let front = defaults.drop_last();
        assert forall|j: int| 0 <= j < front.len() implies has_name(
            own,
            (#[trigger] front[j]).name,
        ) by {
            assert(front[j] == defaults[j]);
        }
        lemma_missing_none(front, own);
        assert(has_name(own, defaults[defaults.len() - 1].name));
    }
}

/// A name is in two lists together where it is in one of them.
proof fn lemma_has_name_concat(a: Seq<LineView>, b: Seq<LineView>, name: Seq<char>)
    ensures
        has_name(a + b, name) <==> has_name(a, name) || has_name(b, name),
{
    if has_name(a, name) {
        let j = choose|j: int| 0 <= j < a.len() && (#[trigger] a[j]).name == name;
        assert((a + b)[j].name == name);
    }
    if has_name(b, name) {
        let j = choose|j: int| 0 <= j < b.len() && (#[trigger] b[j]).name == name;
        assert((a + b)[a.len() + j].name == name);
    }
    if has_name(a + b, name) {
        let j = choose|j: int| 0 <= j < (a + b).len() && (#[trigger] (a + b)[j]).name == name;
        if j < a.len() {
            assert(a[j].name == name);
        } else {
            assert(b[j - a.len()].name == name);
        }
    }
}

/// Filling leaves the strings of the default language as they are.
proof fn lemma_lines_of_filled(
    groups: Seq<(Seq<char>, Seq<LineView>)>,
    lang: Seq<char>,
    defaults: Seq<LineView>,
)
    ensures
        lines_of(
            groups.map_values(|g: (Seq<char>, Seq<LineView>)| fill_group(g, lang, defaults)),
            lang,
        ) == lines_of(groups, lang),
    decreases groups.len(),
{
    let f = |g: (Seq<char>, Seq<LineView>)| fill_group(g, lang, defaults);
    if groups.len() > 0 {
        assert(groups.map_values(f).drop_last() =~= groups.drop_last().map_values(f));
        lemma_lines_of_filled(groups.drop_last(), lang, defaults);
    }
}

/// Filling changes no language and adds none.
pub proof fn lemma_fill_keeps_locales(
    groups: Seq<(Seq<char>, Seq<LineView>)>,
    default: Option<Seq<char>>,
)
    ensures
        locales_of(fill_absent(groups, default)) == locales_of(groups),
{
    assert(locales_of(fill_absent(groups, default)) =~= locales_of(groups));
}

/// Filling a second time changes nothing: after the first time no language lacks a name of
/// the default language.
pub proof fn lemma_fill_idempotent(
    groups: Seq<(Seq<char>, Seq<LineView>)>,
    default: Option<Seq<char>>,
)
    ensures
        fill_absent(fill_absent(groups, default), default) == fill_absent(groups, default),
{
    if let Some(lang) = default {
        if let Some(defaults) = lines_of(groups, lang) {
            let f = |g: (Seq<char>, Seq<LineView>)| fill_group(g, lang, defaults);
            let once = groups.map_values(f);
            lemma_lines_of_filled(groups, lang, defaults);
            let twice = once.map_values(f);
            assert forall|i: int| 0 <= i < once.len() implies twice[i] == once[i] by {
                let g = groups[i];
                if g.0 != lang {
                    let added = missing_lines(defaults, g.1);
                    assert forall|j: int| 0 <= j < defaults.len() implies has_name(
                        g.1 + added,
                        (#[trigger] defaults[j]).name,
                    ) by {
                        lemma_missing_names(defaults, g.1, defaults[j].name);
                        lemma_has_name_concat(g.1, added, defaults[j].name);
                    }
                    lemma_missing_none(defaults, g.1 + added);
                    assert(missing_lines(defaults, g.1 + added) =~= Seq::<LineView>::empty());
                    assert((g.1 + added) + Seq::<LineView>::empty() =~= g.1 + added);
                }
            }
            assert(twice =~= once);
        }
    }
}

/// Whether one of `lines` has the name `name`.
fn holds_name(lines: &Vec<Line>, name: &String) -> (r: bool)
    ensures
        r == has_name(lines@.map_values(|l: Line| l@), name@),
{
    let ghost views = lines@.map_values(|l: Line| l@);
    let mut j: usize = 0;
    while j < lines.len()
        invariant
            j <= lines.len(),
            views == lines@.map_values(|l: Line| l@),
            forall|n: int| 0 <= n < j ==> (#[trigger] views[n]).name != name@,
        decreases lines.len() - j,
    {
        if lines[j].name == *name {
            assert(views[j as int].name == name@);
            return true;
        }
        j += 1;
    }
    false
}

/// Appends to `own` the strings of `defaults` whose name it lacks.
fn append_missing(own: &mut Vec<Line>, defaults: &Vec<Line>)
    ensures
        final(own)@.map_values(|l: Line| l@) == old(own)@.map_values(|l: Line| l@)
            + missing_lines(
            defaults@.map_values(|l: Line| l@),
            old(own)@.map_values(|l: Line| l@),
        ),
{
    let ghost start = own@.map_values(|l: Line| l@);
    let ghost wanted = defaults@.map_values(|l: Line| l@);
    let mut i: usize = 0;
    assert(wanted.take(0) =~= Seq::empty());
    assert(own@.map_values(|l: Line| l@) =~= start + missing_lines(wanted.take(0), start));
    while i < defaults.len()
        invariant
            i <= defaults.len(),
            wanted == defaults@.map_values(|l: Line| l@),
            own@.map_values(|l: Line| l@) == start + missing_lines(wanted.take(i as int), start),
        decreases defaults.len() - i,
    {
        let ghost before = missing_lines(wanted.take(i as int), start);
        let ghost at = own@.map_values(|l: Line| l@);
        proof {
            let next = wanted.take(i + 1);
            assert(next.drop_last() =~= wanted.take(i as int));
            assert(next.last() == wanted[i as int]);
            lemma_has_name_concat(start, before, wanted[i as int].name);
        }
        if !holds_name(own, &defaults[i].name) {
            let copy = Line {
                name: defaults[i].name.clone(),
                value: defaults[i].value.duplicate(),
            };
            own.push(copy);
            assert(own@.map_values(|l: Line| l@) =~= at.push(wanted[i as int]));
            assert(at.push(wanted[i as int]) =~= start + before.push(wanted[i as int]));
        }
        i += 1;
    }
    assert(wanted.take(defaults.len() as int) =~= wanted);
}

/// The place of the language `lang` in `value`, if it is among them.
fn find_locale(value: &Vec<(Locale, StrLines)>, lang: &String) -> (r: Option<usize>)
    ensures
        match r {
            Some(i) => i < value.len() && lines_of(
                value@.map_values(|e: (Locale, StrLines)| (e.0.value@, e.1@)),
                lang@,
            ) == Some(value[i as int].1@),
            None => lines_of(
                value@.map_values(|e: (Locale, StrLines)| (e.0.value@, e.1@)),
                lang@,
            ) is None,
        },
{
    let ghost views = value@.map_values(|e: (Locale, StrLines)| (e.0.value@, e.1@));
    let mut found: Option<usize> = None;
    let mut i: usize = 0;
    assert(views.take(0) =~= Seq::empty());
    while i < value.len()
        invariant
            i <= value.len(),
            views == value@.map_values(|e: (Locale, StrLines)| (e.0.value@, e.1@)),
            match found {
                Some(k) => k < i && lines_of(views.take(i as int), lang@) == Some(
                    value[k as int].1@,
                ),
                None => lines_of(views.take(i as int), lang@) is None,
            },
        decreases value.len() - i,
    {
        proof {
            let next = views.take(i + 1);
            assert(next.drop_last() =~= views.take(i as int));
            assert(next.last() == views[i as int]);
        }
        if value[i].0.value == *lang {
            found = Some(i);
        }
        i += 1;
    }
    assert(views.take(value.len() as int) =~= views);
    found
}

/// A copy of the strings.
fn copy_lines(lines: &Vec<Line>) -> (r: Vec<Line>)
    ensures
        r@.map_values(|l: Line| l@) == lines@.map_values(|l: Line| l@),
{
    let mut out: Vec<Line> = Vec::new();
    let mut i: usize = 0;
    while i < lines.len()
        invariant
            i <= lines.len(),
            out.len() == i,
            forall|j: int| 0 <= j < i ==> (#[trigger] out[j])@ == lines[j]@,
        decreases lines.len() - i,
    {
        out.push(Line { name: lines[i].name.clone(), value: lines[i].value.duplicate() });
        i += 1;
    }
    assert(out@.map_values(|l: Line| l@) =~= lines@.map_values(|l: Line| l@));
    out
}

/// Fills every language but the default one with the strings of the default language
/// whose names it lacks, appended in the default language's order. Without a default
/// language, or where no string has it, nothing changes.
pub fn fill_absent_translations(map: &mut GenResult, default_lang: &Option<String>)
    ensures
        final(map)@ == fill_absent(old(map)@, lang_view(*default_lang)),
        old(map).wf() ==> final(map).wf(),
{
    proof {
        lemma_fill_keeps_locales(map@, lang_view(*default_lang));
    }
    let lang = match default_lang {
        Some(lang) => lang,
        None => {
            return ;
        },
    };
    let at = match find_locale(&map.value, lang) {
        Some(at) => at,
        None => {
            return ;
        },
    };
    let defaults = copy_lines(&map.value[at].1.value);
    let ghost start = map@;
    let ghost wanted = fill_absent(start, Some(lang@));
    let ghost default_views = defaults@.map_values(|l: Line| l@);
    let mut i: usize = 0;
    while i < map.value.len()
        invariant
            i <= map.value.len(),
            map.value.len() == start.len(),
            wanted.len() == start.len(),
            lines_of(start, lang@) == Some(default_views),
            default_views == defaults@.map_values(|l: Line| l@),
            wanted == start.map_values(
                |g: (Seq<char>, Seq<LineView>)| fill_group(g, lang@, default_views),
            ),
            forall|j: int| 0 <= j < i ==> (#[trigger] map@[j]) == wanted[j],
            forall|j: int| i <= j < start.len() ==> (#[trigger] map@[j]) == start[j],
        decreases map.value.len() - i,
    {
        let ghost before = map@;
        let ghost entries = map.value@;
        assert(before[i as int] == start[i as int]);
        assert(before[i as int] == (entries[i as int].0.value@, entries[i as int].1@));
        if map.value[i].0.value != *lang {
            append_missing(&mut map.value[i].1.value, &defaults);
            assert(map.value@[i as int].0 == entries[i as int].0);
            assert(map.value@[i as int].1@ == before[i as int].1 + missing_lines(
                default_views,
                before[i as int].1,
            ));
            assert(forall|j: int|
                0 <= j < entries.len() && j != i ==> map.value@[j] == entries[j]);
        }
        proof {
            assert(map@[i as int] == (map.value@[i as int].0.value@, map.value@[i as int].1@));
            assert(wanted[i as int] == fill_group(start[i as int], lang@, default_views));
            assert(map@[i as int] == wanted[i as int]);
            assert forall|j: int| 0 <= j < i + 1 implies (#[trigger] map@[j]) == wanted[j] by {
                if j < i {
                    assert(map@[j] == before[j]);
                }
            }
            assert forall|j: int| i + 1 <= j < start.len() implies (#[trigger] map@[j])
                == start[j] by {
                assert(map@[j] == before[j]);
            }
        }
        i += 1;
    }
    assert(map@ =~= wanted);
}

/// The line of a single string in a `.strings` file: `"NAME" = "VALUE";`.
pub open spec fn str_value(name: Seq<char>, value: Seq<char>) -> Seq<char> {
    "\""@ + name + "\" = \""@ + value + "\";"@
}

/// The rows of the quantities of a plural string: a key row and a string row for each.
pub open spec fn quantity_rows(items: Seq<PluralValueView>) -> Seq<Seq<char>>
    decreases items.len(),
{
    if items.len() == 0 {
        Seq::empty()
    } else {
        quantity_rows(items.drop_last()) + seq![
            "        <key>"@ + items.last().quantity + "</key>"@,
            "        <string>"@ + items.last().text + "</string>"@,
        ]
    }
}

/// The rows of a plural string in a `.stringsdict` file: its name as key, and a dictionary
/// that gives the format key, the rule type, the value type and the text of each quantity.
pub open spec fn plural_value(name: Seq<char>, items: Seq<PluralValueView>) -> Seq<Seq<char>> {
    seq![
        "    <key>"@ + name + "</key>"@,
        "    <dict>"@,
        "      <key>NSStringLocalizedFormatKey</key>"@,
        "      <string>%#@value@</string>"@,
        "      <key>value</key>"@,
        "      <dict>"@,
        "        <key>NSStringFormatSpecTypeKey</key>"@,
        "        <string>NSStringPluralRuleType</string>"@,
        "        <key>NSStringFormatValueTypeKey</key>"@,
        "        <string>d</string>"@,
    ] + quantity_rows(items) + seq!["      </dict>"@, "    </dict>"@]
}

/// `rows`, each closed by a line feed.
pub open spec fn joined(rows: Seq<Seq<char>>) -> Seq<char>
    decreases rows.len(),
{
    if rows.len() == 0 {
        Seq::empty()
    } else {
        joined(rows.drop_last()) + rows.last() + "\n"@
    }
}

/// The text of the `.strings` file: the line of every single string, each closed by a line
/// feed.
pub open spec fn strings_text(lines: Seq<LineView>) -> Seq<char>
    decreases lines.len(),
{
    if lines.len() == 0 {
        Seq::empty()
    } else {
        strings_text(lines.drop_last()) + (match lines.last().value {
            StringValueView::Single(text) => str_value(lines.last().name, text) + "\n"@,
            StringValueView::Plural { quantities } => Seq::empty(),
        })
    }
}

/// The rows of all plural strings, each closed by a line feed.
pub open spec fn plural_text(lines: Seq<LineView>) -> Seq<char>
    decreases lines.len(),
{
    if lines.len() == 0 {
        Seq::empty()
    } else {
        plural_text(lines.drop_last()) + (match lines.last().value {
            StringValueView::Single(text) => Seq::empty(),
            StringValueView::Plural { quantities } => joined(
                plural_value(lines.last().name, quantities),
            ),
        })
    }
}

/// The text of the `.stringsdict` file: a property list whose dictionary holds the rows of
/// every plural string.
pub open spec fn stringsdict_text(lines: Seq<LineView>) -> Seq<char> {
    "<?xml version=\"1.0\" encoding=\"UTF-8\"?>\n"@
        + "<!DOCTYPE plist PUBLIC \"-//Apple//DTD PLIST 1.0//EN\" \"http://www.apple.com/DTDs/PropertyList-1.0.dtd\">\n"@
        + "<plist version=\"1.0\">\n"@ + "  <dict>\n"@ + plural_text(lines) + "  </dict>\n"@
        + "</plist>\n"@
}

/// The `.strings` file of one language: `<language>.lproj/<file_name>.strings`.
pub open spec fn strings_file(entry: (Seq<char>, Seq<LineView>), file_name: Seq<char>)
    -> OutputFileView {
    OutputFileView {
        directory: entry.0 + ".lproj"@,
        name: file_name + ".strings"@,
        content: strings_text(entry.1),
    }
}

/// The `.stringsdict` file of one language: `<language>.lproj/<file_name>.stringsdict`.
pub open spec fn stringsdict_file(entry: (Seq<char>, Seq<LineView>), file_name: Seq<char>)
    -> OutputFileView {
    OutputFileView {
        directory: entry.0 + ".lproj"@,
        name: file_name + ".stringsdict"@,
        content: stringsdict_text(entry.1),
    }
}

/// The characters of each string.
pub open spec fn string_views(v: Seq<String>) -> Seq<Seq<char>> {
    v.map_values(|s: String| s@)
}

/// Every language code is supported.
pub fn locale_code_supported_in_ios(code: &str) -> (r: bool)
    ensures
        r,
{
    true
}

/// The line `"NAME" = "VALUE";` of a `.strings` file.
pub fn generate_str_value(str_name: &str, str_value: &str) -> (r: String)
    ensures
        r@ == self::str_value(str_name@, str_value@),
{
    let mut out: Vec<char> = Vec::new();
    push_str(&mut out, "\"");
    push_str(&mut out, str_name);
    push_str(&mut out, "\" = \"");
    push_str(&mut out, str_value);
    push_str(&mut out, "\";");
    assert(out@ =~= self::str_value(str_name@, str_value@));
    from_chars(&out)
}

/// `text` with `suffix` behind it.
fn suffixed(text: &str, suffix: &str) -> (r: String)
    ensures
        r@ == text@ + suffix@,
{
    let mut out: Vec<char> = Vec::new();
    push_str(&mut out, text);
    push_str(&mut out, suffix);
    from_chars(&out)
}

/// `text` between `open` and `close`.
fn tagged_row(open: &str, text: &str, close: &str) -> (r: String)
    ensures
        r@ == open@ + text@ + close@,
{
    let mut out: Vec<char> = Vec::new();
    push_str(&mut out, open);
    push_str(&mut out, text);
    push_str(&mut out, close);
    assert(out@ =~= open@ + text@ + close@);
    from_chars(&out)
}

/// The rows of a plural string in a `.stringsdict` file.
pub fn generate_plural_value(str_name: &String, items: &Vec<PluralValue>) -> (r: Vec<String>)
    ensures
        string_views(r@) == plural_value(str_name@, items@.map_values(|q: PluralValue| q@)),
{
    let ghost views = items@.map_values(|q: PluralValue| q@);
    let mut result: Vec<String> = Vec::new();
    result.push(tagged_row("    <key>", str_name.as_str(), "</key>"));
    result.push("    <dict>".to_owned());
    result.push("      <key>NSStringLocalizedFormatKey</key>".to_owned());
    result.push("      <string>%#@value@</string>".to_owned());
    result.push("      <key>value</key>".to_owned());
    result.push("      <dict>".to_owned());
    result.push("        <key>NSStringFormatSpecTypeKey</key>".to_owned());
    result.push("        <string>NSStringPluralRuleType</string>".to_owned());
    result.push("        <key>NSStringFormatValueTypeKey</key>".to_owned());
    result.push("        <string>d</string>".to_owned());
    let ghost head = string_views(result@);
    let mut i: usize = 0;
    assert(views.take(0) =~= Seq::empty());
    assert(string_views(result@) =~= head + quantity_rows(views.take(0)));
    while i < items.len()
        invariant
            i <= items.len(),
            views == items@.map_values(|q: PluralValue| q@),
            string_views(result@) == head + quantity_rows(views.take(i as int)),
        decreases items.len() - i,
    {
        let ghost before = string_views(result@);
        let key = tagged_row("        <key>", items[i].quantity.as_str(), "</key>");
        let text = tagged_row("        <string>", items[i].text.as_str(), "</string>");
        result.push(key);
        result.push(text);
        proof {
            let next = views.take(i + 1);
            assert(next.drop_last() =~= views.take(i as int));
            assert(next.last() == views[i as int]);
            assert(string_views(result@) =~= before + seq![key@, text@]);
            assert(head + quantity_rows(next) =~= (head + quantity_rows(views.take(i as int)))
                + seq![key@, text@]);
        }
        i += 1;
    }
    assert(views.take(items.len() as int) =~= views);
    let ghost body = string_views(result@);
    result.push("      </dict>".to_owned());
    result.push("    </dict>".to_owned());
    assert(string_views(result@) =~= body + seq!["      </dict>"@, "    </dict>"@]);
    assert(head =~= seq![
        "    <key>"@ + str_name@ + "</key>"@,
        "    <dict>"@,
        "      <key>NSStringLocalizedFormatKey</key>"@,
        "      <string>%#@value@</string>"@,
        "      <key>value</key>"@,
        "      <dict>"@,
        "        <key>NSStringFormatSpecTypeKey</key>"@,
        "        <string>NSStringPluralRuleType</string>"@,
        "        <key>NSStringFormatValueTypeKey</key>"@,
        "        <string>d</string>"@,
    ]);
    result
}

impl StrLines {
    /// The text of the `.strings` file that holds the single strings.
    pub fn strings_file(&self) -> (r: String)
        ensures
            r@ == strings_text(self@),
    {
        let mut out: Vec<char> = Vec::new();
        let mut i: usize = 0;
        assert(self@.take(0) =~= Seq::empty());
        while i < self.value.len()
            invariant
                i <= self.value.len(),
                out@ == strings_text(self@.take(i as int)),
            decreases self.value.len() - i,
        {
            let ghost before = out@;
            proof {
                let next = self@.take(i + 1);
                assert(next.drop_last() =~= self@.take(i as int));
                assert(next.last() == self.value[i as int]@);
            }
            match &self.value[i].value {
                StringValue::Single(text) => {
                    let row = generate_str_value(self.value[i].name.as_str(), text.as_str());
                    push_str(&mut out, row.as_str());
                    push_str(&mut out, "\n");
                    assert(out@ =~= before + (row@ + "\n"@));
                },
                StringValue::Plural { quantities } => {
                    assert(out@ =~= before + Seq::<char>::empty());
                },
            }
            i += 1;
        }
        assert(self@.take(self.value.len() as int) =~= self@);
        from_chars(&out)
    }

    /// The text of the `.stringsdict` file that holds the plural strings.
    pub fn stringsdict_file(&self) -> (r: String)
        ensures
            r@ == stringsdict_text(self@),
    {
        let mut out: Vec<char> = Vec::new();
        push_str(&mut out, "<?xml version=\"1.0\" encoding=\"UTF-8\"?>\n");
        push_str(
            &mut out,
            "<!DOCTYPE plist PUBLIC \"-//Apple//DTD PLIST 1.0//EN\" \"http://www.apple.com/DTDs/PropertyList-1.0.dtd\">\n",
        );
        push_str(&mut out, "<plist version=\"1.0\">\n");
        push_str(&mut out, "  <dict>\n");
        let ghost head = out@;
        let mut i: usize = 0;
        assert(self@.take(0) =~= Seq::empty());
        assert(out@ =~= head + plural_text(self@.take(0)));
        while i < self.value.len()
            invariant
                i <= self.value.len(),
                out@ == head + plural_text(self@.take(i as int)),
            decreases self.value.len() - i,
        {
            let ghost before = out@;
            proof {
                let next = self@.take(i + 1);
                assert(next.drop_last() =~= self@.take(i as int));
                assert(next.last() == self.value[i as int]@);
            }
            match &self.value[i].value {
                StringValue::Single(text) => {
                    assert(out@ =~= head + plural_text(self@.take(i + 1)));
                },
                StringValue::Plural { quantities } => {
                    let rows = generate_plural_value(&self.value[i].name, quantities);
                    let ghost wanted = string_views(rows@);
                    let mut j: usize = 0;
                    assert(wanted.take(0) =~= Seq::empty());
                    assert(out@ =~= before + joined(wanted.take(0)));
                    while j < rows.len()
                        invariant
                            j <= rows.len(),
                            wanted == string_views(rows@),
                            out@ == before + joined(wanted.take(j as int)),
                        decreases rows.len() - j,
                    {
                        push_str(&mut out, rows[j].as_str());
                        push_str(&mut out, "\n");
                        proof {
                            let next = wanted.take(j + 1);
                            assert(next.drop_last() =~= wanted.take(j as int));
                            assert(next.last() == rows[j as int]@);
                            assert(out@ =~= before + joined(next));
                        }
                        j += 1;
                    }
                    assert(wanted.take(rows.len() as int) =~= wanted);
                    assert(out@ =~= head + plural_text(self@.take(i + 1)));
                },
            }
            i += 1;
        }
        assert(self@.take(self.value.len() as int) =~= self@);
        push_str(&mut out, "  </dict>\n");
        push_str(&mut out, "</plist>\n");
        assert(out@ =~= stringsdict_text(self@));
        from_chars(&out)
    }
}

impl GenResult {
    /// The files to write: for each language, in order, first the file
    /// `<language>.lproj/<file_name>.strings`, then the file
    /// `<language>.lproj/<file_name>.stringsdict`. No language is left out, since every
    /// language code is supported.
    pub fn files(&self, file_name: &str) -> (r: Vec<OutputFile>)
        ensures
            r.len() == 2 * self.value.len(),
            forall|i: int|
                0 <= i < self.value.len() ==> (#[trigger] r[2 * i])@ == self::strings_file(
                    self@[i],
                    file_name@,
                ) && r[2 * i + 1]@ == self::stringsdict_file(self@[i], file_name@),
    {
        let mut out: Vec<OutputFile> = Vec::new();
        let mut i: usize = 0;
        while i < self.value.len()
            invariant
                i <= self.value.len(),
                out.len() == 2 * i,
                forall|j: int|
                    0 <= j < i ==> (#[trigger] out[2 * j])@ == self::strings_file(
                        self@[j],
                        file_name@,
                    ) && out[2 * j + 1]@ == self::stringsdict_file(self@[j], file_name@),
            decreases self.value.len() - i,
        {
            let code = self.value[i].0.value.as_str();
            if locale_code_supported_in_ios(code) {
                let strings = OutputFile {
                    directory: suffixed(code, ".lproj"),
                    name: suffixed(file_name, ".strings"),
                    content: self.value[i].1.strings_file(),
                };
                let stringsdict = OutputFile {
                    directory: suffixed(code, ".lproj"),
                    name: suffixed(file_name, ".stringsdict"),
                    content: self.value[i].1.stringsdict_file(),
                };
                let ghost before = out@;
                out.push(strings);
                out.push(stringsdict);
                assert forall|j: int| 0 <= j < i + 1 implies (#[trigger] out[2 * j])@
                    == self::strings_file(self@[j], file_name@) && out[2 * j + 1]@
                    == self::stringsdict_file(self@[j], file_name@) by {
                    if j < i {
                        assert(out[2 * j] == before[2 * j]);
                        assert(out[2 * j + 1] == before[2 * j + 1]);
                    }
                }
            }
            i += 1;
        }
        out
    }
}

/// The strings of one catalog by language.
pub fn generate_for_file(source: &File) -> (r: Result<GenResult, GenError>)
    requires
        source.sections.len() <= 1,
    ensures
        match r {
            Ok(result) => source.sections.len() == 1 && result.wf() && result@ == grouped(
                file_lines(source@),
            ),
            Err(error) => source.sections.len() == 0 && error == GenError::NoSection,
        },
{
    if source.sections.len() == 0 {
        return Err(GenError::NoSection);
    }
    let mut entries: Vec<(String, NamedValue)> = Vec::new();
    push_key_lines(&mut entries, &source.sections[0].keys);
    assert(line_entries(entries@) =~= file_lines(source@));
    Ok(typed_groups(entries))
}

/// Groups strings by language.
fn typed_groups(entries: Vec<(String, NamedValue)>) -> (result: GenResult)
    ensures
        result@ == grouped(line_entries(entries@)),
        result.wf(),
{
    let ghost wanted = grouped(line_entries(entries@));
    let ghost gathered = line_entries(entries@);
    let groups = group_by_locale(entries);
    assert(line_groups(groups@) =~= wanted);
    assert(wanted.len() == groups@.len());
    let mut value: Vec<(Locale, StrLines)> = Vec::new();
    for group in it: groups
        invariant
            wanted.len() == it.seq().len(),
            wanted == line_groups(it.seq()),
            value.len() == it.index(),
            forall|j: int|
                0 <= j < it.index() ==> (#[trigger] value[j]).0.value@ == wanted[j].0
                    && value[j].1@ == wanted[j].1,
    {
        let (code, named) = group;
        let mut lines: Vec<Line> = Vec::new();
        for pair in at: named
            invariant
                lines.len() == at.index(),
                forall|j: int|
                    0 <= j < at.index() ==> (#[trigger] lines[j])@ == named_view(at.seq()[j]),
        {
            let (name, value) = pair;
            lines.push(Line { name, value });
        }
        let entry = (Locale { value: code }, StrLines { value: lines });
        assert(entry.1@ =~= wanted[it.index() as int].1);
        value.push(entry);
    }
    let result = GenResult { value };
    proof {
        assert(result@ =~= wanted);
        lemma_keys_distinct(gathered);
        assert(locales_of(result@) =~= keys_in_order(gathered));
    }
    result
}

/// Merges the strings of the catalogs by language and fills each language from the default
/// one. No catalog may have more than one section. Fails without a catalog, and where a
/// catalog has no section.
pub fn generate(sources: Vec<File>, default_lang: &Option<String>) -> (r: Result<
    GenResult,
    GenError,
>)
    requires
        forall|i: int| 0 <= i < sources.len() ==> (#[trigger] sources[i]).sections.len() <= 1,
    ensures
        match r {
            Ok(result) => sources.len() > 0 && (forall|i: int|
                0 <= i < sources.len() ==> (#[trigger] sources[i]).sections.len() == 1)
                && result.wf() && result@ == fill_absent(
                merged_lines(sources@.map_values(|f: File| f@)),
                lang_view(*default_lang),
            ),
            Err(GenError::NoSource) => sources.len() == 0,
            Err(GenError::NoSection) => exists|i: int|
                0 <= i < sources.len() && (#[trigger] sources[i]).sections.len() == 0,
        },
{
    if sources.len() == 0 {
        return Err(GenError::NoSource);
    }
    let ghost views = sources@.map_values(|f: File| f@);
    let mut entries: Vec<(String, NamedValue)> = Vec::new();
    let mut i: usize = 0;
    assert(views.take(0) =~= Seq::empty());
    assert(line_entries(entries@) =~= all_file_lines(views.take(0)));
    while i < sources.len()
        invariant
            i <= sources.len(),
            views == sources@.map_values(|f: File| f@),
            forall|j: int| 0 <= j < sources.len() ==> (#[trigger] sources[j]).sections.len() <= 1,
            forall|j: int| 0 <= j < i ==> (#[trigger] sources[j]).sections.len() == 1,
            line_entries(entries@) == all_file_lines(views.take(i as int)),
        decreases sources.len() - i,
    {
        if sources[i].sections.len() == 0 {
            return Err(GenError::NoSection);
        }
        push_key_lines(&mut entries, &sources[i].sections[0].keys);
        proof {
            let next = views.take(i + 1);
            assert(next.drop_last() =~= views.take(i as int));
            assert(next.last() == sources[i as int]@);
        }
        i += 1;
    }
    assert(views.take(sources.len() as int) =~= views);
    let mut result = typed_groups(entries);
    fill_absent_translations(&mut result, default_lang);
    Ok(result)
}

} // verus!
