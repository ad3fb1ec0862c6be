//! The Android emitter: groups the strings of a catalog by language and renders each
//! language's strings as an XML resource file.

use vstd::prelude::*;
use crate::grouping::{keys_in_order, lemma_keys_distinct};
use crate::lines::{
    all_lines, group_by_locale, line_groups, lines_by_locale, named_view, push_key_lines,
    LineView, NamedValue, OutputFile, OutputFileView,
};
use crate::parse::{File, Key, PluralValue, PluralValueView, StringValue, StringValueView};
use crate::text::{from_chars, push_str};

verus! {

/// A language of the catalog.
#[derive(PartialEq, Eq, Hash, Debug, PartialOrd, Ord, Clone)]
pub struct Locale {
    pub value: String,
}

/// The strings of one language, in catalog order.
#[derive(PartialEq, Eq, Debug, PartialOrd, Ord, Clone)]
pub struct StrLines {
    pub value: Vec<Line>,
}

/// One string of one language: the resource's name and its text.
#[derive(PartialEq, Eq, Debug, PartialOrd, Ord, Clone)]
pub struct Line {
    pub name: String,
    pub value: StringValue,
}

/// What the emitter makes of a catalog: for each language its strings. No language stands
/// twice.
pub struct GenResult {
    pub value: Vec<(Locale, StrLines)>,
}

/// Why a catalog cannot be emitted.
#[derive(Debug, PartialEq, Eq, Clone, Copy)]
pub enum GenError {
    /// The catalog has no section.
    NoSection,
}

impl View for Line {
    type V = LineView;

    open spec fn view(&self) -> LineView {
        LineView { name: self.name@, value: self.value@ }
    }
}

impl View for StrLines {
    type V = Seq<LineView>;

    open spec fn view(&self) -> Seq<LineView> {
        self.value@.map_values(|l: Line| l@)
    }
}

impl View for GenResult {
    type V = Seq<(Seq<char>, Seq<LineView>)>;

    open spec fn view(&self) -> Seq<(Seq<char>, Seq<LineView>)> {
        self.value@.map_values(|e: (Locale, StrLines)| (e.0.value@, e.1@))
    }
}

impl GenError {
    /// The error in words.
    pub fn message(&self) -> (r: String)
        ensures
            r@ == "Expected at least one section"@,
    {
        "Expected at least one section".to_owned()
    }
}

impl GenResult {
    /// The languages of the result, in order.
    pub open spec fn locales(&self) -> Seq<Seq<char>> {
        self@.map_values(|e: (Seq<char>, Seq<LineView>)| e.0)
    }

    /// No language stands twice.
    pub open spec fn wf(&self) -> bool {
        self.locales().no_duplicates()
    }
}

/// The resource line of a single string.
pub open spec fn str_value(name: Seq<char>, value: Seq<char>) -> Seq<char> {
    "<string name=\""@ + name + "\">"@ + value + "</string>"@
}

/// The item line of one plural quantity.
pub open spec fn plural_item(item: PluralValueView) -> Seq<char> {
    "  <item quantity=\""@ + item.quantity + "\">"@ + item.text + "</item>"@
}

/// The resource lines of a plural string: an opening line, one item for each quantity in
/// order, and a closing line.
pub open spec fn plural_value(name: Seq<char>, items: Seq<PluralValueView>) -> Seq<Seq<char>> {
    seq!["<plurals name=\""@ + name + "\">"@] + items.map_values(
        |item: PluralValueView| plural_item(item),
    ) + seq!["</plurals>"@]
}

/// The resource lines of one string.
pub open spec fn formatted(line: LineView) -> Seq<Seq<char>> {
    match line.value {
        StringValueView::Single(text) => seq![str_value(line.name, text)],
        StringValueView::Plural { quantities } => plural_value(line.name, quantities),
    }
}

/// `rows`, each behind two spaces and closed by a line feed.
pub open spec fn indented(rows: Seq<Seq<char>>) -> Seq<char>
    decreases rows.len(),
{
    if rows.len() == 0 {
        Seq::empty()
    } else {
        indented(rows.drop_last()) + "  "@ + rows.last() + "\n"@
    }
}

/// The resource lines of all `lines`, indented.
pub open spec fn resource_body(lines: Seq<LineView>) -> Seq<char>
    decreases lines.len(),
{
    if lines.len() == 0 {
        Seq::empty()
    } else {
        resource_body(lines.drop_last()) + indented(formatted(lines.last()))
    }
}

/// The text of the resource file of one language.
pub open spec fn resource_text(lines: Seq<LineView>) -> Seq<char> {
    "<?xml version=\"1.0\" encoding=\"utf-8\"?>\n"@ + "\n"@ + "<resources>\n"@ + resource_body(
        lines,
    ) + "</resources>\n"@
}

/// The file of one language: `values-<language>/<file_name>.xml`.
pub open spec fn output_file(entry: (Seq<char>, Seq<LineView>), file_name: Seq<char>)
    -> OutputFileView {
    OutputFileView {
        directory: "values-"@ + entry.0,
        name: file_name + ".xml"@,
        content: resource_text(entry.1),
    }
}

/// The characters of each string.
pub open spec fn string_views(v: Seq<String>) -> Seq<Seq<char>> {
    v.map_values(|s: String| s@)
}

/// The resource line `<string name="NAME">VALUE</string>`.
pub fn generate_str_value(str_name: &str, str_value: &str) -> (r: String)
    ensures
        r@ == self::str_value(str_name@, str_value@),
{
    let mut out: Vec<char> = Vec::new();
    push_str(&mut out, "<string name=\"");
    push_str(&mut out, str_name);
    push_str(&mut out, "\">");
    push_str(&mut out, str_value);
    push_str(&mut out, "</string>");
    assert(out@ =~= self::str_value(str_name@, str_value@));
    from_chars(&out)
}

/// The resource lines of a plural string: `<plurals name="NAME">`, one
/// `<item quantity="Q">TEXT</item>` for each quantity, and `</plurals>`.
pub fn generate_plural_value(str_name: &String, items: &Vec<PluralValue>) -> (r: Vec<String>)
    ensures
        string_views(r@) == plural_value(str_name@, items@.map_values(|q: PluralValue| q@)),
{
    let ghost wanted = plural_value(str_name@, items@.map_values(|q: PluralValue| q@));
    let mut result: Vec<String> = Vec::new();
    let mut head: Vec<char> = Vec::new();
    push_str(&mut head, "<plurals name=\"");
    push_str(&mut head, str_name.as_str());
    push_str(&mut head, "\">");
    result.push(from_chars(&head));
    let mut i: usize = 0;
    while i < items.len()
        invariant
            i <= items.len(),
            result.len() == i + 1,
            wanted == plural_value(str_name@, items@.map_values(|q: PluralValue| q@)),
            forall|j: int| 0 <= j < i + 1 ==> (#[trigger] result[j])@ == wanted[j],
        decreases items.len() - i,
    {
        let mut row: Vec<char> = Vec::new();
        push_str(&mut row, "  <item quantity=\"");
        push_str(&mut row, items[i].quantity.as_str());
        push_str(&mut row, "\">");
        push_str(&mut row, items[i].text.as_str());
        push_str(&mut row, "</item>");
        assert(row@ =~= plural_item(items[i as int]@));
        result.push(from_chars(&row));
        i += 1;
    }
    result.push("</plurals>".to_owned());
    assert(string_views(result@) =~= wanted);
    result
}

impl Line {
    /// The resource lines of the string.
    pub fn format(&self) -> (r: Vec<String>)
        ensures
            string_views(r@) == formatted(self@),
    {
        match &self.value {
            StringValue::Single(text) => {
                let mut rows: Vec<String> = Vec::new();
                rows.push(generate_str_value(self.name.as_str(), text.as_str()));
                assert(string_views(rows@) =~= formatted(self@));
                rows
            },
            StringValue::Plural { quantities } => generate_plural_value(&self.name, quantities),
        }
    }
}

impl StrLines {
    /// The text of the resource file that holds these strings: the XML declaration, an
    /// empty line, and the element `resources` with every resource line indented by two
    /// spaces.
    pub fn resource_file(&self) -> (r: String)
        ensures
            r@ == resource_text(self@),
    {
        let mut out: Vec<char> = Vec::new();
        push_str(&mut out, "<?xml version=\"1.0\" encoding=\"utf-8\"?>\n");
        push_str(&mut out, "\n");
        push_str(&mut out, "<resources>\n");
        let ghost head = out@;
        let mut i: usize = 0;
        assert(self@.take(0) =~= Seq::empty());
        assert(out@ =~= head + resource_body(self@.take(0)));
        while i < self.value.len()
            invariant
                i <= self.value.len(),
                out@ == head + resource_body(self@.take(i as int)),
            decreases self.value.len() - i,
        {
            let rows = self.value[i].format();
            let ghost before = out@;
            let ghost wanted = formatted(self@[i as int]);
            let mut j: usize = 0;
            assert(wanted.take(0) =~= Seq::empty());
            assert(out@ =~= before + indented(wanted.take(0)));
            while j < rows.len()
                invariant
                    j <= rows.len(),
                    string_views(rows@) == wanted,
                    out@ == before + indented(wanted.take(j as int)),
                decreases rows.len() - j,
            {
                let ghost at = out@;
                push_str(&mut out, "  ");
                push_str(&mut out, rows[j].as_str());
                push_str(&mut out, "\n");
                proof {
                    let next = wanted.take(j + 1);
                    assert(next.drop_last() =~= wanted.take(j as int));
                    assert(next.last() == rows[j as int]@);
                    assert(out@ =~= before + indented(next));
                }
                j += 1;
            }
            proof {
                assert(wanted.take(rows.len() as int) =~= wanted);
                let next = self@.take(i + 1);
                assert(next.drop_last() =~= self@.take(i as int));
                assert(next.last() == self@[i as int]);
                assert(out@ =~= head + resource_body(next));
            }
            i += 1;
        }
        assert(self@.take(self.value.len() as int) =~= self@);
        push_str(&mut out, "</resources>\n");
        assert(out@ =~= resource_text(self@));
        from_chars(&out)
    }
}

impl GenResult {
    /// The files to write: for each language, in order, the file
    /// `values-<language>/<file_name>.xml` with that language's resource text.
    pub fn files(&self, file_name: &str) -> (r: Vec<OutputFile>)
        ensures
            r.len() == self.value.len(),
            forall|i: int|
                0 <= i < r.len() ==> (#[trigger] r[i])@ == output_file(self@[i], file_name@),
    {
        let mut out: Vec<OutputFile> = Vec::new();
        let mut i: usize = 0;
        while i < self.value.len()
            invariant
                i <= self.value.len(),
                out.len() == i,
                forall|j: int|
                    0 <= j < i ==> (#[trigger] out[j])@ == output_file(self@[j], file_name@),
            decreases self.value.len() - i,
        {
            let mut directory: Vec<char> = Vec::new();
            push_str(&mut directory, "values-");
            push_str(&mut directory, self.value[i].0.value.as_str());
            let mut name: Vec<char> = Vec::new();
            push_str(&mut name, file_name);
            push_str(&mut name, ".xml");
            let file = OutputFile {
                directory: from_chars(&directory),
                name: from_chars(&name),
                content: self.value[i].1.resource_file(),
            };
            assert(directory@ =~= "values-"@ + self@[i as int].0);
            assert(name@ =~= file_name@ + ".xml"@);
            out.push(file);
            i += 1;
        }
        out
    }
}

/// The strings of `keys` by language.
pub fn group_lines(keys: &Vec<Key>) -> (r: GenResult)
    ensures
        r@ == lines_by_locale(keys@.map_values(|k: Key| k@)),
        r.wf(),
{
    let ghost views = keys@.map_values(|k: Key| k@);
    let mut entries: Vec<(String, NamedValue)> = Vec::new();
    push_key_lines(&mut entries, keys);
    let groups = group_by_locale(entries);
    let ghost wanted = lines_by_locale(views);
    assert(line_groups(groups@) =~= wanted);
    assert(wanted.len() == groups@.len());
    let mut value: Vec<(Locale, StrLines)> = Vec::new();
    for group in it: groups
        invariant
            wanted.len() == it.seq().len(),
            wanted == line_groups(it.seq()),
            value.len() == it.index(),
            forall|j: int|
                0 <= j < it.index() ==> (#[trigger] value[j]).0.value@ == wanted[j].0
                    && value[j].1@ == wanted[j].1,
    {
        let (code, named) = group;
        let mut lines: Vec<Line> = Vec::new();
        for pair in at: named
            invariant
                lines.len() == at.index(),
                forall|j: int|
                    0 <= j < at.index() ==> (#[trigger] lines[j])@ == named_view(at.seq()[j]),
        {
            let (name, value) = pair;
            lines.push(Line { name, value });
        }
        let entry = (Locale { value: code }, StrLines { value: lines });
        assert(entry.1@ =~= wanted[it.index() as int].1);
        value.push(entry);
    }
    let result = GenResult { value };
    proof {
        assert(result@ =~= wanted);
        lemma_keys_distinct(all_lines(views));
        assert(result.locales() =~= keys_in_order(all_lines(views)));
    }
    result
}

/// Groups the strings of the catalog by language. The catalog must not have more than one
/// section; without a section there is nothing to emit, and that is an error.
pub fn generate(source: &File) -> (r: Result<GenResult, GenError>)
    requires
        source.sections.len() <= 1,
    ensures
        match r {
            Ok(result) => source.sections.len() == 1 && result.wf() && result@
                == lines_by_locale(source@.sections[0].keys),
            Err(error) => source.sections.len() == 0 && error == GenError::NoSection,
        },
{
    if source.sections.len() == 0 {
        return Err(GenError::NoSection);
    }
    Ok(group_lines(&source.sections[0].keys))
}

} // verus!
