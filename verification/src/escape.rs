//! Escaping of catalog values for XML resources. Markup of the tags that the target
//! platform renders is left as it stands; everything around it is escaped.

use vstd::prelude::*;
use crate::text::{
    find_from, first_occurrence, from_chars, has_char, lemma_first_occurrence, rows, to_chars,
};

verus! {

/// The names of the tags whose markup stays unescaped.
pub open spec fn supported_tags() -> Seq<Seq<char>> {
    seq![
        "annotation"@,
        "a"@,
        "i"@,
        "cite"@,
        "dfn"@,
        "b"@,
        "em"@,
        "big"@,
        "small"@,
        "font"@,
        "tt"@,
        "s"@,
        "strike"@,
        "del"@,
        "u"@,
        "sup"@,
        "sub"@,
        "ul"@,
        "li"@,
        "br"@,
        "div"@,
        "span"@,
        "p"@,
    ]
}

/// What stands for `c` in escaped text.
pub open spec fn escape_char(c: char) -> Seq<char> {
    if c == '&' {
        seq!['&', 'a', 'm', 'p', ';']
    } else if c == '<' {
        seq!['&', 'l', 't', ';']
    } else if c == '\'' {
        seq!['\\', '\'']
    } else if c == '"' {
        seq!['\\', '"']
    } else {
        seq![c]
    }
}

/// `c` is one of the characters that escaping rewrites.
pub open spec fn is_special(c: char) -> bool {
    c == '&' || c == '<' || c == '\'' || c == '"'
}

/// How a tag opens: `<` and its name.
pub open spec fn open_pattern(tag: Seq<char>) -> Seq<char> {
    seq!['<'] + tag
}

/// How a tag region closes: the tag's name and `>`.
pub open spec fn close_pattern(tag: Seq<char>) -> Seq<char> {
    tag.push('>')
}

/// The regions of `tag` in `s` from `start` on, as pairs of a first index and an end.
/// A region runs from the next `<tag` to the end of the next `tag>` behind it; the search
/// for the following region begins where the last one ended.
pub open spec fn tag_regions_from(s: Seq<char>, tag: Seq<char>, start: int) -> Seq<(int, int)>
    decreases
            (if start <= s.len() {
                s.len() - start
            } else {
                0
            }),
{
    if 0 <= start < s.len() {
        match first_occurrence(s, open_pattern(tag), start) {
            Some(a) => match first_occurrence(s, close_pattern(tag), start + a + tag.len() + 1) {
                Some(e) => {
                    let end = start + a + tag.len() + 1 + e + tag.len() + 1;
                    seq![(start + a, end)] + tag_regions_from(s, tag, end)
                },
                None => Seq::empty(),
            },
            None => Seq::empty(),
        }
    } else {
        Seq::empty()
    }
}

/// The regions in `s` of every tag of `tags`, tag by tag.
pub open spec fn tag_regions(s: Seq<char>, tags: Seq<Seq<char>>) -> Seq<(int, int)>
    decreases tags.len(),
{
    if tags.len() == 0 {
        Seq::empty()
    } else {
        tag_regions(s, tags.drop_last()) + tag_regions_from(s, tags.last(), 0)
    }
}

/// Index `i` lies in one of `regions`.
pub open spec fn covered(regions: Seq<(int, int)>, i: int) -> bool {
    exists|k: int| 0 <= k < regions.len() && (#[trigger] regions[k]).0 <= i < regions[k].1
}

/// `s` from `i` on, where every character outside all `regions` is escaped.
pub open spec fn escape_outside(s: Seq<char>, regions: Seq<(int, int)>, i: int) -> Seq<char>
    decreases s.len() - i,
{
    if 0 <= i < s.len() {
        (if covered(regions, i) {
            seq![s[i]]
        } else {
            escape_char(s[i])
        }) + escape_outside(s, regions, i + 1)
    } else {
        Seq::empty()
    }
}

/// `s` with every character escaped.
pub open spec fn escape_all(s: Seq<char>) -> Seq<char> {
    escape_outside(s, Seq::empty(), 0)
}

/// `s` with every character escaped that lies outside the regions of the supported tags.
pub open spec fn escape_around_tags(s: Seq<char>) -> Seq<char> {
    escape_outside(s, tag_regions(s, supported_tags()), 0)
}

/// Text without `&`, `<`, `'` and `"` is its own escaped form, whatever the regions.
pub proof fn lemma_escape_plain(s: Seq<char>, regions: Seq<(int, int)>, i: int)
    requires
        0 <= i <= s.len(),
        forall|k: int| i <= k < s.len() ==> !is_special(#[trigger] s[k]),
    ensures
        escape_outside(s, regions, i) == s.subrange(i, s.len() as int),
    decreases s.len() - i,
{
    if i < s.len() {
        lemma_escape_plain(s, regions, i + 1);
        assert(seq![s[i]] + s.subrange(i + 1, s.len() as int) =~= s.subrange(i, s.len() as int));
    } else {
        assert(s.subrange(i, s.len() as int) =~= Seq::<char>::empty());
    }
}

/// Without any `<` there is no tag region.
pub proof fn lemma_no_regions(s: Seq<char>, tags: Seq<Seq<char>>)
    requires
        !s.contains('<'),
    ensures
        tag_regions(s, tags).len() == 0,
    decreases tags.len(),
{
    if tags.len() > 0 {
        lemma_no_regions(s, tags.drop_last());
        let pat = open_pattern(tags.last());
        lemma_first_occurrence(s, pat, 0);
        if first_occurrence(s, pat, 0) is Some {
            let a = first_occurrence(s, pat, 0)->0 as int;
            assert(s.subrange(a, a + pat.len())[0] == pat[0]);
            assert(s.contains(s[a]));
        }
    }
}

/// The supported tags.
pub fn android_supported_tags() -> (r: Vec<Vec<char>>)
    ensures
        rows(r@) == supported_tags(),
{
    let mut tags: Vec<Vec<char>> = Vec::new();
    tags.push(to_chars("annotation"));
    tags.push(to_chars("a"));
    tags.push(to_chars("i"));
    tags.push(to_chars("cite"));
    tags.push(to_chars("dfn"));
    tags.push(to_chars("b"));
    tags.push(to_chars("em"));
    tags.push(to_chars("big"));
    tags.push(to_chars("small"));
    tags.push(to_chars("font"));
    tags.push(to_chars("tt"));
    tags.push(to_chars("s"));
    tags.push(to_chars("strike"));
    tags.push(to_chars("del"));
    tags.push(to_chars("u"));
    tags.push(to_chars("sup"));
    tags.push(to_chars("sub"));
    tags.push(to_chars("ul"));
    tags.push(to_chars("li"));
    tags.push(to_chars("br"));
    tags.push(to_chars("div"));
    tags.push(to_chars("span"));
    tags.push(to_chars("p"));
    assert(rows(tags@) =~= supported_tags());
    tags
}

/// The index pairs that `v` holds.
pub open spec fn spans(v: Seq<(usize, usize)>) -> Seq<(int, int)> {
    v.map_values(|r: (usize, usize)| (r.0 as int, r.1 as int))
}

/// Appends the regions of `tag` in `s` to `out`.
fn push_tag_regions(out: &mut Vec<(usize, usize)>, s: &Vec<char>, tag: &Vec<char>)
    requires
        forall|k: int| 0 <= k < old(out).len() ==> (#[trigger] old(out)[k]).1 <= s.len(),
    ensures
        spans(final(out)@) == spans(old(out)@) + tag_regions_from(s@, tag@, 0),
        forall|k: int| 0 <= k < final(out).len() ==> (#[trigger] final(out)[k]).1 <= s.len(),
{
    let mut open: Vec<char> = Vec::new();
    open.push('<');
    let mut close: Vec<char> = Vec::new();
    let mut j: usize = 0;
    while j < tag.len()
        invariant
            j <= tag.len(),
            open@ == seq!['<'] + tag@.take(j as int),
            close@ == tag@.take(j as int),
        decreases tag.len() - j,
    {
        open.push(tag[j]);
        close.push(tag[j]);
        assert(tag@.take(j + 1) =~= tag@.take(j as int).push(tag@[j as int]));
        assert(seq!['<'] + tag@.take(j + 1) =~= (seq!['<'] + tag@.take(j as int)).push(
            tag@[j as int],
        ));
        j += 1;
    }
    close.push('>');
    assert(tag@.take(tag.len() as int) =~= tag@);
    assert(open@ == open_pattern(tag@));
    assert(close@ == close_pattern(tag@));
    let ghost before = spans(out@);
    let mut start: usize = 0;
    assert(before + tag_regions_from(s@, tag@, 0) =~= spans(out@) + tag_regions_from(
        s@,
        tag@,
        0,
    ));
    while start < s.len()
        invariant
            open@ == open_pattern(tag@),
            close@ == close_pattern(tag@),
            start <= s.len(),
            before + tag_regions_from(s@, tag@, 0) == spans(out@) + tag_regions_from(
                s@,
                tag@,
                start as int,
            ),
            forall|k: int| 0 <= k < out.len() ==> (#[trigger] out[k]).1 <= s.len(),
        ensures
            before + tag_regions_from(s@, tag@, 0) == spans(out@),
            forall|k: int| 0 <= k < out.len() ==> (#[trigger] out[k]).1 <= s.len(),
        decreases s.len() - start,
    {
        let a = match find_from(s, &open, start) {
            Some(a) => a,
            None => {
                assert(spans(out@) + Seq::<(int, int)>::empty() =~= spans(out@));
                break ;
            },
        };
        let e = match find_from(s, &close, a + tag.len() + 1) {
            Some(e) => e,
            None => {
                assert(spans(out@) + Seq::<(int, int)>::empty() =~= spans(out@));
                break ;
            },
        };
        let end: usize = e + tag.len() + 1;
        proof {
            let rest = tag_regions_from(s@, tag@, end as int);
            assert(tag_regions_from(s@, tag@, start as int) == seq![(a as int, end as int)]
                + rest);
            assert(spans(out@.push((a, end))) + rest =~= spans(out@) + (seq![
                (a as int, end as int),
            ] + rest));
        }
        out.push((a, end));
        start = end;
    }
    proof {
        if start >= s.len() {
            assert(spans(out@) + tag_regions_from(s@, tag@, start as int) =~= spans(out@));
        }
    }
}

/// The regions in `s` of every supported tag.
fn find_tag_regions(s: &Vec<char>, tags: &Vec<Vec<char>>) -> (r: Vec<(usize, usize)>)
    ensures
        spans(r@) == tag_regions(s@, rows(tags@)),
        forall|k: int| 0 <= k < r.len() ==> (#[trigger] r[k]).1 <= s.len(),
{
    let mut out: Vec<(usize, usize)> = Vec::new();
    let mut t: usize = 0;
    assert(rows(tags@).take(0) =~= Seq::<Seq<char>>::empty());
    while t < tags.len()
        invariant
            t <= tags.len(),
            spans(out@) == tag_regions(s@, rows(tags@).take(t as int)),
            forall|k: int| 0 <= k < out.len() ==> (#[trigger] out[k]).1 <= s.len(),
        decreases tags.len() - t,
    {
        push_tag_regions(&mut out, s, &tags[t]);
        proof {
            let next = rows(tags@).take(t + 1);
            assert(next.drop_last() =~= rows(tags@).take(t as int));
            assert(next.last() == tags@[t as int]@);
        }
        t += 1;
    }
    assert(rows(tags@).take(tags.len() as int) =~= rows(tags@));
    out
}

/// For each index of a text of `n` characters, whether it lies in one of `regions`.
fn mark_regions(regions: &Vec<(usize, usize)>, n: usize) -> (mask: Vec<bool>)
    requires
        forall|k: int| 0 <= k < regions.len() ==> (#[trigger] regions[k]).1 <= n,
    ensures
        mask.len() == n,
        forall|i: int| 0 <= i < n ==> mask[i] == covered(spans(regions@), i),
{
    let mut mask: Vec<bool> = Vec::new();
    let mut i: usize = 0;
    while i < n
        invariant
            i <= n,
            mask.len() == i,
            forall|j: int| 0 <= j < i ==> !mask[j],
        decreases n - i,
    {
        mask.push(false);
        i += 1;
    }
    let mut k: usize = 0;
    while k < regions.len()
        invariant
            k <= regions.len(),
            mask.len() == n,
            forall|j: int| 0 <= j < regions.len() ==> (#[trigger] regions[j]).1 <= n,
            forall|i: int|
                0 <= i < n ==> mask[i] == covered(spans(regions@).take(k as int), i),
        decreases regions.len() - k,
    {
        let (a, b) = regions[k];
        let ghost done = spans(regions@).take(k as int);
        let ghost next = spans(regions@).take(k + 1);
        assert(next =~= done.push((a as int, b as int)));
        let mut j: usize = a;
        while j < b
            invariant
                b <= n,
                mask.len() == n,
                a <= j,
                forall|i: int|
                    0 <= i < n ==> mask[i] == (covered(done, i) || (a <= i < j && i < b)),
            decreases b - j,
        {
            mask.set(j, true);
            j += 1;
        }
        assert forall|i: int| covered(next, i) == (covered(done, i) || a <= i < b) by {
            if covered(done, i) {
                let w = choose|w: int| 0 <= w < done.len() && (#[trigger] done[w]).0 <= i < done[w].1;
                assert(next[w] == done[w]);
            }
            if a <= i < b {
                assert(next[k as int] == (a as int, b as int));
            }
            if covered(next, i) {
                let w = choose|w: int| 0 <= w < next.len() && (#[trigger] next[w]).0 <= i < next[w].1;
                if w < k {
                    assert(done[w] == next[w]);
                }
            }
        }
        assert(forall|i: int| 0 <= i < n ==> mask[i] == covered(next, i));
        k += 1;
    }
    assert(spans(regions@).take(regions.len() as int) =~= spans(regions@));
    mask
}

/// Appends what stands for `c` in escaped text.
fn push_escaped(out: &mut Vec<char>, c: char)
    ensures
        final(out)@ == old(out)@ + escape_char(c),
{
    let ghost before = out@;
    if c == '&' {
        out.push('&');
        out.push('a');
        out.push('m');
        out.push('p');
        out.push(';');
    } else if c == '<' {
        out.push('&');
        out.push('l');
        out.push('t');
        out.push(';');
    } else if c == '\'' {
        out.push('\\');
        out.push('\'');
    } else if c == '"' {
        out.push('\\');
        out.push('"');
    } else {
        out.push(c);
    }
    assert(out@ =~= before + escape_char(c));
}

/// Escapes every character of `s`.
pub fn escape_all_chars(s: &Vec<char>) -> (r: Vec<char>)
    ensures
        r@ == escape_all(s@),
{
    let mut out: Vec<char> = Vec::new();
    let mut i: usize = 0;
    let ghost none = Seq::<(int, int)>::empty();
    while i < s.len()
        invariant
            i <= s.len(),
            none == Seq::<(int, int)>::empty(),
            escape_all(s@) == out@ + escape_outside(s@, none, i as int),
        decreases s.len() - i,
    {
        let ghost before = out@;
        push_escaped(&mut out, s[i]);
        assert(!covered(none, i as int));
        assert(out@ + escape_outside(s@, none, i + 1) =~= before + (escape_char(s@[i as int])
            + escape_outside(s@, none, i + 1)));
        i += 1;
    }
    assert(out@ + escape_outside(s@, none, i as int) =~= out@);
    out
}

/// Escapes every character of `s` that lies outside the regions of the supported tags.
pub fn escape_tagged_chars(s: &Vec<char>) -> (r: Vec<char>)
    ensures
        r@ == escape_around_tags(s@),
{
    let tags = android_supported_tags();
    let regions = find_tag_regions(s, &tags);
    let mask = mark_regions(&regions, s.len());
    let ghost spots = spans(regions@);
    let mut out: Vec<char> = Vec::new();
    let mut i: usize = 0;
    while i < s.len()
        invariant
            i <= s.len(),
            mask.len() == s.len(),
            spots == tag_regions(s@, supported_tags()),
            forall|j: int| 0 <= j < s.len() ==> mask[j] == covered(spots, j),
            escape_around_tags(s@) == out@ + escape_outside(s@, spots, i as int),
        decreases s.len() - i,
    {
        let ghost before = out@;
        if mask[i] {
            out.push(s[i]);
        } else {
            push_escaped(&mut out, s[i]);
        }
        assert(out@ + escape_outside(s@, spots, i + 1) =~= before + ((if covered(
            spots,
            i as int,
        ) {
            seq![s@[i as int]]
        } else {
            escape_char(s@[i as int])
        }) + escape_outside(s@, spots, i + 1)));
        i += 1;
    }
    assert(out@ + escape_outside(s@, spots, i as int) =~= out@);
    out
}

/// Escapes `s` around the markup of the supported tags; text that holds none of
/// `&`, `<`, `'`, `"` is handed back as it is.
pub fn escape_chars(s: Vec<char>) -> (r: Vec<char>)
    ensures
        r@ == escape_around_tags(s@),
{
    let special = has_char(&s, '&') || has_char(&s, '<') || has_char(&s, '\'') || has_char(
        &s,
        '"',
    );
    if special {
        escape_tagged_chars(&s)
    } else {
        proof {
            assert forall|k: int| 0 <= k < s@.len() implies !is_special(#[trigger] s@[k]) by {
                assert(s@.contains(s@[k]));
            }
            lemma_escape_plain(s@, tag_regions(s@, supported_tags()), 0);
            assert(s@.subrange(0, s@.len() as int) =~= s@);
        }
        s
    }
}

/// Escapes `&`, `<`, `'` and `"` everywhere in `input`.
pub fn escape_with_no_html_tags(input: &str) -> (r: String)
    ensures
        r@ == escape_all(input@),
{
    from_chars(&escape_all_chars(&to_chars(input)))
}

/// Escapes `&`, `<`, `'` and `"` in `input` outside the regions of the supported tags.
/// Where no region is found, the whole text is escaped.
pub fn escape_input_with_html_tags(input: &str) -> (r: String)
    ensures
        r@ == escape_around_tags(input@),
        tag_regions(input@, supported_tags()).len() == 0 ==> r@ == escape_all(input@),
{
    let r = from_chars(&escape_tagged_chars(&to_chars(input)));
    proof {
        if tag_regions(input@, supported_tags()).len() == 0 {
            assert(tag_regions(input@, supported_tags()) =~= Seq::<(int, int)>::empty());
        }
    }
    r
}

/// Escapes `input` for an XML resource, leaving the markup of the supported tags as it is.
pub fn maybe_escape_characters(input: &str) -> (r: String)
    ensures
        r@ == escape_around_tags(input@),
        !(input@.contains('&') || input@.contains('<') || input@.contains('\'')
            || input@.contains('"')) ==> r@ == input@,
{
    let chars = to_chars(input);
    proof {
        if !(input@.contains('&') || input@.contains('<') || input@.contains('\'')
            || input@.contains('"')) {
            assert forall|k: int| 0 <= k < input@.len() implies !is_special(
                #[trigger] input@[k],
            ) by {
                assert(input@.contains(input@[k]));
            }
            lemma_escape_plain(input@, tag_regions(input@, supported_tags()), 0);
            assert(input@.subrange(0, input@.len() as int) =~= input@);
        }
    }
    from_chars(&escape_chars(chars))
}

} // verus!
