use utas::escape::{
    android_supported_tags, escape_input_with_html_tags, escape_with_no_html_tags,
    maybe_escape_characters,
};

fn tag_names() -> Vec<String> {
    android_supported_tags()
        .into_iter()
        .map(|tag| tag.into_iter().collect())
        .collect()
}

fn find_regions(input: &str, tags: &[String]) -> Vec<(usize, usize)> {
    let mut tag_regions: Vec<(usize, usize)> = Vec::new();
    for tag in tags {
        let mut start = 0;
        while start < input.len() {
            let Some(s) = input[start..].find(&format!("<{tag}")) else {
                break;
            };
            let abs_start = start + s;
            let Some(e) = input[abs_start + tag.len() + 1..].find(&format!("{tag}>")) else {
                break;
            };
            let abs_end = (abs_start + tag.len() + 1) + e + (tag.len() + 1);
            tag_regions.push((abs_start, abs_end));
            start = abs_end;
        }
    }
    tag_regions.sort_by_key(|r| r.0);
    tag_regions
}

fn replace_all(input: &str) -> String {
    input
        .replace("&", "&amp;")
        .replace("<", "&lt;")
        .replace("'", "\\'")
        .replace("\"", "\\\"")
}

fn piecewise(input: &str, regions: &[(usize, usize)]) -> String {
    let mut result = String::new();
    let mut at = 0;
    for region in regions {
        result.push_str(&replace_all(&input[at..region.0]));
        result.push_str(&input[region.0..region.1]);
        at = region.1;
    }
    result.push_str(&replace_all(&input[at..]));
    result
}

fn escape_words(alphabet: &[char], max_len: usize) -> Vec<String> {
    let mut all = vec![String::new()];
    let mut last = vec![String::new()];
    for _ in 0..max_len {
        let mut next = Vec::new();
        for word in &last {
            for c in alphabet {
                let mut longer = word.clone();
                longer.push(*c);
                next.push(longer);
            }
        }
        all.extend(next.iter().cloned());
        last = next;
    }
    all
}

#[test]
fn escaping_agrees_with_piecewise_escaping_of_disjoint_regions() {
    let tags = tag_names();
    let mut with_regions = 0;
    for word in escape_words(&['<', 'b', '>', '&', '\''], 7) {
        let regions = find_regions(&word, &tags);
        let disjoint = regions.windows(2).all(|pair| pair[0].1 <= pair[1].0);
        if !disjoint {
            continue;
        }
        if !regions.is_empty() {
            with_regions += 1;
        }
        let expected = piecewise(&word, &regions);
        assert_eq!(escape_input_with_html_tags(&word), expected, "{:?}", word);
        assert_eq!(maybe_escape_characters(&word), expected, "{:?}", word);
    }
    assert!(with_regions > 100);
}

#[test]
fn escaping_everything_agrees_with_replacing_one_after_another() {
    for word in escape_words(&['<', '&', '\'', '"', '\\', 'a', ';'], 5) {
        assert_eq!(escape_with_no_html_tags(&word), replace_all(&word), "{:?}", word);
    }
}

#[test]
fn escaping_keeps_overlapping_regions_whole() {
    assert_eq!(
        escape_input_with_html_tags("'<b>'<i>'</b>'</i>'"),
        "\\'<b>'<i>'</b>'</i>\\'"
    );
    assert_eq!(
        escape_input_with_html_tags("<b><big>&</big></b> &"),
        "<b><big>&</big></b> &amp;"
    );
}

#[test]
fn escaping_knows_every_supported_tag() {
    let tags = tag_names();
    assert_eq!(
        tags,
        vec![
            "annotation",
            "a",
            "i",
            "cite",
            "dfn",
            "b",
            "em",
            "big",
            "small",
            "font",
            "tt",
            "s",
            "strike",
            "del",
            "u",
            "sup",
            "sub",
            "ul",
            "li",
            "br",
            "div",
            "span",
            "p"
        ]
    );
    for tag in tags {
        let text = format!("'<{tag}>'</{tag}>'");
        assert_eq!(
            escape_input_with_html_tags(&text),
            format!("\\'<{tag}>'</{tag}>\\'")
        );
    }
}
