use regex::{Captures, Regex};
use utas::escape::android_supported_tags;
use utas::parse::parse_localized_string_value;

const PARTS: &str = r"([-+0#,])?(\d+|\*)?(\.(\d+|\*))?(hh?|ll?|L|z|j|t|q)?";
const KINDS: &str = "[diufFeEgGxXoscpaA@]";

struct Patterns {
    placeholder: Regex,
    unnumbered: Regex,
    object: Regex,
    windows: Regex,
    tags: Vec<String>,
}

fn patterns() -> Patterns {
    Patterns {
        placeholder: Regex::new(&format!(r"%(\d+\$)?{}{}", PARTS, KINDS)).unwrap(),
        unnumbered: Regex::new(&format!(r"%({}{})", PARTS, KINDS)).unwrap(),
        object: Regex::new(&format!(r"%((\d+\$)?{})@", PARTS)).unwrap(),
        windows: Regex::new(r"([^%][%][^%]|[^%][%]$|^[%]$|^[%][^%])").unwrap(),
        tags: android_supported_tags()
            .into_iter()
            .map(|tag| tag.into_iter().collect())
            .collect(),
    }
}

fn replace_specials(input: &str) -> String {
    input
        .replace("&", "&amp;")
        .replace("<", "&lt;")
        .replace("'", "\\'")
        .replace("\"", "\\\"")
}

fn escape_by_regions(input: &str, tags: &[String]) -> Option<String> {
    let mut regions: Vec<(usize, usize)> = Vec::new();
    for tag in tags {
        let mut start = 0;
        while start < input.len() {
            let Some(s) = input[start..].find(&format!("<{tag}")) else {
                break;
            };
            let abs_start = start + s;
            let Some(e) = input[abs_start + tag.len() + 1..].find(&format!("{tag}>")) else {
                break;
            };
            let abs_end = (abs_start + tag.len() + 1) + e + (tag.len() + 1);
            regions.push((abs_start, abs_end));
            start = abs_end;
        }
    }
    regions.sort_by_key(|r| r.0);
    if regions.windows(2).any(|pair| pair[0].1 > pair[1].0) {
        return None;
    }
    let mut result = String::new();
    let mut at = 0;
    for region in &regions {
        result.push_str(&replace_specials(&input[at..region.0]));
        result.push_str(&input[region.0..region.1]);
        at = region.1;
    }
    result.push_str(&replace_specials(&input[at..]));
    Some(result)
}

fn lone_percent_at(word: &[char], i: usize) -> bool {
    word[i] == '%'
        && (i == 0 || word[i - 1] != '%')
        && (i + 1 == word.len() || word[i + 1] != '%')
}

fn double_by_windows(input: &str, patterns: &Patterns) -> Option<String> {
    let chars: Vec<char> = input.chars().collect();
    if (2..chars.len()).any(|i| lone_percent_at(&chars, i) && lone_percent_at(&chars, i - 2)) {
        return None;
    }
    Some(
        patterns
            .windows
            .replace_all(input, |caps: &Captures| {
                let whole = caps.get(0).unwrap();
                let start = whole.start() + whole.as_str().find('%').unwrap();
                let is_placeholder = matches!(
                    patterns.placeholder.find_at(input, start),
                    Some(found) if found.start() == start
                );
                if is_placeholder {
                    whole.as_str().to_string()
                } else {
                    whole.as_str().replace('%', "%%")
                }
            })
            .to_string(),
    )
}

fn transform_by_patterns(input: &str, patterns: &Patterns) -> Option<String> {
    let escaped = escape_by_regions(input, &patterns.tags)?;
    let doubled = double_by_windows(&escaped, patterns)?;
    if !patterns.placeholder.is_match(&doubled) {
        return Some(doubled);
    }
    let converted = patterns.object.replace_all(&doubled, r"%${1}s").to_string();
    if patterns.unnumbered.find_iter(&converted).count() <= 1 {
        return Some(converted);
    }
    let mut i = 0;
    Some(
        patterns
            .unnumbered
            .replace_all(&converted, |caps: &Captures| {
                i += 1;
                format!("%{}${}", i, &caps[1])
            })
            .to_string(),
    )
}

fn all_words(alphabet: &[char], max_len: usize) -> Vec<String> {
    let mut all = vec![String::new()];
    let mut last = vec![String::new()];
    for _ in 0..max_len {
        let mut next = Vec::new();
        for word in &last {
            for c in alphabet {
                let mut longer = word.clone();
                longer.push(*c);
                next.push(longer);
            }
        }
        all.extend(next.iter().cloned());
        last = next;
    }
    all
}

#[test]
fn transform_agrees_with_the_patterns_on_short_words() {
    let patterns = patterns();
    let mut compared = 0;
    for word in all_words(&['%', 'd', '@', '1', '$', ' ', '&', '<', 'b', '>'], 5) {
        if let Some(expected) = transform_by_patterns(&word, &patterns) {
            let actual = parse_localized_string_value(word.clone()).unwrap();
            assert_eq!(actual, expected, "{:?}", word);
            compared += 1;
        }
    }
    assert!(compared > 90_000);
}

#[test]
fn transform_agrees_with_the_patterns_on_sentences() {
    let patterns = patterns();
    for sentence in [
        "Lorem %@ ipsum %.2f sir %,d amet %%",
        "Lorem %3$@ ipsum %1$.2f sir %2$,d amet",
        "100% Lorem %@ ipsum %.2f 20% sir %d amet 8% and %% untouched, ending with 42%",
        "% of 100% Lorem ipsum amet 8% and %% untouched, ending with 42%",
        "У нас было <b>38</b> попугаев в <i>чистой</i> \"упаковке\" & %d%%",
        "<a href=\"x?a=1&b=%d\">%@</a> & <span class='c'>%lld</span> 'x' %5.2Lf",
        "<li>%@</li><li>%@</li> 5 < 6 && 7 > 6",
        "%1$@ %@ %2$d %hhd %#x %+d %-5s %05d %*d %.*f",
    ] {
        let expected = transform_by_patterns(sentence, &patterns).unwrap();
        let actual = parse_localized_string_value(sentence.to_string()).unwrap();
        assert_eq!(actual, expected, "{:?}", sentence);
    }
}
