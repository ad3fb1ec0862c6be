use utas::android_gen::{
    generate, generate_plural_value, generate_str_value, GenError, GenResult, Line, Locale,
    StrLines,
};
use utas::parse::{File, Key, LocalizedString, PluralValue, Section, StringValue};

fn plain_str(lang: &str, txt: &str) -> LocalizedString {
    LocalizedString {
        language_code: lang.to_string(),
        value: StringValue::Single(txt.to_string()),
    }
}

fn plurals(lang: &str, quantities: Vec<PluralValue>) -> LocalizedString {
    LocalizedString {
        language_code: lang.to_string(),
        value: StringValue::Plural { quantities },
    }
}

fn plural_val(quantity: &str, text: &str) -> PluralValue {
    PluralValue {
        quantity: quantity.to_string(),
        text: text.to_string(),
    }
}

fn key(name: &str, localizations: Vec<LocalizedString>) -> Key {
    Key {
        name: name.to_string(),
        localizations,
    }
}

fn locale(value: &str) -> Locale {
    Locale {
        value: value.to_string(),
    }
}

fn sorted_strings(input: GenResult) -> Vec<(Locale, StrLines)> {
    let mut result = input.value;
    result.sort_by(|a, b| a.0.cmp(&b.0));
    result
}

fn single(name: &str, text: &str) -> Line {
    Line {
        name: name.to_string(),
        value: StringValue::Single(text.to_string()),
    }
}

fn plural(name: &str, items: Vec<PluralValue>) -> Line {
    Line {
        name: name.to_string(),
        value: StringValue::Plural { quantities: items },
    }
}

#[test]
fn android_gen_generate_1_lang_1_str() {
    let localizations_kek = vec![plain_str("ru", "Кек")];
    let keys = vec![key("kek", localizations_kek)];
    let source = File {
        sections: vec![Section { keys }],
    };
    let expected = GenResult {
        value: vec![(
            locale("ru"),
            StrLines {
                value: vec![single("kek", "Кек")],
            },
        )],
    };

    let actual = generate(&source).unwrap();
    assert_eq!(sorted_strings(expected), sorted_strings(actual));
}

#[test]
fn android_gen_generate_1_lang_2_str() {
    let localizations_kek = vec![plain_str("ru", "Кек")];
    let localizations_lil = vec![plain_str("ru", "Лил")];

    let keys = vec![key("kek", localizations_kek), key("lil", localizations_lil)];

    let source = File {
        sections: vec![Section { keys }],
    };
    let expected = GenResult {
        value: vec![(
            locale("ru"),
            StrLines {
                value: vec![single("kek", "Кек"), single("lil", "Лил")],
            },
        )],
    };

    let actual = generate(&source).unwrap();
    assert_eq!(sorted_strings(expected), sorted_strings(actual));
}

#[test]
fn android_gen_generate_3_lang_2_str() {
    let localizations_find = vec![plain_str("ru", "Найти"), plain_str("en", "Find")];
    let localizations_search = vec![
        plain_str("ru", "Поиск"),
        plain_str("mn", "Хайх"),
        plain_str("en", "Search"),
    ];
    let keys = vec![
        Key {
            name: "find".to_string(),
            localizations: localizations_find,
        },
        Key {
            name: "search".to_string(),
            localizations: localizations_search,
        },
    ];
    let source = File {
        sections: vec![Section { keys }],
    };
    let expected = GenResult {
        value: vec![
            (
                locale("ru"),
                StrLines {
                    value: vec![single("find", "Найти"), single("search", "Поиск")],
                },
            ),
            (
                locale("en"),
                StrLines {
                    value: vec![single("find", "Find"), single("search", "Search")],
                },
            ),
            (
                locale("mn"),
                StrLines {
                    value: vec![single("search", "Хайх")],
                },
            ),
        ],
    };

    let actual = generate(&source).unwrap();
    assert_eq!(sorted_strings(expected), sorted_strings(actual));
}

#[test]
fn android_gen_generate_1_lang_1_str_2_placeholders() {
    let localizations_add = vec![LocalizedString {
        language_code: "mn".to_string(),
        value: StringValue::Single("%1$s нэмэх %2$d".to_string()),
    }];
    let keys = vec![key("add", localizations_add)];
    let source = File {
        sections: vec![Section { keys }],
    };
    let expected = GenResult {
        value: vec![(
            locale("mn"),
            StrLines {
                value: vec![single("add", "%1$s нэмэх %2$d")],
            },
        )],
    };

    let actual = generate(&source).unwrap();
    assert_eq!(sorted_strings(expected), sorted_strings(actual));
}

#[test]
fn android_gen_generate_error_if_empty_sections() {
    let source = File { sections: vec![] };

    let actual = generate(&source);
    assert!(actual.is_err());
}

#[test]
fn android_gen_generate_1_lang_1_simple_plural() {
    let localizations_songs = vec![plurals("mn", vec![plural_val("other", "%d дуу")])];
    let keys = vec![Key {
        name: "songs".to_string(),
        localizations: localizations_songs,
    }];
    let source = File {
        sections: vec![Section { keys }],
    };
    let expected = GenResult {
        value: vec![(
            locale("mn"),
            StrLines {
                value: vec![plural(
                    "songs",
                    vec![PluralValue {
                        quantity: "other".to_string(),
                        text: "%d дуу".to_string(),
                    }],
                )],
            },
        )],
    };
    let actual = generate(&source).unwrap();
    assert_eq!(sorted_strings(expected), sorted_strings(actual));
}

#[test]
fn android_gen_generate_1_lang_1_str_1_plurals() {
    let localizations_chicken = vec![plain_str("en", "Chicken")];
    let localizations_cows = vec![plurals(
        "en",
        vec![
            plural_val("one", "%d cow"),
            plural_val("two", "%d cows"),
            plural_val("other", "33 copy-on-writes"),
        ],
    )];
    let keys = vec![
        Key {
            name: "chicken".to_string(),
            localizations: localizations_chicken,
        },
        Key {
            name: "cows".to_string(),
            localizations: localizations_cows,
        },
    ];
    let source = File {
        sections: vec![Section { keys }],
    };
    let expected = GenResult {
        value: vec![(
            locale("en"),
            StrLines {
                value: vec![
                    single("chicken", "Chicken"),
                    plural(
                        "cows",
                        vec![
                            PluralValue {
                                quantity: "one".to_string(),
                                text: "%d cow".to_string(),
                            },
                            PluralValue {
                                quantity: "two".to_string(),
                                text: "%d cows".to_string(),
                            },
                            PluralValue {
                                quantity: "other".to_string(),
                                text: "33 copy-on-writes".to_string(),
                            },
                        ],
                    ),
                ],
            },
        )],
    };

    let actual = generate(&source).unwrap();
    assert_eq!(sorted_strings(expected), sorted_strings(actual));
}

#[test]
fn android_generate_keeps_first_seen_locale_order() {
    let keys = vec![
        key("find", vec![plain_str("ru", "Найти"), plain_str("en", "Find")]),
        key(
            "search",
            vec![
                plain_str("mn", "Хайх"),
                plain_str("en", "Search"),
                plain_str("ru", "Поиск"),
            ],
        ),
    ];
    let source = File {
        sections: vec![Section { keys }],
    };
    let actual = generate(&source).unwrap();
    let expected = vec![
        (
            locale("ru"),
            StrLines {
                value: vec![single("find", "Найти"), single("search", "Поиск")],
            },
        ),
        (
            locale("en"),
            StrLines {
                value: vec![single("find", "Find"), single("search", "Search")],
            },
        ),
        (
            locale("mn"),
            StrLines {
                value: vec![single("search", "Хайх")],
            },
        ),
    ];
    assert_eq!(actual.value, expected);
}

#[test]
fn android_generate_error_names_the_missing_section() {
    let source = File { sections: vec![] };
    match generate(&source) {
        Err(error) => {
            assert_eq!(error, GenError::NoSection);
            assert_eq!(error.message(), "Expected at least one section");
        }
        Ok(_) => panic!("expected an error"),
    }
}

#[test]
fn android_generate_of_section_without_keys_is_empty() {
    let source = File {
        sections: vec![Section { keys: vec![] }],
    };
    let actual = generate(&source).unwrap();
    assert!(actual.value.is_empty());
}

#[test]
fn android_str_value_line() {
    assert_eq!(
        generate_str_value("greet", "Hello %1$s"),
        "<string name=\"greet\">Hello %1$s</string>"
    );
    assert_eq!(generate_str_value("", ""), "<string name=\"\"></string>");
}

#[test]
fn android_plural_value_lines() {
    let rows = generate_plural_value(
        &"cats".to_string(),
        &vec![plural_val("one", "%1$d cat"), plural_val("many", "%1$d cats")],
    );
    assert_eq!(
        rows,
        vec![
            "<plurals name=\"cats\">".to_string(),
            "  <item quantity=\"one\">%1$d cat</item>".to_string(),
            "  <item quantity=\"many\">%1$d cats</item>".to_string(),
            "</plurals>".to_string(),
        ]
    );
    let none = generate_plural_value(&"cats".to_string(), &vec![]);
    assert_eq!(
        none,
        vec!["<plurals name=\"cats\">".to_string(), "</plurals>".to_string()]
    );
}

#[test]
fn android_line_format() {
    assert_eq!(
        single("kek", "Кек").format(),
        vec!["<string name=\"kek\">Кек</string>".to_string()]
    );
    assert_eq!(
        plural("songs", vec![plural_val("other", "%d дуу")]).format(),
        vec![
            "<plurals name=\"songs\">".to_string(),
            "  <item quantity=\"other\">%d дуу</item>".to_string(),
            "</plurals>".to_string(),
        ]
    );
}

#[test]
fn android_resource_file_text() {
    let lines = StrLines {
        value: vec![
            single("chicken", "Chicken"),
            plural(
                "cows",
                vec![plural_val("one", "%d cow"), plural_val("other", "%d cows")],
            ),
        ],
    };
    let expected = "<?xml version=\"1.0\" encoding=\"utf-8\"?>\n\
\n\
<resources>\n\
\x20 <string name=\"chicken\">Chicken</string>\n\
\x20 <plurals name=\"cows\">\n\
\x20   <item quantity=\"one\">%d cow</item>\n\
\x20   <item quantity=\"other\">%d cows</item>\n\
\x20 </plurals>\n\
</resources>\n";
    assert_eq!(lines.resource_file(), expected);
    let empty = StrLines { value: vec![] };
    assert_eq!(
        empty.resource_file(),
        "<?xml version=\"1.0\" encoding=\"utf-8\"?>\n\n<resources>\n</resources>\n"
    );
}

#[test]
fn android_files_per_locale() {
    let result = GenResult {
        value: vec![
            (
                locale("en"),
                StrLines {
                    value: vec![single("a", "A")],
                },
            ),
            (locale("ru"), StrLines { value: vec![] }),
        ],
    };
    let files = result.files("strings");
    assert_eq!(files.len(), 2);
    assert_eq!(files[0].directory, "values-en");
    assert_eq!(files[0].name, "strings.xml");
    assert_eq!(
        files[0].content,
        "<?xml version=\"1.0\" encoding=\"utf-8\"?>\n\n<resources>\n  <string name=\"a\">A</string>\n</resources>\n"
    );
    assert_eq!(files[1].directory, "values-ru");
    assert_eq!(files[1].name, "strings.xml");
}

#[test]
fn android_emits_plural_block_for_parsed_key() {
    let text = "[cats]\n  en:one = %d cat\n  en:many = %d cats\n";
    let file = utas::parse::parse(text).unwrap();
    let keys = &file.sections[0].keys;
    assert_eq!(keys.len(), 1);
    assert_eq!(keys[0].name, "cats");
    assert_eq!(keys[0].localizations.len(), 1);
    assert_eq!(keys[0].localizations[0].language_code, "en");
    assert_eq!(
        keys[0].localizations[0].value,
        StringValue::Plural {
            quantities: vec![plural_val("one", "%d cat"), plural_val("many", "%d cats")]
        }
    );
    let result = generate(&file).unwrap();
    assert_eq!(result.value.len(), 1);
    assert_eq!(result.value[0].0, locale("en"));
    assert_eq!(
        result.value[0].1.value[0].format(),
        vec![
            "<plurals name=\"cats\">".to_string(),
            "  <item quantity=\"one\">%d cat</item>".to_string(),
            "  <item quantity=\"many\">%d cats</item>".to_string(),
            "</plurals>".to_string(),
        ]
    );
}

#[test]
fn android_emits_numbered_placeholders_of_parsed_plural_key() {
    let text = "[bill]\n  en:one = %d ruble for %@\n  en:many = %d rubles for %@\n";
    let file = utas::parse::parse(text).unwrap();
    let result = generate(&file).unwrap();
    let files = result.files("bill");
    assert_eq!(files.len(), 1);
    assert_eq!(files[0].directory, "values-en");
    assert_eq!(files[0].name, "bill.xml");
    assert_eq!(
        files[0].content,
        "<?xml version=\"1.0\" encoding=\"utf-8\"?>\n\n<resources>\n  <plurals name=\"bill\">\n    <item quantity=\"one\">%1$d ruble for %2$s</item>\n    <item quantity=\"many\">%1$d rubles for %2$s</item>\n  </plurals>\n</resources>\n"
    );
}
