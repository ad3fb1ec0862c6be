use utas::ios_gen::{
    fill_absent_translations, generate, generate_for_file, generate_plural_value,
    generate_str_value, locale_code_supported_in_ios, GenError, GenResult, Line, Locale,
    StrLines,
};
use utas::parse::{File, Key, LocalizedString, PluralValue, Section, StringValue};

fn ios_plain_str(lang: &str, txt: &str) -> LocalizedString {
    LocalizedString {
        language_code: lang.to_string(),
        value: StringValue::Single(txt.to_string()),
    }
}

fn ios_plurals(lang: &str, quantities: Vec<PluralValue>) -> LocalizedString {
    LocalizedString {
        language_code: lang.to_string(),
        value: StringValue::Plural { quantities },
    }
}

fn ios_plural_val(quantity: &str, text: &str) -> PluralValue {
    PluralValue {
        quantity: quantity.to_string(),
        text: text.to_string(),
    }
}

fn ios_key(name: &str, localizations: Vec<LocalizedString>) -> Key {
    Key {
        name: name.to_string(),
        localizations,
    }
}

fn ios_locale(value: &str) -> Locale {
    Locale {
        value: value.to_string(),
    }
}

fn ios_sorted_strings(input: GenResult) -> Vec<(Locale, StrLines)> {
    let mut result = input.value;
    result.sort_by(|a, b| a.0.cmp(&b.0));
    result
}

fn ios_single(name: &str, text: &str) -> Line {
    Line {
        name: name.to_string(),
        value: StringValue::Single(text.to_string()),
    }
}

fn ios_plural(name: &str, items: Vec<PluralValue>) -> Line {
    Line {
        name: name.to_string(),
        value: StringValue::Plural { quantities: items },
    }
}

#[test]
fn ios_gen_generate_1_lang_1_str() {
    let localizations_kek = vec![ios_plain_str("ru", "Кек")];
    let keys = vec![ios_key("kek", localizations_kek)];
    let source = File {
        sections: vec![Section { keys }],
    };
    let expected = GenResult {
        value: vec![(
            ios_locale("ru"),
            StrLines {
                value: vec![ios_single("kek", "Кек")],
            },
        )],
    };

    let actual = generate(vec![source], &None).unwrap();
    assert_eq!(ios_sorted_strings(expected), ios_sorted_strings(actual));
}

#[test]
fn ios_gen_generate_1_lang_2_str() {
    let localizations_kek = vec![ios_plain_str("ru", "Кек")];
    let localizations_lil = vec![ios_plain_str("ru", "Лил")];

    let keys = vec![ios_key("kek", localizations_kek), ios_key("lil", localizations_lil)];

    let source = File {
        sections: vec![Section { keys }],
    };
    let expected = GenResult {
        value: vec![(
            ios_locale("ru"),
            StrLines {
                value: vec![ios_single("kek", "Кек"), ios_single("lil", "Лил")],
            },
        )],
    };

    let actual = generate(vec![source], &None).unwrap();
    assert_eq!(ios_sorted_strings(expected), ios_sorted_strings(actual));
}

#[test]
fn ios_gen_generate_3_lang_2_str() {
    let localizations_find = vec![ios_plain_str("ru", "Найти"), ios_plain_str("en", "Find")];
    let localizations_search = vec![
        ios_plain_str("ru", "Поиск"),
        ios_plain_str("mn", "Хайх"),
        ios_plain_str("en", "Search"),
    ];
    let keys = vec![
        Key {
            name: "find".to_string(),
            localizations: localizations_find,
        },
        Key {
            name: "search".to_string(),
            localizations: localizations_search,
        },
    ];
    let source = File {
        sections: vec![Section { keys }],
    };
    let expected = GenResult {
        value: vec![
            (
                ios_locale("ru"),
                StrLines {
                    value: vec![ios_single("find", "Найти"), ios_single("search", "Поиск")],
                },
            ),
            (
                ios_locale("en"),
                StrLines {
                    value: vec![ios_single("find", "Find"), ios_single("search", "Search")],
                },
            ),
            (
                ios_locale("mn"),
                StrLines {
                    value: vec![ios_single("search", "Хайх")],
                },
            ),
        ],
    };

    let actual = generate(vec![source], &None).unwrap();
    assert_eq!(ios_sorted_strings(expected), ios_sorted_strings(actual));
}

#[test]
fn ios_gen_generate_1_lang_1_str_2_placeholders() {
    let localizations_add = vec![LocalizedString {
        language_code: "mn".to_string(),
        value: StringValue::Single("%1$s нэмэх %2$d".to_string()),
    }];
    let keys = vec![ios_key("add", localizations_add)];
    let source = File {
        sections: vec![Section { keys }],
    };
    let expected = GenResult {
        value: vec![(
            ios_locale("mn"),
            StrLines {
                value: vec![ios_single("add", "%1$s нэмэх %2$d")],
            },
        )],
    };

    let actual = generate(vec![source], &None).unwrap();
    assert_eq!(ios_sorted_strings(expected), ios_sorted_strings(actual));
}

#[test]
fn ios_gen_generate_error_if_empty_sections() {
    let source = File { sections: vec![] };

    let actual = generate(vec![source], &None);
    assert!(actual.is_err());
}

#[test]
fn ios_gen_generate_1_lang_1_simple_plural() {
    let localizations_songs = vec![ios_plurals("mn", vec![ios_plural_val("other", "%d дуу")])];
    let keys = vec![Key {
        name: "songs".to_string(),
        localizations: localizations_songs,
    }];
    let source = File {
        sections: vec![Section { keys }],
    };
    let expected = GenResult {
        value: vec![(
            ios_locale("mn"),
            StrLines {
                value: vec![ios_plural(
                    "songs",
                    vec![PluralValue {
                        quantity: "other".to_string(),
                        text: "%d дуу".to_string(),
                    }],
                )],
            },
        )],
    };
    let actual = generate(vec![source], &None).unwrap();
    assert_eq!(ios_sorted_strings(expected), ios_sorted_strings(actual));
}

#[test]
fn ios_gen_generate_1_lang_1_str_1_plurals() {
    let localizations_chicken = vec![ios_plain_str("en", "Chicken")];
    let localizations_cows = vec![ios_plurals(
        "en",
        vec![
            ios_plural_val("one", "%d cow"),
            ios_plural_val("two", "%d cows"),
            ios_plural_val("other", "33 copy-on-writes"),
        ],
    )];
    let keys = vec![
        Key {
            name: "chicken".to_string(),
            localizations: localizations_chicken,
        },
        Key {
            name: "cows".to_string(),
            localizations: localizations_cows,
        },
    ];
    let source = File {
        sections: vec![Section { keys }],
    };
    let expected = GenResult {
        value: vec![(
            ios_locale("en"),
            StrLines {
                value: vec![
                    ios_single("chicken", "Chicken"),
                    ios_plural(
                        "cows",
                        vec![
                            PluralValue {
                                quantity: "one".to_string(),
                                text: "%d cow".to_string(),
                            },
                            PluralValue {
                                quantity: "two".to_string(),
                                text: "%d cows".to_string(),
                            },
                            PluralValue {
                                quantity: "other".to_string(),
                                text: "33 copy-on-writes".to_string(),
                            },
                        ],
                    ),
                ],
            },
        )],
    };

    let actual = generate(vec![source], &None).unwrap();
    assert_eq!(ios_sorted_strings(expected), ios_sorted_strings(actual));
}


fn ios_entries(result: &GenResult) -> Vec<(String, Vec<(String, StringValue)>)> {
    result
        .value
        .iter()
        .map(|(locale, lines)| {
            (
                locale.value.clone(),
                lines
                    .value
                    .iter()
                    .map(|line| (line.name.clone(), line.value.clone()))
                    .collect(),
            )
        })
        .collect()
}

fn ios_text(name: &str, text: &str) -> (String, StringValue) {
    (name.to_string(), StringValue::Single(text.to_string()))
}

#[test]
fn ios_fallback_fills_missing_keys_from_default_locale() {
    let keys = vec![
        ios_key(
            "greet",
            vec![ios_plain_str("en", "Hello"), ios_plain_str("fr", "Bonjour")],
        ),
        ios_key("bye", vec![ios_plain_str("en", "Bye")]),
    ];
    let source = File {
        sections: vec![Section { keys }],
    };
    let actual = generate(vec![source], &Some("en".to_string())).unwrap();
    assert_eq!(
        ios_entries(&actual),
        vec![
            (
                "en".to_string(),
                vec![ios_text("greet", "Hello"), ios_text("bye", "Bye")]
            ),
            (
                "fr".to_string(),
                vec![ios_text("greet", "Bonjour"), ios_text("bye", "Bye")]
            ),
        ]
    );
}

#[test]
fn ios_no_fallback_without_default_locale() {
    let keys = vec![
        ios_key(
            "greet",
            vec![ios_plain_str("en", "Hello"), ios_plain_str("fr", "Bonjour")],
        ),
        ios_key("bye", vec![ios_plain_str("en", "Bye")]),
    ];
    let source = File {
        sections: vec![Section { keys }],
    };
    let actual = generate(vec![source], &None).unwrap();
    assert_eq!(
        ios_entries(&actual),
        vec![
            (
                "en".to_string(),
                vec![ios_text("greet", "Hello"), ios_text("bye", "Bye")]
            ),
            ("fr".to_string(), vec![ios_text("greet", "Bonjour")]),
        ]
    );
}

#[test]
fn ios_fallback_with_unknown_default_locale_changes_nothing() {
    let keys = vec![ios_key(
        "greet",
        vec![ios_plain_str("en", "Hello"), ios_plain_str("fr", "Bonjour")],
    )];
    let source = File {
        sections: vec![Section { keys }],
    };
    let actual = generate(vec![source], &Some("de".to_string())).unwrap();
    assert_eq!(
        ios_entries(&actual),
        vec![
            ("en".to_string(), vec![ios_text("greet", "Hello")]),
            ("fr".to_string(), vec![ios_text("greet", "Bonjour")]),
        ]
    );
}

#[test]
fn ios_fallback_is_idempotent() {
    let keys = vec![
        ios_key(
            "greet",
            vec![ios_plain_str("en", "Hello"), ios_plain_str("fr", "Bonjour")],
        ),
        ios_key("bye", vec![ios_plain_str("en", "Bye")]),
        ios_key(
            "cats",
            vec![
                ios_plurals("en", vec![ios_plural_val("other", "%d cats")]),
                ios_plain_str("de", "Katzen"),
            ],
        ),
    ];
    let source = File {
        sections: vec![Section { keys }],
    };
    let default = Some("en".to_string());
    let mut result = generate(vec![source], &None).unwrap();
    fill_absent_translations(&mut result, &default);
    let once = ios_entries(&result);
    fill_absent_translations(&mut result, &default);
    let twice = ios_entries(&result);
    assert_eq!(once, twice);
    assert_eq!(
        once,
        vec![
            (
                "en".to_string(),
                vec![
                    ios_text("greet", "Hello"),
                    ios_text("bye", "Bye"),
                    (
                        "cats".to_string(),
                        StringValue::Plural {
                            quantities: vec![ios_plural_val("other", "%d cats")]
                        }
                    ),
                ]
            ),
            (
                "fr".to_string(),
                vec![
                    ios_text("greet", "Bonjour"),
                    ios_text("bye", "Bye"),
                    (
                        "cats".to_string(),
                        StringValue::Plural {
                            quantities: vec![ios_plural_val("other", "%d cats")]
                        }
                    ),
                ]
            ),
            (
                "de".to_string(),
                vec![
                    ios_text("cats", "Katzen"),
                    ios_text("greet", "Hello"),
                    ios_text("bye", "Bye"),
                ]
            ),
        ]
    );
}

#[test]
fn ios_fallback_copies_one_line_per_name() {
    let keys = vec![
        ios_key("cats", vec![ios_plain_str("en", "Cats")]),
        ios_key(
            "cats",
            vec![ios_plurals("en", vec![ios_plural_val("other", "%d cats")])],
        ),
        ios_key("dogs", vec![ios_plain_str("fr", "Chiens")]),
    ];
    let source = File {
        sections: vec![Section { keys }],
    };
    let actual = generate(vec![source], &Some("en".to_string())).unwrap();
    assert_eq!(
        ios_entries(&actual)[1],
        (
            "fr".to_string(),
            vec![ios_text("dogs", "Chiens"), ios_text("cats", "Cats")]
        )
    );
}

#[test]
fn ios_merges_files_in_input_order() {
    let first = File {
        sections: vec![Section {
            keys: vec![ios_key(
                "a",
                vec![ios_plain_str("en", "A1"), ios_plain_str("ru", "А1")],
            )],
        }],
    };
    let second = File {
        sections: vec![Section {
            keys: vec![ios_key(
                "b",
                vec![ios_plain_str("mn", "B2"), ios_plain_str("en", "B1")],
            )],
        }],
    };
    let actual = generate(vec![first, second], &None).unwrap();
    assert_eq!(
        ios_entries(&actual),
        vec![
            (
                "en".to_string(),
                vec![ios_text("a", "A1"), ios_text("b", "B1")]
            ),
            ("ru".to_string(), vec![ios_text("a", "А1")]),
            ("mn".to_string(), vec![ios_text("b", "B2")]),
        ]
    );
}

#[test]
fn ios_generate_errors() {
    match generate(vec![], &None) {
        Err(error) => {
            assert_eq!(error, GenError::NoSource);
            assert_eq!(
                error.message(),
                "Expected at least one successfuly generated file"
            );
        }
        Ok(_) => panic!("expected an error"),
    }
    let good = File {
        sections: vec![Section {
            keys: vec![ios_key("a", vec![ios_plain_str("en", "A")])],
        }],
    };
    let empty = File { sections: vec![] };
    match generate(vec![good, empty], &None) {
        Err(error) => {
            assert_eq!(error, GenError::NoSection);
            assert_eq!(error.message(), "Expected at least one section");
        }
        Ok(_) => panic!("expected an error"),
    }
}

#[test]
fn ios_generate_for_one_file() {
    let source = File {
        sections: vec![Section {
            keys: vec![ios_key(
                "a",
                vec![ios_plain_str("en", "A"), ios_plain_str("ru", "А")],
            )],
        }],
    };
    let actual = generate_for_file(&source).unwrap();
    assert_eq!(
        ios_entries(&actual),
        vec![
            ("en".to_string(), vec![ios_text("a", "A")]),
            ("ru".to_string(), vec![ios_text("a", "А")]),
        ]
    );
    let empty = File { sections: vec![] };
    assert!(matches!(
        generate_for_file(&empty),
        Err(GenError::NoSection)
    ));
}

#[test]
fn ios_lines_are_equal_by_name() {
    assert_eq!(ios_single("a", "one"), ios_single("a", "two"));
    assert_ne!(ios_single("a", "one"), ios_single("b", "one"));
}

#[test]
fn ios_every_locale_code_is_supported() {
    assert!(locale_code_supported_in_ios("en"));
    assert!(locale_code_supported_in_ios(""));
}

#[test]
fn ios_str_value_line() {
    assert_eq!(
        generate_str_value("greet", "Hello %1$s"),
        "\"greet\" = \"Hello %1$s\";"
    );
    assert_eq!(generate_str_value("kek", "Кек"), "\"kek\" = \"Кек\";");
    assert_eq!(generate_str_value("", ""), "\"\" = \"\";");
}

#[test]
fn ios_plural_value_rows() {
    let rows = generate_plural_value(
        &"cats".to_string(),
        &vec![ios_plural_val("one", "%d cat"), ios_plural_val("other", "%d cats")],
    );
    assert_eq!(
        rows,
        vec![
            "    <key>cats</key>".to_string(),
            "    <dict>".to_string(),
            "      <key>NSStringLocalizedFormatKey</key>".to_string(),
            "      <string>%#@value@</string>".to_string(),
            "      <key>value</key>".to_string(),
            "      <dict>".to_string(),
            "        <key>NSStringFormatSpecTypeKey</key>".to_string(),
            "        <string>NSStringPluralRuleType</string>".to_string(),
            "        <key>NSStringFormatValueTypeKey</key>".to_string(),
            "        <string>d</string>".to_string(),
            "        <key>one</key>".to_string(),
            "        <string>%d cat</string>".to_string(),
            "        <key>other</key>".to_string(),
            "        <string>%d cats</string>".to_string(),
            "      </dict>".to_string(),
            "    </dict>".to_string(),
        ]
    );
}

#[test]
fn ios_files_per_locale() {
    let result = GenResult {
        value: vec![(
            ios_locale("en"),
            StrLines {
                value: vec![
                    ios_single("greet", "Hello"),
                    ios_plural("cats", vec![ios_plural_val("other", "%d cats")]),
                    ios_single("bye", "Bye"),
                ],
            },
        )],
    };
    let files = result.files("Localizable");
    assert_eq!(files.len(), 2);
    assert_eq!(files[0].directory, "en.lproj");
    assert_eq!(files[0].name, "Localizable.strings");
    assert_eq!(
        files[0].content,
        "\"greet\" = \"Hello\";\n\"bye\" = \"Bye\";\n"
    );
    assert_eq!(files[1].directory, "en.lproj");
    assert_eq!(files[1].name, "Localizable.stringsdict");
    let expected = "<?xml version=\"1.0\" encoding=\"UTF-8\"?>\n\
<!DOCTYPE plist PUBLIC \"-//Apple//DTD PLIST 1.0//EN\" \"http://www.apple.com/DTDs/PropertyList-1.0.dtd\">\n\
<plist version=\"1.0\">\n\
\x20 <dict>\n\
\x20   <key>cats</key>\n\
\x20   <dict>\n\
\x20     <key>NSStringLocalizedFormatKey</key>\n\
\x20     <string>%#@value@</string>\n\
\x20     <key>value</key>\n\
\x20     <dict>\n\
\x20       <key>NSStringFormatSpecTypeKey</key>\n\
\x20       <string>NSStringPluralRuleType</string>\n\
\x20       <key>NSStringFormatValueTypeKey</key>\n\
\x20       <string>d</string>\n\
\x20       <key>other</key>\n\
\x20       <string>%d cats</string>\n\
\x20     </dict>\n\
\x20   </dict>\n\
\x20 </dict>\n\
</plist>\n";
    assert_eq!(files[1].content, expected);
}

#[test]
fn ios_default_lines_are_empty() {
    assert!(StrLines::default().value.is_empty());
}
