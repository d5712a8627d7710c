use kma_parser::config::{parse_group_number, ConfigParams, CourseChecker, SpecialtyConfig};
use kma_parser::text::ParseFailure;

fn specialty(name: &str) -> SpecialtyConfig {
    SpecialtyConfig { aliases: vec![], name: name.to_string() }
}

fn failure(input: &str) -> ParseFailure {
    ParseFailure { input: input.to_string() }
}

#[test]
fn test_default_identify_specialites() {
    let config = ConfigParams {
        default_specialty: "Default".to_string(),
        specialties_configs: vec![SpecialtyConfig {
            name: "Default".to_string(),
            aliases: vec![],
        }],
    };

    let result = config.identify_sepecialties("abc (def)");
    assert_eq!(result.unwrap(), vec!["Default".to_string()])
}

#[test]
fn test_identify_specialties() {
    {
        let config = ConfigParams {
            default_specialty: "Default".to_string(),
            specialties_configs: vec![
                SpecialtyConfig {
                    aliases: vec![],
                    name: "Default".to_string(),
                },
                SpecialtyConfig {
                    aliases: vec![],
                    name: "Hello".to_string(),
                },
                SpecialtyConfig {
                    aliases: vec![],
                    name: "There".to_string(),
                },
            ],
        };

        let result = config.identify_sepecialties("abc (Hello., There.)");
        assert_eq!(
            result.unwrap(),
            vec!["Hello".to_string(), "There".to_string()]
        );
    }

    {
        let config = ConfigParams {
            default_specialty: "Default".to_string(),
            specialties_configs: vec![
                SpecialtyConfig {
                    aliases: vec![],
                    name: "Default".to_string(),
                },
                SpecialtyConfig {
                    name: "Маркетинг".to_string(),
                    aliases: vec![],
                },
            ],
        };

        let result = config.identify_sepecialties(
            "Digital – маркетинг (марк.) доц. Пічик К.В., доц. Козченко Я.В., ст.викл. Мельник В.В.",
        );
        assert_eq!(result.unwrap(), vec!["Маркетинг".to_string()]);
    }

    {
        let config = ConfigParams {
            default_specialty: "Default".to_string(),
            specialties_configs: vec![SpecialtyConfig {
                aliases: vec![],
                name: "Default".to_string(),
            }],
        };

        let result = config.identify_sepecialties(
            "Методи об'єктно-орієнтованого програмування, доц. В.В. Бублик",
        );
        assert_eq!(result.unwrap(), vec!["Default".to_string()]);
    }

    {
        let config = ConfigParams {
            default_specialty: "Error".to_string(),
            specialties_configs: vec![
                SpecialtyConfig {
                    name: "Економіка".to_string(),
                    aliases: vec![],
                },
                SpecialtyConfig {
                    name: "Маркетинг".to_string(),
                    aliases: vec![],
                },
                SpecialtyConfig {
                    name: "Менеджмент".to_string(),
                    aliases: vec![],
                },
                SpecialtyConfig {
                    name: "Фінанси".to_string(),
                    aliases: vec![],
                },
            ],
        };

        let result = config.identify_sepecialties(
            "Digital – маркетинг (марк.) доц. Пічик К.В., доц. Козченко Я.В., ст.викл. Мельник В.В.",
        );
        assert_eq!(result.unwrap(), vec!["Маркетинг".to_string()]);
    }
}

#[test]
fn test_alias() {
    let alias = SpecialtyConfig {
        aliases: vec![],
        name: "Маркетинг".to_string(),
    };

    assert!(alias.matches("Марк."));
    assert!(alias.matches("марк."));
    assert!(alias.matches("Мар."));
    assert!(alias.matches("М"));
    assert!(alias.matches("Ма"));
}

#[test]
fn alias_matches_part_of_name_and_listed_aliases() {
    let finance = SpecialtyConfig { aliases: vec!["фін".to_string()], name: "Фінанси".to_string() };
    // a lower-case part of the name, anywhere in it
    assert!(finance.matches("нанси"));
    assert!(finance.matches("НАНС."));
    // listed aliases are compared with the lower-case, dot-less form
    assert!(finance.matches("ФІН."));
    // one final period only is dropped
    assert!(!finance.matches("фін.."));
    assert!(!finance.matches("екон"));
    // the empty alias is part of every name
    assert!(finance.matches("."));
}

#[test]
fn alias_matches_with_or_without_period_and_in_any_case() {
    let marketing = specialty("Маркетинг");
    for alias in ["Марк", "Марк.", "МАРК", "марк.", "кетинг", "Кетинг."] {
        assert!(marketing.matches(alias), "{alias}");
    }
    for alias in ["Мкр", "Мкр.", "маркетинги"] {
        assert!(!marketing.matches(alias), "{alias}");
    }
}

#[test]
fn name_for_alias_takes_first_match() {
    let config = ConfigParams {
        default_specialty: "Економіка".to_string(),
        specialties_configs: vec![specialty("Економіка"), specialty("Екологія")],
    };
    assert_eq!(config.name_for_alias("ек."), Some("Економіка".to_string()));
    assert_eq!(config.name_for_alias("екол"), Some("Екологія".to_string()));
    assert_eq!(config.name_for_alias("мен"), None);
}

#[test]
fn identify_reports_where_parsing_stopped() {
    let config = ConfigParams {
        default_specialty: "Default".to_string(),
        specialties_configs: vec![specialty("Default"), specialty("Маркетинг")],
    };
    // a title that starts with `(`
    assert_eq!(config.identify_sepecialties("(марк.) x"), Err(failure("(марк.) x")));
    // an empty parenthesised part
    assert_eq!(config.identify_sepecialties("x ()"), Err(failure(")")));
    // a `(` that ends the title
    assert_eq!(config.identify_sepecialties("x ("), Err(failure("")));
    // an unclosed part is read to the end
    assert_eq!(config.identify_sepecialties("x (марк."), Ok(vec!["Маркетинг".to_string()]));
    // several parts, in order, unknown tokens skipped
    assert_eq!(
        config.identify_sepecialties("a (xyz + марк) b (def)"),
        Ok(vec!["Маркетинг".to_string(), "Default".to_string()])
    );
    assert_eq!(config.identify_sepecialties(""), Ok(vec!["Default".to_string()]));
}

#[test]
fn try_identify_refuses_unknown_default() {
    let config = ConfigParams {
        default_specialty: "Error".to_string(),
        specialties_configs: vec![specialty("Маркетинг")],
    };
    assert_eq!(config.try_identify_specialties("no specialty here"), None);
    assert_eq!(
        config.try_identify_specialties("a (марк.)"),
        Some(Ok(vec!["Маркетинг".to_string()]))
    );
    assert_eq!(config.try_identify_specialties("(x"), Some(Err(failure("(x"))));
}

#[test]
fn has_course_names_inside_looks_up_tokens() {
    let config = ConfigParams {
        default_specialty: "Маркетинг".to_string(),
        specialties_configs: vec![specialty("Маркетинг"), specialty("Менеджмент")],
    };
    assert!(config.has_course_names_inside("екон.+мен."));
    assert!(!config.has_course_names_inside("лаб"));
    assert!(!config.has_course_names_inside("  "));
}

#[test]
fn normalize_drops_specialty_lists() {
    let config = ConfigParams {
        default_specialty: "Маркетинг".to_string(),
        specialties_configs: vec![specialty("Маркетинг")],
    };
    assert_eq!(
        config.normalize_title("Digital – маркетинг (марк.) доц. Пічик К.В."),
        Ok("Digital – маркетинг доц. Пічик К.В.".to_string())
    );
    assert_eq!(config.normalize_title("Math (lab) x"), Ok("Math (lab) x".to_string()));
    assert_eq!(config.normalize_title("Math (марк.)"), Ok("Math ".to_string()));
    assert_eq!(config.normalize_title("plain title"), Ok("plain title".to_string()));
    assert_eq!(config.normalize_title(""), Ok("".to_string()));
    assert_eq!(config.normalize_title("x ()"), Err(failure(")")));
    assert_eq!(config.normalize_title("x (lab"), Err(failure("")));
    assert_eq!(config.normalize_title("x ("), Err(failure("")));
}

#[test]
fn parse_group_number_reads_lecture_or_digits() {
    assert_eq!(parse_group_number("3-4, 5 rest"), Ok((" 5 rest", "3-4,")));
    assert_eq!(parse_group_number("Лекція 2"), Ok((" 2", "Лекція")));
    assert_eq!(parse_group_number("ЛЕКЦІЯ"), Ok(("", "ЛЕКЦІЯ")));
    assert_eq!(parse_group_number("лекці"), Err(failure("лекці")));
    assert_eq!(parse_group_number("група 1"), Err(failure("група 1")));
    assert_eq!(parse_group_number(""), Err(failure("")));
}

#[test]
fn parse_groups_maps_every_specialty() {
    let config = ConfigParams {
        default_specialty: "A".to_string(),
        specialties_configs: vec![specialty("A"), specialty("B")],
    };
    let specialties = vec!["A".to_string(), "B".to_string(), "A".to_string()];
    let groups = config.parse_groups(&specialties, "  1-2 ").unwrap();
    assert_eq!(groups.len(), 2);
    assert_eq!(groups.get(&"A".to_string()), Some(&"1-2".to_string()));
    assert_eq!(groups.get(&"B".to_string()), Some(&"1-2".to_string()));
    let lecture = config.parse_groups(&specialties, "Лекція").unwrap();
    assert_eq!(lecture.get(&"B".to_string()), Some(&"Лекція".to_string()));
    assert_eq!(config.parse_groups(&specialties, " x1 ").err(), Some(failure("x1")));
    assert_eq!(config.parse_groups(&vec![], "abc").err(), Some(failure("abc")));
}

#[test]
fn normalizing_twice_changes_nothing() {
    let config = ConfigParams {
        default_specialty: "Маркетинг".to_string(),
        specialties_configs: vec![specialty("Маркетинг"), specialty("Фінанси")],
    };
    for title in [
        "Digital – маркетинг (марк.) доц. Пічик К.В.",
        "(lab)(марк.)x",
        "a (b (c) d (фін.) e",
        "Math (lab) x (фін.+марк.)",
        "plain",
    ] {
        let once = config.normalize_title(title).unwrap();
        assert_eq!(config.normalize_title(&once), Ok(once.clone()), "{title}");
    }
    assert_eq!(config.normalize_title("(lab)(марк.)x"), Ok("(lab)x".to_string()));
}
