use lexer_search_ui::config::{Language, MatchingUnit, PlaygroundConfig};
use lexer_search_ui::binfmt::{config_from_bytes, config_to_bytes};
use lexer_search_ui::compile::{
    default_group_cap, default_max_concurrent_matches, default_max_token_length, LexerFamily,
};

fn tricky_config() -> PlaygroundConfig {
    PlaygroundConfig {
        subject: String::from("line one\nline \"two\"\\\r\n"),
        language: Language::Py,
        lhs: vec![MatchingUnit {
            patterns: vec![String::from("a: \"b\"\nnext"), String::from("")],
            name: String::from("na\"me"),
            group: String::from("g\\1"),
            out: vec![
                (String::from("key: colon"), String::from("va\nlue")),
                (String::from(""), String::from("")),
            ],
            transform: vec![(String::from("_X"), String::from("^\\{(?<y>[^}]+)}$"))],
        }],
    }
}

fn assert_config_eq(a: &PlaygroundConfig, b: &PlaygroundConfig) {
    assert_eq!(a.subject, b.subject);
    assert_eq!(a.language, b.language);
    assert_eq!(a.lhs.len(), b.lhs.len());
    for (ua, ub) in a.lhs.iter().zip(b.lhs.iter()) {
        assert_eq!(ua.patterns, ub.patterns);
        assert_eq!(ua.name, ub.name);
        assert_eq!(ua.group, ub.group);
        assert_eq!(ua.out, ub.out);
        assert_eq!(ua.transform, ub.transform);
    }
}

#[test]
fn editor_round_trip_default() {
    let (lhs, subject, lang) = PlaygroundConfig::default().to_editor_parts();
    let back = PlaygroundConfig::from_editor_parts(&subject, &lang, &lhs).unwrap();
    assert_config_eq(&back, &PlaygroundConfig::default());
}

#[test]
fn editor_round_trip_tricky_strings() {
    let (lhs, subject, lang) = tricky_config().to_editor_parts();
    let back = PlaygroundConfig::from_editor_parts(&subject, &lang, &lhs).unwrap();
    assert_config_eq(&back, &tricky_config());
}

#[test]
fn editor_parts_exact_rendering() {
    let c = PlaygroundConfig {
        subject: String::from("body"),
        language: Language::Rust,
        lhs: vec![MatchingUnit {
            patterns: vec![String::from("a")],
            name: String::from("n"),
            group: String::from(""),
            out: vec![],
            transform: vec![(String::from("k"), String::from("v"))],
        }],
    };
    let (lhs, subject, lang) = c.to_editor_parts();
    assert_eq!(subject, "body");
    assert_eq!(lang, "rust");
    assert_eq!(
        lhs,
        "- unit\n  name: \"n\"\n  group: \"\"\n  patterns:\n    - \"a\"\n  out:\n  transform:\n    - \"k\": \"v\"\n"
    );
}

#[test]
fn editor_rendering_escapes() {
    let c = PlaygroundConfig {
        subject: String::new(),
        language: Language::C,
        lhs: vec![MatchingUnit {
            patterns: vec![],
            name: String::from("a\"b\\c\nd\re"),
            group: String::from(""),
            out: vec![],
            transform: vec![],
        }],
    };
    let (lhs, _, _) = c.to_editor_parts();
    assert_eq!(
        lhs,
        "- unit\n  name: \"a\\\"b\\\\c\\nd\\re\"\n  group: \"\"\n  patterns:\n  out:\n  transform:\n"
    );
}

#[test]
fn from_editor_parts_rejects_malformed_rules() {
    let r = PlaygroundConfig::from_editor_parts("s", "rust", "- unit\n  nome: \"x\"\n");
    assert_eq!(r.unwrap_err(), "malformed rule text");
    let r2 = PlaygroundConfig::from_editor_parts("s", "rust", "- unit\n");
    assert_eq!(r2.unwrap_err(), "malformed rule text");
    let r3 = PlaygroundConfig::from_editor_parts(
        "s",
        "rust",
        "- unit\n  name: \"n\"\n  group: \"\"\n  patterns:\n  out:\n  transform:\ntrailing",
    );
    assert_eq!(r3.unwrap_err(), "malformed rule text");
}

#[test]
fn from_editor_parts_rejects_unknown_language() {
    let r = PlaygroundConfig::from_editor_parts("s", "fortran", "");
    assert_eq!(r.unwrap_err(), "unrecognized language tag");
    let r2 = PlaygroundConfig::from_editor_parts("s", "Rust", "");
    assert_eq!(r2.unwrap_err(), "unrecognized language tag");
}

#[test]
fn from_editor_parts_empty_rules_ok() {
    let c = PlaygroundConfig::from_editor_parts("subject text", "go", "").unwrap();
    assert_eq!(c.subject, "subject text");
    assert_eq!(c.language, Language::Go);
    assert!(c.lhs.is_empty());
}

#[test]
fn language_display_mapping_total() {
    let expected = [
        (Language::C, "c"),
        (Language::Cpp, "cpp"),
        (Language::CSharp, "csharp"),
        (Language::Go, "go"),
        (Language::Java, "java"),
        (Language::Js, "javascript"),
        (Language::Kotlin, "kotlin"),
        (Language::Py, "python"),
        (Language::Rust, "rust"),
        (Language::Ts, "typescript"),
    ];
    for (lang, name) in expected {
        let c = PlaygroundConfig { subject: String::new(), language: lang, lhs: vec![] };
        let (lhs, subject, display) = c.to_editor_parts();
        assert_eq!(display, name);
        let back = PlaygroundConfig::from_editor_parts(&subject, &display, &lhs).unwrap();
        assert_eq!(back.language, lang);
    }
}

#[test]
fn lexer_dispatch_per_language() {
    let families = [
        (Language::C, LexerFamily::CLike, false),
        (Language::Cpp, LexerFamily::CLike, false),
        (Language::CSharp, LexerFamily::CLike, false),
        (Language::Java, LexerFamily::CLike, false),
        (Language::Go, LexerFamily::CLike, true),
        (Language::Js, LexerFamily::CLike, true),
        (Language::Ts, LexerFamily::CLike, true),
        (Language::Kotlin, LexerFamily::CLike, true),
        (Language::Py, LexerFamily::PythonLike, false),
        (Language::Rust, LexerFamily::RustLike, false),
    ];
    for (lang, family, bracket) in families {
        let c = PlaygroundConfig {
            subject: String::from("s"),
            language: lang,
            lhs: vec![MatchingUnit {
                patterns: vec![String::from("p")],
                name: String::from("n"),
                group: String::from("g"),
                out: vec![],
                transform: vec![],
            }],
        };
        let plan = c.run_plan();
        assert_eq!(plan.subject_lexer.family, family);
        assert_eq!(plan.subject_lexer.bracket_convention, bracket);
        assert!(!plan.subject_lexer.pattern_mode);
        assert_eq!(plan.registrations.len(), 1);
        assert_eq!(plan.registrations[0].lexer.family, family);
        assert!(plan.registrations[0].lexer.pattern_mode);
    }
}

#[test]
fn run_plan_registrations_flattened() {
    let c = PlaygroundConfig {
        subject: String::from("subject"),
        language: Language::Rust,
        lhs: vec![
            MatchingUnit {
                patterns: vec![String::from("p1"), String::from("p2")],
                name: String::from("first"),
                group: String::from("a"),
                out: vec![(String::from("k"), String::from("v"))],
                transform: vec![(String::from("t"), String::from("re"))],
            },
            MatchingUnit {
                patterns: vec![String::from("p3")],
                name: String::from("second"),
                group: String::from("b"),
                out: vec![],
                transform: vec![],
            },
        ],
    };
    let plan = c.run_plan();
    assert_eq!(plan.subject, "subject");
    assert_eq!(plan.max_concurrent_matches, 5000);
    assert_eq!(plan.max_token_length, 5000);
    assert_eq!(plan.group_cap, 10);
    assert_eq!(plan.registrations.len(), 3);
    let names: Vec<&str> = plan.registrations.iter().map(|r| r.name.as_str()).collect();
    assert_eq!(names, vec!["first", "first", "second"]);
    let pats: Vec<&str> = plan.registrations.iter().map(|r| r.pattern.as_str()).collect();
    assert_eq!(pats, vec!["p1", "p2", "p3"]);
    assert_eq!(plan.registrations[0].group, "a");
    assert_eq!(plan.registrations[0].out, vec![(b"k".to_vec(), b"v".to_vec())]);
    assert_eq!(
        plan.registrations[0].transform,
        vec![(b"t".to_vec(), String::from("re"))]
    );
}

#[test]
fn default_bounds() {
    assert_eq!(default_max_concurrent_matches(), 5000);
    assert_eq!(default_max_token_length(), 5000);
    assert_eq!(default_group_cap(), 10);
}

#[test]
fn binary_record_exact_bytes() {
    let c = PlaygroundConfig { subject: String::new(), language: Language::C, lhs: vec![] };
    let bytes = config_to_bytes(&c);
    assert_eq!(bytes, vec![0u8; 17]);
    let back = config_from_bytes(&bytes).unwrap();
    assert_eq!(back.subject, "");
    assert_eq!(back.language, Language::C);
    assert!(back.lhs.is_empty());
}

#[test]
fn binary_record_rejects_truncation_and_trailing() {
    let c = PlaygroundConfig::default();
    let bytes = config_to_bytes(&c);
    let mut cut = bytes.clone();
    cut.pop();
    assert!(config_from_bytes(&cut).is_none());
    let mut extended = bytes.clone();
    extended.push(0);
    assert!(config_from_bytes(&extended).is_none());
    assert!(config_from_bytes(&vec![9u8, 9, 9]).is_none());
}

#[test]
fn binary_record_rejects_bad_language_tag() {
    let mut bytes = vec![0u8; 17];
    bytes[8] = 10;
    assert!(config_from_bytes(&bytes).is_none());
}

#[test]
fn editor_round_trip_law_function() {
    let back = lexer_search_ui::editor::editor_round_trip(tricky_config());
    assert_config_eq(&back, &tricky_config());
}
