use lexer_search_ui::codec::{decode_bytes, encode_bytes, public_url};
use lexer_search_ui::config::{Language, MatchingUnit, PlaygroundConfig};

fn assert_config_eq(a: &PlaygroundConfig, b: &PlaygroundConfig) {
    assert_eq!(a.subject, b.subject);
    assert_eq!(a.language, b.language);
    assert_eq!(a.lhs.len(), b.lhs.len());
    for (ua, ub) in a.lhs.iter().zip(b.lhs.iter()) {
        assert_eq!(ua.patterns, ub.patterns);
        assert_eq!(ua.name, ub.name);
        assert_eq!(ua.group, ub.group);
        assert_eq!(ua.out, ub.out);
        assert_eq!(ua.transform, ub.transform);
    }
}

fn sample_config() -> PlaygroundConfig {
    PlaygroundConfig {
        subject: String::from("fn main() {\n    let x = \"hi\";\n}\n"),
        language: Language::Go,
        lhs: vec![
            MatchingUnit {
                patterns: vec![String::from("let _A = $_B;"), String::from("x")],
                name: String::from("first"),
                group: String::from("g1"),
                out: vec![(String::from("k"), String::from("v"))],
                transform: vec![(String::from("_B"), String::from("^\\d+$"))],
            },
            MatchingUnit {
                patterns: vec![],
                name: String::from("second"),
                group: String::from(""),
                out: vec![],
                transform: vec![],
            },
        ],
    }
}

#[test]
fn default_is_runnable_example() {
    let c = PlaygroundConfig::default();
    assert_eq!(c.subject, "let x = \"hi\";\nprintln!(\"{x}\");");
    assert_eq!(c.language, Language::Rust);
    assert_eq!(c.lhs.len(), 1);
    assert!(!c.subject.is_empty());
    assert_eq!(c.lhs[0].patterns, vec!["&_VAR = $_STR;\n...\nprintln!($_FMT)"]);
    assert_eq!(c.lhs[0].name, "hello_world");
    assert_eq!(c.lhs[0].group, "");
    assert!(c.lhs[0].out.is_empty());
    assert_eq!(
        c.lhs[0].transform,
        vec![(String::from("_FMT"), String::from("^\\{(?<_VAR>[^}]+)}$"))]
    );
}

#[test]
fn url_round_trip_default() {
    let c = PlaygroundConfig::default();
    let token = c.to_url_str();
    let back = PlaygroundConfig::from_url_str(&token);
    assert_config_eq(&back, &PlaygroundConfig::default());
}

#[test]
fn url_round_trip_sample() {
    let c = sample_config();
    let token = c.to_url_str();
    let back = PlaygroundConfig::from_url_str(&token);
    assert_config_eq(&back, &sample_config());
}

#[test]
fn url_round_trip_boundary_cases() {
    let c = PlaygroundConfig {
        subject: String::new(),
        language: Language::C,
        lhs: vec![],
    };
    let back = PlaygroundConfig::from_url_str(&c.to_url_str());
    assert_eq!(back.subject, "");
    assert_eq!(back.language, Language::C);
    assert!(back.lhs.is_empty());

    let c2 = PlaygroundConfig {
        subject: String::new(),
        language: Language::Ts,
        lhs: vec![MatchingUnit {
            patterns: vec![],
            name: String::new(),
            group: String::new(),
            out: vec![],
            transform: vec![],
        }],
    };
    let back2 = PlaygroundConfig::from_url_str(&c2.to_url_str());
    assert_eq!(back2.language, Language::Ts);
    assert_eq!(back2.lhs.len(), 1);
    assert!(back2.lhs[0].patterns.is_empty());
    assert!(back2.lhs[0].out.is_empty());
}

#[test]
fn prefix_tolerance() {
    let c = sample_config();
    let token = c.to_url_str();
    let with_prefix = format!("{}{}", public_url(), token);
    let back = PlaygroundConfig::from_url_str(&with_prefix);
    assert_config_eq(&back, &sample_config());
}

#[test]
fn decode_garbage_returns_default() {
    let dflt = PlaygroundConfig::default();
    for s in ["", "%%% not in alphabet %%%", "completely random text", "#", "\u{00e9}"] {
        let back = PlaygroundConfig::from_url_str(s);
        assert_config_eq(&back, &dflt);
    }
}

#[test]
fn decode_truncated_token_returns_default() {
    let token = sample_config().to_url_str();
    let cut = &token[..token.len() / 2];
    let back = PlaygroundConfig::from_url_str(cut);
    assert_config_eq(&back, &PlaygroundConfig::default());
}

#[test]
fn token_is_alphabet_only() {
    let token = sample_config().to_url_str();
    assert!(!token.is_empty());
    const ALPHABET: &str =
        "ABCDEFGHIJKLMNOPQRSTUVWXYZabcdefghijklmnopqrstuvwxyz0123456789-_.~/:@!$&'()*+,;=";
    for ch in token.chars() {
        assert!(ALPHABET.contains(ch));
        assert!(ch != '#');
    }
}

#[test]
fn encode_decode_bytes_inverse() {
    let data: Vec<u8> = vec![0, 1, 2, 255, 128, 0, 0, 7];
    let s = encode_bytes(&data);
    let back = decode_bytes(&s).unwrap();
    assert_eq!(back, data);
}

#[test]
fn decode_bytes_rejects_bad_symbol() {
    assert!(decode_bytes("abc#def").is_err());
    assert!(decode_bytes("\u{00e9}").is_err());
}

#[test]
fn round_trip_law_functions() {
    let c = sample_config();
    let back = lexer_search_ui::codec::encode_then_decode(&c);
    assert_config_eq(&back, &sample_config());
    let back2 = lexer_search_ui::codec::encode_then_decode_with_prefix(&c);
    assert_config_eq(&back2, &sample_config());
}

#[test]
fn decode_bytes_accepts_alphabet_strings() {
    let r = decode_bytes("ABCxyz09-_.~/:@!$&'()*+,;=").unwrap();
    let s = encode_bytes(&r);
    let r2 = decode_bytes(&s).unwrap();
    assert_eq!(r, r2);
}
