use vstd::prelude::*;
use vstd::string::StringExecFns;

verus! {

/// The closed set of source-language families a session can scan.
#[derive(Clone, Copy, PartialEq, Eq, Structural, Debug)]
pub enum Language {
    C,
    Cpp,
    CSharp,
    Go,
    Java,
    Js,
    Kotlin,
    Py,
    Rust,
    Ts,
}

/// A named, grouped set of alternative pattern strings sharing
/// output and transform metadata.
///
/// `out` and `transform` are string-to-string maps carried as ordered
/// key/value entry lists.  No uniqueness of keys is imposed here: entries
/// round-trip verbatim through the codec and the editor text, and the
/// matching engine is the sole consumer of the keys.
#[derive(Debug)]
pub struct MatchingUnit {
    pub patterns: Vec<String>,
    pub name: String,
    pub group: String,
    pub out: Vec<(String, String)>,
    pub transform: Vec<(String, String)>,
}

/// The shareable/editable unit of state: subject text, language,
/// and an ordered list of matching units.
#[derive(Debug)]
pub struct PlaygroundConfig {
    pub subject: String,
    pub language: Language,
    pub lhs: Vec<MatchingUnit>,
}

/// Mathematical model of a matching unit: every string as a `Seq<char>`.
#[verifier::ext_equal]
pub ghost struct UnitModel {
    pub patterns: Seq<Seq<char>>,
    pub name: Seq<char>,
    pub group: Seq<char>,
    pub out: Seq<(Seq<char>, Seq<char>)>,
    pub transform: Seq<(Seq<char>, Seq<char>)>,
}

/// Mathematical model of a whole session configuration.
#[verifier::ext_equal]
pub ghost struct ConfigModel {
    pub subject: Seq<char>,
    pub language: Language,
    pub lhs: Seq<UnitModel>,
}

impl View for MatchingUnit {
    type V = UnitModel;

    open spec fn view(&self) -> UnitModel {
        UnitModel {
            patterns: self.patterns.deep_view(),
            name: self.name@,
            group: self.group@,
            out: self.out.deep_view(),
            transform: self.transform.deep_view(),
        }
    }
}

impl View for PlaygroundConfig {
    type V = ConfigModel;

    open spec fn view(&self) -> ConfigModel {
        ConfigModel {
            subject: self.subject@,
            language: self.language,
            lhs: self.lhs@.map_values(|u: MatchingUnit| u@),
        }
    }
}

/// The built-in default session: a runnable example with a non-empty
/// subject, one unit, one pattern and one transform entry.
pub open spec fn default_config() -> ConfigModel {
    ConfigModel {
        subject: "let x = \"hi\";\nprintln!(\"{x}\");"@,
        language: Language::Rust,
        lhs: seq![
            UnitModel {
                patterns: seq!["&_VAR = $_STR;\n...\nprintln!($_FMT)"@],
                name: "hello_world"@,
                group: ""@,
                out: Seq::empty(),
                transform: seq![("_FMT"@, "^\\{(?<_VAR>[^}]+)}$"@)],
            },
        ],
    }
}

impl Default for PlaygroundConfig {
    /// Builds the built-in default session configuration.
    fn default() -> (c: Self)
        ensures
            c@ == default_config(),
    {
        let unit = MatchingUnit {
            patterns: vec![String::from_str("&_VAR = $_STR;\n...\nprintln!($_FMT)")],
            name: String::from_str("hello_world"),
            group: String::from_str(""),
            out: Vec::new(),
            transform: vec![
                (String::from_str("_FMT"), String::from_str("^\\{(?<_VAR>[^}]+)}$")),
            ],
        };
        let c = PlaygroundConfig {
            subject: String::from_str("let x = \"hi\";\nprintln!(\"{x}\");"),
            language: Language::Rust,
            lhs: vec![unit],
        };
        proof {
            assert(c@.lhs =~~= default_config().lhs);
            assert(c@ =~~= default_config());
        }
        c
    }
}

} // verus!
