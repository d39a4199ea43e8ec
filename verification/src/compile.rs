use vstd::prelude::*;
use vstd::string::StrSliceExecFns;
use vstd::utf8::encode_utf8;
use crate::config::{Language, MatchingUnit, PlaygroundConfig, UnitModel};

verus! {

// ---------------------------------------------------------------------------
// Pattern compilation and execution planning
//
// The matching engine itself is an external collaborator.  This module
// holds everything the core decides for it: which lexer family serves each
// language, with which mode flags, under which resource bounds, and the
// exact registration data for every pattern.
// ---------------------------------------------------------------------------

/// Ceiling on simultaneously open match attempts engine-wide.
pub fn default_max_concurrent_matches() -> (n: usize)
    ensures
        n == 5000,
{
    5000
}

/// Ceiling on the length of a single lexical token, in both lexing passes.
pub fn default_max_token_length() -> (n: usize)
    ensures
        n == 5000,
{
    5000
}

/// Ceiling on simultaneously open matches sharing one group.
pub fn default_group_cap() -> (n: usize)
    ensures
        n == 10,
{
    10
}

/// The closed set of lexer families the engine offers.
#[derive(Clone, Copy, PartialEq, Eq, Structural, Debug)]
pub enum LexerFamily {
    CLike,
    PythonLike,
    RustLike,
}

/// Everything needed to construct one lexer instance.
#[derive(Clone, Copy, PartialEq, Eq, Structural, Debug)]
pub struct LexerChoice {
    pub family: LexerFamily,
    /// Bracket convention flag of the C-like family: on for Go, JavaScript,
    /// TypeScript and Kotlin, off for C, C++, C# and Java.
    pub bracket_convention: bool,
    /// Whether pattern metacharacters are recognized: on while compiling
    /// patterns, off while scanning the subject.
    pub pattern_mode: bool,
    /// Token-length bound handed to the lexer.
    pub max_token_length: usize,
}

/// The lexer that serves `l`, with pattern-metacharacter mode `pattern_mode`.
pub open spec fn spec_lexer_for(l: Language, pattern_mode: bool) -> LexerChoice {
    match l {
        Language::C | Language::Cpp | Language::CSharp | Language::Java => LexerChoice {
            family: LexerFamily::CLike,
            bracket_convention: false,
            pattern_mode,
            max_token_length: 5000,
        },
        Language::Go | Language::Js | Language::Ts | Language::Kotlin => LexerChoice {
            family: LexerFamily::CLike,
            bracket_convention: true,
            pattern_mode,
            max_token_length: 5000,
        },
        Language::Py => LexerChoice {
            family: LexerFamily::PythonLike,
            bracket_convention: false,
            pattern_mode,
            max_token_length: 5000,
        },
        Language::Rust => LexerChoice {
            family: LexerFamily::RustLike,
            bracket_convention: false,
            pattern_mode,
            max_token_length: 5000,
        },
    }
}

/// Selects the lexer for `l`; the match is exhaustive over the closed set.
pub fn lexer_for(l: Language, pattern_mode: bool) -> (r: LexerChoice)
    ensures
        r == spec_lexer_for(l, pattern_mode),
{
    match l {
        Language::C | Language::Cpp | Language::CSharp | Language::Java => LexerChoice {
            family: LexerFamily::CLike,
            bracket_convention: false,
            pattern_mode,
            max_token_length: 5000,
        },
        Language::Go | Language::Js | Language::Ts | Language::Kotlin => LexerChoice {
            family: LexerFamily::CLike,
            bracket_convention: true,
            pattern_mode,
            max_token_length: 5000,
        },
        Language::Py => LexerChoice {
            family: LexerFamily::PythonLike,
            bracket_convention: false,
            pattern_mode,
            max_token_length: 5000,
        },
        Language::Rust => LexerChoice {
            family: LexerFamily::RustLike,
            bracket_convention: false,
            pattern_mode,
            max_token_length: 5000,
        },
    }
}

/// One pattern registration: what the engine's pattern-registration
/// operation is handed for one pattern of one unit.
pub struct Registration {
    pub pattern: String,
    pub name: String,
    pub group: String,
    pub out: Vec<(Vec<u8>, Vec<u8>)>,
    pub transform: Vec<(Vec<u8>, String)>,
    pub lexer: LexerChoice,
}

/// Mathematical model of one registration.
#[verifier::ext_equal]
pub ghost struct RegistrationModel {
    pub pattern: Seq<char>,
    pub name: Seq<char>,
    pub group: Seq<char>,
    pub out: Seq<(Seq<u8>, Seq<u8>)>,
    pub transform: Seq<(Seq<u8>, Seq<char>)>,
    pub lexer: LexerChoice,
}

impl View for Registration {
    type V = RegistrationModel;

    open spec fn view(&self) -> RegistrationModel {
        RegistrationModel {
            pattern: self.pattern@,
            name: self.name@,
            group: self.group@,
            out: self.out@.map_values(|p: (Vec<u8>, Vec<u8>)| (p.0@, p.1@)),
            transform: self.transform@.map_values(|p: (Vec<u8>, String)| (p.0@, p.1@)),
            lexer: self.lexer,
        }
    }
}

/// Byte-keyed, byte-valued form of an output map.
pub open spec fn conv_out(m: Seq<(Seq<char>, Seq<char>)>) -> Seq<(Seq<u8>, Seq<u8>)> {
    m.map_values(|p: (Seq<char>, Seq<char>)| (encode_utf8(p.0), encode_utf8(p.1)))
}

/// Byte-keyed form of a transform map; values stay transform-language text.
pub open spec fn conv_transform(m: Seq<(Seq<char>, Seq<char>)>) -> Seq<(Seq<u8>, Seq<char>)> {
    m.map_values(|p: (Seq<char>, Seq<char>)| (encode_utf8(p.0), p.1))
}

/// The registrations one unit contributes, in pattern order.
pub open spec fn regs_of_unit(u: UnitModel, l: Language) -> Seq<RegistrationModel> {
    u.patterns.map_values(
        |p: Seq<char>| RegistrationModel {
            pattern: p,
            name: u.name,
            group: u.group,
            out: conv_out(u.out),
            transform: conv_transform(u.transform),
            lexer: spec_lexer_for(l, true),
        },
    )
}

/// The registrations of a unit list, in unit order.
pub open spec fn regs_of_units(us: Seq<UnitModel>, l: Language) -> Seq<RegistrationModel>
    decreases us.len(),
{
    if us.len() == 0 {
        Seq::empty()
    } else {
        regs_of_unit(us[0], l) + regs_of_units(us.drop_first(), l)
    }
}

pub proof fn lemma_regs_of_units_snoc(us: Seq<UnitModel>, x: UnitModel, l: Language)
    ensures
        regs_of_units(us.push(x), l) == regs_of_units(us, l) + regs_of_unit(x, l),
    decreases us.len(),
{
    reveal_with_fuel(regs_of_units, 3);
    if us.len() == 0 {
        assert(us.push(x)[0] == x);
        assert(us.push(x).drop_first() =~= Seq::<UnitModel>::empty());
        assert(regs_of_units(us.push(x), l) =~= regs_of_units(us, l) + regs_of_unit(x, l));
    } else {
        assert(us.push(x)[0] == us[0]);
        assert(us.push(x).drop_first() =~= us.drop_first().push(x));
        lemma_regs_of_units_snoc(us.drop_first(), x, l);
        assert(regs_of_units(us.push(x), l) =~= regs_of_units(us, l) + regs_of_unit(x, l));
    }
}

/// The full execution plan for one session: every registration, the
/// subject-scanning lexer, and the three resource bounds.
pub struct RunPlan {
    pub registrations: Vec<Registration>,
    pub subject: String,
    pub subject_lexer: LexerChoice,
    pub max_concurrent_matches: usize,
    pub max_token_length: usize,
    pub group_cap: usize,
}

fn convert_out_map(m: &Vec<(String, String)>) -> (r: Vec<(Vec<u8>, Vec<u8>)>)
    ensures
        r@.map_values(|p: (Vec<u8>, Vec<u8>)| (p.0@, p.1@)) == conv_out(m.deep_view()),
{
    let mut r: Vec<(Vec<u8>, Vec<u8>)> = Vec::new();
    let mut i: usize = 0;
    while i < m.len()
        invariant
            i <= m@.len(),
            r@.len() == i,
            forall|k: int|
                0 <= k < i ==> (#[trigger] r@[k]).0@ == encode_utf8(m@[k].0@) && r@[k].1@
                    == encode_utf8(m@[k].1@),
        decreases m@.len() - i,
    {
        r.push((m[i].0.as_str().as_bytes_vec(), m[i].1.as_str().as_bytes_vec()));
        i += 1;
    }
    proof {
        assert(r@.map_values(|p: (Vec<u8>, Vec<u8>)| (p.0@, p.1@)) =~~= conv_out(m.deep_view()));
    }
    r
}

fn convert_transform_map(m: &Vec<(String, String)>) -> (r: Vec<(Vec<u8>, String)>)
    ensures
        r@.map_values(|p: (Vec<u8>, String)| (p.0@, p.1@)) == conv_transform(m.deep_view()),
{
    let mut r: Vec<(Vec<u8>, String)> = Vec::new();
    let mut i: usize = 0;
    while i < m.len()
        invariant
            i <= m@.len(),
            r@.len() == i,
            forall|k: int|
                0 <= k < i ==> (#[trigger] r@[k]).0@ == encode_utf8(m@[k].0@) && r@[k].1@
                    == m@[k].1@,
        decreases m@.len() - i,
    {
        let value = m[i].1.clone();
        r.push((m[i].0.as_str().as_bytes_vec(), value));
        i += 1;
    }
    proof {
        assert(r@.map_values(|p: (Vec<u8>, String)| (p.0@, p.1@)) =~~= conv_transform(
            m.deep_view(),
        ));
    }
    r
}

impl PlaygroundConfig {
    /// Compiles this session into the plan the engine executes: one
    /// registration per pattern of each unit, carrying the unit's name,
    /// group and converted maps, with the pattern-compilation lexer; the
    /// subject and its scanning lexer; and the three resource bounds.
    pub fn run_plan(self) -> (r: RunPlan)
        ensures
            r.registrations@.map_values(|g: Registration| g@) == regs_of_units(
                self@.lhs,
                self@.language,
            ),
            r.subject@ == self@.subject,
            r.subject_lexer == spec_lexer_for(self@.language, false),
            r.max_concurrent_matches == 5000,
            r.max_token_length == 5000,
            r.group_cap == 10,
    {
        let ghost lhs_models = self@.lhs;
        let language = self.language;
        let mut regs: Vec<Registration> = Vec::new();
        let mut i: usize = 0;
        proof {
            assert(regs@.map_values(|g: Registration| g@) =~= regs_of_units(
                lhs_models.take(0),
                language,
            ));
        }
        let lhs = self.lhs;
        while i < lhs.len()
            invariant
                i <= lhs@.len(),
                lhs_models == lhs@.map_values(|u: MatchingUnit| u@),
                regs@.map_values(|g: Registration| g@) == regs_of_units(
                    lhs_models.take(i as int),
                    language,
                ),
            decreases lhs@.len() - i,
        {
            let unit = &lhs[i];
            let lexer = lexer_for(language, true);
            let ghost regs_before = regs@.map_values(|g: Registration| g@);
            let mut j: usize = 0;
            while j < unit.patterns.len()
                invariant
                    j <= unit.patterns@.len(),
                    lexer == spec_lexer_for(language, true),
                    regs@.map_values(|g: Registration| g@) == regs_before + regs_of_unit(
                        unit@,
                        language,
                    ).take(j as int),
                decreases unit.patterns@.len() - j,
            {
                let ghost prior = regs@.map_values(|g: Registration| g@);
                regs.push(
                    Registration {
                        pattern: unit.patterns[j].clone(),
                        name: unit.name.clone(),
                        group: unit.group.clone(),
                        out: convert_out_map(&unit.out),
                        transform: convert_transform_map(&unit.transform),
                        lexer,
                    },
                );
                proof {
                    assert(regs@.map_values(|g: Registration| g@) =~= prior.push(
                        regs@[regs@.len() - 1]@,
                    ));
                    assert(regs_of_unit(unit@, language).take(j + 1) =~= regs_of_unit(
                        unit@,
                        language,
                    ).take(j as int).push(regs_of_unit(unit@, language)[j as int]));
                    assert(regs@[regs@.len() - 1]@ =~~= regs_of_unit(unit@, language)[j as int]);
                    assert(regs@.map_values(|g: Registration| g@) =~= regs_before + regs_of_unit(
                        unit@,
                        language,
                    ).take(j + 1));
                }
                j += 1;
            }
            proof {
                assert(regs_of_unit(unit@, language).take(unit.patterns@.len() as int)
                    =~= regs_of_unit(unit@, language));
                assert(lhs_models.take(i + 1) =~= lhs_models.take(i as int).push(
                    lhs_models[i as int],
                ));
                lemma_regs_of_units_snoc(lhs_models.take(i as int), lhs_models[i as int], language);
                assert(unit@ == lhs_models[i as int]);
                assert(regs@.map_values(|g: Registration| g@) =~= regs_of_units(
                    lhs_models.take(i + 1),
                    language,
                ));
            }
            i += 1;
        }
        proof {
            assert(lhs_models.take(lhs@.len() as int) =~= lhs_models);
        }
        let subject_lexer = lexer_for(language, false);
        RunPlan {
            registrations: regs,
            subject: self.subject,
            subject_lexer,
            max_concurrent_matches: default_max_concurrent_matches(),
            max_token_length: default_max_token_length(),
            group_cap: default_group_cap(),
        }
    }
}

} // verus!
