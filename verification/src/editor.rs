use vstd::prelude::*;
use vstd::string::StrSliceExecFns;
use crate::config::{Language, MatchingUnit, PlaygroundConfig, UnitModel};

verus! {

// ---------------------------------------------------------------------------
// The rule-list editor text
//
// A unit list is rendered as a block-style, indentation-significant text:
// one block per unit with `name`, `group`, `patterns`, `out` and
// `transform` fields, every string in double quotes with backslash escapes
// for the quote, the backslash and line breaks.  Parsing accepts exactly
// the rendered form and restores the unit list losslessly.
// ---------------------------------------------------------------------------

/// How one character appears inside a quoted string.
pub open spec fn esc_char(c: char) -> Seq<char> {
    if c == '\\' {
        seq!['\\', '\\']
    } else if c == '"' {
        seq!['\\', '"']
    } else if c == '\n' {
        seq!['\\', 'n']
    } else if c == '\r' {
        seq!['\\', 'r']
    } else {
        seq![c]
    }
}

/// The escaped body of a quoted string.
pub open spec fn esc(s: Seq<char>) -> Seq<char>
    decreases s.len(),
{
    if s.len() == 0 {
        Seq::empty()
    } else {
        esc_char(s[0]) + esc(s.drop_first())
    }
}

/// A string as it appears in the editor text.
pub open spec fn quoted(s: Seq<char>) -> Seq<char> {
    seq!['"'] + esc(s) + seq!['"']
}

/// `l` occurs in `t` starting at position `pos`.
pub open spec fn txt_at(t: Seq<char>, pos: int, l: Seq<char>) -> bool {
    &&& 0 <= pos
    &&& pos + l.len() <= t.len()
    &&& t.subrange(pos, pos + l.len()) == l
}

pub proof fn lemma_esc_concat(a: Seq<char>, b: Seq<char>)
    ensures
        esc(a + b) == esc(a) + esc(b),
    decreases a.len(),
{
    if a.len() == 0 {
        assert(a + b =~= b);
        assert(esc(a + b) =~= esc(a) + esc(b));
    } else {
        assert((a + b)[0] == a[0]);
        assert((a + b).drop_first() =~= a.drop_first() + b);
        lemma_esc_concat(a.drop_first(), b);
        assert(esc(a + b) =~= esc(a) + esc(b));
    }
}

pub proof fn lemma_esc_snoc(a: Seq<char>, c: char)
    ensures
        esc(a.push(c)) == esc(a) + esc_char(c),
{
    reveal_with_fuel(esc, 3);
    lemma_esc_concat(a, seq![c]);
    assert(a.push(c) =~= a + seq![c]);
    assert(seq![c].drop_first() =~= Seq::<char>::empty());
    assert(esc(seq![c]) =~= esc_char(c));
}

pub proof fn lemma_esc_len(s: Seq<char>)
    ensures
        esc(s).len() >= s.len(),
    decreases s.len(),
{
    if s.len() > 0 {
        lemma_esc_len(s.drop_first());
    }
}

/// Relies on `String::from_iter` over `char`: collecting characters
/// concatenates exactly those characters into a string.
#[verifier::external_body]
pub(crate) fn chars_to_string(v: &Vec<char>) -> (r: String)
    ensures
        r@ == v@,
{
    v.iter().collect()
}

/// The characters of `s`, as a vector.
pub fn str_to_chars(s: &str) -> (r: Vec<char>)
    ensures
        r@ == s@,
{
    let n = s.unicode_len();
    let mut r: Vec<char> = Vec::new();
    let mut i: usize = 0;
    while i < n
        invariant
            i <= n,
            n == s@.len(),
            r@ =~= s@.take(i as int),
        decreases n - i,
    {
        r.push(s.get_char(i));
        proof {
            assert(r@ =~= s@.take(i + 1));
        }
        i += 1;
    }
    proof {
        assert(s@.take(n as int) =~= s@);
    }
    r
}

/// Appends the characters of `lit` to `out`.
pub fn push_lit(out: &mut Vec<char>, lit: &str)
    ensures
        final(out)@ == old(out)@ + lit@,
{
    let n = lit.unicode_len();
    let mut i: usize = 0;
    while i < n
        invariant
            i <= n,
            n == lit@.len(),
            out@ =~= old(out)@ + lit@.take(i as int),
        decreases n - i,
    {
        out.push(lit.get_char(i));
        proof {
            assert(out@ =~= old(out)@ + lit@.take(i + 1));
        }
        i += 1;
    }
    proof {
        assert(lit@.take(n as int) =~= lit@);
    }
}

/// Appends the quoted, escaped form of `s` to `out`.
pub fn push_quoted(out: &mut Vec<char>, s: &str)
    ensures
        final(out)@ == old(out)@ + quoted(s@),
{
    let n = s.unicode_len();
    out.push('"');
    let mut i: usize = 0;
    while i < n
        invariant
            i <= n,
            n == s@.len(),
            out@ =~= old(out)@ + seq!['"'] + esc(s@.take(i as int)),
        decreases n - i,
    {
        let c = s.get_char(i);
        if c == '\\' {
            out.push('\\');
            out.push('\\');
        } else if c == '"' {
            out.push('\\');
            out.push('"');
        } else if c == '\n' {
            out.push('\\');
            out.push('n');
        } else if c == '\r' {
            out.push('\\');
            out.push('r');
        } else {
            out.push(c);
        }
        proof {
            assert(s@.take(i + 1) =~= s@.take(i as int).push(s@[i as int]));
            lemma_esc_snoc(s@.take(i as int), s@[i as int]);
            assert(out@ =~= old(out)@ + seq!['"'] + esc(s@.take(i + 1)));
        }
        i += 1;
    }
    out.push('"');
    proof {
        assert(s@.take(n as int) =~= s@);
        assert(out@ =~= old(out)@ + quoted(s@));
    }
}

/// Succeeds exactly when the characters of `lit` stand at `pos`.
pub fn expect_lit(text: &Vec<char>, pos: usize, lit: &str) -> (r: Option<usize>)
    ensures
        match r {
            Some(p) => p == pos + lit@.len() && txt_at(text@, pos as int, lit@),
            None => !txt_at(text@, pos as int, lit@),
        },
{
    let n = lit.unicode_len();
    let tl = text.len();
    if n > tl || pos > tl - n {
        proof {
            assert(!txt_at(text@, pos as int, lit@));
        }
        return None;
    }
    let mut i: usize = 0;
    while i < n
        invariant
            i <= n,
            n == lit@.len(),
            tl == text@.len(),
            pos + n <= tl,
            forall|j: int| 0 <= j < i ==> text@[pos + j] == lit@[j],
        decreases n - i,
    {
        if text[pos + i] != lit.get_char(i) {
            proof {
                assert(text@.subrange(pos as int, pos + lit@.len())[i as int] == text@[pos + i]);
            }
            return None;
        }
        i += 1;
    }
    proof {
        assert(text@.subrange(pos as int, pos + lit@.len()) =~= lit@);
    }
    Some(pos + n)
}

/// Reads one quoted string starting at `pos`.
///
/// On success the consumed characters are exactly the quoted form of the
/// result; whenever a quoted string stands at `pos`, that string is
/// returned.
pub fn parse_quoted(text: &Vec<char>, pos: usize) -> (r: Option<(String, usize)>)
    ensures
        match r {
            Some((s, p)) => {
                &&& pos <= p <= text@.len()
                &&& text@.subrange(pos as int, p as int) == quoted(s@)
            },
            None => true,
        },
        forall|x: Seq<char>|
            txt_at(text@, pos as int, #[trigger] quoted(x)) ==> (r matches Some(sp) && sp.0@ == x
                && sp.1 == pos + quoted(x).len()),
{
    let tlen = text.len();
    proof {
        assert forall|x: Seq<char>|
            txt_at(text@, pos as int, #[trigger] quoted(x)) implies pos < text@.len()
            && text@[pos as int] == '"' by {
            assert(text@.subrange(pos as int, pos + quoted(x).len())[0] == text@[pos as int]);
        }
    }
    if pos >= tlen || text[pos] != '"' {
        return None;
    }
    let mut acc: Vec<char> = Vec::new();
    let mut cur = pos + 1;
    proof {
        assert(text@.subrange(pos as int, cur as int) =~= seq!['"'] + esc(acc@));
    }
    loop
        invariant
            tlen == text@.len(),
            pos < cur <= tlen,
            text@.subrange(pos as int, cur as int) == seq!['"'] + esc(acc@),
            forall|x: Seq<char>|
                txt_at(text@, pos as int, #[trigger] quoted(x)) ==> {
                    &&& acc@.len() <= x.len()
                    &&& acc@ == x.take(acc@.len() as int)
                    &&& cur == pos + 1 + esc(x.take(acc@.len() as int)).len()
                },
        decreases tlen - cur,
    {
        proof {
            assert forall|x: Seq<char>|
                txt_at(text@, pos as int, #[trigger] quoted(x)) implies {
                let k = acc@.len() as int;
                &&& cur < tlen
                &&& (k < x.len() ==> text@[cur as int] == esc_char(x[k])[0])
                &&& (k < x.len() && esc_char(x[k]).len() == 2 && cur + 1 < tlen ==> text@[cur + 1]
                    == esc_char(x[k])[1])
                &&& (k < x.len() ==> cur + esc_char(x[k]).len() <= tlen)
                &&& (k == x.len() ==> text@[cur as int] == '"')
            } by {
                let k = acc@.len() as int;
                assert(x =~= x.take(k) + x.skip(k));
                lemma_esc_concat(x.take(k), x.skip(k));
                lemma_esc_len(x.skip(k));
                if k < x.len() {
                    assert(x.skip(k)[0] == x[k]);
                    assert(x.skip(k).drop_first() =~= x.skip(k + 1));
                    assert(esc(x.skip(k)) == esc_char(x[k]) + esc(x.skip(k + 1)));
                    assert(text@.subrange(pos as int, pos + quoted(x).len())[cur - pos]
                        == text@[cur as int]);
                    assert(quoted(x)[cur - pos] == esc_char(x[k])[0]);
                    if esc_char(x[k]).len() == 2 {
                        assert(text@.subrange(pos as int, pos + quoted(x).len())[cur + 1 - pos]
                            == text@[cur + 1]);
                        assert(quoted(x)[cur + 1 - pos] == esc_char(x[k])[1]);
                    }
                } else {
                    assert(esc(x) == esc(x.take(k)));
                    assert(text@.subrange(pos as int, pos + quoted(x).len())[cur - pos]
                        == text@[cur as int]);
                    assert(quoted(x)[cur - pos] == '"');
                }
            }
        }
        if cur >= tlen {
            return None;
        }
        let c = text[cur];
        if c == '"' {
            let s = chars_to_string(&acc);
            proof {
                assert(text@.subrange(pos as int, cur + 1) =~= seq!['"'] + esc(acc@) + seq!['"']);
                assert(text@.subrange(pos as int, cur + 1) == quoted(s@));
                assert forall|x: Seq<char>|
                    txt_at(text@, pos as int, #[trigger] quoted(x)) implies s@ == x && cur + 1
                    == pos + quoted(x).len() by {
                    let k = acc@.len() as int;
                    if k < x.len() {
                        assert(esc_char(x[k])[0] != '"');
                    }
                    assert(k == x.len());
                    assert(x.take(k) =~= x);
                    lemma_esc_concat(x.take(k), x.skip(k));
                }
            }
            return Some((s, cur + 1));
        } else if c == '\\' {
            if cur + 1 >= tlen {
                proof {
                    assert forall|x: Seq<char>|
                        txt_at(text@, pos as int, #[trigger] quoted(x)) implies false by {
                        let k = acc@.len() as int;
                        assert(k < x.len());
                        assert(esc_char(x[k]).len() == 2);
                    }
                }
                return None;
            }
            let c2 = text[cur + 1];
            let decoded: char = if c2 == '\\' {
                '\\'
            } else if c2 == '"' {
                '"'
            } else if c2 == 'n' {
                '\n'
            } else if c2 == 'r' {
                '\r'
            } else {
                proof {
                    assert forall|x: Seq<char>|
                        txt_at(text@, pos as int, #[trigger] quoted(x)) implies false by {
                        let k = acc@.len() as int;
                        assert(k < x.len());
                        assert(esc_char(x[k]).len() == 2);
                    }
                }
                return None;
            };
            let ghost old_acc = acc@;
            let ghost old_cur = cur as int;
            acc.push(decoded);
            cur = cur + 2;
            proof {
                lemma_esc_snoc(old_acc, decoded);
                assert(text@.subrange(pos as int, cur as int) =~= seq!['"'] + esc(old_acc) + seq![
                    '\\',
                    c2,
                ]);
                assert(esc_char(decoded) =~= seq!['\\', c2]);
                assert(text@.subrange(pos as int, cur as int) =~= seq!['"'] + esc(acc@));
                assert forall|x: Seq<char>|
                    txt_at(text@, pos as int, #[trigger] quoted(x)) implies {
                    &&& acc@.len() <= x.len()
                    &&& acc@ == x.take(acc@.len() as int)
                    &&& cur == pos + 1 + esc(x.take(acc@.len() as int)).len()
                } by {
                    let k = old_acc.len() as int;
                    assert(k < x.len());
                    assert(esc_char(x[k])[0] == '\\');
                    assert(x[k] == decoded);
                    assert(x.take(k + 1) =~= x.take(k).push(x[k]));
                    lemma_esc_snoc(x.take(k), x[k]);
                    assert(acc@ =~= x.take(k + 1));
                }
            }
        } else {
            if c == '\n' || c == '\r' {
                proof {
                    assert forall|x: Seq<char>|
                        txt_at(text@, pos as int, #[trigger] quoted(x)) implies false by {
                        let k = acc@.len() as int;
                        assert(k < x.len());
                    }
                }
                return None;
            }
            let ghost old_acc = acc@;
            acc.push(c);
            cur = cur + 1;
            proof {
                lemma_esc_snoc(old_acc, c);
                assert(esc_char(c) =~= seq![c]);
                assert(text@.subrange(pos as int, cur as int) =~= seq!['"'] + esc(acc@));
                assert forall|x: Seq<char>|
                    txt_at(text@, pos as int, #[trigger] quoted(x)) implies {
                    &&& acc@.len() <= x.len()
                    &&& acc@ == x.take(acc@.len() as int)
                    &&& cur == pos + 1 + esc(x.take(acc@.len() as int)).len()
                } by {
                    let k = old_acc.len() as int;
                    assert(k < x.len());
                    assert(x[k] == c);
                    assert(x.take(k + 1) =~= x.take(k).push(x[k]));
                    lemma_esc_snoc(x.take(k), x[k]);
                    assert(acc@ =~= x.take(k + 1));
                }
            }
        }
    }
}

} // verus!

verus! {

// ---------------------------------------------------------------------------
// Unit blocks
// ---------------------------------------------------------------------------

/// One pattern list line.
pub open spec fn render_pattern_line(p: Seq<char>) -> Seq<char> {
    "    - "@ + quoted(p) + "\n"@
}

pub open spec fn render_pattern_lines(ps: Seq<Seq<char>>) -> Seq<char>
    decreases ps.len(),
{
    if ps.len() == 0 {
        Seq::empty()
    } else {
        render_pattern_line(ps[0]) + render_pattern_lines(ps.drop_first())
    }
}

/// One map entry line.
pub open spec fn render_entry_line(e: (Seq<char>, Seq<char>)) -> Seq<char> {
    "    - "@ + quoted(e.0) + ": "@ + quoted(e.1) + "\n"@
}

pub open spec fn render_entry_lines(es: Seq<(Seq<char>, Seq<char>)>) -> Seq<char>
    decreases es.len(),
{
    if es.len() == 0 {
        Seq::empty()
    } else {
        render_entry_line(es[0]) + render_entry_lines(es.drop_first())
    }
}

/// One unit block.
pub open spec fn render_unit(u: UnitModel) -> Seq<char> {
    "- unit\n"@ + "  name: "@ + quoted(u.name) + "\n"@ + "  group: "@ + quoted(u.group) + "\n"@
        + "  patterns:\n"@ + render_pattern_lines(u.patterns) + "  out:\n"@ + render_entry_lines(
        u.out,
    ) + "  transform:\n"@ + render_entry_lines(u.transform)
}

/// The whole rule-list editor text.
pub open spec fn render_units(us: Seq<UnitModel>) -> Seq<char>
    decreases us.len(),
{
    if us.len() == 0 {
        Seq::empty()
    } else {
        render_unit(us[0]) + render_units(us.drop_first())
    }
}

pub proof fn lemma_render_pattern_lines_snoc(ps: Seq<Seq<char>>, x: Seq<char>)
    ensures
        render_pattern_lines(ps.push(x)) == render_pattern_lines(ps) + render_pattern_line(x),
    decreases ps.len(),
{
    reveal_with_fuel(render_pattern_lines, 3);
    if ps.len() == 0 {
        assert(ps.push(x)[0] == x);
        assert(ps.push(x).drop_first() =~= Seq::<Seq<char>>::empty());
        assert(render_pattern_lines(ps.push(x)) =~= render_pattern_lines(ps)
            + render_pattern_line(x));
    } else {
        assert(ps.push(x)[0] == ps[0]);
        assert(ps.push(x).drop_first() =~= ps.drop_first().push(x));
        lemma_render_pattern_lines_snoc(ps.drop_first(), x);
        assert(render_pattern_lines(ps.push(x)) =~= render_pattern_lines(ps)
            + render_pattern_line(x));
    }
}

pub proof fn lemma_render_entry_lines_snoc(es: Seq<(Seq<char>, Seq<char>)>, x: (
    Seq<char>,
    Seq<char>,
))
    ensures
        render_entry_lines(es.push(x)) == render_entry_lines(es) + render_entry_line(x),
    decreases es.len(),
{
    reveal_with_fuel(render_entry_lines, 3);
    if es.len() == 0 {
        assert(es.push(x)[0] == x);
        assert(es.push(x).drop_first() =~= Seq::<(Seq<char>, Seq<char>)>::empty());
        assert(render_entry_lines(es.push(x)) =~= render_entry_lines(es) + render_entry_line(x));
    } else {
        assert(es.push(x)[0] == es[0]);
        assert(es.push(x).drop_first() =~= es.drop_first().push(x));
        lemma_render_entry_lines_snoc(es.drop_first(), x);
        assert(render_entry_lines(es.push(x)) =~= render_entry_lines(es) + render_entry_line(x));
    }
}

#[verifier::rlimit(60)]
pub proof fn lemma_render_units_snoc(us: Seq<UnitModel>, x: UnitModel)
    ensures
        render_units(us.push(x)) == render_units(us) + render_unit(x),
    decreases us.len(),
{
    reveal_with_fuel(render_units, 3);
    if us.len() == 0 {
        assert(us.push(x)[0] == x);
        assert(us.push(x).drop_first() =~= Seq::<UnitModel>::empty());
        assert(render_units(us.push(x)) =~= render_units(us) + render_unit(x));
    } else {
        assert(us.push(x)[0] == us[0]);
        assert(us.push(x).drop_first() =~= us.drop_first().push(x));
        lemma_render_units_snoc(us.drop_first(), x);
        assert(render_units(us.push(x)) =~= render_units(us) + render_unit(x));
    }
}

pub proof fn lemma_render_pattern_lines_split(ps: Seq<Seq<char>>, i: int)
    requires
        0 <= i <= ps.len(),
    ensures
        render_pattern_lines(ps) == render_pattern_lines(ps.take(i)) + render_pattern_lines(
            ps.skip(i),
        ),
    decreases i,
{
    if i == 0 {
        assert(ps.take(0) =~= Seq::<Seq<char>>::empty());
        assert(ps.skip(0) =~= ps);
        assert(render_pattern_lines(ps) =~= render_pattern_lines(ps.take(0))
            + render_pattern_lines(ps.skip(0)));
    } else {
        lemma_render_pattern_lines_split(ps, i - 1);
        assert(ps.take(i) =~= ps.take(i - 1).push(ps[i - 1]));
        lemma_render_pattern_lines_snoc(ps.take(i - 1), ps[i - 1]);
        assert(ps.skip(i - 1)[0] == ps[i - 1]);
        assert(ps.skip(i - 1).drop_first() =~= ps.skip(i));
        assert(render_pattern_lines(ps.skip(i - 1)) == render_pattern_line(ps[i - 1])
            + render_pattern_lines(ps.skip(i)));
        assert(render_pattern_lines(ps) =~= render_pattern_lines(ps.take(i))
            + render_pattern_lines(ps.skip(i)));
    }
}

pub proof fn lemma_render_entry_lines_split(es: Seq<(Seq<char>, Seq<char>)>, i: int)
    requires
        0 <= i <= es.len(),
    ensures
        render_entry_lines(es) == render_entry_lines(es.take(i)) + render_entry_lines(es.skip(i)),
    decreases i,
{
    if i == 0 {
        assert(es.take(0) =~= Seq::<(Seq<char>, Seq<char>)>::empty());
        assert(es.skip(0) =~= es);
        assert(render_entry_lines(es) =~= render_entry_lines(es.take(0)) + render_entry_lines(
            es.skip(0),
        ));
    } else {
        lemma_render_entry_lines_split(es, i - 1);
        assert(es.take(i) =~= es.take(i - 1).push(es[i - 1]));
        lemma_render_entry_lines_snoc(es.take(i - 1), es[i - 1]);
        assert(es.skip(i - 1)[0] == es[i - 1]);
        assert(es.skip(i - 1).drop_first() =~= es.skip(i));
        assert(render_entry_lines(es.skip(i - 1)) == render_entry_line(es[i - 1])
            + render_entry_lines(es.skip(i)));
        assert(render_entry_lines(es) =~= render_entry_lines(es.take(i)) + render_entry_lines(
            es.skip(i),
        ));
    }
}

pub proof fn lemma_render_units_split(us: Seq<UnitModel>, i: int)
    requires
        0 <= i <= us.len(),
    ensures
        render_units(us) == render_units(us.take(i)) + render_units(us.skip(i)),
    decreases i,
{
    if i == 0 {
        assert(us.take(0) =~= Seq::<UnitModel>::empty());
        assert(us.skip(0) =~= us);
        assert(render_units(us) =~= render_units(us.take(0)) + render_units(us.skip(0)));
    } else {
        lemma_render_units_split(us, i - 1);
        assert(us.take(i) =~= us.take(i - 1).push(us[i - 1]));
        lemma_render_units_snoc(us.take(i - 1), us[i - 1]);
        assert(us.skip(i - 1)[0] == us[i - 1]);
        assert(us.skip(i - 1).drop_first() =~= us.skip(i));
        assert(render_units(us.skip(i - 1)) == render_unit(us[i - 1]) + render_units(us.skip(i)));
        assert(render_units(us) =~= render_units(us.take(i)) + render_units(us.skip(i)));
    }
}

/// Two texts standing at the same position agree wherever both reach.
pub proof fn lemma_txt_at_agree(t: Seq<char>, p: int, a: Seq<char>, b: Seq<char>, i: int)
    requires
        txt_at(t, p, a),
        txt_at(t, p, b),
        0 <= i < a.len(),
        i < b.len(),
    ensures
        a[i] == b[i],
{
    assert(t.subrange(p, p + a.len())[i] == t[p + i]);
    assert(t.subrange(p, p + b.len())[i] == t[p + i]);
}

pub proof fn lemma_txt_at_split(t: Seq<char>, pos: int, e1: Seq<char>, e2: Seq<char>)
    requires
        txt_at(t, pos, e1 + e2),
    ensures
        txt_at(t, pos, e1),
        txt_at(t, pos + e1.len(), e2),
{
    assert(t.subrange(pos, pos + e1.len()) =~= (e1 + e2).subrange(0, e1.len() as int));
    assert((e1 + e2).subrange(0, e1.len() as int) =~= e1);
    assert(t.subrange(pos + e1.len(), pos + e1.len() + e2.len()) =~= (e1 + e2).subrange(
        e1.len() as int,
        (e1 + e2).len() as int,
    ));
    assert((e1 + e2).subrange(e1.len() as int, (e1 + e2).len() as int) =~= e2);
}

pub proof fn lemma_subrange_cat_chars(t: Seq<char>, pos: int, mid: int, end: int)
    requires
        0 <= pos <= mid <= end <= t.len(),
    ensures
        t.subrange(pos, end) == t.subrange(pos, mid) + t.subrange(mid, end),
{
    assert(t.subrange(pos, end) =~= t.subrange(pos, mid) + t.subrange(mid, end));
}

} // verus!

verus! {

// ---------------------------------------------------------------------------
// Rendering
// ---------------------------------------------------------------------------

fn push_patterns(out: &mut Vec<char>, ps: &Vec<String>)
    ensures
        final(out)@ == old(out)@ + render_pattern_lines(ps.deep_view()),
{
    let mut j: usize = 0;
    while j < ps.len()
        invariant
            j <= ps@.len(),
            out@ == old(out)@ + render_pattern_lines(ps.deep_view().take(j as int)),
        decreases ps@.len() - j,
    {
        push_lit(out, "    - ");
        push_quoted(out, ps[j].as_str());
        push_lit(out, "\n");
        proof {
            assert(ps.deep_view().take(j + 1) =~= ps.deep_view().take(j as int).push(
                ps.deep_view()[j as int],
            ));
            lemma_render_pattern_lines_snoc(ps.deep_view().take(j as int), ps.deep_view()[j as int]);
            assert(out@ =~= old(out)@ + render_pattern_lines(ps.deep_view().take(j + 1)));
        }
        j += 1;
    }
    proof {
        assert(ps.deep_view().take(ps@.len() as int) =~= ps.deep_view());
    }
}

fn push_entries(out: &mut Vec<char>, m: &Vec<(String, String)>)
    ensures
        final(out)@ == old(out)@ + render_entry_lines(m.deep_view()),
{
    let mut j: usize = 0;
    while j < m.len()
        invariant
            j <= m@.len(),
            out@ == old(out)@ + render_entry_lines(m.deep_view().take(j as int)),
        decreases m@.len() - j,
    {
        push_lit(out, "    - ");
        push_quoted(out, m[j].0.as_str());
        push_lit(out, ": ");
        push_quoted(out, m[j].1.as_str());
        push_lit(out, "\n");
        proof {
            assert(m.deep_view().take(j + 1) =~= m.deep_view().take(j as int).push(
                m.deep_view()[j as int],
            ));
            lemma_render_entry_lines_snoc(m.deep_view().take(j as int), m.deep_view()[j as int]);
            assert(m.deep_view()[j as int] == (m@[j as int].0@, m@[j as int].1@));
            assert(out@ =~= old(out)@ + render_entry_lines(m.deep_view().take(j + 1)));
        }
        j += 1;
    }
    proof {
        assert(m.deep_view().take(m@.len() as int) =~= m.deep_view());
    }
}

/// Renders a unit list as the rule-list editor text.
#[verifier::rlimit(100)]
pub fn render_lhs(lhs: &Vec<MatchingUnit>) -> (r: String)
    ensures
        r@ == render_units(lhs@.map_values(|u: MatchingUnit| u@)),
{
    let ghost models = lhs@.map_values(|u: MatchingUnit| u@);
    let mut out: Vec<char> = Vec::new();
    let mut i: usize = 0;
    proof {
        assert(out@ =~= render_units(models.take(0)));
    }
    while i < lhs.len()
        invariant
            i <= lhs@.len(),
            models == lhs@.map_values(|u: MatchingUnit| u@),
            out@ == render_units(models.take(i as int)),
        decreases lhs@.len() - i,
    {
        let ghost ubase = out@;
        let u = &lhs[i];
        push_lit(&mut out, "- unit\n");
        push_lit(&mut out, "  name: ");
        push_quoted(&mut out, u.name.as_str());
        push_lit(&mut out, "\n");
        push_lit(&mut out, "  group: ");
        push_quoted(&mut out, u.group.as_str());
        push_lit(&mut out, "\n");
        push_lit(&mut out, "  patterns:\n");
        push_patterns(&mut out, &u.patterns);
        push_lit(&mut out, "  out:\n");
        push_entries(&mut out, &u.out);
        push_lit(&mut out, "  transform:\n");
        push_entries(&mut out, &u.transform);
        proof {
            assert(out@ =~= ubase + render_unit(u@));
            assert(models.take(i + 1) =~= models.take(i as int).push(models[i as int]));
            lemma_render_units_snoc(models.take(i as int), models[i as int]);
            assert(models[i as int] == u@);
            assert(out@ =~= render_units(models.take(i + 1)));
        }
        i += 1;
    }
    proof {
        assert(models.take(lhs@.len() as int) =~= models);
    }
    chars_to_string(&out)
}

// ---------------------------------------------------------------------------
// Parsing
// ---------------------------------------------------------------------------

/// Reads pattern list lines until the next line is no list item.
pub fn parse_pattern_list(text: &Vec<char>, pos: usize) -> (r: Option<(Vec<String>, usize)>)
    ensures
        match r {
            Some((v, p)) => {
                &&& pos <= p <= text@.len()
                &&& text@.subrange(pos as int, p as int) == render_pattern_lines(v.deep_view())
            },
            None => true,
        },
        forall|x: Seq<Seq<char>>|
            (txt_at(text@, pos as int, #[trigger] render_pattern_lines(x)) && !txt_at(
                text@,
                pos + render_pattern_lines(x).len(),
                "    - "@,
            )) ==> (r matches Some(vp) && vp.0.deep_view() == x && vp.1 == pos
                + render_pattern_lines(x).len()),
{
    let tlen = text.len();
    if pos > tlen {
        return None;
    }
    let mut out: Vec<String> = Vec::new();
    let mut cur = pos;
    proof {
        assert(out.deep_view() =~= Seq::<Seq<char>>::empty());
        assert(text@.subrange(pos as int, pos as int) =~= render_pattern_lines(out.deep_view()));
    }
    loop
        invariant
            tlen == text@.len(),
            pos <= cur <= tlen,
            text@.subrange(pos as int, cur as int) == render_pattern_lines(out.deep_view()),
            forall|x: Seq<Seq<char>>|
                (txt_at(text@, pos as int, #[trigger] render_pattern_lines(x)) && !txt_at(
                    text@,
                    pos + render_pattern_lines(x).len(),
                    "    - "@,
                )) ==> {
                    &&& out.deep_view().len() <= x.len()
                    &&& out.deep_view() == x.take(out.deep_view().len() as int)
                    &&& cur == pos + render_pattern_lines(
                        x.take(out.deep_view().len() as int),
                    ).len()
                },
        decreases tlen - cur,
    {
        proof {
            assert forall|x: Seq<Seq<char>>|
                (txt_at(text@, pos as int, #[trigger] render_pattern_lines(x)) && !txt_at(
                    text@,
                    pos + render_pattern_lines(x).len(),
                    "    - "@,
                )) implies {
                let k = out.deep_view().len() as int;
                &&& (k < x.len() ==> txt_at(text@, cur as int, "    - "@) && txt_at(
                    text@,
                    cur + "    - "@.len(),
                    quoted(x[k]),
                ) && txt_at(text@, cur + "    - "@.len() + quoted(x[k]).len(), "\n"@))
                &&& (k == x.len() ==> !txt_at(text@, cur as int, "    - "@))
            } by {
                let k = out.deep_view().len() as int;
                lemma_render_pattern_lines_split(x, k);
                lemma_txt_at_split(
                    text@,
                    pos as int,
                    render_pattern_lines(x.take(k)),
                    render_pattern_lines(x.skip(k)),
                );
                if k < x.len() {
                    assert(x.skip(k)[0] == x[k]);
                    assert(x.skip(k).drop_first() =~= x.skip(k + 1));
                    assert(render_pattern_lines(x.skip(k)) == render_pattern_line(x[k])
                        + render_pattern_lines(x.skip(k + 1)));
                    lemma_txt_at_split(
                        text@,
                        cur as int,
                        render_pattern_line(x[k]),
                        render_pattern_lines(x.skip(k + 1)),
                    );
                    lemma_txt_at_split(
                        text@,
                        cur as int,
                        "    - "@ + quoted(x[k]),
                        "\n"@,
                    );
                    lemma_txt_at_split(text@, cur as int, "    - "@, quoted(x[k]));
                } else {
                    assert(x.take(k) =~= x);
                }
            }
        }
        let la = expect_lit(text, cur, "    - ");
        let q = match la {
            Some(q) => q,
            None => {
                proof {
                    assert forall|x: Seq<Seq<char>>|
                        (txt_at(text@, pos as int, #[trigger] render_pattern_lines(x)) && !txt_at(
                            text@,
                            pos + render_pattern_lines(x).len(),
                            "    - "@,
                        )) implies {
                        &&& out.deep_view() == x
                        &&& cur == pos + render_pattern_lines(x).len()
                    } by {
                        let k = out.deep_view().len() as int;
                        assert(k == x.len());
                        assert(x.take(k) =~= x);
                    }
                }
                return Some((out, cur));
            },
        };
        let (s, q2) = match parse_quoted(text, q) {
            Some(v) => v,
            None => {
                return None;
            },
        };
        let q3 = match expect_lit(text, q2, "\n") {
            Some(v) => v,
            None => {
                return None;
            },
        };
        let ghost old_dv = out.deep_view();
        let ghost old_cur = cur as int;
        out.push(s);
        proof {
            assert(out.deep_view() =~= old_dv.push(s@));
            lemma_render_pattern_lines_snoc(old_dv, s@);
            lemma_subrange_cat_chars(text@, pos as int, old_cur, q as int);
            lemma_subrange_cat_chars(text@, pos as int, q as int, q2 as int);
            lemma_subrange_cat_chars(text@, pos as int, q2 as int, q3 as int);
            assert(text@.subrange(old_cur, q as int) == "    - "@);
            assert(text@.subrange(pos as int, q3 as int) =~= render_pattern_lines(old_dv) + (
            "    - "@ + quoted(s@) + "\n"@));
            assert(text@.subrange(pos as int, q3 as int) == render_pattern_lines(
                out.deep_view(),
            ));
            assert forall|x: Seq<Seq<char>>|
                (txt_at(text@, pos as int, #[trigger] render_pattern_lines(x)) && !txt_at(
                    text@,
                    pos + render_pattern_lines(x).len(),
                    "    - "@,
                )) implies {
                &&& out.deep_view().len() <= x.len()
                &&& out.deep_view() == x.take(out.deep_view().len() as int)
                &&& q3 == pos + render_pattern_lines(x.take(out.deep_view().len() as int)).len()
            } by {
                let k = old_dv.len() as int;
                assert(k < x.len());
                assert(s@ == x[k]);
                assert(x.take(k + 1) =~= x.take(k).push(x[k]));
                lemma_render_pattern_lines_snoc(x.take(k), x[k]);
                assert(out.deep_view() =~= x.take(k + 1));
            }
        }
        cur = q3;
    }
}

} // verus!

verus! {

/// Reads map entry lines until the next line is no list item.
pub fn parse_entry_list(text: &Vec<char>, pos: usize) -> (r: Option<(Vec<(String, String)>, usize)>)
    ensures
        match r {
            Some((v, p)) => {
                &&& pos <= p <= text@.len()
                &&& text@.subrange(pos as int, p as int) == render_entry_lines(v.deep_view())
            },
            None => true,
        },
        forall|x: Seq<(Seq<char>, Seq<char>)>|
            (txt_at(text@, pos as int, #[trigger] render_entry_lines(x)) && !txt_at(
                text@,
                pos + render_entry_lines(x).len(),
                "    - "@,
            )) ==> (r matches Some(vp) && vp.0.deep_view() == x && vp.1 == pos
                + render_entry_lines(x).len()),
{
    let tlen = text.len();
    if pos > tlen {
        return None;
    }
    let mut out: Vec<(String, String)> = Vec::new();
    let mut cur = pos;
    proof {
        assert(out.deep_view() =~= Seq::<(Seq<char>, Seq<char>)>::empty());
        assert(text@.subrange(pos as int, pos as int) =~= render_entry_lines(out.deep_view()));
    }
    loop
        invariant
            tlen == text@.len(),
            pos <= cur <= tlen,
            text@.subrange(pos as int, cur as int) == render_entry_lines(out.deep_view()),
            forall|x: Seq<(Seq<char>, Seq<char>)>|
                (txt_at(text@, pos as int, #[trigger] render_entry_lines(x)) && !txt_at(
                    text@,
                    pos + render_entry_lines(x).len(),
                    "    - "@,
                )) ==> {
                    &&& out.deep_view().len() <= x.len()
                    &&& out.deep_view() == x.take(out.deep_view().len() as int)
                    &&& cur == pos + render_entry_lines(x.take(out.deep_view().len() as int)).len()
                },
        decreases tlen - cur,
    {
        proof {
            assert forall|x: Seq<(Seq<char>, Seq<char>)>|
                (txt_at(text@, pos as int, #[trigger] render_entry_lines(x)) && !txt_at(
                    text@,
                    pos + render_entry_lines(x).len(),
                    "    - "@,
                )) implies {
                let k = out.deep_view().len() as int;
                &&& (k < x.len() ==> txt_at(text@, cur as int, "    - "@) && txt_at(
                    text@,
                    cur + "    - "@.len(),
                    quoted(x[k].0),
                ) && txt_at(text@, cur + "    - "@.len() + quoted(x[k].0).len(), ": "@) && txt_at(
                    text@,
                    cur + "    - "@.len() + quoted(x[k].0).len() + ": "@.len(),
                    quoted(x[k].1),
                ) && txt_at(
                    text@,
                    cur + "    - "@.len() + quoted(x[k].0).len() + ": "@.len() + quoted(
                        x[k].1,
                    ).len(),
                    "\n"@,
                ))
                &&& (k == x.len() ==> !txt_at(text@, cur as int, "    - "@))
            } by {
                let k = out.deep_view().len() as int;
                lemma_render_entry_lines_split(x, k);
                lemma_txt_at_split(
                    text@,
                    pos as int,
                    render_entry_lines(x.take(k)),
                    render_entry_lines(x.skip(k)),
                );
                if k < x.len() {
                    assert(x.skip(k)[0] == x[k]);
                    assert(x.skip(k).drop_first() =~= x.skip(k + 1));
                    assert(render_entry_lines(x.skip(k)) == render_entry_line(x[k])
                        + render_entry_lines(x.skip(k + 1)));
                    lemma_txt_at_split(
                        text@,
                        cur as int,
                        render_entry_line(x[k]),
                        render_entry_lines(x.skip(k + 1)),
                    );
                    lemma_txt_at_split(
                        text@,
                        cur as int,
                        "    - "@ + quoted(x[k].0) + ": "@ + quoted(x[k].1),
                        "\n"@,
                    );
                    lemma_txt_at_split(
                        text@,
                        cur as int,
                        "    - "@ + quoted(x[k].0) + ": "@,
                        quoted(x[k].1),
                    );
                    lemma_txt_at_split(
                        text@,
                        cur as int,
                        "    - "@ + quoted(x[k].0),
                        ": "@,
                    );
                    lemma_txt_at_split(text@, cur as int, "    - "@, quoted(x[k].0));
                } else {
                    assert(x.take(k) =~= x);
                }
            }
        }
        let la = expect_lit(text, cur, "    - ");
        let q = match la {
            Some(q) => q,
            None => {
                proof {
                    assert forall|x: Seq<(Seq<char>, Seq<char>)>|
                        (txt_at(text@, pos as int, #[trigger] render_entry_lines(x)) && !txt_at(
                            text@,
                            pos + render_entry_lines(x).len(),
                            "    - "@,
                        )) implies {
                        &&& out.deep_view() == x
                        &&& cur == pos + render_entry_lines(x).len()
                    } by {
                        let k = out.deep_view().len() as int;
                        assert(k == x.len());
                        assert(x.take(k) =~= x);
                    }
                }
                return Some((out, cur));
            },
        };
        let (key, q2) = match parse_quoted(text, q) {
            Some(v) => v,
            None => {
                return None;
            },
        };
        let q3 = match expect_lit(text, q2, ": ") {
            Some(v) => v,
            None => {
                return None;
            },
        };
        let (val, q4) = match parse_quoted(text, q3) {
            Some(v) => v,
            None => {
                return None;
            },
        };
        let q5 = match expect_lit(text, q4, "\n") {
            Some(v) => v,
            None => {
                return None;
            },
        };
        let ghost old_dv = out.deep_view();
        let ghost old_cur = cur as int;
        out.push((key, val));
        proof {
            assert(out.deep_view() =~= old_dv.push((key@, val@)));
            lemma_render_entry_lines_snoc(old_dv, (key@, val@));
            lemma_subrange_cat_chars(text@, pos as int, old_cur, q as int);
            lemma_subrange_cat_chars(text@, pos as int, q as int, q2 as int);
            lemma_subrange_cat_chars(text@, pos as int, q2 as int, q3 as int);
            lemma_subrange_cat_chars(text@, pos as int, q3 as int, q4 as int);
            lemma_subrange_cat_chars(text@, pos as int, q4 as int, q5 as int);
            assert(text@.subrange(pos as int, q5 as int) =~= render_entry_lines(old_dv) + ("    - "@
                + quoted(key@) + ": "@ + quoted(val@) + "\n"@));
            assert(text@.subrange(pos as int, q5 as int) == render_entry_lines(out.deep_view()));
            assert forall|x: Seq<(Seq<char>, Seq<char>)>|
                (txt_at(text@, pos as int, #[trigger] render_entry_lines(x)) && !txt_at(
                    text@,
                    pos + render_entry_lines(x).len(),
                    "    - "@,
                )) implies {
                &&& out.deep_view().len() <= x.len()
                &&& out.deep_view() == x.take(out.deep_view().len() as int)
                &&& q5 == pos + render_entry_lines(x.take(out.deep_view().len() as int)).len()
            } by {
                let k = old_dv.len() as int;
                assert(k < x.len());
                assert(key@ == x[k].0);
                assert(val@ == x[k].1);
                assert(x.take(k + 1) =~= x.take(k).push(x[k]));
                lemma_render_entry_lines_snoc(x.take(k), x[k]);
                assert(out.deep_view() =~= x.take(k + 1));
            }
        }
        cur = q5;
    }
}

} // verus!

verus! {

/// Reads one unit block starting at `pos`.
#[verifier::rlimit(60)]
pub fn parse_unit_block(text: &Vec<char>, pos: usize) -> (r: Option<(MatchingUnit, usize)>)
    ensures
        match r {
            Some((u, p)) => {
                &&& pos <= p <= text@.len()
                &&& text@.subrange(pos as int, p as int) == render_unit(u@)
            },
            None => true,
        },
        forall|x: UnitModel|
            (txt_at(text@, pos as int, #[trigger] render_unit(x)) && !txt_at(
                text@,
                pos + render_unit(x).len(),
                "    - "@,
            )) ==> (r matches Some(up) && up.0@ == x && up.1 == pos + render_unit(x).len()),
{
    proof {
        reveal_strlit("    - ");
        reveal_strlit("  out:\n");
        reveal_strlit("  transform:\n");
        assert forall|x: UnitModel|
            (txt_at(text@, pos as int, #[trigger] render_unit(x)) && !txt_at(
                text@,
                pos + render_unit(x).len(),
                "    - "@,
            )) implies {
            let p1 = pos + "- unit\n"@.len();
            let p2 = p1 + "  name: "@.len();
            let p3 = p2 + quoted(x.name).len();
            let p4 = p3 + "\n"@.len();
            let p5 = p4 + "  group: "@.len();
            let p6 = p5 + quoted(x.group).len();
            let p7 = p6 + "\n"@.len();
            let p8 = p7 + "  patterns:\n"@.len();
            let p9 = p8 + render_pattern_lines(x.patterns).len();
            let p10 = p9 + "  out:\n"@.len();
            let p11 = p10 + render_entry_lines(x.out).len();
            let p12 = p11 + "  transform:\n"@.len();
            &&& txt_at(text@, pos as int, "- unit\n"@)
            &&& txt_at(text@, p1, "  name: "@)
            &&& txt_at(text@, p2, quoted(x.name))
            &&& txt_at(text@, p3, "\n"@)
            &&& txt_at(text@, p4, "  group: "@)
            &&& txt_at(text@, p5, quoted(x.group))
            &&& txt_at(text@, p6, "\n"@)
            &&& txt_at(text@, p7, "  patterns:\n"@)
            &&& txt_at(text@, p8, render_pattern_lines(x.patterns))
            &&& !txt_at(text@, p9, "    - "@)
            &&& txt_at(text@, p9, "  out:\n"@)
            &&& txt_at(text@, p10, render_entry_lines(x.out))
            &&& !txt_at(text@, p11, "    - "@)
            &&& txt_at(text@, p11, "  transform:\n"@)
            &&& txt_at(text@, p12, render_entry_lines(x.transform))
            &&& !txt_at(text@, p12 + render_entry_lines(x.transform).len(), "    - "@)
        } by {
            let a = "- unit\n"@ + "  name: "@ + quoted(x.name) + "\n"@ + "  group: "@ + quoted(
                x.group,
            ) + "\n"@ + "  patterns:\n"@ + render_pattern_lines(x.patterns) + "  out:\n"@
                + render_entry_lines(x.out) + "  transform:\n"@;
            lemma_txt_at_split(text@, pos as int, a, render_entry_lines(x.transform));
            let a2 = a.subrange(0, a.len() - "  transform:\n"@.len() as int);
            lemma_txt_at_split(
                text@,
                pos as int,
                "- unit\n"@ + "  name: "@ + quoted(x.name) + "\n"@ + "  group: "@ + quoted(x.group)
                    + "\n"@ + "  patterns:\n"@ + render_pattern_lines(x.patterns) + "  out:\n"@
                    + render_entry_lines(x.out),
                "  transform:\n"@,
            );
            lemma_txt_at_split(
                text@,
                pos as int,
                "- unit\n"@ + "  name: "@ + quoted(x.name) + "\n"@ + "  group: "@ + quoted(x.group)
                    + "\n"@ + "  patterns:\n"@ + render_pattern_lines(x.patterns) + "  out:\n"@,
                render_entry_lines(x.out),
            );
            lemma_txt_at_split(
                text@,
                pos as int,
                "- unit\n"@ + "  name: "@ + quoted(x.name) + "\n"@ + "  group: "@ + quoted(x.group)
                    + "\n"@ + "  patterns:\n"@ + render_pattern_lines(x.patterns),
                "  out:\n"@,
            );
            lemma_txt_at_split(
                text@,
                pos as int,
                "- unit\n"@ + "  name: "@ + quoted(x.name) + "\n"@ + "  group: "@ + quoted(x.group)
                    + "\n"@ + "  patterns:\n"@,
                render_pattern_lines(x.patterns),
            );
            lemma_txt_at_split(
                text@,
                pos as int,
                "- unit\n"@ + "  name: "@ + quoted(x.name) + "\n"@ + "  group: "@ + quoted(x.group)
                    + "\n"@,
                "  patterns:\n"@,
            );
            lemma_txt_at_split(
                text@,
                pos as int,
                "- unit\n"@ + "  name: "@ + quoted(x.name) + "\n"@ + "  group: "@ + quoted(
                    x.group,
                ),
                "\n"@,
            );
            lemma_txt_at_split(
                text@,
                pos as int,
                "- unit\n"@ + "  name: "@ + quoted(x.name) + "\n"@ + "  group: "@,
                quoted(x.group),
            );
            lemma_txt_at_split(
                text@,
                pos as int,
                "- unit\n"@ + "  name: "@ + quoted(x.name) + "\n"@,
                "  group: "@,
            );
            lemma_txt_at_split(
                text@,
                pos as int,
                "- unit\n"@ + "  name: "@ + quoted(x.name),
                "\n"@,
            );
            lemma_txt_at_split(text@, pos as int, "- unit\n"@ + "  name: "@, quoted(x.name));
            lemma_txt_at_split(text@, pos as int, "- unit\n"@, "  name: "@);
            let p8 = pos + "- unit\n"@.len() + "  name: "@.len() + quoted(x.name).len()
                + "\n"@.len() + "  group: "@.len() + quoted(x.group).len() + "\n"@.len()
                + "  patterns:\n"@.len();
            let p9 = p8 + render_pattern_lines(x.patterns).len();
            if txt_at(text@, p9, "    - "@) {
                lemma_txt_at_agree(text@, p9, "    - "@, "  out:\n"@, 2);
            }
            let p11 = p9 + "  out:\n"@.len() + render_entry_lines(x.out).len();
            if txt_at(text@, p11, "    - "@) {
                lemma_txt_at_agree(text@, p11, "    - "@, "  transform:\n"@, 2);
            }
        }
    }
    let q1 = match expect_lit(text, pos, "- unit\n") {
        Some(v) => v,
        None => {
            return None;
        },
    };
    let q2 = match expect_lit(text, q1, "  name: ") {
        Some(v) => v,
        None => {
            return None;
        },
    };
    let (name, q3) = match parse_quoted(text, q2) {
        Some(v) => v,
        None => {
            return None;
        },
    };
    let q4 = match expect_lit(text, q3, "\n") {
        Some(v) => v,
        None => {
            return None;
        },
    };
    let q5 = match expect_lit(text, q4, "  group: ") {
        Some(v) => v,
        None => {
            return None;
        },
    };
    let (group, q6) = match parse_quoted(text, q5) {
        Some(v) => v,
        None => {
            return None;
        },
    };
    let q7 = match expect_lit(text, q6, "\n") {
        Some(v) => v,
        None => {
            return None;
        },
    };
    let q8 = match expect_lit(text, q7, "  patterns:\n") {
        Some(v) => v,
        None => {
            return None;
        },
    };
    let (patterns, q9) = match parse_pattern_list(text, q8) {
        Some(v) => v,
        None => {
            return None;
        },
    };
    let q10 = match expect_lit(text, q9, "  out:\n") {
        Some(v) => v,
        None => {
            return None;
        },
    };
    let (out, q11) = match parse_entry_list(text, q10) {
        Some(v) => v,
        None => {
            return None;
        },
    };
    let q12 = match expect_lit(text, q11, "  transform:\n") {
        Some(v) => v,
        None => {
            return None;
        },
    };
    let (transform, q13) = match parse_entry_list(text, q12) {
        Some(v) => v,
        None => {
            return None;
        },
    };
    let u = MatchingUnit { patterns, name, group, out, transform };
    proof {
        lemma_subrange_cat_chars(text@, pos as int, q1 as int, q2 as int);
        lemma_subrange_cat_chars(text@, pos as int, q2 as int, q3 as int);
        lemma_subrange_cat_chars(text@, pos as int, q3 as int, q4 as int);
        lemma_subrange_cat_chars(text@, pos as int, q4 as int, q5 as int);
        lemma_subrange_cat_chars(text@, pos as int, q5 as int, q6 as int);
        lemma_subrange_cat_chars(text@, pos as int, q6 as int, q7 as int);
        lemma_subrange_cat_chars(text@, pos as int, q7 as int, q8 as int);
        lemma_subrange_cat_chars(text@, pos as int, q8 as int, q9 as int);
        lemma_subrange_cat_chars(text@, pos as int, q9 as int, q10 as int);
        lemma_subrange_cat_chars(text@, pos as int, q10 as int, q11 as int);
        lemma_subrange_cat_chars(text@, pos as int, q11 as int, q12 as int);
        lemma_subrange_cat_chars(text@, pos as int, q12 as int, q13 as int);
        assert(text@.subrange(pos as int, q13 as int) =~= render_unit(u@));
        assert forall|x: UnitModel|
            (txt_at(text@, pos as int, #[trigger] render_unit(x)) && !txt_at(
                text@,
                pos + render_unit(x).len(),
                "    - "@,
            )) implies u@ == x && q13 == pos + render_unit(x).len() by {
            assert(u@ =~= x);
        }
    }
    Some((u, q13))
}

} // verus!

verus! {


#[verifier::rlimit(100)]
proof fn lemma_render_unit_head(t: Seq<char>, p: int, u: UnitModel)
    requires
        txt_at(t, p, render_unit(u)),
    ensures
        txt_at(t, p, "- unit\n"@),
{
    let rest = "  name: "@ + quoted(u.name) + "\n"@ + "  group: "@ + quoted(u.group) + "\n"@
        + "  patterns:\n"@ + render_pattern_lines(u.patterns) + "  out:\n"@ + render_entry_lines(
        u.out,
    ) + "  transform:\n"@ + render_entry_lines(u.transform);
    assert(render_unit(u) =~= "- unit\n"@ + rest);
    lemma_txt_at_split(t, p, "- unit\n"@, rest);
}

#[verifier::rlimit(100)]
proof fn lemma_units_at(t: Seq<char>, pos: int, x: Seq<UnitModel>, k: int, cur: int)
    requires
        0 <= pos <= t.len(),
        t.subrange(pos, t.len() as int) == render_units(x),
        0 <= k <= x.len(),
        cur == pos + render_units(x.take(k)).len(),
    ensures
        pos <= cur <= t.len(),
        k < x.len() ==> txt_at(t, cur, "- unit\n"@) && txt_at(t, cur, render_unit(x[k]))
            && !txt_at(t, cur + render_unit(x[k]).len(), "    - "@),
        k == x.len() ==> cur == t.len(),
{
    reveal_strlit("- unit\n");
    reveal_strlit("    - ");
    assert(txt_at(t, pos, render_units(x)));
    lemma_render_units_split(x, k);
    lemma_txt_at_split(t, pos, render_units(x.take(k)), render_units(x.skip(k)));
    if k < x.len() {
        assert(x.skip(k)[0] == x[k]);
        assert(x.skip(k).drop_first() =~= x.skip(k + 1));
        assert(render_units(x.skip(k)) == render_unit(x[k]) + render_units(x.skip(k + 1)));
        lemma_txt_at_split(t, cur, render_unit(x[k]), render_units(x.skip(k + 1)));
        lemma_render_unit_head(t, cur, x[k]);
        let e = cur + render_unit(x[k]).len();
        if x.skip(k + 1).len() > 0 {
            assert(render_units(x.skip(k + 1)) == render_unit(x.skip(k + 1)[0]) + render_units(
                x.skip(k + 1).drop_first(),
            ));
            lemma_txt_at_split(
                t,
                e,
                render_unit(x.skip(k + 1)[0]),
                render_units(x.skip(k + 1).drop_first()),
            );
            lemma_render_unit_head(t, e, x.skip(k + 1)[0]);
            if txt_at(t, e, "    - "@) {
                lemma_txt_at_agree(t, e, "    - "@, "- unit\n"@, 0);
            }
        } else {
            assert(render_units(x.skip(k + 1)).len() == 0);
            assert(e == t.len());
        }
    } else {
        assert(x.take(k) =~= x);
        assert(cur == t.len());
    }
}

/// Reads unit blocks; succeeds on the whole remainder of the text.
#[verifier::rlimit(100)]
pub fn parse_units(text: &Vec<char>, pos: usize) -> (r: Option<(Vec<MatchingUnit>, usize)>)
    requires
        pos <= text@.len(),
    ensures
        match r {
            Some((v, p)) => {
                &&& pos <= p <= text@.len()
                &&& text@.subrange(pos as int, p as int) == render_units(
                    v@.map_values(|u: MatchingUnit| u@),
                )
            },
            None => true,
        },
        forall|x: Seq<UnitModel>|
            text@.subrange(pos as int, text@.len() as int) == #[trigger] render_units(x) ==> (
            r matches Some(vp) && vp.0@.map_values(|u: MatchingUnit| u@) == x && vp.1
                == text@.len()),
{
    proof {
        reveal_strlit("- unit\n");
        reveal_strlit("    - ");
    }
    let tlen = text.len();
    let mut out: Vec<MatchingUnit> = Vec::new();
    let mut cur = pos;
    proof {
        assert(out@.map_values(|u: MatchingUnit| u@) =~= Seq::<UnitModel>::empty());
        assert(text@.subrange(pos as int, pos as int) =~= render_units(
            out@.map_values(|u: MatchingUnit| u@),
        ));
    }
    loop
        invariant
            tlen == text@.len(),
            pos <= cur <= tlen,
            text@.subrange(pos as int, cur as int) == render_units(
                out@.map_values(|u: MatchingUnit| u@),
            ),
            forall|x: Seq<UnitModel>|
                text@.subrange(pos as int, text@.len() as int) == #[trigger] render_units(x) ==> {
                    let k = out@.map_values(|u: MatchingUnit| u@).len() as int;
                    &&& k <= x.len()
                    &&& out@.map_values(|u: MatchingUnit| u@) == x.take(k)
                    &&& cur == pos + render_units(x.take(k)).len()
                },
        decreases tlen - cur,
    {
        proof {
            reveal_strlit("- unit\n");
            assert forall|x: Seq<UnitModel>|
                text@.subrange(pos as int, text@.len() as int) == #[trigger] render_units(
                    x,
                ) implies {
                let k = out@.map_values(|u: MatchingUnit| u@).len() as int;
                &&& (k < x.len() ==> txt_at(text@, cur as int, "- unit\n"@) && txt_at(
                    text@,
                    cur as int,
                    render_unit(x[k]),
                ) && !txt_at(text@, cur + render_unit(x[k]).len(), "    - "@))
                &&& (k == x.len() ==> cur == tlen && !txt_at(text@, cur as int, "- unit\n"@))
            } by {
                let k = out@.map_values(|u: MatchingUnit| u@).len() as int;
                lemma_units_at(text@, pos as int, x, k, cur as int);
            }
        }
        let la = expect_lit(text, cur, "- unit\n");
        if la.is_none() {
            proof {
                assert forall|x: Seq<UnitModel>|
                    text@.subrange(pos as int, text@.len() as int) == #[trigger] render_units(
                        x,
                    ) implies {
                    &&& out@.map_values(|u: MatchingUnit| u@) == x
                    &&& cur == tlen
                } by {
                    let k = out@.map_values(|u: MatchingUnit| u@).len() as int;
                    assert(k == x.len());
                    assert(x.take(k) =~= x);
                }
            }
            return Some((out, cur));
        }
        let ru = parse_unit_block(text, cur);
        let (u, p2) = match ru {
            Some(v) => v,
            None => {
                return None;
            },
        };
        proof {
            assert(text@.subrange(cur as int, p2 as int) == render_unit(u@));
            assert(render_unit(u@).len() >= "- unit\n"@.len());
        }
        let ghost old_dv = out@.map_values(|u2: MatchingUnit| u2@);
        let ghost old_cur = cur as int;
        out.push(u);
        proof {
            assert(out@.map_values(|u2: MatchingUnit| u2@) =~= old_dv.push(u@));
            lemma_render_units_snoc(old_dv, u@);
            lemma_subrange_cat_chars(text@, pos as int, old_cur, p2 as int);
            assert(text@.subrange(pos as int, p2 as int) == render_units(
                out@.map_values(|u2: MatchingUnit| u2@),
            ));
            assert forall|x: Seq<UnitModel>|
                text@.subrange(pos as int, text@.len() as int) == #[trigger] render_units(
                    x,
                ) implies {
                let k2 = out@.map_values(|u2: MatchingUnit| u2@).len() as int;
                &&& k2 <= x.len()
                &&& out@.map_values(|u2: MatchingUnit| u2@) == x.take(k2)
                &&& p2 == pos + render_units(x.take(k2)).len()
            } by {
                let k = old_dv.len() as int;
                assert(k < x.len());
                assert(u@ == x[k]);
                assert(x.take(k + 1) =~= x.take(k).push(x[k]));
                lemma_render_units_snoc(x.take(k), x[k]);
                assert(out@.map_values(|u2: MatchingUnit| u2@) =~= x.take(k + 1));
            }
        }
        cur = p2;
    }
}

} // verus!

verus! {

/// The display identifier of each language, one entry per member of the
/// closed set.
pub open spec fn display_of(l: Language) -> Seq<char> {
    match l {
        Language::C => "c"@,
        Language::Cpp => "cpp"@,
        Language::CSharp => "csharp"@,
        Language::Go => "go"@,
        Language::Java => "java"@,
        Language::Js => "javascript"@,
        Language::Kotlin => "kotlin"@,
        Language::Py => "python"@,
        Language::Rust => "rust"@,
        Language::Ts => "typescript"@,
    }
}

/// True iff `a` and `b` hold the same characters.
pub fn str_eq(a: &str, b: &str) -> (r: bool)
    ensures
        r == (a@ == b@),
{
    let al = a.unicode_len();
    let bl = b.unicode_len();
    if al != bl {
        return false;
    }
    let r = crate::codec::str_starts_with(a, b);
    proof {
        assert(a@.subrange(0, a@.len() as int) =~= a@);
    }
    r
}

/// Reads a display identifier back into the language enumeration; exactly
/// the ten display names are recognized.
#[verifier::rlimit(100)]
pub fn parse_language(s: &str) -> (r: Option<Language>)
    ensures
        match r {
            Some(l) => s@ == display_of(l),
            None => forall|l: Language| s@ != #[trigger] display_of(l),
        },
{
    proof {
        reveal_strlit("c");
        reveal_strlit("cpp");
        reveal_strlit("csharp");
        reveal_strlit("go");
        reveal_strlit("java");
        reveal_strlit("javascript");
        reveal_strlit("kotlin");
        reveal_strlit("python");
        reveal_strlit("rust");
        reveal_strlit("typescript");
    }
    if str_eq(s, "c") {
        Some(Language::C)
    } else if str_eq(s, "cpp") {
        Some(Language::Cpp)
    } else if str_eq(s, "csharp") {
        Some(Language::CSharp)
    } else if str_eq(s, "go") {
        Some(Language::Go)
    } else if str_eq(s, "java") {
        Some(Language::Java)
    } else if str_eq(s, "javascript") {
        Some(Language::Js)
    } else if str_eq(s, "kotlin") {
        Some(Language::Kotlin)
    } else if str_eq(s, "python") {
        Some(Language::Py)
    } else if str_eq(s, "rust") {
        Some(Language::Rust)
    } else if str_eq(s, "typescript") {
        Some(Language::Ts)
    } else {
        None
    }
}

impl PlaygroundConfig {
    /// The display identifier of this session's language; total over the
    /// closed set.
    pub fn monaco_language(&self) -> (r: &'static str)
        ensures
            r@ == display_of(self.language),
    {
        match self.language {
            Language::C => "c",
            Language::Cpp => "cpp",
            Language::CSharp => "csharp",
            Language::Go => "go",
            Language::Java => "java",
            Language::Js => "javascript",
            Language::Kotlin => "kotlin",
            Language::Py => "python",
            Language::Rust => "rust",
            Language::Ts => "typescript",
        }
    }

    /// The rule-list editor text of this session's units.
    pub fn editor_lhs(&self) -> (r: String)
        ensures
            r@ == render_units(self@.lhs),
    {
        render_lhs(&self.lhs)
    }

    /// The three editor surfaces: rule-list text, subject text, display
    /// language.
    pub fn to_editor_parts(self) -> (r: (String, String, String))
        ensures
            r.0@ == render_units(self@.lhs),
            r.1@ == self@.subject,
            r.2@ == display_of(self@.language),
    {
        let lang = String::from_str(self.monaco_language());
        let lhs = self.editor_lhs();
        (lhs, self.subject, lang)
    }

    /// Collects the editor surfaces back into a session.  Malformed rule
    /// text or an unrecognized language tag is an error with a message;
    /// the subject is taken verbatim.
    pub fn from_editor_parts(subject: &str, language: &str, editor_lhs: &str) -> (r: Result<
        Self,
        String,
    >)
        ensures
            match r {
                Ok(cfg) => {
                    &&& cfg@.subject == subject@
                    &&& language@ == display_of(cfg@.language)
                    &&& editor_lhs@ == render_units(cfg@.lhs)
                    &&& forall|l: Language|
                        language@ == #[trigger] display_of(l) ==> cfg@.language == l
                    &&& forall|us: Seq<UnitModel>|
                        editor_lhs@ == #[trigger] render_units(us) ==> cfg@.lhs == us
                },
                Err(e) => {
                    &&& ((forall|us: Seq<UnitModel>| editor_lhs@ != #[trigger] render_units(us))
                        || (forall|l: Language| language@ != #[trigger] display_of(l)))
                    &&& if exists|us: Seq<UnitModel>| editor_lhs@ == #[trigger] render_units(us) {
                        e@ == "unrecognized language tag"@
                    } else {
                        e@ == "malformed rule text"@
                    }
                },
            },
    {
        let text = str_to_chars(editor_lhs);
        proof {
            assert(text@.subrange(0, text@.len() as int) =~= text@);
        }
        let parsed = parse_units(&text, 0);
        let (units, p) = match parsed {
            Some(v) => v,
            None => {
                return Err(String::from_str("malformed rule text"));
            },
        };
        if p != text.len() {
            proof {
                assert forall|us: Seq<UnitModel>|
                    editor_lhs@ != #[trigger] render_units(us) by {}
            }
            return Err(String::from_str("malformed rule text"));
        }
        proof {
            assert(text@.subrange(0, p as int) =~= text@);
        }
        proof {
            assert forall|la: Language, lb: Language|
                #[trigger] display_of(la) == #[trigger] display_of(lb) implies la == lb by {
                lemma_language_dispatch_total(la, lb);
            }
        }
        let lang = match parse_language(language) {
            Some(l) => l,
            None => {
                proof {
                    assert(editor_lhs@ == render_units(units@.map_values(|u: MatchingUnit| u@)));
                }
                return Err(String::from_str("unrecognized language tag"));
            },
        };
        Ok(PlaygroundConfig { subject: subject.to_owned(), language: lang, lhs: units })
    }
}

/// Editor round-trip law: the editor surfaces rendered for a session
/// collect back into that same session.
pub fn editor_round_trip(c: PlaygroundConfig) -> (r: PlaygroundConfig)
    ensures
        r@ == c@,
{
    let ghost m = c@;
    let (lhs, subject, lang) = c.to_editor_parts();
    match PlaygroundConfig::from_editor_parts(subject.as_str(), lang.as_str(), lhs.as_str()) {
        Ok(cfg) => {
            proof {
                assert(cfg@ =~= m);
            }
            cfg
        },
        Err(_) => {
            proof {
                assert(false);
            }
            PlaygroundConfig::default()
        },
    }
}

/// Language dispatch is total and exhaustive: each language of the closed
/// set selects one lexer family with fixed mode flags, and no two
/// languages share a display name.
#[verifier::rlimit(100)]
pub proof fn lemma_language_dispatch_total(l1: Language, l2: Language)
    ensures
        crate::compile::spec_lexer_for(l1, true).family == crate::compile::spec_lexer_for(
            l1,
            false,
        ).family,
        crate::compile::spec_lexer_for(l1, true).pattern_mode,
        !crate::compile::spec_lexer_for(l1, false).pattern_mode,
        display_of(l1) == display_of(l2) ==> l1 == l2,
{
    reveal_strlit("c");
    reveal_strlit("cpp");
    reveal_strlit("csharp");
    reveal_strlit("go");
    reveal_strlit("java");
    reveal_strlit("javascript");
    reveal_strlit("kotlin");
    reveal_strlit("python");
    reveal_strlit("rust");
    reveal_strlit("typescript");
    assert("c"@.len() == 1 && "go"@.len() == 2 && "cpp"@.len() == 3 && "java"@.len() == 4
        && "rust"@.len() == 4 && "csharp"@.len() == 6 && "kotlin"@.len() == 6 && "python"@.len()
        == 6 && "javascript"@.len() == 10 && "typescript"@.len() == 10);
    assert("java"@[0] == 'j' && "rust"@[0] == 'r' && "csharp"@[0] == 'c' && "kotlin"@[0] == 'k'
        && "python"@[0] == 'p' && "javascript"@[0] == 'j' && "typescript"@[0] == 't');
}

} // verus!
