use vstd::prelude::*;
use vstd::arithmetic::div_mod::{lemma_fundamental_div_mod, lemma_fundamental_div_mod_converse};
use vstd::utf8::{encode_utf8, decode_utf8, valid_utf8};
use crate::config::{Language, MatchingUnit, PlaygroundConfig, UnitModel, ConfigModel};

verus! {

// ---------------------------------------------------------------------------
// Little-endian fixed-width numbers
//
// Every count in the record format is stored as eight little-endian bytes,
// so any value a `u64` can hold is representable.
// ---------------------------------------------------------------------------

pub open spec fn pow256(k: nat) -> nat
    decreases k,
{
    if k == 0 {
        1nat
    } else {
        256 * pow256((k - 1) as nat)
    }
}

/// The `k` little-endian base-256 digits of `n`.
pub open spec fn le_bytes(n: nat, k: nat) -> Seq<u8>
    decreases k,
{
    if k == 0 {
        Seq::empty()
    } else {
        seq![(n % 256) as u8] + le_bytes(n / 256, (k - 1) as nat)
    }
}

/// The number a little-endian digit string stands for.
pub open spec fn from_le(s: Seq<u8>) -> nat
    decreases s.len(),
{
    if s.len() == 0 {
        0nat
    } else {
        (s[0] + 256 * from_le(s.drop_first())) as nat
    }
}

pub proof fn lemma_le_bytes_len(n: nat, k: nat)
    ensures
        le_bytes(n, k).len() == k,
    decreases k,
{
    if k > 0 {
        lemma_le_bytes_len(n / 256, (k - 1) as nat);
    }
}

/// Reading back the digits of `n` yields `n`, provided `n` fits in `k` digits.
pub proof fn lemma_from_le_le_bytes(n: nat, k: nat)
    requires
        n < pow256(k),
    ensures
        from_le(le_bytes(n, k)) == n,
    decreases k,
{
    if k > 0 {
        lemma_fundamental_div_mod(n as int, 256);
        assert(n / 256 < pow256((k - 1) as nat)) by {
            if n / 256 >= pow256((k - 1) as nat) {
                assert(n >= 256 * (n / 256));
            }
        }
        lemma_from_le_le_bytes(n / 256, (k - 1) as nat);
        assert(le_bytes(n, k).drop_first() =~= le_bytes(n / 256, (k - 1) as nat));
    }
}

/// A digit string is recovered from the number it stands for.
pub proof fn lemma_le_bytes_from_le(s: Seq<u8>)
    ensures
        le_bytes(from_le(s), s.len()) == s,
    decreases s.len(),
{
    if s.len() > 0 {
        let t = from_le(s.drop_first());
        let x = from_le(s);
        lemma_fundamental_div_mod_converse(x as int, 256, t as int, s[0] as int);
        lemma_le_bytes_from_le(s.drop_first());
        assert(le_bytes(x, s.len()) =~= s);
    }
}

/// Appends the eight little-endian bytes of `n` to `buf`.
pub fn emit_u64(buf: &mut Vec<u8>, n: u64)
    ensures
        final(buf)@ == old(buf)@ + le_bytes(n as nat, 8),
{
    let b0: u8 = (n % 256) as u8;
    let n1: u64 = n / 256;
    let b1: u8 = (n1 % 256) as u8;
    let n2: u64 = n1 / 256;
    let b2: u8 = (n2 % 256) as u8;
    let n3: u64 = n2 / 256;
    let b3: u8 = (n3 % 256) as u8;
    let n4: u64 = n3 / 256;
    let b4: u8 = (n4 % 256) as u8;
    let n5: u64 = n4 / 256;
    let b5: u8 = (n5 % 256) as u8;
    let n6: u64 = n5 / 256;
    let b6: u8 = (n6 % 256) as u8;
    let n7: u64 = n6 / 256;
    let b7: u8 = (n7 % 256) as u8;
    buf.push(b0);
    buf.push(b1);
    buf.push(b2);
    buf.push(b3);
    buf.push(b4);
    buf.push(b5);
    buf.push(b6);
    buf.push(b7);
    proof {
        reveal_with_fuel(le_bytes, 9);
        assert(n7 as nat / 256 == 0) by {
            assert(n7 < 256) by (bit_vector)
                requires n7 == n / 256 / 256 / 256 / 256 / 256 / 256 / 256;
        }
        assert(buf@ =~= old(buf)@ + le_bytes(n as nat, 8));  // final state
    }
}

/// Reads eight little-endian bytes starting at `pos`.
pub fn read_u64(buf: &Vec<u8>, pos: usize) -> (r: Option<(u64, usize)>)
    ensures
        match r {
            Some((v, p)) => {
                &&& pos + 8 <= buf@.len()
                &&& p == pos + 8
                &&& v as nat == from_le(buf@.subrange(pos as int, pos + 8))
            },
            None => pos + 8 > buf@.len(),
        },
{
    if buf.len() < 8 || pos > buf.len() - 8 {
        return None;
    }
    let b0 = buf[pos];
    let b1 = buf[pos + 1];
    let b2 = buf[pos + 2];
    let b3 = buf[pos + 3];
    let b4 = buf[pos + 4];
    let b5 = buf[pos + 5];
    let b6 = buf[pos + 6];
    let b7 = buf[pos + 7];
    let v: u64 = b0 as u64 + 256 * (b1 as u64 + 256 * (b2 as u64 + 256 * (b3 as u64 + 256 * (b4
        as u64 + 256 * (b5 as u64 + 256 * (b6 as u64 + 256 * (b7 as u64)))))));
    proof {
        let s = buf@.subrange(pos as int, pos + 8);
        reveal_with_fuel(from_le, 9);
        assert(s.drop_first() =~= buf@.subrange(pos + 1, pos + 8));
        assert(s.drop_first().drop_first() =~= buf@.subrange(pos + 2, pos + 8));
        assert(s.drop_first().drop_first().drop_first() =~= buf@.subrange(pos + 3, pos + 8));
        assert(s.drop_first().drop_first().drop_first().drop_first() =~= buf@.subrange(
            pos + 4,
            pos + 8,
        ));
        assert(s.drop_first().drop_first().drop_first().drop_first().drop_first() =~= buf@.subrange(
            pos + 5,
            pos + 8,
        ));
        assert(s.drop_first().drop_first().drop_first().drop_first().drop_first().drop_first()
            =~= buf@.subrange(pos + 6, pos + 8));
        assert(s.drop_first().drop_first().drop_first().drop_first().drop_first().drop_first().drop_first()
            =~= buf@.subrange(pos + 7, pos + 8));
        assert(s.drop_first().drop_first().drop_first().drop_first().drop_first().drop_first().drop_first().drop_first()
            =~= Seq::<u8>::empty());
        assert(v as nat == from_le(s));
    }
    Some((v, pos + 8))
}

} // verus!

verus! {

// ---------------------------------------------------------------------------
// Length-prefixed strings
//
// A string is stored as the length of its UTF-8 encoding (eight bytes,
// little-endian) followed by that encoding.
// ---------------------------------------------------------------------------

/// The encoding of one string field.
pub open spec fn enc_str(s: Seq<char>) -> Seq<u8> {
    le_bytes(encode_utf8(s).len(), 8) + encode_utf8(s)
}

/// `e` occurs in `b` starting at position `pos`.
pub open spec fn enc_at(b: Seq<u8>, pos: int, e: Seq<u8>) -> bool {
    &&& 0 <= pos
    &&& pos + e.len() <= b.len()
    &&& b.subrange(pos, pos + e.len()) == e
}

/// Relies on `String::from_utf8`: it accepts exactly the byte strings that
/// are valid UTF-8, and decodes them to the characters they encode.
#[verifier::external_body]
pub(crate) fn string_from_utf8(bytes: Vec<u8>) -> (r: Option<String>)
    ensures
        r is Some <==> valid_utf8(bytes@),
        r is Some ==> r->0@ == decode_utf8(bytes@),
{
    String::from_utf8(bytes).ok()
}

/// Appends the encoding of `s` to `buf`.
pub fn write_str(buf: &mut Vec<u8>, s: &str)
    ensures
        final(buf)@ == old(buf)@ + enc_str(s@),
{
    let bytes = s.as_bytes_vec();
    emit_u64(buf, bytes.len() as u64);
    buf.extend_from_slice(bytes.as_slice());
    proof {
        assert(buf@ =~= old(buf)@ + enc_str(s@));
    }
}

/// Reads one string field starting at `pos`.
///
/// On success the consumed bytes are exactly the encoding of the result;
/// whenever an encoded string stands at `pos`, that string is returned.
pub fn parse_str(buf: &Vec<u8>, pos: usize) -> (r: Option<(String, usize)>)
    ensures
        match r {
            Some((s, p)) => {
                &&& pos <= p <= buf@.len()
                &&& buf@.subrange(pos as int, p as int) == enc_str(s@)
            },
            None => true,
        },
        forall|x: Seq<char>|
            enc_at(buf@, pos as int, #[trigger] enc_str(x)) ==> (r matches Some(sp) && sp.0@ == x
                && sp.1 == pos + enc_str(x).len()),
{
    proof {
        broadcast use vstd::utf8::encode_utf8_valid_utf8;
        broadcast use vstd::utf8::encode_utf8_decode_utf8;

        reveal_with_fuel(pow256, 9);
        assert(pow256(8) == 0x1_0000_0000_0000_0000);
    }
    let blen = buf.len();
    let r64 = read_u64(buf, pos);
    proof {
        assert forall|x: Seq<char>| enc_at(buf@, pos as int, #[trigger] enc_str(x)) implies {
            &&& pos + 8 <= buf@.len()
            &&& buf@.subrange(pos as int, pos + 8) == le_bytes(encode_utf8(x).len(), 8)
            &&& encode_utf8(x).len() <= buf@.len() - pos - 8
        } by {
            lemma_le_bytes_len(encode_utf8(x).len(), 8);
            assert(buf@.subrange(pos as int, pos + 8) =~= enc_str(x).subrange(0, 8));
            assert(enc_str(x).subrange(0, 8) =~= le_bytes(encode_utf8(x).len(), 8));
        }
    }
    let (n, p1) = match r64 {
        Some(v) => v,
        None => {
            return None;
        },
    };
    proof {
        assert forall|x: Seq<char>|
            enc_at(buf@, pos as int, #[trigger] enc_str(x)) implies n as nat == encode_utf8(
            x,
        ).len() by {
            lemma_from_le_le_bytes(encode_utf8(x).len(), 8);
        }
    }
    if n > (blen - p1) as u64 {
        return None;
    }
    let len = n as usize;
    let mut bytes: Vec<u8> = Vec::new();
    let mut i: usize = 0;
    while i < len
        invariant
            blen == buf@.len(),
            p1 + len <= blen,
            i <= len,
            bytes@ =~= buf@.subrange(p1 as int, p1 + i),
        decreases len - i,
    {
        bytes.push(buf[p1 + i]);
        i += 1;
    }
    proof {
        assert(bytes@ =~= buf@.subrange(p1 as int, p1 + len));
        assert forall|x: Seq<char>|
            enc_at(buf@, pos as int, #[trigger] enc_str(x)) implies bytes@ == encode_utf8(x) by {
            lemma_le_bytes_len(encode_utf8(x).len(), 8);
            assert(bytes@ =~= enc_str(x).subrange(8, enc_str(x).len() as int));
            assert(enc_str(x).subrange(8, enc_str(x).len() as int) =~= encode_utf8(x));
        }
    }
    match string_from_utf8(bytes) {
        Some(s) => {
            proof {
                let consumed = buf@.subrange(pos as int, p1 + len);
                vstd::utf8::decode_utf8_encode_utf8(buf@.subrange(p1 as int, p1 + len));
                lemma_le_bytes_from_le(buf@.subrange(pos as int, pos + 8));
                assert(consumed =~= buf@.subrange(pos as int, pos + 8) + buf@.subrange(
                    p1 as int,
                    p1 + len,
                ));
                assert(consumed == enc_str(s@));
            }
            Some((s, p1 + len))
        },
        None => None,
    }
}

} // verus!

verus! {

// ---------------------------------------------------------------------------
// Records
//
// A list is stored as its length (eight bytes, little-endian) followed by
// its elements; a map entry as key then value; a unit and the whole
// configuration as their fields in declaration order.
// ---------------------------------------------------------------------------

pub open spec fn enc_pair(p: (Seq<char>, Seq<char>)) -> Seq<u8> {
    enc_str(p.0) + enc_str(p.1)
}

pub open spec fn enc_str_seq(ss: Seq<Seq<char>>) -> Seq<u8>
    decreases ss.len(),
{
    if ss.len() == 0 {
        Seq::empty()
    } else {
        enc_str(ss[0]) + enc_str_seq(ss.drop_first())
    }
}

pub open spec fn enc_pair_seq(ps: Seq<(Seq<char>, Seq<char>)>) -> Seq<u8>
    decreases ps.len(),
{
    if ps.len() == 0 {
        Seq::empty()
    } else {
        enc_pair(ps[0]) + enc_pair_seq(ps.drop_first())
    }
}

/// The encoding of a list of strings.
pub open spec fn enc_strs(ss: Seq<Seq<char>>) -> Seq<u8> {
    le_bytes(ss.len(), 8) + enc_str_seq(ss)
}

/// The encoding of a string-to-string map, as an ordered entry list.
pub open spec fn enc_pairs(ps: Seq<(Seq<char>, Seq<char>)>) -> Seq<u8> {
    le_bytes(ps.len(), 8) + enc_pair_seq(ps)
}

/// The byte that stands for each language.
pub open spec fn lang_tag(l: Language) -> u8 {
    match l {
        Language::C => 0,
        Language::Cpp => 1,
        Language::CSharp => 2,
        Language::Go => 3,
        Language::Java => 4,
        Language::Js => 5,
        Language::Kotlin => 6,
        Language::Py => 7,
        Language::Rust => 8,
        Language::Ts => 9,
    }
}

/// The encoding of one matching unit.
pub open spec fn enc_unit(u: UnitModel) -> Seq<u8> {
    enc_strs(u.patterns) + enc_str(u.name) + enc_str(u.group) + enc_pairs(u.out) + enc_pairs(
        u.transform,
    )
}

pub open spec fn enc_unit_seq(us: Seq<UnitModel>) -> Seq<u8>
    decreases us.len(),
{
    if us.len() == 0 {
        Seq::empty()
    } else {
        enc_unit(us[0]) + enc_unit_seq(us.drop_first())
    }
}

/// The encoding of a whole session configuration.
pub open spec fn enc_config(c: ConfigModel) -> Seq<u8> {
    enc_str(c.subject) + seq![lang_tag(c.language)] + le_bytes(c.lhs.len(), 8) + enc_unit_seq(c.lhs)
}

// ---------------------------------------------------------------------------
// Lemmas about the record encodings
// ---------------------------------------------------------------------------

pub proof fn lemma_subrange_cat(b: Seq<u8>, pos: int, mid: int, end: int)
    requires
        0 <= pos <= mid <= end <= b.len(),
    ensures
        b.subrange(pos, end) == b.subrange(pos, mid) + b.subrange(mid, end),
{
    assert(b.subrange(pos, end) =~= b.subrange(pos, mid) + b.subrange(mid, end));
}

pub proof fn lemma_enc_at_split(b: Seq<u8>, pos: int, e1: Seq<u8>, e2: Seq<u8>)
    requires
        enc_at(b, pos, e1 + e2),
    ensures
        enc_at(b, pos, e1),
        enc_at(b, pos + e1.len(), e2),
{
    assert(b.subrange(pos, pos + e1.len()) =~= (e1 + e2).subrange(0, e1.len() as int));
    assert((e1 + e2).subrange(0, e1.len() as int) =~= e1);
    assert(b.subrange(pos + e1.len(), pos + e1.len() + e2.len()) =~= (e1 + e2).subrange(
        e1.len() as int,
        (e1 + e2).len() as int,
    ));
    assert((e1 + e2).subrange(e1.len() as int, (e1 + e2).len() as int) =~= e2);
}

pub proof fn lemma_enc_str_seq_snoc(ss: Seq<Seq<char>>, x: Seq<char>)
    ensures
        enc_str_seq(ss.push(x)) == enc_str_seq(ss) + enc_str(x),
    decreases ss.len(),
{
    reveal_with_fuel(enc_str_seq, 3);
    if ss.len() == 0 {
        assert(ss.push(x)[0] == x);
        assert(ss.push(x).drop_first() =~= Seq::<Seq<char>>::empty());
        assert(enc_str_seq(ss.push(x)) =~= enc_str_seq(ss) + enc_str(x));
    } else {
        assert(ss.push(x)[0] == ss[0]);
        assert(ss.push(x).drop_first() =~= ss.drop_first().push(x));
        lemma_enc_str_seq_snoc(ss.drop_first(), x);
        assert(enc_str_seq(ss.push(x)) =~= enc_str_seq(ss) + enc_str(x));
    }
}

pub proof fn lemma_enc_pair_seq_snoc(ps: Seq<(Seq<char>, Seq<char>)>, x: (Seq<char>, Seq<char>))
    ensures
        enc_pair_seq(ps.push(x)) == enc_pair_seq(ps) + enc_pair(x),
    decreases ps.len(),
{
    reveal_with_fuel(enc_pair_seq, 3);
    if ps.len() == 0 {
        assert(ps.push(x)[0] == x);
        assert(ps.push(x).drop_first() =~= Seq::<(Seq<char>, Seq<char>)>::empty());
        assert(enc_pair_seq(ps.push(x)) =~= enc_pair_seq(ps) + enc_pair(x));
    } else {
        assert(ps.push(x)[0] == ps[0]);
        assert(ps.push(x).drop_first() =~= ps.drop_first().push(x));
        lemma_enc_pair_seq_snoc(ps.drop_first(), x);
        assert(enc_pair_seq(ps.push(x)) =~= enc_pair_seq(ps) + enc_pair(x));
    }
}

#[verifier::rlimit(50)]
pub proof fn lemma_enc_unit_seq_snoc(us: Seq<UnitModel>, x: UnitModel)
    ensures
        enc_unit_seq(us.push(x)) == enc_unit_seq(us) + enc_unit(x),
    decreases us.len(),
{
    reveal_with_fuel(enc_unit_seq, 3);
    if us.len() == 0 {
        assert(us.push(x)[0] == x);
        assert(us.push(x).drop_first() =~= Seq::<UnitModel>::empty());
        assert(enc_unit_seq(us.push(x)) =~= enc_unit_seq(us) + enc_unit(x));
    } else {
        assert(us.push(x)[0] == us[0]);
        assert(us.push(x).drop_first() =~= us.drop_first().push(x));
        lemma_enc_unit_seq_snoc(us.drop_first(), x);
        assert(enc_unit_seq(us.push(x)) =~= enc_unit_seq(us) + enc_unit(x));
    }
}

pub proof fn lemma_enc_str_seq_split(ss: Seq<Seq<char>>, i: int)
    requires
        0 <= i <= ss.len(),
    ensures
        enc_str_seq(ss) == enc_str_seq(ss.take(i)) + enc_str_seq(ss.skip(i)),
    decreases i,
{
    if i == 0 {
        assert(ss.take(0) =~= Seq::<Seq<char>>::empty());
        assert(ss.skip(0) =~= ss);
        assert(enc_str_seq(ss) =~= enc_str_seq(ss.take(0)) + enc_str_seq(ss.skip(0)));
    } else {
        lemma_enc_str_seq_split(ss, i - 1);
        assert(ss.take(i) =~= ss.take(i - 1).push(ss[i - 1]));
        lemma_enc_str_seq_snoc(ss.take(i - 1), ss[i - 1]);
        assert(ss.skip(i - 1)[0] == ss[i - 1]);
        assert(ss.skip(i - 1).drop_first() =~= ss.skip(i));
        assert(enc_str_seq(ss.skip(i - 1)) == enc_str(ss[i - 1]) + enc_str_seq(ss.skip(i)));
        assert(enc_str_seq(ss) =~= enc_str_seq(ss.take(i)) + enc_str_seq(ss.skip(i)));
    }
}

pub proof fn lemma_enc_pair_seq_split(ps: Seq<(Seq<char>, Seq<char>)>, i: int)
    requires
        0 <= i <= ps.len(),
    ensures
        enc_pair_seq(ps) == enc_pair_seq(ps.take(i)) + enc_pair_seq(ps.skip(i)),
    decreases i,
{
    if i == 0 {
        assert(ps.take(0) =~= Seq::<(Seq<char>, Seq<char>)>::empty());
        assert(ps.skip(0) =~= ps);
        assert(enc_pair_seq(ps) =~= enc_pair_seq(ps.take(0)) + enc_pair_seq(ps.skip(0)));
    } else {
        lemma_enc_pair_seq_split(ps, i - 1);
        assert(ps.take(i) =~= ps.take(i - 1).push(ps[i - 1]));
        lemma_enc_pair_seq_snoc(ps.take(i - 1), ps[i - 1]);
        assert(ps.skip(i - 1)[0] == ps[i - 1]);
        assert(ps.skip(i - 1).drop_first() =~= ps.skip(i));
        assert(enc_pair_seq(ps.skip(i - 1)) == enc_pair(ps[i - 1]) + enc_pair_seq(ps.skip(i)));
        assert(enc_pair_seq(ps) =~= enc_pair_seq(ps.take(i)) + enc_pair_seq(ps.skip(i)));
    }
}

pub proof fn lemma_enc_unit_seq_split(us: Seq<UnitModel>, i: int)
    requires
        0 <= i <= us.len(),
    ensures
        enc_unit_seq(us) == enc_unit_seq(us.take(i)) + enc_unit_seq(us.skip(i)),
    decreases i,
{
    if i == 0 {
        assert(us.take(0) =~= Seq::<UnitModel>::empty());
        assert(us.skip(0) =~= us);
        assert(enc_unit_seq(us) =~= enc_unit_seq(us.take(0)) + enc_unit_seq(us.skip(0)));
    } else {
        lemma_enc_unit_seq_split(us, i - 1);
        assert(us.take(i) =~= us.take(i - 1).push(us[i - 1]));
        lemma_enc_unit_seq_snoc(us.take(i - 1), us[i - 1]);
        assert(us.skip(i - 1)[0] == us[i - 1]);
        assert(us.skip(i - 1).drop_first() =~= us.skip(i));
        assert(enc_unit_seq(us.skip(i - 1)) == enc_unit(us[i - 1]) + enc_unit_seq(us.skip(i)));
        assert(enc_unit_seq(us) =~= enc_unit_seq(us.take(i)) + enc_unit_seq(us.skip(i)));
    }
}

pub proof fn lemma_enc_str_seq_min_len(ss: Seq<Seq<char>>)
    ensures
        enc_str_seq(ss).len() >= 8 * ss.len(),
    decreases ss.len(),
{
    if ss.len() > 0 {
        lemma_le_bytes_len(encode_utf8(ss[0]).len(), 8);
        lemma_enc_str_seq_min_len(ss.drop_first());
    }
}

pub proof fn lemma_enc_pair_seq_min_len(ps: Seq<(Seq<char>, Seq<char>)>)
    ensures
        enc_pair_seq(ps).len() >= 8 * ps.len(),
    decreases ps.len(),
{
    if ps.len() > 0 {
        lemma_le_bytes_len(encode_utf8(ps[0].0).len(), 8);
        lemma_enc_pair_seq_min_len(ps.drop_first());
    }
}

pub proof fn lemma_enc_unit_seq_min_len(us: Seq<UnitModel>)
    ensures
        enc_unit_seq(us).len() >= 8 * us.len(),
    decreases us.len(),
{
    if us.len() > 0 {
        lemma_le_bytes_len(us[0].patterns.len(), 8);
        lemma_enc_unit_seq_min_len(us.drop_first());
    }
}

} // verus!

verus! {

// ---------------------------------------------------------------------------
// Writers
// ---------------------------------------------------------------------------

/// The byte that stands for `l` in the record format.
pub fn lang_byte(l: Language) -> (t: u8)
    ensures
        t == lang_tag(l),
{
    match l {
        Language::C => 0,
        Language::Cpp => 1,
        Language::CSharp => 2,
        Language::Go => 3,
        Language::Java => 4,
        Language::Js => 5,
        Language::Kotlin => 6,
        Language::Py => 7,
        Language::Rust => 8,
        Language::Ts => 9,
    }
}

/// Appends the encoding of a string list to `buf`.
pub fn write_strs(buf: &mut Vec<u8>, ss: &Vec<String>)
    ensures
        final(buf)@ == old(buf)@ + enc_strs(ss.deep_view()),
{
    emit_u64(buf, ss.len() as u64);
    let mut i: usize = 0;
    while i < ss.len()
        invariant
            i <= ss@.len(),
            buf@ == old(buf)@ + le_bytes(ss@.len() as nat, 8) + enc_str_seq(
                ss.deep_view().take(i as int),
            ),
        decreases ss@.len() - i,
    {
        let ghost prior = buf@;
        write_str(buf, ss[i].as_str());
        proof {
            let dv = ss.deep_view();
            assert(dv.take(i + 1) =~= dv.take(i as int).push(dv[i as int]));
            assert(dv[i as int] == ss@[i as int]@);
            lemma_enc_str_seq_snoc(dv.take(i as int), dv[i as int]);
            assert(buf@ =~= old(buf)@ + le_bytes(ss@.len() as nat, 8) + enc_str_seq(
                dv.take(i + 1),
            ));
        }
        i += 1;
    }
    proof {
        assert(ss.deep_view().take(ss@.len() as int) =~= ss.deep_view());
        assert(buf@ =~= old(buf)@ + enc_strs(ss.deep_view()));
    }
}

/// Appends the encoding of a map's entry list to `buf`.
pub fn write_pairs(buf: &mut Vec<u8>, ps: &Vec<(String, String)>)
    ensures
        final(buf)@ == old(buf)@ + enc_pairs(ps.deep_view()),
{
    emit_u64(buf, ps.len() as u64);
    let mut i: usize = 0;
    while i < ps.len()
        invariant
            i <= ps@.len(),
            buf@ == old(buf)@ + le_bytes(ps@.len() as nat, 8) + enc_pair_seq(
                ps.deep_view().take(i as int),
            ),
        decreases ps@.len() - i,
    {
        let ghost prior = buf@;
        write_str(buf, ps[i].0.as_str());
        write_str(buf, ps[i].1.as_str());
        proof {
            let dv = ps.deep_view();
            assert(dv.take(i + 1) =~= dv.take(i as int).push(dv[i as int]));
            assert(dv[i as int] == (ps@[i as int].0@, ps@[i as int].1@));
            lemma_enc_pair_seq_snoc(dv.take(i as int), dv[i as int]);
            assert(buf@ =~= prior + enc_pair(dv[i as int]));
            assert(buf@ =~= old(buf)@ + le_bytes(ps@.len() as nat, 8) + enc_pair_seq(
                dv.take(i + 1),
            ));
        }
        i += 1;
    }
    proof {
        assert(ps.deep_view().take(ps@.len() as int) =~= ps.deep_view());
        assert(buf@ =~= old(buf)@ + enc_pairs(ps.deep_view()));
    }
}

/// Appends the encoding of one matching unit to `buf`.
pub fn write_unit(buf: &mut Vec<u8>, u: &MatchingUnit)
    ensures
        final(buf)@ == old(buf)@ + enc_unit(u@),
{
    write_strs(buf, &u.patterns);
    write_str(buf, u.name.as_str());
    write_str(buf, u.group.as_str());
    write_pairs(buf, &u.out);
    write_pairs(buf, &u.transform);
    proof {
        assert(buf@ =~= old(buf)@ + enc_unit(u@));
    }
}

/// Serializes a whole session configuration into its binary record.
pub fn config_to_bytes(c: &PlaygroundConfig) -> (r: Vec<u8>)
    ensures
        r@ == enc_config(c@),
{
    let mut buf: Vec<u8> = Vec::new();
    write_str(&mut buf, c.subject.as_str());
    buf.push(lang_byte(c.language));
    proof {
        assert(buf@ =~= enc_str(c.subject@) + seq![lang_tag(c.language)]);
    }
    let ghost head = buf@;
    emit_u64(&mut buf, c.lhs.len() as u64);
    let mut i: usize = 0;
    while i < c.lhs.len()
        invariant
            i <= c.lhs@.len(),
            head == enc_str(c@.subject) + seq![lang_tag(c@.language)],
            buf@ == head + le_bytes(c.lhs@.len() as nat, 8) + enc_unit_seq(
                c@.lhs.take(i as int),
            ),
        decreases c.lhs@.len() - i,
    {
        let ghost prior = buf@;
        write_unit(&mut buf, &c.lhs[i]);
        proof {
            let dv = c@.lhs;
            assert(dv.take(i + 1) =~= dv.take(i as int).push(dv[i as int]));
            assert(dv[i as int] == c.lhs@[i as int]@);
            lemma_enc_unit_seq_snoc(dv.take(i as int), dv[i as int]);
            assert(buf@ =~= head + le_bytes(c.lhs@.len() as nat, 8) + enc_unit_seq(
                dv.take(i + 1),
            ));
        }
        i += 1;
    }
    proof {
        assert(c@.lhs.take(c.lhs@.len() as int) =~= c@.lhs);
        assert(c@.lhs.len() == c.lhs@.len());
        assert(buf@ =~= enc_config(c@));
    }
    buf
}

/// Reads the language byte at `pos`.
pub fn parse_lang(buf: &Vec<u8>, pos: usize) -> (r: Option<(Language, usize)>)
    ensures
        match r {
            Some((l, p)) => {
                &&& pos + 1 <= buf@.len()
                &&& p == pos + 1
                &&& buf@.subrange(pos as int, pos + 1) == seq![lang_tag(l)]
            },
            None => true,
        },
        forall|l: Language|
            enc_at(buf@, pos as int, #[trigger] seq![lang_tag(l)]) ==> (r matches Some(lp)
                && lp.0 == l && lp.1 == pos + 1),
{
    proof {
        assert forall|l: Language|
            enc_at(buf@, pos as int, #[trigger] seq![lang_tag(l)]) implies pos < buf@.len()
            && buf@[pos as int] == lang_tag(l) by {
            assert(buf@.subrange(pos as int, pos + 1)[0] == buf@[pos as int]);
        }
    }
    if pos >= buf.len() {
        return None;
    }
    let t = buf[pos];
    let l = if t == 0 {
        Language::C
    } else if t == 1 {
        Language::Cpp
    } else if t == 2 {
        Language::CSharp
    } else if t == 3 {
        Language::Go
    } else if t == 4 {
        Language::Java
    } else if t == 5 {
        Language::Js
    } else if t == 6 {
        Language::Kotlin
    } else if t == 7 {
        Language::Py
    } else if t == 8 {
        Language::Rust
    } else if t == 9 {
        Language::Ts
    } else {
        return None;
    };
    proof {
        assert(buf@.subrange(pos as int, pos + 1) =~= seq![lang_tag(l)]);
    }
    Some((l, pos + 1))
}

} // verus!

verus! {

// ---------------------------------------------------------------------------
// Parsers
//
// Each parser consumes exactly the encoding of the value it returns, and
// whenever an encoded value stands at `pos` it is the one returned.
// ---------------------------------------------------------------------------

/// Reads a string list starting at `pos`.
pub fn parse_strs(buf: &Vec<u8>, pos: usize) -> (r: Option<(Vec<String>, usize)>)
    ensures
        match r {
            Some((v, p)) => {
                &&& pos <= p <= buf@.len()
                &&& buf@.subrange(pos as int, p as int) == enc_strs(v.deep_view())
            },
            None => true,
        },
        forall|x: Seq<Seq<char>>|
            enc_at(buf@, pos as int, #[trigger] enc_strs(x)) ==> (r matches Some(vp)
                && vp.0.deep_view() == x && vp.1 == pos + enc_strs(x).len()),
{
    let blen = buf.len();
    let r64 = read_u64(buf, pos);
    proof {
        assert forall|x: Seq<Seq<char>>| enc_at(buf@, pos as int, #[trigger] enc_strs(x)) implies {
            &&& pos + 8 <= buf@.len()
            &&& r64 matches Some(np) && np.0 as nat == x.len()
        } by {
            lemma_le_bytes_len(x.len(), 8);
            lemma_enc_at_split(buf@, pos as int, le_bytes(x.len(), 8), enc_str_seq(x));
            reveal_with_fuel(pow256, 9);
            lemma_enc_str_seq_min_len(x);
            lemma_from_le_le_bytes(x.len(), 8);
        }
    }
    let (n, p1) = match r64 {
        Some(v) => v,
        None => {
            return None;
        },
    };
    let mut out: Vec<String> = Vec::new();
    let mut cur = p1;
    let mut i: u64 = 0;
    proof {
        lemma_le_bytes_from_le(buf@.subrange(pos as int, pos + 8));
        assert(out.deep_view() =~= Seq::<Seq<char>>::empty());
        assert(buf@.subrange(pos as int, p1 as int) =~= le_bytes(n as nat, 8) + enc_str_seq(
            out.deep_view(),
        ));
    }
    while i < n
        invariant
            blen == buf@.len(),
            pos + 8 <= blen,
            p1 == pos + 8,
            i <= n,
            pos <= cur <= blen,
            buf@.subrange(pos as int, cur as int) == le_bytes(n as nat, 8) + enc_str_seq(
                out.deep_view(),
            ),
            out.deep_view().len() == i,
            forall|x: Seq<Seq<char>>|
                enc_at(buf@, pos as int, #[trigger] enc_strs(x)) ==> {
                    &&& n as nat == x.len()
                    &&& out.deep_view() == x.take(i as int)
                    &&& cur == pos + 8 + enc_str_seq(x.take(i as int)).len()
                },
        decreases n - i,
    {
        proof {
            assert forall|x: Seq<Seq<char>>|
                enc_at(buf@, pos as int, #[trigger] enc_strs(x)) implies enc_at(
                buf@,
                cur as int,
                enc_str(x[i as int]),
            ) by {
                lemma_le_bytes_len(x.len(), 8);
                lemma_enc_at_split(buf@, pos as int, le_bytes(x.len(), 8), enc_str_seq(x));
                lemma_enc_str_seq_split(x, i as int);
                lemma_enc_at_split(
                    buf@,
                    pos + 8,
                    enc_str_seq(x.take(i as int)),
                    enc_str_seq(x.skip(i as int)),
                );
                assert(x.skip(i as int)[0] == x[i as int]);
                assert(x.skip(i as int).drop_first() =~= x.skip(i as int + 1));
                lemma_enc_at_split(
                    buf@,
                    cur as int,
                    enc_str(x[i as int]),
                    enc_str_seq(x.skip(i as int + 1)),
                );
            }
        }
        let rs = parse_str(buf, cur);
        let (s, p2) = match rs {
            Some(v2) => v2,
            None => {
                return None;
            },
        };
        let ghost old_dv = out.deep_view();
        let ghost old_cur = cur as int;
        out.push(s);
        proof {
            assert(out.deep_view() =~= old_dv.push(s@));
            lemma_enc_str_seq_snoc(old_dv, s@);
            lemma_subrange_cat(buf@, pos as int, old_cur, p2 as int);
            assert(buf@.subrange(pos as int, p2 as int) == le_bytes(n as nat, 8) + enc_str_seq(
                old_dv,
            ) + enc_str(s@));
            assert(le_bytes(n as nat, 8) + enc_str_seq(old_dv) + enc_str(s@) =~= le_bytes(
                n as nat,
                8,
            ) + enc_str_seq(out.deep_view()));
            assert forall|x: Seq<Seq<char>>|
                enc_at(buf@, pos as int, #[trigger] enc_strs(x)) implies {
                &&& out.deep_view() == x.take(i + 1)
                &&& p2 == pos + 8 + enc_str_seq(x.take(i + 1)).len()
            } by {
                assert(s@ == x[i as int]);
                assert(x.take(i + 1) =~= x.take(i as int).push(x[i as int]));
                lemma_enc_str_seq_snoc(x.take(i as int), x[i as int]);
                assert(out.deep_view() =~= x.take(i + 1));
            }
        }
        cur = p2;
        i += 1;
    }
    proof {
        assert(buf@.subrange(pos as int, cur as int) =~= enc_strs(out.deep_view()));
        assert forall|x: Seq<Seq<char>>|
            enc_at(buf@, pos as int, #[trigger] enc_strs(x)) implies {
            &&& out.deep_view() == x
            &&& cur == pos + enc_strs(x).len()
        } by {
            assert(x.take(i as int) =~= x);
            lemma_le_bytes_len(x.len(), 8);
        }
    }
    Some((out, cur))
}

/// Reads a map's entry list starting at `pos`.
pub fn parse_pairs(buf: &Vec<u8>, pos: usize) -> (r: Option<(Vec<(String, String)>, usize)>)
    ensures
        match r {
            Some((v, p)) => {
                &&& pos <= p <= buf@.len()
                &&& buf@.subrange(pos as int, p as int) == enc_pairs(v.deep_view())
            },
            None => true,
        },
        forall|x: Seq<(Seq<char>, Seq<char>)>|
            enc_at(buf@, pos as int, #[trigger] enc_pairs(x)) ==> (r matches Some(vp)
                && vp.0.deep_view() == x && vp.1 == pos + enc_pairs(x).len()),
{
    let blen = buf.len();
    let r64 = read_u64(buf, pos);
    proof {
        assert forall|x: Seq<(Seq<char>, Seq<char>)>|
            enc_at(buf@, pos as int, #[trigger] enc_pairs(x)) implies {
            &&& pos + 8 <= buf@.len()
            &&& r64 matches Some(np) && np.0 as nat == x.len()
        } by {
            lemma_le_bytes_len(x.len(), 8);
            lemma_enc_at_split(buf@, pos as int, le_bytes(x.len(), 8), enc_pair_seq(x));
            reveal_with_fuel(pow256, 9);
            lemma_enc_pair_seq_min_len(x);
            lemma_from_le_le_bytes(x.len(), 8);
        }
    }
    let (n, p1) = match r64 {
        Some(v) => v,
        None => {
            return None;
        },
    };
    let mut out: Vec<(String, String)> = Vec::new();
    let mut cur = p1;
    let mut i: u64 = 0;
    proof {
        lemma_le_bytes_from_le(buf@.subrange(pos as int, pos + 8));
        assert(out.deep_view() =~= Seq::<(Seq<char>, Seq<char>)>::empty());
        assert(buf@.subrange(pos as int, p1 as int) =~= le_bytes(n as nat, 8) + enc_pair_seq(
            out.deep_view(),
        ));
    }
    while i < n
        invariant
            blen == buf@.len(),
            pos + 8 <= blen,
            p1 == pos + 8,
            i <= n,
            pos <= cur <= blen,
            buf@.subrange(pos as int, cur as int) == le_bytes(n as nat, 8) + enc_pair_seq(
                out.deep_view(),
            ),
            out.deep_view().len() == i,
            forall|x: Seq<(Seq<char>, Seq<char>)>|
                enc_at(buf@, pos as int, #[trigger] enc_pairs(x)) ==> {
                    &&& n as nat == x.len()
                    &&& out.deep_view() == x.take(i as int)
                    &&& cur == pos + 8 + enc_pair_seq(x.take(i as int)).len()
                },
        decreases n - i,
    {
        proof {
            assert forall|x: Seq<(Seq<char>, Seq<char>)>|
                enc_at(buf@, pos as int, #[trigger] enc_pairs(x)) implies enc_at(
                buf@,
                cur as int,
                enc_pair(x[i as int]),
            ) by {
                lemma_le_bytes_len(x.len(), 8);
                lemma_enc_at_split(buf@, pos as int, le_bytes(x.len(), 8), enc_pair_seq(x));
                lemma_enc_pair_seq_split(x, i as int);
                lemma_enc_at_split(
                    buf@,
                    pos + 8,
                    enc_pair_seq(x.take(i as int)),
                    enc_pair_seq(x.skip(i as int)),
                );
                assert(x.skip(i as int)[0] == x[i as int]);
                assert(x.skip(i as int).drop_first() =~= x.skip(i as int + 1));
                lemma_enc_at_split(
                    buf@,
                    cur as int,
                    enc_pair(x[i as int]),
                    enc_pair_seq(x.skip(i as int + 1)),
                );
            }
            assert forall|x: Seq<(Seq<char>, Seq<char>)>|
                enc_at(buf@, pos as int, #[trigger] enc_pairs(x)) implies enc_at(
                buf@,
                cur as int,
                enc_str(x[i as int].0),
            ) && enc_at(
                buf@,
                cur + enc_str(x[i as int].0).len(),
                enc_str(x[i as int].1),
            ) by {
                lemma_enc_at_split(
                    buf@,
                    cur as int,
                    enc_str(x[i as int].0),
                    enc_str(x[i as int].1),
                );
            }
        }
        let rk = parse_str(buf, cur);
        let (k, pk) = match rk {
            Some(v2) => v2,
            None => {
                return None;
            },
        };
        let rv = parse_str(buf, pk);
        let (w, p2) = match rv {
            Some(v2) => v2,
            None => {
                return None;
            },
        };
        let ghost old_dv = out.deep_view();
        let ghost old_cur = cur as int;
        out.push((k, w));
        proof {
            assert(out.deep_view() =~= old_dv.push((k@, w@)));
            lemma_enc_pair_seq_snoc(old_dv, (k@, w@));
            lemma_subrange_cat(buf@, old_cur, pk as int, p2 as int);
            lemma_subrange_cat(buf@, pos as int, old_cur, p2 as int);
            assert(buf@.subrange(old_cur, p2 as int) =~= enc_pair((k@, w@)));
            assert(buf@.subrange(pos as int, p2 as int) == le_bytes(n as nat, 8) + enc_pair_seq(
                old_dv,
            ) + enc_pair((k@, w@)));
            assert(le_bytes(n as nat, 8) + enc_pair_seq(old_dv) + enc_pair((k@, w@)) =~= le_bytes(
                n as nat,
                8,
            ) + enc_pair_seq(out.deep_view()));
            assert forall|x: Seq<(Seq<char>, Seq<char>)>|
                enc_at(buf@, pos as int, #[trigger] enc_pairs(x)) implies {
                &&& out.deep_view() == x.take(i + 1)
                &&& p2 == pos + 8 + enc_pair_seq(x.take(i + 1)).len()
            } by {
                assert(k@ == x[i as int].0);
                assert(w@ == x[i as int].1);
                assert(x.take(i + 1) =~= x.take(i as int).push(x[i as int]));
                lemma_enc_pair_seq_snoc(x.take(i as int), x[i as int]);
                assert(out.deep_view() =~= x.take(i + 1));
            }
        }
        cur = p2;
        i += 1;
    }
    proof {
        assert(buf@.subrange(pos as int, cur as int) =~= enc_pairs(out.deep_view()));
        assert forall|x: Seq<(Seq<char>, Seq<char>)>|
            enc_at(buf@, pos as int, #[trigger] enc_pairs(x)) implies {
            &&& out.deep_view() == x
            &&& cur == pos + enc_pairs(x).len()
        } by {
            assert(x.take(i as int) =~= x);
            lemma_le_bytes_len(x.len(), 8);
        }
    }
    Some((out, cur))
}

} // verus!

verus! {

/// Reads one matching unit starting at `pos`.
pub fn parse_unit(buf: &Vec<u8>, pos: usize) -> (r: Option<(MatchingUnit, usize)>)
    ensures
        match r {
            Some((u, p)) => {
                &&& pos <= p <= buf@.len()
                &&& buf@.subrange(pos as int, p as int) == enc_unit(u@)
            },
            None => true,
        },
        forall|x: UnitModel|
            enc_at(buf@, pos as int, #[trigger] enc_unit(x)) ==> (r matches Some(up) && up.0@ == x
                && up.1 == pos + enc_unit(x).len()),
{
    proof {
        assert forall|x: UnitModel| enc_at(buf@, pos as int, #[trigger] enc_unit(x)) implies {
            &&& enc_at(buf@, pos as int, enc_strs(x.patterns))
            &&& enc_at(buf@, pos + enc_strs(x.patterns).len(), enc_str(x.name))
            &&& enc_at(
                buf@,
                pos + enc_strs(x.patterns).len() + enc_str(x.name).len(),
                enc_str(x.group),
            )
            &&& enc_at(
                buf@,
                pos + enc_strs(x.patterns).len() + enc_str(x.name).len() + enc_str(x.group).len(),
                enc_pairs(x.out),
            )
            &&& enc_at(
                buf@,
                pos + enc_strs(x.patterns).len() + enc_str(x.name).len() + enc_str(x.group).len()
                    + enc_pairs(x.out).len(),
                enc_pairs(x.transform),
            )
        } by {
            lemma_enc_at_split(
                buf@,
                pos as int,
                enc_strs(x.patterns) + enc_str(x.name) + enc_str(x.group) + enc_pairs(x.out),
                enc_pairs(x.transform),
            );
            lemma_enc_at_split(
                buf@,
                pos as int,
                enc_strs(x.patterns) + enc_str(x.name) + enc_str(x.group),
                enc_pairs(x.out),
            );
            lemma_enc_at_split(
                buf@,
                pos as int,
                enc_strs(x.patterns) + enc_str(x.name),
                enc_str(x.group),
            );
            lemma_enc_at_split(buf@, pos as int, enc_strs(x.patterns), enc_str(x.name));
        }
    }
    let (patterns, q1) = match parse_strs(buf, pos) {
        Some(v) => v,
        None => {
            return None;
        },
    };
    let (name, q2) = match parse_str(buf, q1) {
        Some(v) => v,
        None => {
            return None;
        },
    };
    let (group, q3) = match parse_str(buf, q2) {
        Some(v) => v,
        None => {
            return None;
        },
    };
    let (out, q4) = match parse_pairs(buf, q3) {
        Some(v) => v,
        None => {
            return None;
        },
    };
    let (transform, q5) = match parse_pairs(buf, q4) {
        Some(v) => v,
        None => {
            return None;
        },
    };
    let u = MatchingUnit { patterns, name, group, out, transform };
    proof {
        lemma_subrange_cat(buf@, pos as int, q1 as int, q2 as int);
        lemma_subrange_cat(buf@, pos as int, q2 as int, q3 as int);
        lemma_subrange_cat(buf@, pos as int, q3 as int, q4 as int);
        lemma_subrange_cat(buf@, pos as int, q4 as int, q5 as int);
        assert(buf@.subrange(pos as int, q5 as int) =~= enc_unit(u@));
        assert forall|x: UnitModel| enc_at(buf@, pos as int, #[trigger] enc_unit(x)) implies u@ == x
            && q5 == pos + enc_unit(x).len() by {
            assert(u@ =~= x);
        }
    }
    Some((u, q5))
}

/// Deserializes a binary record; `None` unless the whole input is exactly
/// the encoding of some configuration, which is then returned.
#[verifier::rlimit(100)]
pub fn config_from_bytes(bytes: &Vec<u8>) -> (r: Option<PlaygroundConfig>)
    ensures
        r matches Some(cfg) ==> bytes@ == enc_config(cfg@),
        forall|c: ConfigModel| bytes@ == #[trigger] enc_config(c) ==> (r matches Some(cfg)
            && cfg@ == c),
{
    let blen = bytes.len();
    proof {
        assert forall|c: ConfigModel| bytes@ == #[trigger] enc_config(c) implies {
            &&& enc_at(bytes@, 0, enc_str(c.subject))
            &&& enc_at(bytes@, enc_str(c.subject).len() as int, seq![lang_tag(c.language)])
            &&& enc_at(
                bytes@,
                enc_str(c.subject).len() + 1int,
                le_bytes(c.lhs.len(), 8) + enc_unit_seq(c.lhs),
            )
        } by {
            assert(bytes@.subrange(0, enc_config(c).len() as int) =~= enc_config(c));
            lemma_enc_at_split(
                bytes@,
                0,
                enc_str(c.subject) + seq![lang_tag(c.language)] + le_bytes(c.lhs.len(), 8),
                enc_unit_seq(c.lhs),
            );
            lemma_enc_at_split(
                bytes@,
                0,
                enc_str(c.subject) + seq![lang_tag(c.language)],
                le_bytes(c.lhs.len(), 8),
            );
            lemma_enc_at_split(bytes@, 0, enc_str(c.subject), seq![lang_tag(c.language)]);
            lemma_le_bytes_len(c.lhs.len(), 8);
            assert(enc_at(
                bytes@,
                enc_str(c.subject).len() + 1int,
                le_bytes(c.lhs.len(), 8) + enc_unit_seq(c.lhs),
            )) by {
                assert(bytes@.subrange(
                    enc_str(c.subject).len() + 1int,
                    enc_str(c.subject).len() + 1int + (le_bytes(c.lhs.len(), 8) + enc_unit_seq(
                        c.lhs,
                    )).len(),
                ) =~= le_bytes(c.lhs.len(), 8) + enc_unit_seq(c.lhs));
            }
        }
    }
    let (subject, q1) = match parse_str(bytes, 0) {
        Some(v) => v,
        None => {
            return None;
        },
    };
    let (language, q2) = match parse_lang(bytes, q1) {
        Some(v) => v,
        None => {
            return None;
        },
    };
    proof {
        assert forall|c: ConfigModel| bytes@ == #[trigger] enc_config(c) implies {
            &&& enc_at(bytes@, q2 as int, le_bytes(c.lhs.len(), 8))
            &&& enc_at(bytes@, q2 + 8, enc_unit_seq(c.lhs))
        } by {
            lemma_le_bytes_len(c.lhs.len(), 8);
            lemma_enc_at_split(
                bytes@,
                q2 as int,
                le_bytes(c.lhs.len(), 8),
                enc_unit_seq(c.lhs),
            );
        }
    }
    let r64 = read_u64(bytes, q2);
    proof {
        assert forall|c: ConfigModel| bytes@ == #[trigger] enc_config(c) implies r64 matches Some(
            np,
        ) && np.0 as nat == c.lhs.len() by {
            lemma_le_bytes_len(c.lhs.len(), 8);
            reveal_with_fuel(pow256, 9);
            lemma_enc_unit_seq_min_len(c.lhs);
            lemma_from_le_le_bytes(c.lhs.len(), 8);
        }
    }
    let (n, p1) = match r64 {
        Some(v) => v,
        None => {
            return None;
        },
    };
    let mut units: Vec<MatchingUnit> = Vec::new();
    let mut cur = p1;
    let mut i: u64 = 0;
    proof {
        lemma_le_bytes_from_le(bytes@.subrange(q2 as int, q2 + 8));
        assert(units@.map_values(|u: MatchingUnit| u@) =~= Seq::<UnitModel>::empty());
        assert(bytes@.subrange(q2 as int, p1 as int) =~= le_bytes(n as nat, 8) + enc_unit_seq(
            units@.map_values(|u: MatchingUnit| u@),
        ));
    }
    while i < n
        invariant
            blen == bytes@.len(),
            q2 + 8 <= blen,
            p1 == q2 + 8,
            i <= n,
            q2 <= cur <= blen,
            bytes@.subrange(0, q1 as int) == enc_str(subject@),
            bytes@.subrange(q1 as int, q2 as int) == seq![lang_tag(language)],
            0 <= q1 <= q2 <= blen,
            bytes@.subrange(q2 as int, cur as int) == le_bytes(n as nat, 8) + enc_unit_seq(
                units@.map_values(|u: MatchingUnit| u@),
            ),
            units@.map_values(|u: MatchingUnit| u@).len() == i,
            forall|c: ConfigModel|
                bytes@ == #[trigger] enc_config(c) ==> {
                    &&& enc_at(bytes@, q2 + 8, enc_unit_seq(c.lhs))
                    &&& n as nat == c.lhs.len()
                    &&& units@.map_values(|u: MatchingUnit| u@) == c.lhs.take(i as int)
                    &&& cur == q2 + 8 + enc_unit_seq(c.lhs.take(i as int)).len()
                },
        decreases n - i,
    {
        proof {
            assert forall|c: ConfigModel| bytes@ == #[trigger] enc_config(c) implies enc_at(
                bytes@,
                cur as int,
                enc_unit(c.lhs[i as int]),
            ) by {
                lemma_enc_unit_seq_split(c.lhs, i as int);
                lemma_enc_at_split(
                    bytes@,
                    q2 + 8,
                    enc_unit_seq(c.lhs.take(i as int)),
                    enc_unit_seq(c.lhs.skip(i as int)),
                );
                assert(c.lhs.skip(i as int)[0] == c.lhs[i as int]);
                assert(c.lhs.skip(i as int).drop_first() =~= c.lhs.skip(i as int + 1));
                lemma_enc_at_split(
                    bytes@,
                    cur as int,
                    enc_unit(c.lhs[i as int]),
                    enc_unit_seq(c.lhs.skip(i as int + 1)),
                );
            }
        }
        let ru = parse_unit(bytes, cur);
        let (u, p2) = match ru {
            Some(v2) => v2,
            None => {
                return None;
            },
        };
        let ghost old_dv = units@.map_values(|u2: MatchingUnit| u2@);
        let ghost old_cur = cur as int;
        units.push(u);
        proof {
            assert(units@.map_values(|u2: MatchingUnit| u2@) =~= old_dv.push(u@));
            lemma_enc_unit_seq_snoc(old_dv, u@);
            lemma_subrange_cat(bytes@, q2 as int, old_cur, p2 as int);
            assert(bytes@.subrange(q2 as int, p2 as int) == le_bytes(n as nat, 8) + enc_unit_seq(
                old_dv,
            ) + enc_unit(u@));
            assert(le_bytes(n as nat, 8) + enc_unit_seq(old_dv) + enc_unit(u@) =~= le_bytes(
                n as nat,
                8,
            ) + enc_unit_seq(units@.map_values(|u2: MatchingUnit| u2@)));
            assert forall|c: ConfigModel| bytes@ == #[trigger] enc_config(c) implies {
                &&& units@.map_values(|u2: MatchingUnit| u2@) == c.lhs.take(i + 1)
                &&& p2 == q2 + 8 + enc_unit_seq(c.lhs.take(i + 1)).len()
            } by {
                assert(u@ == c.lhs[i as int]);
                assert(c.lhs.take(i + 1) =~= c.lhs.take(i as int).push(c.lhs[i as int]));
                lemma_enc_unit_seq_snoc(c.lhs.take(i as int), c.lhs[i as int]);
                assert(units@.map_values(|u2: MatchingUnit| u2@) =~= c.lhs.take(i + 1));
            }
        }
        cur = p2;
        i += 1;
    }
    if cur != blen {
        proof {
            assert forall|c: ConfigModel| bytes@ == #[trigger] enc_config(c) implies false by {
                assert(c.lhs.take(i as int) =~= c.lhs);
                lemma_le_bytes_len(c.lhs.len(), 8);
                assert(bytes@.len() == enc_config(c).len());
            }
        }
        return None;
    }
    let cfg = PlaygroundConfig { subject, language, lhs: units };
    proof {
        lemma_subrange_cat(bytes@, 0, q1 as int, q2 as int);
        lemma_subrange_cat(bytes@, 0, q2 as int, cur as int);
        assert(bytes@.subrange(0, cur as int) =~= bytes@);
        assert(cfg@.lhs == units@.map_values(|u2: MatchingUnit| u2@));
        assert(bytes@ =~= enc_config(cfg@));
        assert forall|c: ConfigModel| bytes@ == #[trigger] enc_config(c) implies cfg@ == c by {
            assert(c.lhs.take(i as int) =~= c.lhs);
            assert(cfg@ =~= c);
        }
    }
    Some(cfg)
}

} // verus!
