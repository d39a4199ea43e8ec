use vstd::prelude::*;
use vstd::string::StrSliceExecFns;
use vstd::string::StringExecFns;
use crate::config::{PlaygroundConfig, ConfigModel, default_config};
use crate::binfmt::{enc_config, config_to_bytes, config_from_bytes};

verus! {

// ---------------------------------------------------------------------------
// Share tokens
//
// A configuration is binary-serialized, compressed, and mapped through an
// 80-symbol URL-fragment-safe alphabet.  Decoding degrades gracefully: any
// failure yields the built-in default session instead of an error.
// ---------------------------------------------------------------------------

/// What compressing a byte string at the fixed level yields.
pub uninterp spec fn compressed_of(data: Seq<u8>) -> Seq<u8>;

/// What alphabet-encoding a byte string yields.
pub uninterp spec fn token_of(data: Seq<u8>) -> Seq<char>;

/// What alphabet-decoding a string yields: the bytes it stands for, or
/// nothing when a symbol outside the alphabet occurs.
pub uninterp spec fn decoded_of(s: Seq<char>) -> Option<Seq<u8>>;

/// What decompressing a byte string yields: the decompressed bytes, or
/// nothing when the input is no well-formed compressed stream.
pub uninterp spec fn decompressed_of(b: Seq<u8>) -> Option<Seq<u8>>;

/// The share token that stands for a configuration.
pub open spec fn enc_token(m: ConfigModel) -> Seq<char> {
    token_of(compressed_of(enc_config(m)))
}

/// `t` holds no `'#'`, the marker the public path prefix ends in.
pub open spec fn no_hash(t: Seq<char>) -> bool {
    forall|i: int| 0 <= i < t.len() ==> t[i] != '#'
}

/// The 80 token symbols: letters, digits, and punctuation needing no
/// escaping in a URL fragment.
pub open spec fn alphabet_chars() -> Seq<char> {
    "ABCDEFGHIJKLMNOPQRSTUVWXYZabcdefghijklmnopqrstuvwxyz0123456789-_.~/:@!$&'()*+,;="@
}

/// Every character of `t` is drawn from the token alphabet.
pub open spec fn token_chars(t: Seq<char>) -> bool {
    forall|i: int| 0 <= i < t.len() ==> alphabet_chars().contains(t[i])
}

/// `s` with the public path prefix removed, when it stands in front.
pub open spec fn strip_prefix(s: Seq<char>) -> Seq<char> {
    if s.len() >= spec_public_url().len() && s.subrange(0, spec_public_url().len() as int)
        == spec_public_url() {
        s.skip(spec_public_url().len() as int)
    } else {
        s
    }
}

/// The session a string decodes to: alphabet decode, decompression and
/// record parsing in turn, every failure collapsing to the built-in
/// default session.
pub open spec fn decoded_config(s: Seq<char>) -> ConfigModel {
    match decoded_of(strip_prefix(s)) {
        Some(compressed) => match decompressed_of(compressed) {
            Some(bytes) => if exists|c: ConfigModel| bytes == #[trigger] enc_config(c) {
                choose|c: ConfigModel| bytes == #[trigger] enc_config(c)
            } else {
                default_config()
            },
            None => default_config(),
        },
        None => default_config(),
    }
}

/// The public path prefix under which the app is served; a full share link
/// is origin, `"/"`, this prefix, then the token.
pub open spec fn spec_public_url() -> Seq<char> {
    "LexerSearchUI/#/"@
}

/// The public path prefix as a string slice.
pub fn public_url() -> (r: &'static str)
    ensures
        r@ == spec_public_url(),
{
    "LexerSearchUI/#/"
}

/// Relies on `zstd::encode_all` at maximum level: compressing an in-memory
/// buffer is deterministic in its input and does not fail.
#[verifier::external_body]
fn zstd_compress(data: &Vec<u8>) -> (r: Vec<u8>)
    ensures
        r@ == compressed_of(data@),
{
    zstd::encode_all(data.as_slice(), 22).unwrap()
}

/// Relies on `zstd::decode_all`: its outcome is a function of the input
/// bytes alone, named `decompressed_of`; it inverts compression, and it
/// rejects empty input, which holds no complete frame.
#[verifier::external_body]
fn zstd_decompress(data: &Vec<u8>) -> (r: Option<Vec<u8>>)
    ensures
        match r {
            Some(v) => {
                &&& decompressed_of(data@) == Some(v@)
                &&& data@.len() > 0
                &&& forall|orig: Seq<u8>| data@ == #[trigger] compressed_of(orig) ==> v@ == orig
            },
            None => {
                &&& decompressed_of(data@) is None
                &&& forall|orig: Seq<u8>| data@ != #[trigger] compressed_of(orig)
            },
        },
{
    zstd::decode_all(data.as_slice()).ok()
}

/// Relies on `base_x::encode` over the fixed 80-symbol alphabet: the output
/// is a function of the input bytes alone and uses alphabet symbols only,
/// none of which is `'#'`.
#[verifier::external_body]
pub fn encode_bytes(data: &[u8]) -> (r: String)
    ensures
        r@ == token_of(data@),
        token_chars(r@),
        no_hash(r@),
{
    base_x::encode(
        "ABCDEFGHIJKLMNOPQRSTUVWXYZabcdefghijklmnopqrstuvwxyz0123456789-_.~/:@!$&'()*+,;=",
        data,
    )
}

/// The error type `base_x::decode` reports for a symbol outside the
/// alphabet; opaque here.
#[verifier::external_type_specification]
#[verifier::external_body]
pub struct ExDecodeError(base_x::DecodeError);

/// Relies on `base_x::decode` over the same alphabet: its outcome is a
/// function of the input alone, named `decoded_of`; it fails exactly when a
/// symbol outside the alphabet occurs, it inverts encoding, and the empty
/// string decodes to no bytes.
#[verifier::external_body]
pub fn decode_bytes(s: &str) -> (r: Result<Vec<u8>, base_x::DecodeError>)
    ensures
        match r {
            Ok(v) => {
                &&& decoded_of(s@) == Some(v@)
                &&& token_chars(s@)
                &&& s@.len() == 0 ==> v@.len() == 0
                &&& forall|orig: Seq<u8>| s@ == #[trigger] token_of(orig) ==> v@ == orig
            },
            Err(_) => {
                &&& decoded_of(s@) is None
                &&& !token_chars(s@)
                &&& forall|orig: Seq<u8>| s@ != #[trigger] token_of(orig)
            },
        },
{
    base_x::decode(
        "ABCDEFGHIJKLMNOPQRSTUVWXYZabcdefghijklmnopqrstuvwxyz0123456789-_.~/:@!$&'()*+,;=",
        s,
    )
}

/// True iff `p` is a prefix of `s`.
pub fn str_starts_with(s: &str, p: &str) -> (r: bool)
    ensures
        r == (s@.len() >= p@.len() && s@.subrange(0, p@.len() as int) == p@),
{
    let sl = s.unicode_len();
    let pl = p.unicode_len();
    if sl < pl {
        return false;
    }
    let mut i: usize = 0;
    while i < pl
        invariant
            i <= pl,
            pl == p@.len(),
            sl == s@.len(),
            pl <= sl,
            forall|j: int| 0 <= j < i ==> s@[j] == p@[j],
        decreases pl - i,
    {
        if s.get_char(i) != p.get_char(i) {
            proof {
                assert(s@.subrange(0, p@.len() as int)[i as int] == s@[i as int]);
            }
            return false;
        }
        i += 1;
    }
    proof {
        assert(s@.subrange(0, p@.len() as int) =~= p@);
    }
    true
}

impl PlaygroundConfig {
    /// Encodes this configuration as a URL-safe share token: serialize,
    /// compress, alphabet-encode.  The caller composes the full link.
    pub fn to_url_str(&self) -> (r: String)
        ensures
            r@ == enc_token(self@),
            token_chars(r@),
            no_hash(r@),
    {
        let bin = config_to_bytes(self);
        let compressed = zstd_compress(&bin);
        encode_bytes(compressed.as_slice())
    }

    /// Decodes a share token, tolerating the public path prefix in front.
    /// Any malformed token silently yields the built-in default session.
    pub fn from_url_str(s: &str) -> (c: Self)
        ensures
            c@ == decoded_config(s@),
            s@.len() == 0 ==> c@ == default_config(),
            forall|m: ConfigModel|
                s@ == #[trigger] enc_token(m) && no_hash(s@) ==> c@ == m,
            forall|m: ConfigModel|
                s@ == spec_public_url() + #[trigger] enc_token(m) && no_hash(enc_token(m))
                    ==> c@ == m,
    {
        proof {
            reveal_strlit("LexerSearchUI/#/");
        }
        let p = public_url();
        let token_str: &str = if str_starts_with(s, p) {
            proof {
                assert(s@.subrange(0, 16)[14] == s@[14]);
                assert(s@[14] == '#');
                assert(strip_prefix(s@) == s@.skip(16));
                assert(s@.skip(16) =~= s@.subrange(16, s@.len() as int));
                assert forall|m: ConfigModel|
                    s@ == spec_public_url() + #[trigger] enc_token(m) implies s@.subrange(
                    16,
                    s@.len() as int,
                ) == enc_token(m) by {
                    assert(s@.subrange(16, s@.len() as int) =~= enc_token(m));
                }
            }
            s.substring_char(p.unicode_len(), s.unicode_len())
        } else {
            proof {
                assert(strip_prefix(s@) == s@);
                assert forall|m: ConfigModel|
                    s@ == spec_public_url() + #[trigger] enc_token(m) implies false by {
                    assert(s@.subrange(0, 16) =~= spec_public_url());
                }
            }
            s
        };
        proof {
            assert(token_str@ == strip_prefix(s@));
            assert forall|m: ConfigModel|
                (s@ == #[trigger] enc_token(m) && no_hash(s@)) || (s@ == spec_public_url()
                    + enc_token(m) && no_hash(enc_token(m))) implies token_str@ == enc_token(
                m,
            ) by {}
        }
        let compressed = match decode_bytes(token_str) {
            Ok(v) => v,
            Err(_) => {
                return PlaygroundConfig::default();
            },
        };
        let bytes = match zstd_decompress(&compressed) {
            Some(v) => v,
            None => {
                return PlaygroundConfig::default();
            },
        };
        proof {
            if s@.len() == 0 {
                assert(token_str@.len() == 0);
                assert(compressed@.len() == 0);
                assert(false);
            }
        }
        match config_from_bytes(&bytes) {
            Some(cfg) => {
                proof {
                    assert(bytes@ == enc_config(cfg@));
                    let c0 = choose|cm: ConfigModel| bytes@ == #[trigger] enc_config(cm);
                    assert(cfg@ == c0);
                }
                cfg
            },
            None => {
                proof {
                    if exists|cm: ConfigModel| bytes@ == #[trigger] enc_config(cm) {
                        let cm = choose|cm: ConfigModel| bytes@ == #[trigger] enc_config(cm);
                        assert(false);
                    }
                }
                PlaygroundConfig::default()
            },
        }
    }
}

/// Round-trip law: decoding an encoded session yields that session again.
pub fn encode_then_decode(c: &PlaygroundConfig) -> (r: PlaygroundConfig)
    ensures
        r@ == c@,
{
    let token = c.to_url_str();
    PlaygroundConfig::from_url_str(token.as_str())
}

/// Prefix-tolerance law: a token still decodes to the same session when the
/// public path prefix stands in front of it.
pub fn encode_then_decode_with_prefix(c: &PlaygroundConfig) -> (r: PlaygroundConfig)
    ensures
        r@ == c@,
{
    let token = c.to_url_str();
    let full = String::from_str(public_url()).concat(token.as_str());
    PlaygroundConfig::from_url_str(full.as_str())
}

} // verus!
