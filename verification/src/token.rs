//! The token codec: splitting and validating community tokens.
//!
//! A *presented* token is the 30-byte secret-bearing string a registering
//! server sends: a 6-byte public prefix followed by a 24-byte secret.  A
//! *stored* token is the 28-byte string kept in configuration: the same
//! prefix followed by the base64 (URL-safe, unpadded) encoding of the
//! SHA-256 hash of the secret.  The two lengths differ on purpose, so that
//! pasting one form where the other belongs is detected and reported with
//! a diagnostic that names the mistake.

use sha2::Digest;
use vstd::prelude::*;
use vstd::string::StringSliceAdditionalSpecFns;
use vstd::utf8::is_char_boundary;

verus! {

/// Byte length of a presented token.
pub const TOKEN_LEN: usize = 30;

/// Byte length of the public prefix.
pub const TOKEN_PLAIN_PREFIX_LEN: usize = 6;

/// Byte length of a stored token entry.
pub const TOKEN_CONFIG_LEN: usize = 28;

/// Longest allowed community identifier, in characters.
pub const COMMUNITY_MAX_LEN: usize = 28;

/// Why a presented token was rejected.
#[derive(Clone, Copy, Debug, PartialEq, Eq, Structural)]
pub enum PresentedTokenError {
    /// The input has the stored form's length: a stored (hashed) token
    /// stands where a presented token belongs.
    LooksStored,
    /// Any other malformed input.
    Invalid,
}

/// Why a stored token entry was rejected.
#[derive(Clone, Copy, Debug, PartialEq, Eq, Structural)]
pub enum StoredTokenError {
    /// The entry has the presented form's length: a real (secret-bearing)
    /// token stands where a stored one belongs.
    LooksPresented,
    /// Malformed entry: wrong length, or a hash part that does not decode
    /// to exactly 32 bytes.
    Invalid,
    /// The community identifier exceeds the 28-character bound.
    CommunityTooLong,
}

/// The SHA-256 digest of a byte sequence.  What the digest is on given
/// bytes is left to the hash function; only its length is relied upon.
pub uninterp spec fn sha256_of(data: Seq<u8>) -> Seq<u8>;

/// The decoding of a byte sequence from the unpadded URL-safe base64
/// alphabet, `None` when the input is not valid such base64.
pub uninterp spec fn b64url_decode(s: Seq<u8>) -> Option<Seq<u8>>;

/// A 32-byte SHA-256 digest.
#[derive(Debug)]
pub struct Sha256 {
    bytes: Vec<u8>,
}

impl View for Sha256 {
    type V = Seq<u8>;

    closed spec fn view(&self) -> Seq<u8> {
        self.bytes@
    }
}

impl Sha256 {
    #[verifier::type_invariant]
    spec fn type_wf(self) -> bool {
        self.bytes@.len() == 32
    }

    /// Relies on sha2's `Sha256` (through `Digest::digest`): the 32-byte
    /// SHA-256 digest of the input's bytes, a function of those bytes alone.
    #[verifier::external_body]
    pub(crate) fn hash(input: &str) -> (r: Sha256)
        ensures
            r@ == sha256_of(input.spec_bytes()),
            r@.len() == 32,
    {
        Sha256 { bytes: sha2::Sha256::digest(input.as_bytes()).to_vec() }
    }

    /// Wrap an already-computed 32-byte digest.
    pub fn new(bytes: Vec<u8>) -> (r: Sha256)
        requires
            bytes@.len() == 32,
        ensures
            r@ == bytes@,
    {
        Sha256 { bytes }
    }

    /// Fixed-time equality: XOR-accumulates every byte pair and tests the
    /// accumulator once at the end, so a mismatch in an early byte takes
    /// exactly as long as a mismatch in a late one.
    pub fn constant_time_eq(&self, other: &Sha256) -> (r: bool)
        ensures
            r == (self@ == other@),
    {
        proof {
            use_type_invariant(self);
            use_type_invariant(other);
        }
        let mut acc: u8 = 0;
        let mut i: usize = 0;
        while i < 32
            invariant
                0 <= i <= 32,
                self@.len() == 32,
                other@.len() == 32,
                (acc == 0) <==> (forall|k: int| 0 <= k < i ==> self@[k] == other@[k]),
            decreases 32 - i,
        {
            let a = self.bytes[i];
            let b = other.bytes[i];
            proof {
                assert((a ^ b) == 0 <==> a == b) by (bit_vector);
                assert(forall|x: u8, y: u8| (x | y) == 0 <==> (x == 0 && y == 0)) by (bit_vector);
            }
            acc = acc | (a ^ b);
            i = i + 1;
        }
        if acc == 0 {
            proof {
                assert(self@ =~= other@);
            }
            true
        } else {
            false
        }
    }
}

/// A stored community token: the SHA-256 digest of the token's secret half
/// and the community identifier the token grants.
#[derive(Debug)]
pub struct CommunityToken {
    secret_sha256: Sha256,
    community: String,
}

impl CommunityToken {
    #[verifier::type_invariant]
    spec fn type_wf(self) -> bool {
        self.community@.len() <= 28 && self.secret_sha256@.len() == 32
    }

    /// The digest the stored entry carries.
    pub closed spec fn spec_hash(self) -> Seq<u8> {
        self.secret_sha256@
    }

    /// The community identifier, as a character sequence.
    pub closed spec fn spec_community(self) -> Seq<char> {
        self.community@
    }

    /// Build a stored token from an already-computed digest; `None` when
    /// the community identifier exceeds the 28-character bound.
    pub fn new(secret_sha256: Sha256, community: String) -> (r: Option<CommunityToken>)
        ensures
            match r {
                Some(t) => community@.len() <= 28 && t.spec_hash() == secret_sha256@
                    && t.spec_community() == community@,
                None => community@.len() > 28,
            },
    {
        proof {
            use_type_invariant(&secret_sha256);
        }
        if community.as_str().unicode_len() <= COMMUNITY_MAX_LEN {
            Some(CommunityToken { secret_sha256, community })
        } else {
            None
        }
    }

    pub fn hash_ref(&self) -> (r: &Sha256)
        ensures
            r@ == self.spec_hash(),
    {
        &self.secret_sha256
    }

    pub fn community_ref(&self) -> (r: &String)
        ensures
            r@ == self.spec_community(),
    {
        &self.community
    }
}

/// What splitting a presented token yields: the prefix bytes and the
/// digest of the secret bytes, or the error the input earns.
pub open spec fn spec_split_presented(t: Seq<u8>) -> Result<
    (Seq<u8>, Seq<u8>),
    PresentedTokenError,
> {
    if t.len() == 30 && is_char_boundary(t, 6) {
        Ok((t.subrange(0, 6), sha256_of(t.subrange(6, 30))))
    } else if t.len() == 28 {
        Err(PresentedTokenError::LooksStored)
    } else {
        Err(PresentedTokenError::Invalid)
    }
}

/// What splitting a stored entry yields: the prefix bytes and the decoded
/// 32-byte digest, or the error the entry earns.  The community identifier
/// only bounds the length; its characters are carried through unchanged.
pub open spec fn spec_split_stored(e: Seq<u8>, community: Seq<char>) -> Result<
    (Seq<u8>, Seq<u8>),
    StoredTokenError,
> {
    if e.len() == 28 && is_char_boundary(e, 6) {
        match b64url_decode(e.subrange(6, 28)) {
            Some(h) => if h.len() == 32 {
                if community.len() <= 28 {
                    Ok((e.subrange(0, 6), h))
                } else {
                    Err(StoredTokenError::CommunityTooLong)
                }
            } else {
                Err(StoredTokenError::Invalid)
            },
            None => Err(StoredTokenError::Invalid),
        }
    } else if e.len() == 30 {
        Err(StoredTokenError::LooksPresented)
    } else {
        Err(StoredTokenError::Invalid)
    }
}

/// Relies on base64's `decode_config` with `URL_SAFE_NO_PAD`: decodes from
/// the unpadded URL-safe alphabet, `None` exactly when the crate rejects
/// the input; the result depends on the input bytes alone.  The length
/// bound keeps the crate's internal size arithmetic far from overflow.
#[verifier::external_body]
fn b64url_decode_exec(s: &str) -> (r: Option<Vec<u8>>)
    requires
        s.spec_bytes().len() <= 0xFFFF,
    ensures
        match r {
            Some(v) => b64url_decode(s.spec_bytes()) == Some(v@),
            None => b64url_decode(s.spec_bytes()) is None,
        },
{
    base64::decode_config(s, base64::URL_SAFE_NO_PAD).ok()
}

/// Split a presented (wire-form) token into its public prefix and the
/// SHA-256 digest of its secret half.  The secret itself is hashed and
/// dropped, never returned.
pub fn split_presented(token: &str) -> (r: Result<(&str, Sha256), PresentedTokenError>)
    ensures
        match r {
            Ok((prefix, h)) => spec_split_presented(token.spec_bytes()) == Ok::<
                _,
                PresentedTokenError,
            >((prefix.spec_bytes(), h@)),
            Err(e) => spec_split_presented(token.spec_bytes()) == Err::<
                (Seq<u8>, Seq<u8>),
                _,
            >(e),
        },
{
    let n = token.as_bytes().len();
    if n != TOKEN_LEN || !token.is_char_boundary(TOKEN_PLAIN_PREFIX_LEN) {
        if n == TOKEN_CONFIG_LEN {
            return Err(PresentedTokenError::LooksStored);
        }
        return Err(PresentedTokenError::Invalid);
    }
    let (prefix, secret) = token.split_at(TOKEN_PLAIN_PREFIX_LEN);
    let h = Sha256::hash(secret);
    Ok((prefix, h))
}

/// Split a stored (configuration-form) token entry into its public prefix
/// and the stored-token record for `community`.
pub fn split_stored<'a>(entry: &'a str, community: &str) -> (r: Result<
    (&'a str, CommunityToken),
    StoredTokenError,
>)
    ensures
        match r {
            Ok((prefix, tok)) => spec_split_stored(entry.spec_bytes(), community@) == Ok::<
                _,
                StoredTokenError,
            >((prefix.spec_bytes(), tok.spec_hash())) && tok.spec_community() == community@,
            Err(e) => spec_split_stored(entry.spec_bytes(), community@) == Err::<
                (Seq<u8>, Seq<u8>),
                _,
            >(e),
        },
{
    let n = entry.as_bytes().len();
    if n != TOKEN_CONFIG_LEN || !entry.is_char_boundary(TOKEN_PLAIN_PREFIX_LEN) {
        if n == TOKEN_LEN {
            return Err(StoredTokenError::LooksPresented);
        }
        return Err(StoredTokenError::Invalid);
    }
    let (prefix, hash_b64) = entry.split_at(TOKEN_PLAIN_PREFIX_LEN);
    let decoded = match b64url_decode_exec(hash_b64) {
        Some(v) => v,
        None => {
            return Err(StoredTokenError::Invalid);
        },
    };
    if decoded.len() != 32 {
        return Err(StoredTokenError::Invalid);
    }
    if community.unicode_len() > COMMUNITY_MAX_LEN {
        return Err(StoredTokenError::CommunityTooLong);
    }
    let tok = CommunityToken {
        secret_sha256: Sha256::new(decoded),
        community: community.to_owned(),
    };
    Ok((prefix, tok))
}

// ---------------------------------------------------------------------------
// Laws of the codec.
// ---------------------------------------------------------------------------

/// A presented-token split on any input of the stored form's length fails
/// with the distinguishing diagnostic, never the generic one.
pub proof fn lemma_presented_rejects_stored_length(t: Seq<u8>)
    requires
        t.len() == 28,
    ensures
        spec_split_presented(t) == Err::<(Seq<u8>, Seq<u8>), _>(PresentedTokenError::LooksStored),
{
}

/// A stored-entry split on any input of the presented form's length fails
/// with the mirror diagnostic, never the generic one.
pub proof fn lemma_stored_rejects_presented_length(e: Seq<u8>, community: Seq<char>)
    requires
        e.len() == 30,
    ensures
        spec_split_stored(e, community) == Err::<(Seq<u8>, Seq<u8>), _>(
            StoredTokenError::LooksPresented,
        ),
{
}

/// The two split operations agree: when a stored entry carries the same
/// prefix as a presented token and its hash part decodes to the digest of
/// the token's secret, both splits succeed and produce the same prefix and
/// the same 32-byte digest.  (That the encoding of a digest decodes back
/// to it is the base64 crate's round-trip, relied upon, not restated.)
pub proof fn lemma_split_agreement(e: Seq<u8>, community: Seq<char>, t: Seq<u8>)
    requires
        t.len() == 30,
        is_char_boundary(t, 6),
        e.len() == 28,
        is_char_boundary(e, 6),
        community.len() <= 28,
        e.subrange(0, 6) == t.subrange(0, 6),
        b64url_decode(e.subrange(6, 28)) == Some(sha256_of(t.subrange(6, 30))),
        sha256_of(t.subrange(6, 30)).len() == 32,
    ensures
        spec_split_stored(e, community) == Ok::<_, StoredTokenError>(
            (t.subrange(0, 6), sha256_of(t.subrange(6, 30))),
        ),
        spec_split_presented(t) == Ok::<_, PresentedTokenError>(
            (t.subrange(0, 6), sha256_of(t.subrange(6, 30))),
        ),
{
}

} // verus!
