//! The configuration model: the community-token table, the ban and
//! exemption tables, and the three query operations the hosting process
//! uses (`is_banned`, `is_exempt_from_port_forward_check`,
//! `community_for_token`).
//!
//! A `Config` is built all-or-nothing from already-parsed values: any
//! malformed token entry, duplicate prefix, oversized community
//! identifier or invalid communities document fails the whole build.
//! Reading files and decoding the configuration document's syntax are the
//! hosting process's business; this module receives plain values.

use vstd::prelude::*;
use vstd::string::StringSliceAdditionalSpecFns;
use vstd::utf8::encode_utf8;

use crate::addr::Addr;
use crate::addr::ConfigAddr;
use crate::token::CommunityToken;
use crate::token::PresentedTokenError;
use crate::token::StoredTokenError;
use crate::token::spec_split_presented;
use crate::token::spec_split_stored;
use crate::token::split_presented;
use crate::token::split_stored;

verus! {

/// Where the configuration comes from.
pub enum ConfigLocation {
    /// No configuration at all: an empty, default `Config`.
    Absent,
    /// A configuration file to read and decode.
    File(String),
    /// No configuration file, only an externally supplied locations-file
    /// path.
    LocationsFileParameter(String),
}

/// A ban rule: an address rule plus an optional reason.
#[derive(Debug)]
pub struct Ban {
    pub address: ConfigAddr,
    pub reason: Option<String>,
}

/// What kind of construction-time failure occurred.
#[derive(Clone, Copy, Debug, PartialEq, Eq, Structural)]
pub enum ErrorKind {
    /// A stored token entry is malformed (wrong length, or a hash part
    /// that does not decode to exactly 32 bytes).
    InvalidStoredToken,
    /// A presented (secret-bearing) token stands where a stored one
    /// belongs.
    StoredLooksPresented,
    /// A community identifier exceeds the 28-character bound.
    CommunityTooLong,
    /// Two stored token entries share a prefix.
    DuplicatePrefix,
    /// The communities document is not valid JSON.
    InvalidCommunitiesJson,
}

/// A construction-time error: what went wrong, and the offending input,
/// verbatim.
#[derive(Debug, Clone)]
pub struct Error {
    pub kind: ErrorKind,
    pub detail: String,
}

/// The canonical (minimal-whitespace) serialization of a JSON document,
/// `None` when the text is not valid JSON.
pub uninterp spec fn json_canonical(s: Seq<char>) -> Option<Seq<char>>;

/// Relies on serde_json (`from_str` to a `Value`, then `to_string`):
/// parses the document and re-serializes it canonically, stripping
/// incidental whitespace; `None` exactly when the text is rejected as
/// JSON.  The result depends on the text alone.
#[verifier::external_body]
fn json_normalize(s: &str) -> (r: Option<String>)
    ensures
        match r {
            Some(t) => json_canonical(s@) == Some(t@),
            None => json_canonical(s@) is None,
        },
{
    match serde_json::from_str::<serde_json::Value>(s) {
        Ok(v) => serde_json::to_string(&v).ok(),
        Err(_) => None,
    }
}

/// Byte-for-byte equality of two byte slices.
fn bytes_eq(a: &[u8], b: &[u8]) -> (r: bool)
    ensures
        r == (a@ == b@),
{
    if a.len() != b.len() {
        return false;
    }
    let n = a.len();
    let mut i: usize = 0;
    while i < n
        invariant
            0 <= i <= n,
            n == a@.len() == b@.len(),
            forall|k: int| 0 <= k < i ==> a@[k] == b@[k],
        decreases n - i,
    {
        if a[i] != b[i] {
            return false;
        }
        i = i + 1;
    }
    proof {
        assert(a@ =~= b@);
    }
    true
}

/// Copy a string's bytes into an owned vector.
fn bytes_of(s: &str) -> (r: Vec<u8>)
    ensures
        r@ == s.spec_bytes(),
{
    let b = s.as_bytes();
    let n = b.len();
    let mut r: Vec<u8> = Vec::new();
    let mut i: usize = 0;
    while i < n
        invariant
            0 <= i <= n,
            n == b@.len(),
            r@ == b@.subrange(0, i as int),
        decreases n - i,
    {
        r.push(b[i]);
        i = i + 1;
    }
    proof {
        assert(r@ =~= b@);
    }
    r
}

// ---------------------------------------------------------------------------
// The community-token table.
// ---------------------------------------------------------------------------

#[derive(Debug)]
struct TokenEntry {
    prefix: Vec<u8>,
    token: CommunityToken,
}

/// The table mapping token prefixes to stored tokens, in insertion order.
/// Its mathematical model is a sequence of (prefix bytes, secret digest,
/// community) triples.
#[derive(Debug)]
pub struct CommunityTokenTable {
    entries: Vec<TokenEntry>,
}

/// Whether some entry of a table model carries prefix `p`.
pub open spec fn tbl_contains(s: Seq<(Seq<u8>, Seq<u8>, Seq<char>)>, p: Seq<u8>) -> bool {
    exists|i: int| 0 <= i < s.len() && s[i].0 == p
}

/// The digest and community of the first entry carrying prefix `p`.
pub open spec fn tbl_lookup_from(
    s: Seq<(Seq<u8>, Seq<u8>, Seq<char>)>,
    p: Seq<u8>,
    i: int,
) -> Option<(Seq<u8>, Seq<char>)>
    decreases s.len() - i,
{
    if 0 <= i < s.len() {
        if s[i].0 == p {
            Some((s[i].1, s[i].2))
        } else {
            tbl_lookup_from(s, p, i + 1)
        }
    } else {
        None
    }
}

pub open spec fn tbl_lookup(s: Seq<(Seq<u8>, Seq<u8>, Seq<char>)>, p: Seq<u8>) -> Option<
    (Seq<u8>, Seq<char>),
> {
    tbl_lookup_from(s, p, 0)
}

impl CommunityTokenTable {
    /// The table's contents: (prefix bytes, secret digest, community).
    pub closed spec fn spec_model(self) -> Seq<(Seq<u8>, Seq<u8>, Seq<char>)> {
        self.entries@.map_values(
            |e: TokenEntry| (e.prefix@, e.token.spec_hash(), e.token.spec_community()),
        )
    }

    pub fn new() -> (r: CommunityTokenTable)
        ensures
            r.spec_model() == Seq::<(Seq<u8>, Seq<u8>, Seq<char>)>::empty(),
    {
        let r = CommunityTokenTable { entries: Vec::new() };
        proof {
            assert(r.spec_model() =~= Seq::<(Seq<u8>, Seq<u8>, Seq<char>)>::empty());
        }
        r
    }

    /// Add an entry; refused (returning `false`, leaving the table as it
    /// was) when an entry with the same prefix is already present.
    pub fn insert(&mut self, prefix: Vec<u8>, token: CommunityToken) -> (r: bool)
        ensures
            r ==> !tbl_contains(old(self).spec_model(), prefix@) && final(self).spec_model()
                == old(self).spec_model().push(
                (prefix@, token.spec_hash(), token.spec_community()),
            ),
            !r ==> tbl_contains(old(self).spec_model(), prefix@) && final(self).spec_model()
                == old(self).spec_model(),
    {
        if self.lookup(prefix.as_slice()).is_some() {
            proof {
                assert(tbl_contains(self.spec_model(), prefix@)) by {
                    lemma_lookup_contains(self.spec_model(), prefix@, 0);
                }
            }
            return false;
        }
        proof {
            lemma_not_lookup_not_contains(self.spec_model(), prefix@, 0);
        }
        let ghost before = self.spec_model();
        let ghost trip = (prefix@, token.spec_hash(), token.spec_community());
        self.entries.push(TokenEntry { prefix, token });
        proof {
            assert(self.spec_model() =~= before.push(trip));
        }
        true
    }

    /// Find the first entry carrying `prefix`.
    pub fn lookup(&self, prefix: &[u8]) -> (r: Option<&CommunityToken>)
        ensures
            match r {
                Some(t) => tbl_lookup(self.spec_model(), prefix@) == Some(
                    (t.spec_hash(), t.spec_community()),
                ),
                None => tbl_lookup(self.spec_model(), prefix@) is None,
            },
    {
        let n = self.entries.len();
        let mut i: usize = 0;
        while i < n
            invariant
                0 <= i <= n,
                n == self.entries@.len(),
                tbl_lookup(self.spec_model(), prefix@) == tbl_lookup_from(
                    self.spec_model(),
                    prefix@,
                    i as int,
                ),
            decreases n - i,
        {
            if bytes_eq(self.entries[i].prefix.as_slice(), prefix) {
                return Some(&self.entries[i].token);
            }
            i = i + 1;
        }
        None
    }
}

/// A successful lookup scan means some entry carries the prefix.
proof fn lemma_lookup_contains(s: Seq<(Seq<u8>, Seq<u8>, Seq<char>)>, p: Seq<u8>, i: int)
    requires
        0 <= i,
        tbl_lookup_from(s, p, i) is Some,
    ensures
        tbl_contains(s, p),
    decreases s.len() - i,
{
    if i < s.len() && s[i].0 != p {
        lemma_lookup_contains(s, p, i + 1);
    }
}

/// A failed lookup scan means no entry at or after `i` carries the prefix.
proof fn lemma_not_lookup_not_contains(s: Seq<(Seq<u8>, Seq<u8>, Seq<char>)>, p: Seq<u8>, i: int)
    requires
        0 <= i,
        tbl_lookup_from(s, p, i) is None,
    ensures
        forall|k: int| i <= k < s.len() ==> s[k].0 != p,
    decreases s.len() - i,
{
    if i < s.len() {
        lemma_not_lookup_not_contains(s, p, i + 1);
    }
}

// ---------------------------------------------------------------------------
// Building the token table from configuration entries.
// ---------------------------------------------------------------------------

/// What building the table from `entries[i..]` yields, having already
/// accumulated `acc`: the final model, or the first error in entry order.
/// Each entry is a (stored token string, community identifier) pair; the
/// stored token is split and validated, and a prefix seen twice fails the
/// whole build.
pub open spec fn spec_build_tokens_from(
    entries: Seq<(Seq<char>, Seq<char>)>,
    i: int,
    acc: Seq<(Seq<u8>, Seq<u8>, Seq<char>)>,
) -> Result<Seq<(Seq<u8>, Seq<u8>, Seq<char>)>, (ErrorKind, Seq<char>)>
    decreases entries.len() - i,
{
    if 0 <= i < entries.len() {
        match spec_split_stored(encode_utf8(entries[i].0), entries[i].1) {
            Err(StoredTokenError::LooksPresented) => Err(
                (ErrorKind::StoredLooksPresented, entries[i].0),
            ),
            Err(StoredTokenError::Invalid) => Err((ErrorKind::InvalidStoredToken, entries[i].0)),
            Err(StoredTokenError::CommunityTooLong) => Err(
                (ErrorKind::CommunityTooLong, entries[i].1),
            ),
            Ok((p, h)) => if tbl_contains(acc, p) {
                Err((ErrorKind::DuplicatePrefix, entries[i].0))
            } else {
                spec_build_tokens_from(entries, i + 1, acc.push((p, h, entries[i].1)))
            },
        }
    } else {
        Ok(acc)
    }
}

/// What building the whole table yields.
pub open spec fn spec_build_tokens(entries: Seq<(Seq<char>, Seq<char>)>) -> Result<
    Seq<(Seq<u8>, Seq<u8>, Seq<char>)>,
    (ErrorKind, Seq<char>),
> {
    spec_build_tokens_from(entries, 0, Seq::empty())
}

/// Build the community-token table from (stored token, community) pairs.
pub fn build_token_table(entries: &Vec<(String, String)>) -> (r: Result<
    CommunityTokenTable,
    Error,
>)
    ensures
        match r {
            Ok(t) => spec_build_tokens(spec_entry_views(entries@)) == Ok::<
                _,
                (ErrorKind, Seq<char>),
            >(t.spec_model()),
            Err(e) => spec_build_tokens(spec_entry_views(entries@)) == Err::<
                Seq<(Seq<u8>, Seq<u8>, Seq<char>)>,
                _,
            >((e.kind, e.detail@)),
        },
{
    let ghost sv = spec_entry_views(entries@);
    let n = entries.len();
    let mut table = CommunityTokenTable::new();
    let mut i: usize = 0;
    while i < n
        invariant
            0 <= i <= n,
            n == entries@.len(),
            sv == spec_entry_views(entries@),
            sv.len() == n,
            forall|k: int| 0 <= k < n ==> sv[k] == (entries@[k].0@, entries@[k].1@),
            spec_build_tokens(sv) == spec_build_tokens_from(sv, i as int, table.spec_model()),
        decreases n - i,
    {
        let entry = &entries[i].0;
        let community = &entries[i].1;
        match split_stored(entry.as_str(), community.as_str()) {
            Err(StoredTokenError::LooksPresented) => {
                return Err(
                    Error { kind: ErrorKind::StoredLooksPresented, detail: entry.clone() },
                );
            },
            Err(StoredTokenError::Invalid) => {
                return Err(Error { kind: ErrorKind::InvalidStoredToken, detail: entry.clone() });
            },
            Err(StoredTokenError::CommunityTooLong) => {
                return Err(Error { kind: ErrorKind::CommunityTooLong, detail: community.clone() });
            },
            Ok((prefix, token)) => {
                let pv = bytes_of(prefix);
                if !table.insert(pv, token) {
                    return Err(Error { kind: ErrorKind::DuplicatePrefix, detail: entry.clone() });
                }
            },
        }
        i = i + 1;
    }
    Ok(table)
}

/// The views of a vector of (stored token, community) string pairs.
pub open spec fn spec_entry_views(entries: Seq<(String, String)>) -> Seq<(Seq<char>, Seq<char>)> {
    entries.map_values(|p: (String, String)| (p.0@, p.1@))
}

// ---------------------------------------------------------------------------
// The configuration model.
// ---------------------------------------------------------------------------

/// The communities block of a configuration, with its document already
/// read from its file: the JSON text and the stored-token map, in file
/// order.
pub struct CommunitiesInput {
    pub json_text: String,
    pub tokens: Vec<(String, String)>,
}

/// A decoded configuration document, before validation.
pub struct ParsedConfig {
    pub communities: Option<CommunitiesInput>,
    pub default_ban_message: Option<String>,
    pub bans: Vec<Ban>,
    pub port_forward_check_exceptions: Vec<ConfigAddr>,
    pub locations: Option<String>,
}

impl ParsedConfig {
    /// The (stored token, community) pairs the token table is built from.
    pub open spec fn spec_token_entries(self) -> Seq<(Seq<char>, Seq<char>)> {
        match self.communities {
            Some(ci) => spec_entry_views(ci.tokens@),
            None => Seq::empty(),
        }
    }
}

/// The validated, immutable configuration.
#[derive(Debug)]
pub struct Config {
    /// The communities document in canonical JSON form, re-exposed
    /// verbatim to callers.
    pub communities: Option<String>,
    community_tokens: CommunityTokenTable,
    default_ban_message: String,
    bans: Vec<Ban>,
    port_forward_check_exceptions: Vec<ConfigAddr>,
    /// The locations-file path to hand to the locations registry, when
    /// one is configured.
    pub locations: Option<String>,
}

/// The reason of the first ban at or after position `i` that matches
/// `a`; a rule without a reason earns the default message.
pub open spec fn sp_first_ban_from(bans: Seq<Ban>, msg: Seq<char>, a: Addr, i: int) -> Option<
    Seq<char>,
>
    decreases bans.len() - i,
{
    if 0 <= i < bans.len() {
        if bans[i].address.spec_matches(a) {
            Some(
                match bans[i].reason {
                    Some(r) => r@,
                    None => msg,
                },
            )
        } else {
            sp_first_ban_from(bans, msg, a, i + 1)
        }
    } else {
        None
    }
}

impl Config {
    pub closed spec fn spec_communities(self) -> Option<String> {
        self.communities
    }

    pub closed spec fn spec_locations(self) -> Option<String> {
        self.locations
    }

    pub closed spec fn spec_tokens(self) -> CommunityTokenTable {
        self.community_tokens
    }

    pub closed spec fn spec_default_ban_message(self) -> Seq<char> {
        self.default_ban_message@
    }

    pub closed spec fn spec_bans(self) -> Seq<Ban> {
        self.bans@
    }

    pub closed spec fn spec_exceptions(self) -> Seq<ConfigAddr> {
        self.port_forward_check_exceptions@
    }

    /// The ban verdict on an endpoint: the first matching rule's reason
    /// (or the default message), in configured order; `None` when no rule
    /// matches.
    pub open spec fn spec_is_banned(self, a: Addr) -> Option<Seq<char>> {
        sp_first_ban_from(self.spec_bans(), self.spec_default_ban_message(), a, 0)
    }

    /// Whether some entry of the exemption list matches the endpoint.
    pub open spec fn spec_is_exempt(self, a: Addr) -> bool {
        exists|i: int|
            0 <= i < self.spec_exceptions().len() && self.spec_exceptions()[i].spec_matches(a)
    }

    /// The authentication verdict on a presented token: a malformed token
    /// is an error; an unknown prefix and a mismatching secret digest are
    /// both `None`; a match yields the community.
    pub open spec fn spec_community_for_token(self, t: Seq<u8>) -> Result<
        Option<Seq<char>>,
        PresentedTokenError,
    > {
        match spec_split_presented(t) {
            Err(e) => Err(e),
            Ok((p, h)) => Ok(
                match tbl_lookup(self.spec_tokens().spec_model(), p) {
                    Some((hash, community)) => if hash == h {
                        Some(community)
                    } else {
                        None
                    },
                    None => None,
                },
            ),
        }
    }

    /// Put a configuration together out of already-validated parts.
    pub fn assemble(
        communities: Option<String>,
        community_tokens: CommunityTokenTable,
        default_ban_message: String,
        bans: Vec<Ban>,
        port_forward_check_exceptions: Vec<ConfigAddr>,
        locations: Option<String>,
    ) -> (r: Config)
        ensures
            r.spec_communities() == communities,
            r.spec_tokens() == community_tokens,
            r.spec_default_ban_message() == default_ban_message@,
            r.spec_bans() == bans@,
            r.spec_exceptions() == port_forward_check_exceptions@,
            r.spec_locations() == locations,
    {
        Config {
            communities,
            community_tokens,
            default_ban_message,
            bans,
            port_forward_check_exceptions,
            locations,
        }
    }

    /// The minimal configuration built when the hosting process is given
    /// only a locations-file path instead of a configuration file.
    pub fn from_locations_file_parameter(locations_file: &str) -> (r: Config)
        ensures
            r.spec_communities() is None,
            r.spec_tokens().spec_model() == Seq::<(Seq<u8>, Seq<u8>, Seq<char>)>::empty(),
            r.spec_default_ban_message() == "banned"@,
            r.spec_bans() == Seq::<Ban>::empty(),
            r.spec_exceptions() == Seq::<ConfigAddr>::empty(),
            r.spec_locations() is Some && r.spec_locations().unwrap()@ == locations_file@,
    {
        let r = Config {
            communities: None,
            community_tokens: CommunityTokenTable::new(),
            default_ban_message: "banned".to_owned(),
            bans: Vec::new(),
            port_forward_check_exceptions: Vec::new(),
            locations: Some(locations_file.to_owned()),
        };
        proof {
            assert(r.spec_bans() =~= Seq::<Ban>::empty());
            assert(r.spec_exceptions() =~= Seq::<ConfigAddr>::empty());
        }
        r
    }

    /// Validate a decoded configuration document and build the
    /// configuration, all-or-nothing: an invalid communities document, a
    /// malformed or duplicate token entry, or an oversized community
    /// identifier fails the whole build with the offending input named.
    pub fn from_parts(parsed: ParsedConfig) -> (r: Result<Config, Error>)
        ensures
            r is Err <==> (match parsed.communities {
                Some(ci) => json_canonical(ci.json_text@) is None || spec_build_tokens(
                    spec_entry_views(ci.tokens@),
                ) is Err,
                None => false,
            }),
            match r {
                Ok(c) => {
                    &&& match parsed.communities {
                        Some(ci) => c.spec_communities() is Some && json_canonical(ci.json_text@)
                            == Some(c.spec_communities().unwrap()@),
                        None => c.spec_communities() is None,
                    }
                    &&& spec_build_tokens(parsed.spec_token_entries()) == Ok::<
                        _,
                        (ErrorKind, Seq<char>),
                    >(c.spec_tokens().spec_model())
                    &&& c.spec_default_ban_message() == (match parsed.default_ban_message {
                        Some(m) => m@,
                        None => "banned"@,
                    })
                    &&& c.spec_bans() == parsed.bans@
                    &&& c.spec_exceptions() == parsed.port_forward_check_exceptions@
                    &&& c.spec_locations() == parsed.locations
                },
                Err(e) => match parsed.communities {
                    Some(ci) => {
                        if json_canonical(ci.json_text@) is None {
                            e.kind == ErrorKind::InvalidCommunitiesJson && e.detail@
                                == ci.json_text@
                        } else {
                            spec_build_tokens(spec_entry_views(ci.tokens@)) == Err::<
                                Seq<(Seq<u8>, Seq<u8>, Seq<char>)>,
                                _,
                            >((e.kind, e.detail@))
                        }
                    },
                    None => false,
                },
            },
    {
        let ParsedConfig {
            communities,
            default_ban_message,
            bans,
            port_forward_check_exceptions,
            locations,
        } = parsed;
        let (doc, table) = match communities {
            Some(ci) => {
                let doc = match json_normalize(ci.json_text.as_str()) {
                    Some(d) => d,
                    None => {
                        return Err(
                            Error { kind: ErrorKind::InvalidCommunitiesJson, detail: ci.json_text },
                        );
                    },
                };
                let table = match build_token_table(&ci.tokens) {
                    Ok(t) => t,
                    Err(e) => {
                        return Err(e);
                    },
                };
                (Some(doc), table)
            },
            None => (None, CommunityTokenTable::new()),
        };
        let msg = match default_ban_message {
            Some(m) => m,
            None => "banned".to_owned(),
        };
        Ok(Config::assemble(doc, table, msg, bans, port_forward_check_exceptions, locations))
    }

    /// The ban verdict on an endpoint: rules are tried in configured
    /// order, the first match wins, and a rule without a reason earns the
    /// table's default message.
    pub fn is_banned(&self, addr: Addr) -> (r: Option<&str>)
        ensures
            match r {
                Some(msg) => self.spec_is_banned(addr) == Some(msg@),
                None => self.spec_is_banned(addr) is None,
            },
    {
        let n = self.bans.len();
        let mut i: usize = 0;
        while i < n
            invariant
                0 <= i <= n,
                n == self.spec_bans().len(),
                self.spec_is_banned(addr) == sp_first_ban_from(
                    self.spec_bans(),
                    self.spec_default_ban_message(),
                    addr,
                    i as int,
                ),
            decreases n - i,
        {
            if self.bans[i].address.matches(addr) {
                return match &self.bans[i].reason {
                    Some(reason) => Some(reason.as_str()),
                    None => Some(self.default_ban_message.as_str()),
                };
            }
            i = i + 1;
        }
        None
    }

    /// Whether the endpoint is exempt from the port-forward reachability
    /// check: true exactly when some configured exception matches.
    pub fn is_exempt_from_port_forward_check(&self, addr: Addr) -> (r: bool)
        ensures
            r == self.spec_is_exempt(addr),
    {
        let n = self.port_forward_check_exceptions.len();
        let mut i: usize = 0;
        while i < n
            invariant
                0 <= i <= n,
                n == self.spec_exceptions().len(),
                forall|k: int| 0 <= k < i ==> !self.spec_exceptions()[k].spec_matches(addr),
            decreases n - i,
        {
            if self.port_forward_check_exceptions[i].matches(addr) {
                return true;
            }
            i = i + 1;
        }
        false
    }

    /// Authenticate a presented token and resolve it to its community.  A
    /// malformed token is a hard error; an unknown prefix and a wrong
    /// secret are answered identically with `Ok(None)`, so the caller
    /// cannot tell the two apart.  The stored digest is compared in fixed
    /// time.
    pub fn community_for_token<'a>(&'a self, token: &str) -> (r: Result<
        Option<&'a str>,
        PresentedTokenError,
    >)
        ensures
            match r {
                Err(e) => self.spec_community_for_token(token.spec_bytes()) == Err::<
                    Option<Seq<char>>,
                    _,
                >(e),
                Ok(Some(c)) => self.spec_community_for_token(token.spec_bytes()) == Ok::<
                    _,
                    PresentedTokenError,
                >(Some(c@)),
                Ok(None) => self.spec_community_for_token(token.spec_bytes()) == Ok::<
                    Option<Seq<char>>,
                    PresentedTokenError,
                >(None),
            },
    {
        let (prefix, h) = match split_presented(token) {
            Ok(x) => x,
            Err(e) => {
                return Err(e);
            },
        };
        let tok = match self.community_tokens.lookup(prefix.as_bytes()) {
            Some(t) => t,
            None => {
                return Ok(None);
            },
        };
        if tok.hash_ref().constant_time_eq(&h) {
            Ok(Some(tok.community_ref().as_str()))
        } else {
            Ok(None)
        }
    }
}

impl Default for Config {
    /// The empty configuration: no document, no tokens, no rules, the
    /// fixed fallback ban message, no locations file.
    fn default() -> (r: Config)
        ensures
            r.spec_communities() is None,
            r.spec_tokens().spec_model() == Seq::<(Seq<u8>, Seq<u8>, Seq<char>)>::empty(),
            r.spec_default_ban_message() == "banned"@,
            r.spec_bans() == Seq::<Ban>::empty(),
            r.spec_exceptions() == Seq::<ConfigAddr>::empty(),
            r.spec_locations() is None,
    {
        let r = Config {
            communities: None,
            community_tokens: CommunityTokenTable::new(),
            default_ban_message: "banned".to_owned(),
            bans: Vec::new(),
            port_forward_check_exceptions: Vec::new(),
            locations: None,
        };
        proof {
            assert(r.spec_bans() =~= Seq::<Ban>::empty());
            assert(r.spec_exceptions() =~= Seq::<ConfigAddr>::empty());
        }
        r
    }
}

// ---------------------------------------------------------------------------
// Laws of the configuration.
// ---------------------------------------------------------------------------

/// An unknown prefix and a known prefix with a mismatching secret digest
/// are indistinguishable from the verdict alone: both answer `Ok(None)`.
pub proof fn lemma_unknown_and_mismatch_agree(c: Config, t: Seq<u8>)
    requires
        spec_split_presented(t) is Ok,
        ({
            let (p, h) = spec_split_presented(t).unwrap();
            tbl_lookup(c.spec_tokens().spec_model(), p) is None || tbl_lookup(
                c.spec_tokens().spec_model(),
                p,
            ).unwrap().0 != h
        }),
    ensures
        c.spec_community_for_token(t) == Ok::<Option<Seq<char>>, PresentedTokenError>(None),
{
}

/// Once a prefix equal to entry `m`'s prefix is in the accumulated
/// table, the rest of the build can only fail: entry `m` either splits
/// to that same prefix, which the duplicate check refuses, or does not
/// split at all.
proof fn lemma_prefix_already_present(
    entries: Seq<(Seq<char>, Seq<char>)>,
    k: int,
    acc: Seq<(Seq<u8>, Seq<u8>, Seq<char>)>,
    m: int,
)
    requires
        0 <= k <= m < entries.len(),
        tbl_contains(acc, encode_utf8(entries[m].0).subrange(0, 6)),
    ensures
        spec_build_tokens_from(entries, k, acc) is Err,
    decreases m - k,
{
    let pm = encode_utf8(entries[m].0).subrange(0, 6);
    match spec_split_stored(encode_utf8(entries[k].0), entries[k].1) {
        Err(_) => {},
        Ok((pk, hk)) => {
            if !tbl_contains(acc, pk) {
                let acc2 = acc.push((pk, hk, entries[k].1));
                let w = choose|x: int| 0 <= x < acc.len() && acc[x].0 == pm;
                assert(acc2[w].0 == pm);
                assert(tbl_contains(acc2, pm));
                lemma_prefix_already_present(entries, k + 1, acc2, m);
            }
        },
    }
}

proof fn lemma_duplicate_prefix_fails_from(
    entries: Seq<(Seq<char>, Seq<char>)>,
    k: int,
    acc: Seq<(Seq<u8>, Seq<u8>, Seq<char>)>,
    i: int,
    j: int,
)
    requires
        0 <= k <= i < j < entries.len(),
        encode_utf8(entries[i].0).subrange(0, 6) == encode_utf8(entries[j].0).subrange(0, 6),
    ensures
        spec_build_tokens_from(entries, k, acc) is Err,
    decreases i - k,
{
    match spec_split_stored(encode_utf8(entries[k].0), entries[k].1) {
        Err(_) => {},
        Ok((pk, hk)) => {
            if !tbl_contains(acc, pk) {
                let acc2 = acc.push((pk, hk, entries[k].1));
                if k < i {
                    lemma_duplicate_prefix_fails_from(entries, k + 1, acc2, i, j);
                } else {
                    // k == i: entry i's prefix is now in the table, and
                    // entry j carries the same one.
                    assert(acc2[acc2.len() - 1].0 == encode_utf8(entries[j].0).subrange(0, 6));
                    assert(tbl_contains(acc2, encode_utf8(entries[j].0).subrange(0, 6)));
                    lemma_prefix_already_present(entries, k + 1, acc2, j);
                }
            }
        },
    }
}

/// No two entries of a table model share a prefix.
pub open spec fn tbl_prefixes_unique(s: Seq<(Seq<u8>, Seq<u8>, Seq<char>)>) -> bool {
    forall|i: int, j: int| 0 <= i < j < s.len() ==> s[i].0 != s[j].0
}

proof fn lemma_build_from_unique(
    entries: Seq<(Seq<char>, Seq<char>)>,
    k: int,
    acc: Seq<(Seq<u8>, Seq<u8>, Seq<char>)>,
)
    requires
        0 <= k,
        tbl_prefixes_unique(acc),
        spec_build_tokens_from(entries, k, acc) is Ok,
    ensures
        tbl_prefixes_unique(spec_build_tokens_from(entries, k, acc)->Ok_0),
    decreases entries.len() - k,
{
    if 0 <= k < entries.len() {
        match spec_split_stored(encode_utf8(entries[k].0), entries[k].1) {
            Err(_) => {},
            Ok((pk, hk)) => {
                if !tbl_contains(acc, pk) {
                    let acc2 = acc.push((pk, hk, entries[k].1));
                    assert forall|x: int, y: int| 0 <= x < y < acc2.len() implies acc2[x].0
                        != acc2[y].0 by {
                        if y == acc2.len() - 1 {
                            assert(!(exists|i: int| 0 <= i < acc.len() && acc[i].0 == pk));
                            assert(acc2[x].0 == acc[x].0);
                        }
                    }
                    lemma_build_from_unique(entries, k + 1, acc2);
                }
            },
        }
    }
}

/// The table a successful build yields keeps its prefixes unique: no two
/// entries share one.
pub proof fn lemma_build_unique_prefixes(entries: Seq<(Seq<char>, Seq<char>)>)
    requires
        spec_build_tokens(entries) is Ok,
    ensures
        tbl_prefixes_unique(spec_build_tokens(entries)->Ok_0),
{
    lemma_build_from_unique(entries, 0, Seq::empty());
}

/// Two stored entries sharing a prefix make the token-table build fail,
/// whatever the rest of the two entries holds: the whole configuration
/// load is rejected.
pub proof fn lemma_duplicate_prefix_fails(entries: Seq<(Seq<char>, Seq<char>)>, i: int, j: int)
    requires
        0 <= i < j < entries.len(),
        encode_utf8(entries[i].0).subrange(0, 6) == encode_utf8(entries[j].0).subrange(0, 6),
    ensures
        spec_build_tokens(entries) is Err,
{
    lemma_duplicate_prefix_fails_from(entries, 0, Seq::empty(), i, j);
}

} // verus!
