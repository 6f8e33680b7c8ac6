//! Scope-token validation.
//!
//! The host decides who may sync what, and says so by minting a short-lived token carrying an
//! explicit scope list. This module enforces that decision: the signature verifies, the token
//! has not expired, and a scope it does not name is refused.
//!
//! The algorithm is pinned and never read from the token: a token whose header names another is
//! refused before any signature is looked at. Expiry is required: a token without one would be a
//! permanent grant.
use crate::error::protocol_text;
use crate::protocol::{ProtocolError, ScopeId};
use crate::text::{chars_of, string_of_range};
use jsonwebtoken::{decode, DecodingKey, Validation};
use serde_json::value::RawValue;
use vstd::prelude::*;
use vstd::string::*;

verus! {

/// Why a request was refused at the authorization boundary. Granular for the operator's log;
/// what reaches the client is much coarser, see [`AuthError::client_message`].
#[derive(Debug, PartialEq, Eq)]
#[non_exhaustive]
pub enum AuthError {
    /// The token is not a well-formed token, or its claims do not parse.
    Malformed {
        /// What was wrong, for the operator.
        detail: String,
    },
    /// The token's header names an algorithm this verifier does not use.
    WrongAlgorithm {
        /// What the token asked for.
        found: String,
    },
    /// The signature did not verify against the configured key.
    BadSignature,
    /// The token has expired. Ordinary, and the reason lifetimes are short.
    Expired,
    /// The token carries no scopes at all, so it grants nothing.
    NoScopes,
    /// A scope was requested that the token does not claim.
    ScopeNotClaimed {
        /// What was asked for.
        requested: String,
    },
    /// The scope is on the server-side blocklist, whatever the token says.
    ScopeBlocked {
        /// The scope that was cut.
        scope: String,
    },
}

/// A refusal, with its texts as sequences of characters.
pub enum AuthErrorView {
    Malformed { detail: Seq<char> },
    WrongAlgorithm { found: Seq<char> },
    BadSignature,
    Expired,
    NoScopes,
    ScopeNotClaimed { requested: Seq<char> },
    ScopeBlocked { scope: Seq<char> },
}

impl View for AuthError {
    type V = AuthErrorView;

    open spec fn view(&self) -> AuthErrorView {
        match self {
            AuthError::Malformed { detail } => AuthErrorView::Malformed { detail: detail@ },
            AuthError::WrongAlgorithm { found } => AuthErrorView::WrongAlgorithm { found: found@ },
            AuthError::BadSignature => AuthErrorView::BadSignature,
            AuthError::Expired => AuthErrorView::Expired,
            AuthError::NoScopes => AuthErrorView::NoScopes,
            AuthError::ScopeNotClaimed { requested } => AuthErrorView::ScopeNotClaimed {
                requested: requested@,
            },
            AuthError::ScopeBlocked { scope } => AuthErrorView::ScopeBlocked { scope: scope@ },
        }
    }
}

/// What the client is told about a refusal.
pub open spec fn client_sentence(e: AuthErrorView) -> Seq<char> {
    if e is Expired {
        "This session has expired. Please sign in again."@
    } else {
        "Not authorized for this scope."@
    }
}

/// What the operator is told about a refusal.
pub open spec fn operator_sentence(e: AuthErrorView) -> Seq<char> {
    match e {
        AuthErrorView::Malformed { detail } => "malformed scope token: "@ + detail,
        AuthErrorView::WrongAlgorithm { found } => "token algorithm '"@ + found
            + "' is not the one this server accepts"@,
        AuthErrorView::BadSignature => "the token's signature did not verify"@,
        AuthErrorView::Expired => "the token has expired"@,
        AuthErrorView::NoScopes => "the token claims no scopes"@,
        AuthErrorView::ScopeNotClaimed { requested } => "scope '"@ + requested
            + "' is not in the token's claims"@,
        AuthErrorView::ScopeBlocked { scope } => "scope '"@ + scope + "' is blocked"@,
    }
}

impl AuthError {
    /// What the client is told: one sentence for every case, because an answer that tells the
    /// cases apart is an oracle. The one exception is expiry, which every honest client meets
    /// and answers with a new token.
    #[must_use]
    pub fn client_message(&self) -> (s: &'static str)
        ensures
            s@ == client_sentence(self@),
    {
        match self {
            AuthError::Expired => "This session has expired. Please sign in again.",
            _ => "Not authorized for this scope.",
        }
    }

    /// Whether the client should refresh its token and retry. Only expiry.
    #[must_use]
    pub fn is_expired(&self) -> (r: bool)
        ensures
            r == (*self is Expired),
    {
        match self {
            AuthError::Expired => true,
            _ => false,
        }
    }

    /// The refusal in words, for the operator.
    pub fn message(&self) -> (s: String)
        ensures
            s@ == operator_sentence(self@),
    {
        match self {
            AuthError::Malformed { detail } => {
                "malformed scope token: ".to_owned().concat(detail.as_str())
            },
            AuthError::WrongAlgorithm { found } => {
                "token algorithm '".to_owned().concat(found.as_str()).concat(
                    "' is not the one this server accepts",
                )
            },
            AuthError::BadSignature => "the token's signature did not verify".to_owned(),
            AuthError::Expired => "the token has expired".to_owned(),
            AuthError::NoScopes => "the token claims no scopes".to_owned(),
            AuthError::ScopeNotClaimed { requested } => {
                "scope '".to_owned().concat(requested.as_str()).concat(
                    "' is not in the token's claims",
                )
            },
            AuthError::ScopeBlocked { scope } => {
                "scope '".to_owned().concat(scope.as_str()).concat("' is blocked")
            },
        }
    }
}

/// From outside, every refusal but expiry looks the same.
pub proof fn the_client_learns_only_of_expiry(a: AuthErrorView, b: AuthErrorView)
    requires
        a is Expired <==> b is Expired,
    ensures
        client_sentence(a) == client_sentence(b),
{
}

/// A validated token: what the host granted.
#[derive(Debug, PartialEq, Eq)]
pub struct Claims {
    /// The scopes this token grants, already validated as scope ids.
    pub scopes: Vec<ScopeId>,
    /// The host's identifier for the bearer. Opaque here.
    pub subject: Option<String>,
    /// Expiry, seconds since the Unix epoch.
    pub expires_at: i64,
}

/// The names of some scopes.
pub open spec fn scope_names(scopes: Seq<ScopeId>) -> Seq<Seq<char>> {
    scopes.map_values(|s: ScopeId| s@)
}

impl Claims {
    /// Whether this token claims the given scope. An exact match: no prefixes, no wildcards, no
    /// hierarchy.
    #[must_use]
    pub fn claims_scope(&self, scope: &ScopeId) -> (r: bool)
        ensures
            r == scope_names(self.scopes@).contains(scope@),
    {
        let mut i: usize = 0;
        while i < self.scopes.len()
            invariant
                i <= self.scopes@.len(),
                forall|j: int| 0 <= j < i ==> (#[trigger] scope_names(self.scopes@)[j]) != scope@,
            decreases self.scopes@.len() - i,
        {
            if self.scopes[i].text == scope.text {
                assert(scope_names(self.scopes@)[i as int] == scope@);
                return true;
            }
            assert(scope_names(self.scopes@)[i as int] != scope@);
            i = i + 1;
        }
        false
    }

    /// Refuses unless this token claims the scope.
    ///
    /// # Errors
    /// [`AuthError::ScopeNotClaimed`] if the scope is not in the token's list.
    pub fn authorize(&self, scope: &ScopeId) -> (r: Result<(), AuthError>)
        ensures
            r is Ok <==> scope_names(self.scopes@).contains(scope@),
            r matches Err(e) ==> e@ == (AuthErrorView::ScopeNotClaimed { requested: scope@ }),
    {
        if self.claims_scope(scope) {
            return Ok(());
        }
        Err(AuthError::ScopeNotClaimed { requested: scope.text.clone() })
    }
}

/// The algorithms a token can be signed with.
#[derive(Debug, Clone, Copy, PartialEq, Eq, Structural)]
pub enum Algorithm {
    HS256,
    HS384,
    HS512,
    ES256,
    ES384,
    RS256,
    RS384,
    RS512,
    PS256,
    PS384,
    PS512,
    EdDSA,
}

/// The name that a token's header has for an algorithm.
pub open spec fn algorithm_name(a: Algorithm) -> Seq<char> {
    match a {
        Algorithm::HS256 => "HS256"@,
        Algorithm::HS384 => "HS384"@,
        Algorithm::HS512 => "HS512"@,
        Algorithm::ES256 => "ES256"@,
        Algorithm::ES384 => "ES384"@,
        Algorithm::RS256 => "RS256"@,
        Algorithm::RS384 => "RS384"@,
        Algorithm::RS512 => "RS512"@,
        Algorithm::PS256 => "PS256"@,
        Algorithm::PS384 => "PS384"@,
        Algorithm::PS512 => "PS512"@,
        Algorithm::EdDSA => "EdDSA"@,
    }
}

impl Algorithm {
    /// The name that a token's header has for the algorithm.
    pub fn name(self) -> (s: &'static str)
        ensures
            s@ == algorithm_name(self),
    {
        match self {
            Algorithm::HS256 => "HS256",
            Algorithm::HS384 => "HS384",
            Algorithm::HS512 => "HS512",
            Algorithm::ES256 => "ES256",
            Algorithm::ES384 => "ES384",
            Algorithm::RS256 => "RS256",
            Algorithm::RS384 => "RS384",
            Algorithm::RS512 => "RS512",
            Algorithm::PS256 => "PS256",
            Algorithm::PS384 => "PS384",
            Algorithm::PS512 => "PS512",
            Algorithm::EdDSA => "EdDSA",
        }
    }
}

/// The kind of key that key bytes are.
#[derive(Debug, Clone, Copy, PartialEq, Eq, Structural)]
pub enum KeyFamily {
    /// A shared secret.
    Hmac,
    /// An RSA public key in DER.
    Rsa,
    /// An elliptic-curve public key in DER.
    Ec,
    /// An Edwards-curve public key in DER.
    Ed,
}

/// The key that signatures are verified with. It is not printed.
pub struct VerificationKey {
    pub family: KeyFamily,
    pub bytes: Vec<u8>,
}

impl VerificationKey {
    /// The key for tokens signed with a shared secret.
    pub fn from_secret(secret: Vec<u8>) -> (key: Self)
        ensures
            key.family == KeyFamily::Hmac,
            key.bytes == secret,
    {
        VerificationKey { family: KeyFamily::Hmac, bytes: secret }
    }
}

/// What the decoder is to check of a token besides its signature.
pub struct TokenRules {
    /// The one algorithm that is accepted, by name.
    pub algorithm: String,
    /// The seconds of clock skew that are tolerated on the expiry.
    pub leeway: u64,
    /// The claims that have to be there.
    pub required: Vec<String>,
    pub validate_exp: bool,
    pub validate_aud: bool,
}

impl TokenRules {
    /// Nothing but the signature and the form is checked, so the moment does not matter.
    pub open spec fn timeless(&self) -> bool {
        !self.validate_exp && !self.validate_aud && self.required@.len() == 0
    }

    /// The expiry has to be there and to lie ahead, and nothing else is checked.
    pub open spec fn dated(&self) -> bool {
        self.validate_exp && !self.validate_aud && self.required@.len() == 1
            && self.required@[0]@ == "exp"@
    }
}

/// The name of the algorithm that a token's header names, or why there is none: what
/// `jsonwebtoken::decode_header` reads.
pub uninterp spec fn header_of(token: Seq<char>) -> Result<Seq<char>, Seq<char>>;

/// The claims of a token as JSON text, or the kind of the fault: what `jsonwebtoken::decode` gives
/// for this key and this one algorithm when it is to check no claim.
pub uninterp spec fn contents_of(
    token: Seq<char>,
    family: KeyFamily,
    key: Seq<u8>,
    algorithm: Seq<char>,
) -> Result<Seq<char>, Seq<char>>;

/// The claims of a token as JSON text, or the kind of the fault: what `jsonwebtoken::decode` gives
/// for this key and this one algorithm when it is to check the expiry and nothing else, with this
/// many seconds of leeway, at this many seconds since 1970.
pub uninterp spec fn dated_contents_of(
    token: Seq<char>,
    family: KeyFamily,
    key: Seq<u8>,
    algorithm: Seq<char>,
    leeway: u64,
    now: u64,
) -> Result<Seq<char>, Seq<char>>;

/// What is wrong with an expiry at a moment, if anything: it is no point in time, or it has passed
/// by more than the leeway.
pub open spec fn expiry_fault(exp: i64, leeway: u64, now: u64) -> Option<Seq<char>> {
    if exp < 0 {
        Some("MissingRequiredClaim(\"exp\")"@)
    } else if exp < now - leeway {
        Some("ExpiredSignature"@)
    } else {
        None
    }
}

/// The fault that decoding came to, if any.
pub open spec fn fault_of(r: Result<Seq<char>, Seq<char>>) -> Option<Seq<char>> {
    match r {
        Ok(_) => None,
        Err(kind) => Some(kind),
    }
}

/// What decoding with an eye on the expiry comes to at a moment when decoding without one gives
/// these claims: it fails for the expiry alone, and where the expiry is an integer, exactly when
/// there is something wrong with it. The leeway is subtracted from the moment, so nothing is said
/// of a moment that comes before it.
pub open spec fn expiry_decides(
    claims: Seq<char>,
    late: Option<Seq<char>>,
    leeway: u64,
    now: u64,
) -> bool {
    &&& lateness(late)
    &&& members_of(claims) matches Some(members) ==> match claim(members, "exp"@) {
        None => late == Some("MissingRequiredClaim(\"exp\")"@),
        Some(json) => json_integer(json) matches Some(exp) ==> leeway <= now ==> late
            == expiry_fault(exp, leeway, now),
    }
}

/// The JSON value that a text begins with, as JSON text, and what follows it: what a
/// `serde_json::StreamDeserializer` takes off the front.
pub uninterp spec fn json_first(text: Seq<char>) -> Option<(Seq<char>, Seq<char>)>;

/// What JSON text says as a list of texts: what `serde_json::from_str` reads.
pub uninterp spec fn json_texts(json: Seq<char>) -> Option<Seq<Seq<char>>>;

/// What JSON text says as an integer: what `serde_json::from_str` reads.
pub uninterp spec fn json_integer(json: Seq<char>) -> Option<i64>;

/// What JSON text says as a text or null: what `serde_json::from_str` reads.
pub uninterp spec fn json_text(json: Seq<char>) -> Option<Option<Seq<char>>>;

/// What a decoder says.
pub open spec fn said(r: Result<String, String>) -> Result<Seq<char>, Seq<char>> {
    match r {
        Ok(s) => Ok(s@),
        Err(s) => Err(s@),
    }
}

/// What a list of texts says.
pub open spec fn texts_view(v: Seq<String>) -> Seq<Seq<char>> {
    v.map_values(|s: String| s@)
}

/// `jsonwebtoken::decode_header`: the debug form of the header's algorithm, or the display form
/// of the error. It reads the token's text and nothing else, so the result has a name.
#[verifier::external_body]
fn decode_header(token: &str) -> (r: Result<String, String>)
    ensures
        said(r) == header_of(token@),
{
    match jsonwebtoken::decode_header(token) {
        Ok(header) => Ok(format!("{:?}", header.alg)),
        Err(e) => Err(format!("{e}")),
    }
}

/// `jsonwebtoken::decode` into raw JSON: the claims as JSON text, or the debug form of the kind of
/// the error.
///
/// Claimed of it: with no claim to check, the result depends on the token, the key and the
/// algorithm alone; whatever else is checked, it gives those claims or fails, and where they
/// cannot be had it fails in the same way. When the expiry is all that is checked, the result
/// depends besides on the leeway and on the second since 1970 at which the decoder reads the
/// clock; claims that can be had are then refused only for their expiry, which has to be there
/// and may lie behind by the leeway at most. The decoder subtracts the leeway from the seconds
/// since 1970, which a leeway beyond them would underflow. Claims are held as text, so bytes that
/// are not UTF-8 are a fault, in a claim that nothing reads too.
#[verifier::external_body]
fn decode_token(token: &str, key: &VerificationKey, rules: &TokenRules) -> (r: Result<
    String,
    String,
>)
    requires
        rules.leeway <= 1_000_000_000,
    ensures
        rules.timeless() ==> said(r) == contents_of(
            token@,
            key.family,
            key.bytes@,
            rules.algorithm@,
        ),
        r is Ok || contents_of(token@, key.family, key.bytes@, rules.algorithm@) is Err
            ==> said(r) == contents_of(
            token@,
            key.family,
            key.bytes@,
            rules.algorithm@,
        ),
        rules.dated() ==> exists|now: u64|
            {
                &&& said(r) == #[trigger] dated_contents_of(
                    token@,
                    key.family,
                    key.bytes@,
                    rules.algorithm@,
                    rules.leeway,
                    now,
                )
                &&& contents_of(
                    token@,
                    key.family,
                    key.bytes@,
                    rules.algorithm@,
                ) matches Ok(claims) ==> expiry_decides(
                    claims,
                    fault_of(said(r)),
                    rules.leeway,
                    now,
                )
            },
{
    let bytes = &key.bytes;
    let key = match key.family {
        KeyFamily::Hmac => DecodingKey::from_secret(bytes),
        KeyFamily::Rsa => DecodingKey::from_rsa_der(bytes),
        KeyFamily::Ec => DecodingKey::from_ec_der(bytes),
        KeyFamily::Ed => DecodingKey::from_ed_der(bytes),
    };
    let mut checks = Validation::new(rules.algorithm.parse().map_err(|_| "InvalidAlgorithmName")?);
    checks.leeway = rules.leeway;
    checks.validate_exp = rules.validate_exp;
    checks.validate_aud = rules.validate_aud;
    checks.set_required_spec_claims(&rules.required);
    let decoded = decode::<Box<RawValue>>(token, &key, &checks);
    decoded.map(|data| data.claims.get().to_owned()).map_err(|e| format!("{:?}", e.kind()))
}

/// `serde_json::Deserializer::into_iter` and `next` on the stream it gives: the first value, as
/// JSON text, and the text from the stream's offset on. It reads the text alone, so the result
/// has a name. A value is made of at least one character, and what follows it is the end of the
/// text.
#[verifier::external_body]
fn take_value(text: &str) -> (r: Option<(String, String)>)
    ensures
        match r {
            Some((value, rest)) => {
                &&& json_first(text@) == Some((value@, rest@))
                &&& rest@.len() < text@.len()
                &&& rest@ == text@.skip(text@.len() - rest@.len())
            },
            None => json_first(text@) is None,
        },
{
    let mut values = serde_json::Deserializer::from_str(text).into_iter::<Box<RawValue>>();
    let value = values.next()?.ok()?;
    Some((value.get().to_owned(), text[values.byte_offset()..].to_owned()))
}

/// `serde_json::from_str` into a list of texts. It reads the text alone, so the result has a name.
#[verifier::external_body]
fn read_texts(json: &str) -> (r: Option<Vec<String>>)
    ensures
        match r {
            Some(v) => json_texts(json@) == Some(texts_view(v@)),
            None => json_texts(json@) is None,
        },
{
    serde_json::from_str::<Vec<String>>(json).ok()
}

/// `serde_json::from_str` into a 64-bit integer. It reads the text alone, so the result has a
/// name.
#[verifier::external_body]
fn read_integer(json: &str) -> (r: Option<i64>)
    ensures
        r == json_integer(json@),
{
    serde_json::from_str::<i64>(json).ok()
}

/// `serde_json::from_str` into a text or null. It reads the text alone, so the result has a name.
#[verifier::external_body]
fn read_text(json: &str) -> (r: Option<Option<String>>)
    ensures
        match r {
            Some(Some(s)) => json_text(json@) == Some(Some(s@)),
            Some(None) => json_text(json@) == Some(None::<Seq<char>>),
            None => json_text(json@) is None,
        },
{
    serde_json::from_str::<Option<String>>(json).ok()
}

/// Decides which texts are scope ids.
///
/// Nothing is promised of an implementation. What verifying a token needs of one is in its
/// `requires`: [`is_rule`], that the same text always has the same outcome.
pub trait ScopeRule {
    /// The scope id that a text is, or why it is none.
    fn scope_id(&self, text: &String) -> Result<ScopeId, ProtocolError>;
}

/// What a rule said: the scope's name, or the refusal in words.
pub open spec fn scope_view(r: Result<ScopeId, ProtocolError>) -> Result<Seq<char>, Seq<char>> {
    match r {
        Ok(s) => Ok(s@),
        Err(e) => Err(protocol_text(e)),
    }
}

/// `rule` can say `o` of `text`.
pub open spec fn may_scope<R: ScopeRule>(
    rule: &R,
    text: Seq<char>,
    o: Result<Seq<char>, Seq<char>>,
) -> bool {
    exists|x: String, r: Result<ScopeId, ProtocolError>|
        #![trigger call_ensures(R::scope_id, (rule, &x), r)]
        x@ == text && scope_view(r) == o && call_ensures(R::scope_id, (rule, &x), r)
}

/// The rule takes every text, and the same text always has the same outcome.
pub open spec fn is_rule<R: ScopeRule>(rule: &R) -> bool {
    &&& forall|x: String| call_requires(R::scope_id, (rule, &x))
    &&& forall|t: Seq<char>, a: Result<Seq<char>, Seq<char>>, b: Result<Seq<char>, Seq<char>>|
        #[trigger] may_scope(rule, t, a) && #[trigger] may_scope(rule, t, b) ==> a == b
}

/// What the rule says of a text.
pub open spec fn scope_of<R: ScopeRule>(rule: &R, text: Seq<char>) -> Result<
    Seq<char>,
    Seq<char>,
> {
    choose|o: Result<Seq<char>, Seq<char>>| may_scope(rule, text, o)
}

/// Asks the rule about a text.
///
/// # Errors
/// What the rule has against it.
pub fn scope_with<R: ScopeRule>(rule: &R, text: &String) -> (r: Result<ScopeId, ProtocolError>)
    requires
        is_rule(rule),
    ensures
        scope_view(r) == scope_of(rule, text@),
{
    let r = rule.scope_id(text);
    assert(may_scope(rule, text@, scope_view(r)));
    r
}

/// The claims that are read. Everything else in the token is ignored.
#[derive(Debug)]
pub struct RawClaims {
    /// The scopes this token grants. Required.
    pub scopes: Vec<String>,
    /// Expiry, seconds since the Unix epoch. Required.
    pub exp: i64,
    /// Whoever the host says this is.
    pub sub: Option<String>,
}

/// What the claims say.
pub struct RawClaimsView {
    pub scopes: Seq<Seq<char>>,
    pub exp: i64,
    pub sub: Option<Seq<char>>,
}

/// What an optional text says.
pub open spec fn optional_text(s: Option<String>) -> Option<Seq<char>> {
    match s {
        Some(x) => Some(x@),
        None => None,
    }
}

impl View for RawClaims {
    type V = RawClaimsView;

    open spec fn view(&self) -> RawClaimsView {
        RawClaimsView {
            scopes: texts_view(self.scopes@),
            exp: self.exp,
            sub: optional_text(self.sub),
        }
    }
}

/// A character that may stand between the parts of a JSON object.
pub open spec fn is_blank(c: char) -> bool {
    c == ' ' || c == '\t' || c == '\n' || c == '\r'
}

/// A text without the blanks it begins with.
pub open spec fn past_blanks(text: Seq<char>) -> Seq<char>
    decreases text.len(),
{
    if text.len() > 0 && is_blank(text[0]) {
        past_blanks(text.drop_first())
    } else {
        text
    }
}

/// The member that a text begins with, as its name and its value as JSON text, and what follows
/// it: a name, a colon and a value.
pub open spec fn first_member(text: Seq<char>) -> Option<((Seq<char>, Seq<char>), Seq<char>)> {
    match json_first(text) {
        None => None,
        Some((quoted, rest)) => {
            let after = past_blanks(rest);
            if after.len() == 0 || after[0] != ':' {
                None
            } else {
                match (json_text(quoted), json_first(after.drop_first())) {
                    (Some(Some(name)), Some((value, rest))) => Some(
                        ((name, value), past_blanks(rest)),
                    ),
                    _ => None,
                }
            }
        },
    }
}

/// The members that a text lists, up to the brace that ends the text.
pub open spec fn listed_members(text: Seq<char>) -> Option<Seq<(Seq<char>, Seq<char>)>>
    decreases text.len(),
{
    match first_member(text) {
        None => None,
        Some((member, rest)) => if rest == seq!['}'] {
            Some(seq![member])
        } else if 0 < rest.len() <= text.len() && rest[0] == ',' {
            match listed_members(rest.drop_first()) {
                None => None,
                Some(others) => Some(seq![member] + others),
            }
        } else {
            None
        },
    }
}

/// The members of a JSON object in the order of the text, each as its name and its value as JSON
/// text. A name that comes twice is there twice.
pub open spec fn members_of(text: Seq<char>) -> Option<Seq<(Seq<char>, Seq<char>)>> {
    if text.len() == 0 || text[0] != '{' {
        None
    } else {
        let inside = past_blanks(text.drop_first());
        if inside == seq!['}'] {
            Some(seq![])
        } else {
            listed_members(inside)
        }
    }
}

/// There is more than one member of that name.
pub open spec fn repeated(members: Seq<(Seq<char>, Seq<char>)>, name: Seq<char>) -> bool {
    exists|i: int, j: int|
        0 <= i < j < members.len() && #[trigger] members[i].0 == name && #[trigger] members[j].0
            == name
}

/// The value of the first claim of that name.
pub open spec fn claim(members: Seq<(Seq<char>, Seq<char>)>, name: Seq<char>) -> Option<Seq<char>>
    decreases members.len(),
{
    if members.len() == 0 {
        None
    } else if members[0].0 == name {
        Some(members[0].1)
    } else {
        claim(members.drop_first(), name)
    }
}

/// A claim that is needed is not there, or is there twice, or is not of the form it has to have.
pub open spec fn bad_claim(what: Seq<char>, name: Seq<char>) -> AuthErrorView {
    AuthErrorView::Malformed { detail: what + name + "`"@ }
}

/// The claims that are read of a token: a list of scopes and an expiry, and a subject where there
/// is one. None of them may come twice: which one would count?
pub open spec fn raw_claims(members: Seq<(Seq<char>, Seq<char>)>) -> Result<
    RawClaimsView,
    AuthErrorView,
> {
    let scopes = claim(members, "scopes"@);
    let exp = claim(members, "exp"@);
    let sub = claim(members, "sub"@);
    if repeated(members, "scopes"@) {
        Err(bad_claim("duplicate field `"@, "scopes"@))
    } else if repeated(members, "exp"@) {
        Err(bad_claim("duplicate field `"@, "exp"@))
    } else if repeated(members, "sub"@) {
        Err(bad_claim("duplicate field `"@, "sub"@))
    } else if scopes is None {
        Err(bad_claim("missing field `"@, "scopes"@))
    } else if json_texts(scopes->0) is None {
        Err(bad_claim("unreadable field `"@, "scopes"@))
    } else if exp is None {
        Err(bad_claim("missing field `"@, "exp"@))
    } else if json_integer(exp->0) is None {
        Err(bad_claim("unreadable field `"@, "exp"@))
    } else if sub is Some && json_text(sub->0) is None {
        Err(bad_claim("unreadable field `"@, "sub"@))
    } else {
        Ok(
            RawClaimsView {
                scopes: json_texts(scopes->0)->0,
                exp: json_integer(exp->0)->0,
                sub: if sub is None {
                    None
                } else {
                    json_text(sub->0)->0
                },
            },
        )
    }
}

/// What is read of claims that are JSON text.
pub open spec fn claims_said(text: Seq<char>) -> Result<RawClaimsView, AuthErrorView> {
    match members_of(text) {
        None => Err(AuthErrorView::Malformed { detail: "the claims are not an object"@ }),
        Some(members) => raw_claims(members),
    }
}

/// The members of a token, as what they say.
pub open spec fn members_view(v: Seq<(String, String)>) -> Seq<(Seq<char>, Seq<char>)> {
    v.map_values(|m: (String, String)| (m.0@, m.1@))
}

fn find_claim<'a>(members: &'a Vec<(String, String)>, name: &str) -> (r: Option<&'a String>)
    ensures
        match r {
            Some(s) => claim(members_view(members@), name@) == Some(s@),
            None => claim(members_view(members@), name@) is None,
        },
{
    let ghost all = members_view(members@);
    let wanted: String = name.to_owned();
    let mut i: usize = 0;
    assert(all.skip(0) == all);
    while i < members.len()
        invariant
            i <= members@.len(),
            all == members_view(members@),
            wanted@ == name@,
            claim(all, name@) == claim(all.skip(i as int), name@),
        decreases members@.len() - i,
    {
        assert(all.skip(i as int)[0] == (members@[i as int].0@, members@[i as int].1@));
        if members[i].0 == wanted {
            return Some(&members[i].1);
        }
        assert(all.skip(i as int).drop_first() == all.skip(i + 1));
        i = i + 1;
    }
    None
}

fn is_repeated(members: &Vec<(String, String)>, name: &str) -> (r: bool)
    ensures
        r == repeated(members_view(members@), name@),
{
    let ghost all = members_view(members@);
    let wanted: String = name.to_owned();
    let mut seen: bool = false;
    let mut i: usize = 0;
    let ghost mut first: int = 0;
    while i < members.len()
        invariant
            i <= members@.len(),
            all == members_view(members@),
            wanted@ == name@,
            seen ==> 0 <= first < i && all[first].0 == name@,
            forall|j: int| 0 <= j < i && (#[trigger] all[j]).0 == name@ ==> seen && j == first,
        decreases members@.len() - i,
    {
        assert(all[i as int] == (members@[i as int].0@, members@[i as int].1@));
        if members[i].0 == wanted {
            if seen {
                assert(all[first].0 == name@ && all[i as int].0 == name@);
                return true;
            }
            seen = true;
            proof {
                first = i as int;
            }
        }
        i = i + 1;
    }
    false
}

/// The place of the first character that is no blank, from a place on.
fn skip_blanks(text: &Vec<char>, from: usize) -> (to: usize)
    requires
        from <= text@.len(),
    ensures
        from <= to <= text@.len(),
        text@.skip(to as int) == past_blanks(text@.skip(from as int)),
{
    let mut i: usize = from;
    while i < text.len()
        invariant
            from <= i <= text@.len(),
            past_blanks(text@.skip(i as int)) == past_blanks(text@.skip(from as int)),
        decreases text@.len() - i,
    {
        let c: char = text[i];
        if c != ' ' && c != '\t' && c != '\n' && c != '\r' {
            return i;
        }
        assert(text@.skip(i as int).drop_first() == text@.skip(i + 1));
        i = i + 1;
    }
    i
}

fn take_member(text: &str) -> (r: Option<((String, String), String)>)
    ensures
        match r {
            Some(((name, value), rest)) => {
                &&& first_member(text@) == Some(((name@, value@), rest@))
                &&& rest@.len() <= text@.len()
            },
            None => first_member(text@) is None,
        },
{
    let (quoted, rest): (String, String) = match take_value(text) {
        None => return None,
        Some(p) => p,
    };
    let chars: Vec<char> = chars_of(rest.as_str());
    let colon: usize = skip_blanks(&chars, 0);
    assert(chars@.skip(0) == rest@);
    if colon == chars.len() || chars[colon] != ':' {
        return None;
    }
    let after: String = string_of_range(&chars, colon + 1, chars.len());
    assert(after@ == chars@.skip(colon as int).drop_first());
    match (read_text(quoted.as_str()), take_value(after.as_str())) {
        (Some(Some(name)), Some((value, rest))) => {
            let chars: Vec<char> = chars_of(rest.as_str());
            let from: usize = skip_blanks(&chars, 0);
            assert(chars@.skip(0) == rest@);
            let rest: String = string_of_range(&chars, from, chars.len());
            assert(rest@ == chars@.skip(from as int));
            Some(((name, value), rest))
        },
        _ => None,
    }
}

/// Takes JSON text that is an object apart into its members, or says that it is none.
pub fn read_members(text: &str) -> (r: Option<Vec<(String, String)>>)
    ensures
        match r {
            Some(v) => members_of(text@) == Some(members_view(v@)),
            None => members_of(text@) is None,
        },
{
    let chars: Vec<char> = chars_of(text);
    if chars.len() == 0 || chars[0] != '{' {
        return None;
    }
    let from: usize = skip_blanks(&chars, 1);
    assert(chars@.skip(1) == text@.drop_first());
    let mut rest: String = string_of_range(&chars, from, chars.len());
    let ghost inside = past_blanks(text@.drop_first());
    assert(rest@ == chars@.skip(from as int));
    let mut members: Vec<(String, String)> = Vec::new();
    let brace: String = "}".to_owned();
    proof {
        reveal_strlit("}");
        assert("}"@ =~= seq!['}']);
    }
    if rest == brace {
        assert(members_view(members@) =~= seq![]);
        return Some(members);
    }
    assert(members_view(members@) =~= seq![]);
    assert(listed_members(inside) matches Some(more) ==> members_view(members@) + more =~= more);
    loop
        invariant
            brace@ == seq!['}'],
            members_of(text@) == listed_members(inside),
            match listed_members(rest@) {
                Some(more) => listed_members(inside) == Some(members_view(members@) + more),
                None => listed_members(inside) is None,
            },
        decreases rest@.len(),
    {
        let ghost before = members_view(members@);
        match take_member(rest.as_str()) {
            None => return None,
            Some((member, after)) => {
                let ghost one = (member.0@, member.1@);
                members.push(member);
                assert(members_view(members@) =~= before.push(one));
                if after == brace {
                    assert(before + seq![one] =~= members_view(members@));
                    return Some(members);
                }
                let chars: Vec<char> = chars_of(after.as_str());
                if chars.len() == 0 || chars[0] != ',' {
                    return None;
                }
                rest = string_of_range(&chars, 1, chars.len());
                assert(rest@ == after@.drop_first());
                assert(listed_members(rest@) matches Some(more) ==> before + (seq![one] + more)
                    =~= members_view(members@) + more);
            },
        }
    }
}

fn refuse_claim(what: &str, name: &str) -> (e: AuthError)
    ensures
        e@ == bad_claim(what@, name@),
{
    AuthError::Malformed { detail: what.to_owned().concat(name).concat("`") }
}

/// Reads the claims of a token.
///
/// # Errors
/// [`AuthError::Malformed`] if a claim is missing, comes twice, or is not of the form it has to
/// have.
pub fn read_claims(members: &Vec<(String, String)>) -> (r: Result<RawClaims, AuthError>)
    ensures
        match r {
            Ok(c) => raw_claims(members_view(members@)) == Ok::<RawClaimsView, AuthErrorView>(c@),
            Err(e) => raw_claims(members_view(members@)) == Err::<RawClaimsView, AuthErrorView>(
                e@,
            ),
        },
{
    if is_repeated(members, "scopes") {
        return Err(refuse_claim("duplicate field `", "scopes"));
    }
    if is_repeated(members, "exp") {
        return Err(refuse_claim("duplicate field `", "exp"));
    }
    if is_repeated(members, "sub") {
        return Err(refuse_claim("duplicate field `", "sub"));
    }
    let scopes: Vec<String> = match find_claim(members, "scopes") {
        None => return Err(refuse_claim("missing field `", "scopes")),
        Some(json) => match read_texts(json.as_str()) {
            None => return Err(refuse_claim("unreadable field `", "scopes")),
            Some(v) => v,
        },
    };
    let exp: i64 = match find_claim(members, "exp") {
        None => return Err(refuse_claim("missing field `", "exp")),
        Some(json) => match read_integer(json.as_str()) {
            None => return Err(refuse_claim("unreadable field `", "exp")),
            Some(v) => v,
        },
    };
    let sub: Option<String> = match find_claim(members, "sub") {
        None => None,
        Some(json) => match read_text(json.as_str()) {
            None => return Err(refuse_claim("unreadable field `", "sub")),
            Some(v) => v,
        },
    };
    Ok(RawClaims { scopes, exp, sub })
}

/// Reads claims that are JSON text.
///
/// # Errors
/// [`AuthError::Malformed`] if the text is no object, or for what [`read_claims`] refuses.
pub fn parse_claims(text: &str) -> (r: Result<RawClaims, AuthError>)
    ensures
        match r {
            Ok(c) => claims_said(text@) == Ok::<RawClaimsView, AuthErrorView>(c@),
            Err(e) => claims_said(text@) == Err::<RawClaimsView, AuthErrorView>(e@),
        },
{
    match read_members(text) {
        Some(members) => read_claims(&members),
        None => Err(AuthError::Malformed { detail: "the claims are not an object".to_owned() }),
    }
}

/// What a fault of the decoder is here: expiry stays distinguishable, the rest goes toward
/// "refused".
pub open spec fn decoder_fault(kind: Seq<char>) -> AuthErrorView {
    if kind == "ExpiredSignature"@ {
        AuthErrorView::Expired
    } else if kind == "InvalidSignature"@ {
        AuthErrorView::BadSignature
    } else if kind == "InvalidAlgorithm"@ || kind == "InvalidAlgorithmName"@ {
        AuthErrorView::WrongAlgorithm { found: "rejected by the decoder"@ }
    } else {
        AuthErrorView::Malformed { detail: kind }
    }
}

/// Maps the kind of a decoder's fault onto a refusal.
pub fn map_jwt_err(kind: String) -> (e: AuthError)
    ensures
        e@ == decoder_fault(kind@),
{
    if kind == "ExpiredSignature".to_owned() {
        AuthError::Expired
    } else if kind == "InvalidSignature".to_owned() {
        AuthError::BadSignature
    } else if kind == "InvalidAlgorithm".to_owned() || kind == "InvalidAlgorithmName".to_owned() {
        AuthError::WrongAlgorithm { found: "rejected by the decoder".to_owned() }
    } else {
        AuthError::Malformed { detail: kind }
    }
}

/// What a token grants.
pub struct ClaimsView {
    pub scopes: Seq<Seq<char>>,
    pub subject: Option<Seq<char>>,
    pub expires_at: i64,
}

impl View for Claims {
    type V = ClaimsView;

    open spec fn view(&self) -> ClaimsView {
        ClaimsView {
            scopes: scope_names(self.scopes@),
            subject: optional_text(self.subject),
            expires_at: self.expires_at,
        }
    }
}

/// A grant or a refusal, as what it says.
pub open spec fn grant_view(r: Result<Claims, AuthError>) -> Result<ClaimsView, AuthErrorView> {
    match r {
        Ok(c) => Ok(c@),
        Err(e) => Err(e@),
    }
}

/// Why the first of the claimed texts that is no scope id is none.
pub open spec fn first_bad_scope<R: ScopeRule>(rule: &R, texts: Seq<Seq<char>>) -> Option<Seq<char>>
    decreases texts.len(),
{
    if texts.len() == 0 {
        None
    } else {
        match scope_of(rule, texts[0]) {
            Err(e) => Some(e),
            Ok(_) => first_bad_scope(rule, texts.drop_first()),
        }
    }
}

/// What claims that have been read grant: something, and each scope has to be a scope.
pub open spec fn granted<R: ScopeRule>(rule: &R, raw: RawClaimsView) -> Result<
    ClaimsView,
    AuthErrorView,
> {
    if raw.scopes.len() == 0 {
        Err(AuthErrorView::NoScopes)
    } else {
        match first_bad_scope(rule, raw.scopes) {
            Some(e) => Err(
                AuthErrorView::Malformed {
                    detail: "a claimed scope is not a valid scope id: "@ + e,
                },
            ),
            None => Ok(
                ClaimsView {
                    scopes: raw.scopes.map_values(|t: Seq<char>| scope_of(rule, t)->Ok_0),
                    subject: raw.sub,
                    expires_at: raw.exp,
                },
            ),
        }
    }
}

/// Turns claims that have been read into what they grant.
///
/// # Errors
/// [`AuthError::NoScopes`] if there is no scope, [`AuthError::Malformed`] if one is no scope id.
pub fn grant<R: ScopeRule>(rule: &R, raw: RawClaims) -> (r: Result<Claims, AuthError>)
    requires
        is_rule(rule),
    ensures
        grant_view(r) == granted(rule, raw@),
{
    if raw.scopes.len() == 0 {
        return Err(AuthError::NoScopes);
    }
    let ghost texts = raw@.scopes;
    let ghost names = texts.map_values(|t: Seq<char>| scope_of(rule, t)->Ok_0);
    let mut scopes: Vec<ScopeId> = Vec::new();
    let mut i: usize = 0;
    assert(texts.skip(0) == texts);
    while i < raw.scopes.len()
        invariant
            is_rule(rule),
            i <= raw.scopes@.len(),
            texts == texts_view(raw.scopes@),
            texts == raw@.scopes,
            texts.len() > 0,
            names == texts.map_values(|t: Seq<char>| scope_of(rule, t)->Ok_0),
            first_bad_scope(rule, texts) == first_bad_scope(rule, texts.skip(i as int)),
            scope_names(scopes@) == names.take(i as int),
        decreases raw.scopes@.len() - i,
    {
        assert(texts.skip(i as int)[0] == raw.scopes@[i as int]@);
        match scope_with(rule, &raw.scopes[i]) {
            Err(e) => {
                let detail: String = "a claimed scope is not a valid scope id: ".to_owned().concat(
                    e.message().as_str(),
                );
                return Err(AuthError::Malformed { detail });
            },
            Ok(scope) => {
                let ghost before = scopes@;
                let ghost name = scope@;
                scopes.push(scope);
                assert(texts.skip(i as int).drop_first() == texts.skip(i + 1));
                assert(names[i as int] == name);
                assert(scope_names(scopes@) == scope_names(before).push(name));
                assert(names.take(i + 1) == names.take(i as int).push(name));
                assert(scope_names(scopes@) == names.take(i + 1));
            },
        }
        i = i + 1;
    }
    assert(names.take(i as int) == names);
    Ok(Claims { scopes, subject: raw.sub, expires_at: raw.exp })
}

/// What claims that have been read come to, once the expiry has been looked at: `late` is what
/// the decoder found wrong with it, if anything.
pub open spec fn settled<R: ScopeRule>(
    rule: &R,
    raw: RawClaimsView,
    late: Option<Seq<char>>,
) -> Result<ClaimsView, AuthErrorView> {
    match late {
        Some(kind) => Err(decoder_fault(kind)),
        None => granted(rule, raw),
    }
}

/// Turns claims that have been read into what they grant, unless the expiry stands against it.
///
/// # Errors
/// What `late` comes to, or what [`grant`] refuses.
pub fn settle<R: ScopeRule>(rule: &R, raw: RawClaims, late: Option<String>) -> (r: Result<
    Claims,
    AuthError,
>)
    requires
        is_rule(rule),
    ensures
        grant_view(r) == settled(rule, raw@, optional_text(late)),
{
    match late {
        Some(kind) => Err(map_jwt_err(kind)),
        None => grant(rule, raw),
    }
}

/// Verifies scope tokens against one key and one algorithm.
///
/// The algorithm is fixed here and nowhere else, which is the whole defence against a token that
/// chooses how it is verified.
pub struct Verifier {
    key: VerificationKey,
    algorithm: Algorithm,
    timeless: TokenRules,
    dated: TokenRules,
}

/// Everything that can be said of a token without looking at the clock.
pub open spec fn timeless_verdict(
    token: Seq<char>,
    family: KeyFamily,
    key: Seq<u8>,
    algorithm: Algorithm,
) -> Result<RawClaimsView, AuthErrorView> {
    match header_of(token) {
        Err(e) => Err(AuthErrorView::Malformed { detail: "unreadable header: "@ + e }),
        Ok(found) => if found != algorithm_name(algorithm) {
            Err(AuthErrorView::WrongAlgorithm { found })
        } else {
            match contents_of(token, family, key, algorithm_name(algorithm)) {
                Err(kind) => Err(decoder_fault(kind)),
                Ok(claims) => claims_said(claims),
            }
        },
    }
}

/// The verdict on a token. `late` is what the decoder found wrong with the expiry, if anything.
pub open spec fn verdict<R: ScopeRule>(
    rule: &R,
    token: Seq<char>,
    family: KeyFamily,
    key: Seq<u8>,
    algorithm: Algorithm,
    late: Option<Seq<char>>,
) -> Result<ClaimsView, AuthErrorView> {
    match timeless_verdict(token, family, key, algorithm) {
        Err(e) => Err(e),
        Ok(raw) => settled(rule, raw, late),
    }
}

/// What the decoder can find wrong with an expiry.
pub open spec fn lateness(late: Option<Seq<char>>) -> bool {
    late matches Some(kind) ==> kind == "ExpiredSignature"@ || kind
        == "MissingRequiredClaim(\"exp\")"@
}

impl Verifier {
    /// The family of the key.
    pub closed spec fn key_family(&self) -> KeyFamily {
        self.key.family
    }

    /// The bytes of the key.
    pub closed spec fn key_bytes(&self) -> Seq<u8> {
        self.key.bytes@
    }

    /// The one algorithm accepted.
    pub closed spec fn pinned(&self) -> Algorithm {
        self.algorithm
    }

    /// How much clock skew is tolerated.
    pub closed spec fn tolerance(&self) -> u64 {
        self.dated.leeway
    }

    #[verifier::type_invariant]
    closed spec fn rules_are_pinned(&self) -> bool {
        &&& self.timeless.timeless()
        &&& self.timeless.algorithm@ == algorithm_name(self.algorithm)
        &&& self.timeless.leeway <= 1_000_000_000
        &&& self.dated.dated()
        &&& self.dated.algorithm@ == algorithm_name(self.algorithm)
        &&& self.dated.leeway <= 1_000_000_000
    }

    /// Builds a verifier for one key and one algorithm. `leeway` is how much clock skew to
    /// tolerate on the expiry, in seconds: a window in which a revoked token still works.
    #[must_use]
    pub fn new(key: VerificationKey, algorithm: Algorithm, leeway: u64) -> (v: Self)
        requires
            leeway <= 1_000_000_000,
        ensures
            v.key_family() == key.family,
            v.key_bytes() == key.bytes@,
            v.pinned() == algorithm,
            v.tolerance() == leeway,
    {
        let timeless = TokenRules {
            algorithm: algorithm.name().to_owned(),
            leeway,
            required: Vec::new(),
            validate_exp: false,
            validate_aud: false,
        };
        let mut required: Vec<String> = Vec::new();
        required.push("exp".to_owned());
        let dated = TokenRules {
            algorithm: algorithm.name().to_owned(),
            leeway,
            required,
            validate_exp: true,
            validate_aud: false,
        };
        Self { key, algorithm, timeless, dated }
    }

    /// The algorithm this verifier accepts, and the only one it will ever accept.
    #[must_use]
    pub fn algorithm(&self) -> (a: Algorithm)
        ensures
            a == self.pinned(),
    {
        self.algorithm
    }

    /// The verifier in words. The key never goes near a log, an error message or a panic message.
    pub fn describe(&self) -> (s: String)
        ensures
            s@ == "Verifier { algorithm: "@ + algorithm_name(self.pinned()) + ", .. }"@,
    {
        "Verifier { algorithm: ".to_owned().concat(self.algorithm.name()).concat(", .. }")
    }

    /// The claims of a token whose header, signature and form are in order.
    fn timeless_claims(&self, token: &str) -> (r: Result<RawClaims, AuthError>)
        ensures
            match r {
                Ok(c) => timeless_verdict(
                    token@,
                    self.key_family(),
                    self.key_bytes(),
                    self.pinned(),
                ) == Ok::<RawClaimsView, AuthErrorView>(c@),
                Err(e) => timeless_verdict(
                    token@,
                    self.key_family(),
                    self.key_bytes(),
                    self.pinned(),
                ) == Err::<RawClaimsView, AuthErrorView>(e@),
            },
    {
        proof {
            use_type_invariant(self);
        }
        // Before anything else touches the token: does the header name our algorithm?
        let found: String = match decode_header(token) {
            Ok(name) => name,
            Err(e) => {
                let detail: String = "unreadable header: ".to_owned().concat(e.as_str());
                return Err(AuthError::Malformed { detail });
            },
        };
        if found != self.algorithm.name().to_owned() {
            return Err(AuthError::WrongAlgorithm { found });
        }
        match decode_token(token, &self.key, &self.timeless) {
            Ok(claims) => parse_claims(claims.as_str()),
            Err(kind) => Err(map_jwt_err(kind)),
        }
    }

    /// Verifies a token and returns what it grants.
    ///
    /// Whether the token has expired depends on the moment, the second at which the clock is read
    /// on the way; everything else follows from the token, the key and the algorithm.
    ///
    /// # Errors
    /// [`AuthError`] if the token is malformed, signed with the wrong algorithm or key, expired,
    /// or claims no scopes.
    pub fn verify<R: ScopeRule>(&self, token: &str, rule: &R) -> (r: Result<Claims, AuthError>)
        requires
            is_rule(rule),
        ensures
            exists|now: u64| #[trigger] judged_at(self, rule, token@, now, grant_view(r)),
    {
        let raw: RawClaims = match self.timeless_claims(token) {
            Ok(c) => c,
            Err(e) => {
                assert(judged_at(self, rule, token@, 0, Err(e@)));
                return Err(e);
            },
        };
        proof {
            use_type_invariant(self);
        }
        let decoded: Result<String, String> = decode_token(token, &self.key, &self.dated);
        let ghost found = said(decoded);
        let late: Option<String> = match decoded {
            Ok(_) => None,
            Err(kind) => Some(kind),
        };
        let ghost view = raw@;
        let r: Result<Claims, AuthError> = settle(rule, raw, late);
        proof {
            let name = algorithm_name(self.pinned());
            let now = choose|now: u64|
                {
                    &&& found == #[trigger] dated_contents_of(
                        token@,
                        self.key_family(),
                        self.key_bytes(),
                        name,
                        self.tolerance(),
                        now,
                    )
                    &&& contents_of(
                        token@,
                        self.key_family(),
                        self.key_bytes(),
                        name,
                    ) matches Ok(claims) ==> expiry_decides(
                        claims,
                        fault_of(found),
                        self.tolerance(),
                        now,
                    )
                };
            assert(late_at(self, token@, now) == optional_text(late));
            assert(judged_at(self, rule, token@, now, grant_view(r)));
        }
        r
    }
}

/// What the decoder finds wrong with a token's expiry at a moment, if anything, when it is handed
/// the verifier's key, algorithm and leeway.
pub open spec fn late_at(verifier: &Verifier, token: Seq<char>, now: u64) -> Option<Seq<char>> {
    fault_of(
        dated_contents_of(
            token,
            verifier.key_family(),
            verifier.key_bytes(),
            algorithm_name(verifier.pinned()),
            verifier.tolerance(),
            now,
        ),
    )
}

/// A grant or a refusal is what a verifier makes of a token at a moment: the verdict, with what
/// the decoder finds wrong with the expiry at that moment; and where there is an expiry to look
/// at, it has passed when it lies behind the moment by more than the leeway, and not otherwise.
pub open spec fn judged_at<R: ScopeRule>(
    verifier: &Verifier,
    rule: &R,
    token: Seq<char>,
    now: u64,
    g: Result<ClaimsView, AuthErrorView>,
) -> bool {
    let family = verifier.key_family();
    let key = verifier.key_bytes();
    let algorithm = verifier.pinned();
    let late = late_at(verifier, token, now);
    &&& g == verdict(rule, token, family, key, algorithm, late)
    &&& timeless_verdict(token, family, key, algorithm) matches Ok(raw) ==> lateness(late) && (
    verifier.tolerance() <= now ==> late == expiry_fault(raw.exp, verifier.tolerance(), now))
}

/// What an expired token grants is nothing, and it is told so; and a token that has not expired
/// is granted what it claims.
pub proof fn expiry_decides_every_grant<R: ScopeRule>(
    verifier: &Verifier,
    rule: &R,
    token: Seq<char>,
    now: u64,
    g: Result<ClaimsView, AuthErrorView>,
    raw: RawClaimsView,
)
    requires
        judged_at(verifier, rule, token, now, g),
        verifier.tolerance() <= now,
        timeless_verdict(
            token,
            verifier.key_family(),
            verifier.key_bytes(),
            verifier.pinned(),
        ) == Ok::<RawClaimsView, AuthErrorView>(raw),
        raw.exp >= 0,
    ensures
        raw.exp < now - verifier.tolerance() ==> g == Err::<ClaimsView, AuthErrorView>(
            AuthErrorView::Expired,
        ),
        raw.exp >= now - verifier.tolerance() ==> g == granted(rule, raw),
{
}

/// A token that says a claim twice is refused, whatever the two say.
pub proof fn a_repeated_claim_grants_nothing<R: ScopeRule>(
    rule: &R,
    token: Seq<char>,
    family: KeyFamily,
    key: Seq<u8>,
    algorithm: Algorithm,
    late: Option<Seq<char>>,
    claims: Seq<char>,
    members: Seq<(Seq<char>, Seq<char>)>,
    name: Seq<char>,
)
    requires
        contents_of(token, family, key, algorithm_name(algorithm)) == Ok::<Seq<char>, Seq<char>>(
            claims,
        ),
        members_of(claims) == Some(members),
        name == "scopes"@ || name == "exp"@ || name == "sub"@,
        repeated(members, name),
    ensures
        verdict(rule, token, family, key, algorithm, late) is Err,
{
}

/// A token is granted something only if its header names the pinned algorithm and its signature
/// verifies under it with the key, and then only what it claims.
pub proof fn nothing_is_granted_without_the_pinned_algorithm<R: ScopeRule>(
    rule: &R,
    token: Seq<char>,
    family: KeyFamily,
    key: Seq<u8>,
    algorithm: Algorithm,
    late: Option<Seq<char>>,
)
    requires
        verdict(rule, token, family, key, algorithm, late) is Ok,
    ensures
        header_of(token) == Ok::<Seq<char>, Seq<char>>(algorithm_name(algorithm)),
        contents_of(token, family, key, algorithm_name(algorithm)) is Ok,
        late is None,
{
}

} // verus!
