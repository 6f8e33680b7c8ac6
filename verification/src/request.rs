//! What stands between a request and the change log: the bearer token, the checks in their order,
//! and what a refusal looks like from outside.
//!
//! Authorization is three checks. Verify the token and authorize the scope, which are local and
//! done by [`authorize`]; then consult the blocklist, which costs a query, and [`confirm`]. In
//! that order nobody with a malformed token can make the server hit its database.
use crate::auth::{
    client_sentence, grant_view, is_rule, judged_at, late_at, scope_names, scope_of, verdict,
    AuthError, AuthErrorView, Claims, ClaimsView, ScopeRule, Verifier,
};
use crate::blocklist::{check, Standing};
use crate::error::ServerError;
use crate::protocol::ScopeId;
use crate::text::{chars_of, string_of_range};
use vstd::prelude::*;
use vstd::string::*;

verus! {

/// How many rows one pull reads.
pub const PULL_ROWS: i64 = 500;

/// What a client is told when the database cannot be read.
pub const UNAVAILABLE: &'static str = "Sync is temporarily unavailable.";

/// The `Authorization` header of a request.
#[derive(Debug)]
pub enum AuthHeader {
    /// There is none.
    Absent,
    /// There is one that is not text.
    NotAscii,
    /// What it says.
    Text(String),
}

/// Where the first space is.
pub open spec fn first_space(s: Seq<char>) -> int
    decreases s.len(),
{
    if s.len() == 0 || s[0] == ' ' {
        0
    } else {
        1 + first_space(s.drop_first())
    }
}

/// A letter of the Latin alphabet in lower case; any other character as it is.
pub open spec fn lower(c: char) -> char {
    if 'A' <= c <= 'Z' {
        ((c as u32) + 32) as char
    } else {
        c
    }
}

/// The scheme is "bearer", in any case.
pub open spec fn is_bearer(scheme: Seq<char>) -> bool {
    scheme.map_values(|c: char| lower(c)) == "bearer"@
}

/// What is left behind the spaces that something begins with.
pub open spec fn after_spaces(s: Seq<char>) -> Seq<char>
    decreases s.len(),
{
    if s.len() > 0 && s[0] == ' ' {
        after_spaces(s.drop_first())
    } else {
        s
    }
}

/// The characters that Unicode calls white space.
pub open spec fn is_white(c: char) -> bool {
    let n = c as u32;
    ||| 0x9 <= n <= 0xd
    ||| n == 0x20
    ||| n == 0x85
    ||| n == 0xa0
    ||| n == 0x1680
    ||| 0x2000 <= n <= 0x200a
    ||| n == 0x2028
    ||| n == 0x2029
    ||| n == 0x202f
    ||| n == 0x205f
    ||| n == 0x3000
}

/// The token that a header carries: the scheme, one or more spaces, and a token without white
/// space in it.
pub open spec fn header_token(raw: Seq<char>) -> Result<Seq<char>, Seq<char>> {
    let p = first_space(raw);
    let token = after_spaces(raw.skip(p + 1));
    if p >= raw.len() || !is_bearer(raw.take(p)) {
        Err("Authorization header is not a Bearer token"@)
    } else if token.len() == 0 {
        Err("empty bearer token"@)
    } else if exists|i: int| 0 <= i < token.len() && is_white(#[trigger] token[i]) {
        Err("bearer token contains whitespace"@)
    } else {
        Ok(token)
    }
}

/// The token of a request, or what is wrong with its header.
pub open spec fn bearer_token(header: AuthHeader) -> Result<Seq<char>, Seq<char>> {
    match header {
        AuthHeader::Absent => Err("no Authorization header"@),
        AuthHeader::NotAscii => Err("Authorization header is not valid ASCII"@),
        AuthHeader::Text(raw) => header_token(raw@),
    }
}

proof fn first_space_is(s: Seq<char>, p: int)
    requires
        0 <= p <= s.len(),
        p < s.len() ==> s[p] == ' ',
        forall|i: int| 0 <= i < p ==> s[i] != ' ',
    ensures
        first_space(s) == p,
    decreases s.len(),
{
    if s.len() > 0 && s[0] != ' ' {
        first_space_is(s.drop_first(), p - 1);
    }
}

proof fn after_spaces_is(s: Seq<char>, q: int)
    requires
        0 <= q <= s.len(),
        q < s.len() ==> s[q] != ' ',
        forall|i: int| 0 <= i < q ==> s[i] == ' ',
    ensures
        after_spaces(s) == s.skip(q),
    decreases s.len(),
{
    if s.len() > 0 && s[0] == ' ' {
        after_spaces_is(s.drop_first(), q - 1);
        assert(s.drop_first().skip(q - 1) == s.skip(q));
    } else {
        assert(s.skip(0) == s);
    }
}

fn malformed(detail: &str) -> (e: AuthError)
    ensures
        e@ == (AuthErrorView::Malformed { detail: detail@ }),
{
    AuthError::Malformed { detail: detail.to_owned() }
}

fn white(c: char) -> (r: bool)
    ensures
        r == is_white(c),
{
    let n: u32 = c as u32;
    (0x9 <= n && n <= 0xd) || n == 0x20 || n == 0x85 || n == 0xa0 || n == 0x1680 || (0x2000 <= n
        && n <= 0x200a) || n == 0x2028 || n == 0x2029 || n == 0x202f || n == 0x205f || n == 0x3000
}

fn lowered(c: char) -> (r: char)
    ensures
        r == lower(c),
{
    if 'A' <= c && c <= 'Z' {
        ((c as u8) + 32) as char
    } else {
        c
    }
}

/// Whether the first `p` characters are the scheme.
fn bearer_scheme(chars: &Vec<char>, p: usize) -> (r: bool)
    requires
        p <= chars@.len(),
    ensures
        r == is_bearer(chars@.take(p as int)),
{
    let ghost scheme = chars@.take(p as int).map_values(|c: char| lower(c));
    let word: Vec<char> = chars_of("bearer");
    if p != word.len() {
        return false;
    }
    let mut i: usize = 0;
    while i < p
        invariant
            i <= p,
            p <= chars@.len(),
            p == word@.len(),
            word@ == "bearer"@,
            scheme == chars@.take(p as int).map_values(|c: char| lower(c)),
            forall|j: int| 0 <= j < i ==> scheme[j] == word@[j],
        decreases p - i,
    {
        assert(scheme[i as int] == lower(chars@[i as int]));
        if lowered(chars[i]) != word[i] {
            return false;
        }
        i = i + 1;
    }
    assert(scheme == word@);
    true
}

/// Pulls the bearer token out of the `Authorization` header.
///
/// # Errors
/// [`AuthError::Malformed`] if there is no header, it is not text, or it carries no token.
#[verifier::loop_isolation(false)]
pub fn bearer(header: &AuthHeader) -> (r: Result<String, AuthError>)
    ensures
        match bearer_token(*header) {
            Ok(token) => r matches Ok(t) && t@ == token,
            Err(detail) => r matches Err(e) && e@ == (AuthErrorView::Malformed { detail }),
        },
{
    let raw: &String = match header {
        AuthHeader::Absent => return Err(malformed("no Authorization header")),
        AuthHeader::NotAscii => return Err(malformed("Authorization header is not valid ASCII")),
        AuthHeader::Text(raw) => raw,
    };
    let chars: Vec<char> = chars_of(raw.as_str());
    let mut p: usize = 0;
    while p < chars.len() && chars[p] != ' '
        invariant
            p <= chars@.len(),
            forall|i: int| 0 <= i < p ==> chars@[i] != ' ',
        decreases chars@.len() - p,
    {
        p = p + 1;
    }
    proof {
        first_space_is(chars@, p as int);
    }
    if p >= chars.len() || !bearer_scheme(&chars, p) {
        return Err(malformed("Authorization header is not a Bearer token"));
    }
    let mut q: usize = p + 1;
    while q < chars.len() && chars[q] == ' '
        invariant
            p < q <= chars@.len(),
            forall|i: int| p < i < q ==> chars@[i] == ' ',
        decreases chars@.len() - q,
    {
        q = q + 1;
    }
    let ghost rest = chars@.skip(p + 1);
    let ghost token = chars@.skip(q as int);
    proof {
        after_spaces_is(rest, q - p - 1);
        assert(rest.skip(q - p - 1) == token);
    }
    if q >= chars.len() {
        return Err(malformed("empty bearer token"));
    }
    let mut i: usize = q;
    while i < chars.len()
        invariant
            q <= i <= chars@.len(),
            token == chars@.skip(q as int),
            forall|j: int| 0 <= j < i - q ==> !is_white(#[trigger] token[j]),
        decreases chars@.len() - i,
    {
        assert(token[i - q] == chars@[i as int]);
        if white(chars[i]) {
            assert(is_white(token[i - q]));
            return Err(malformed("bearer token contains whitespace"));
        }
        i = i + 1;
    }
    assert(chars@.subrange(q as int, chars@.len() as int) == token);
    Ok(string_of_range(&chars, q, chars.len()))
}

/// What the two local checks come to, `late` being what is wrong with the token's expiry.
pub open spec fn locally_authorized<R: ScopeRule>(
    header: AuthHeader,
    verifier: &Verifier,
    rule: &R,
    scope: Seq<char>,
    late: Option<Seq<char>>,
) -> Result<ClaimsView, AuthErrorView> {
    match bearer_token(header) {
        Err(detail) => Err(AuthErrorView::Malformed { detail }),
        Ok(token) => match verdict(
            rule,
            token,
            verifier.key_family(),
            verifier.key_bytes(),
            verifier.pinned(),
            late,
        ) {
            Err(e) => Err(e),
            Ok(claims) => if claims.scopes.contains(scope) {
                Ok(claims)
            } else {
                Err(AuthErrorView::ScopeNotClaimed { requested: scope })
            },
        },
    }
}

/// A grant or a refusal is what the two local checks come to at a moment: the token is verified at
/// that moment, and what it is granted has to hold the scope.
pub open spec fn allowed_at<R: ScopeRule>(
    header: AuthHeader,
    verifier: &Verifier,
    rule: &R,
    scope: Seq<char>,
    now: u64,
    g: Result<ClaimsView, AuthErrorView>,
) -> bool {
    match bearer_token(header) {
        Err(detail) => g == Err::<ClaimsView, AuthErrorView>(AuthErrorView::Malformed { detail }),
        Ok(token) => {
            let late = late_at(verifier, token, now);
            &&& g == locally_authorized(header, verifier, rule, scope, late)
            &&& judged_at(
                verifier,
                rule,
                token,
                now,
                verdict(
                    rule,
                    token,
                    verifier.key_family(),
                    verifier.key_bytes(),
                    verifier.pinned(),
                    late,
                ),
            )
        },
    }
}

/// The checks that need no database: the token verifies, and it claims the scope.
///
/// # Errors
/// [`AuthError`] for the first check that fails.
pub fn authorize<R: ScopeRule>(
    header: &AuthHeader,
    verifier: &Verifier,
    rule: &R,
    scope: &ScopeId,
) -> (r: Result<Claims, AuthError>)
    requires
        is_rule(rule),
    ensures
        exists|now: u64| #[trigger] allowed_at(*header, verifier, rule, scope@, now, grant_view(r)),
        r matches Ok(claims) ==> exists|i: int|
            0 <= i < claims.scopes@.len() && (#[trigger] claims.scopes@[i])@ == scope@,
{
    let token: String = match bearer(header) {
        Ok(t) => t,
        Err(e) => {
            assert(allowed_at(*header, verifier, rule, scope@, 0, Err(e@)));
            return Err(e);
        },
    };
    let verified: Result<Claims, AuthError> = verifier.verify(token.as_str(), rule);
    let ghost g = grant_view(verified);
    let ghost now = choose|now: u64| #[trigger] judged_at(verifier, rule, token@, now, g);
    let r: Result<Claims, AuthError> = match verified {
        Err(e) => Err(e),
        Ok(claims) => match claims.authorize(scope) {
            Ok(()) => Ok(claims),
            Err(e) => Err(e),
        },
    };
    assert(allowed_at(*header, verifier, rule, scope@, now, grant_view(r)));
    proof {
        if r is Ok {
            let scopes = r->Ok_0.scopes@;
            let names = scope_names(scopes);
            let i = choose|i: int| 0 <= i < names.len() && names[i] == scope@;
            assert(scopes[i]@ == scope@);
        }
    }
    r
}

/// The last check: the claims stand only if the scope is known not to be cut.
///
/// # Errors
/// [`AuthError::ScopeBlocked`] if the scope is blocked or its standing could not be determined.
pub fn confirm(claims: Claims, scope: &ScopeId, standing: Result<Standing, ServerError>) -> (r:
    Result<Claims, AuthError>)
    ensures
        if standing == Ok::<Standing, ServerError>(Standing::Allowed) {
            r == Ok::<Claims, AuthError>(claims)
        } else {
            r matches Err(e) && e@ == (AuthErrorView::ScopeBlocked { scope: scope@ })
        },
{
    match check(scope, standing) {
        Ok(()) => Ok(claims),
        Err(e) => Err(e),
    }
}

/// The scope that a request names. A text that is no scope id is refused exactly like a scope
/// that is not claimed.
///
/// # Errors
/// [`AuthError::ScopeNotClaimed`], without saying what was asked for.
pub fn requested_scope<R: ScopeRule>(rule: &R, text: &String) -> (r: Result<ScopeId, AuthError>)
    requires
        is_rule(rule),
    ensures
        match scope_of(rule, text@) {
            Ok(name) => r matches Ok(s) && s@ == name,
            Err(_) => r matches Err(e) && e@ == (AuthErrorView::ScopeNotClaimed {
                requested: "<invalid>"@,
            }),
        },
{
    match crate::auth::scope_with(rule, text) {
        Ok(s) => Ok(s),
        Err(_) => Err(AuthError::ScopeNotClaimed { requested: "<invalid>".to_owned() }),
    }
}

/// What a refusal looks like on the wire.
#[derive(Debug, Clone, Copy, PartialEq, Eq)]
pub struct Refusal {
    /// The HTTP status.
    pub status: u16,
    /// The sentence in the body.
    pub error: &'static str,
}

/// Turns a refusal into a response: 401 for an expired token, 403 for everything else, and the
/// client's sentence.
pub fn refuse(err: &AuthError) -> (r: Refusal)
    ensures
        r.status == if err@ is Expired {
            401u16
        } else {
            403u16
        },
        r.error@ == client_sentence(err@),
{
    Refusal {
        status: if err.is_expired() {
            401
        } else {
            403
        },
        error: err.client_message(),
    }
}

/// What keeps a secret from being used to verify tokens: it has fewer than 32 bytes.
pub fn check_secret(secret: &Vec<u8>) -> (r: Result<(), &'static str>)
    ensures
        r is Ok <==> secret@.len() >= 32,
        r matches Err(e) ==> e@ == "CREDSYNC_TOKEN_SECRET must be at least 32 bytes"@,
{
    if secret.len() < 32 {
        Err("CREDSYNC_TOKEN_SECRET must be at least 32 bytes")
    } else {
        Ok(())
    }
}

/// No request is served for a scope that its token does not claim by that exact name.
pub proof fn only_claimed_scopes_are_served<R: ScopeRule>(
    header: AuthHeader,
    verifier: &Verifier,
    rule: &R,
    scope: Seq<char>,
    late: Option<Seq<char>>,
)
    ensures
        locally_authorized(header, verifier, rule, scope, late) matches Ok(claims)
            ==> claims.scopes.contains(scope),
{
}

/// A request is served for any scope that its token is granted, and for no other: where the header
/// carries a token that the verifier grants some scopes at the moment, the result is exactly that
/// grant if one of them is the scope that was asked for, whichever it is, and otherwise a refusal
/// that names the scope. A token that is not granted anything is refused for the reason that the
/// verifier gives, and a header without one as malformed.
pub proof fn any_granted_scope_is_served<R: ScopeRule>(
    header: AuthHeader,
    verifier: &Verifier,
    rule: &R,
    scope: Seq<char>,
    now: u64,
    g: Result<ClaimsView, AuthErrorView>,
    token: Seq<char>,
    granted: Result<ClaimsView, AuthErrorView>,
)
    requires
        allowed_at(header, verifier, rule, scope, now, g),
        bearer_token(header) == Ok::<Seq<char>, Seq<char>>(token),
        judged_at(verifier, rule, token, now, granted),
    ensures
        match granted {
            Ok(claims) => {
                &&& forall|i: int|
                    0 <= i < claims.scopes.len() && #[trigger] claims.scopes[i] == scope ==> g
                        == Ok::<ClaimsView, AuthErrorView>(claims)
                &&& (forall|i: int|
                    0 <= i < claims.scopes.len() ==> #[trigger] claims.scopes[i] != scope) ==> g
                    == Err::<ClaimsView, AuthErrorView>(
                    AuthErrorView::ScopeNotClaimed { requested: scope },
                )
                &&& g is Ok <==> exists|i: int|
                    0 <= i < claims.scopes.len() && #[trigger] claims.scopes[i] == scope
            },
            Err(e) => g == Err::<ClaimsView, AuthErrorView>(e),
        },
{
    if let Ok(claims) = granted {
        assert forall|i: int|
            0 <= i < claims.scopes.len() && #[trigger] claims.scopes[i] == scope implies g == Ok::<
            ClaimsView,
            AuthErrorView,
        >(claims) by {
            assert(claims.scopes.contains(scope));
        }
    }
}

/// Which headers carry a token: every text that is the word "bearer" in letters of either case, then
/// one space or more, then a token that has a character and no white space; and what such a text
/// carries is that token, to the letter.
pub proof fn a_bearer_header_carries_its_token(
    header: AuthHeader,
    scheme: Seq<char>,
    spaces: Seq<char>,
    token: Seq<char>,
)
    requires
        header matches AuthHeader::Text(raw) && raw@ == scheme + spaces + token,
        scheme.len() == 6,
        scheme[0] == 'b' || scheme[0] == 'B',
        scheme[1] == 'e' || scheme[1] == 'E',
        scheme[2] == 'a' || scheme[2] == 'A',
        scheme[3] == 'r' || scheme[3] == 'R',
        scheme[4] == 'e' || scheme[4] == 'E',
        scheme[5] == 'r' || scheme[5] == 'R',
        spaces.len() > 0,
        forall|i: int| 0 <= i < spaces.len() ==> #[trigger] spaces[i] == ' ',
        token.len() > 0,
        forall|i: int| 0 <= i < token.len() ==> !is_white(#[trigger] token[i]),
    ensures
        bearer_token(header) == Ok::<Seq<char>, Seq<char>>(token),
{
    let raw = scheme + spaces + token;
    reveal_strlit("bearer");
    assert(raw[6] == spaces[0]);
    first_space_is(raw, 6);
    assert(raw.take(6) =~= scheme);
    assert(('B' as u32 + 32) as char == 'b' && ('E' as u32 + 32) as char == 'e' && ('A' as u32
        + 32) as char == 'a' && ('R' as u32 + 32) as char == 'r');
    assert(scheme.map_values(|c: char| lower(c)) =~= "bearer"@);
    let rest = raw.skip(7);
    assert forall|i: int| 0 <= i < spaces.len() - 1 implies rest[i] == ' ' by {
        assert(rest[i] == spaces[i + 1]);
    }
    assert(rest[spaces.len() - 1] == token[0]);
    assert(!is_white(token[0]));
    after_spaces_is(rest, spaces.len() - 1);
    assert(rest.skip(spaces.len() - 1) =~= token);
}

/// A header carries a token only at its end, behind a space, and the token has a character and no
/// white space.
pub proof fn a_token_is_the_end_of_its_header(header: AuthHeader, token: Seq<char>)
    requires
        bearer_token(header) == Ok::<Seq<char>, Seq<char>>(token),
    ensures
        header matches AuthHeader::Text(raw) && {
            let p = raw@.len() - token.len();
            &&& p >= 7
            &&& raw@.skip(p) == token
            &&& raw@[p - 1] == ' '
            &&& forall|i: int| 6 <= i < p ==> #[trigger] raw@[i] == ' '
        },
        token.len() > 0,
        forall|i: int| 0 <= i < token.len() ==> !is_white(#[trigger] token[i]),
{
    let raw = header->Text_0@;
    reveal_strlit("bearer");
    let p = first_space(raw);
    space_is_first(raw);
    let rest = raw.skip(p + 1);
    let q = spaces_are_first(rest);
    assert(raw.take(p).map_values(|c: char| lower(c)).len() == 6);
    assert(raw.skip(p + 1 + q) =~= rest.skip(q));
    assert forall|i: int| 6 <= i < 7 + q implies #[trigger] raw[i] == ' ' by {
        if i > 6 {
            assert(rest[i - 7] == raw[i]);
        }
    }
}

proof fn space_is_first(s: Seq<char>)
    ensures
        0 <= first_space(s) <= s.len(),
        first_space(s) < s.len() ==> s[first_space(s)] == ' ',
    decreases s.len(),
{
    if s.len() > 0 && s[0] != ' ' {
        space_is_first(s.drop_first());
    }
}

proof fn spaces_are_first(s: Seq<char>) -> (q: int)
    ensures
        0 <= q <= s.len(),
        after_spaces(s) == s.skip(q),
        forall|i: int| 0 <= i < q ==> #[trigger] s[i] == ' ',
    decreases s.len(),
{
    if s.len() > 0 && s[0] == ' ' {
        let q = spaces_are_first(s.drop_first());
        assert(s.drop_first().skip(q) =~= s.skip(q + 1));
        assert forall|i: int| 0 <= i < q + 1 implies #[trigger] s[i] == ' ' by {
            if i > 0 {
                assert(s.drop_first()[i - 1] == s[i]);
            }
        }
        q + 1
    } else {
        assert(s.skip(0) =~= s);
        0
    }
}

/// What the answer to a request says of its token. Claims mean that the verifier granted exactly
/// them at some moment, and that the scope is one of theirs. A refusal of a token that was granted
/// something means that none of its scopes has the name that was asked for. Any other refusal is
/// the verifier's own, or the header carries no token.
pub proof fn an_answer_rests_on_the_token<R: ScopeRule>(
    header: &AuthHeader,
    verifier: &Verifier,
    rule: &R,
    scope: &ScopeId,
    r: Result<Claims, AuthError>,
)
    requires
        call_ensures(authorize::<R>, (header, verifier, rule, scope), r),
    ensures
        bearer_token(*header) matches Err(detail) ==> (r matches Err(e) && e@ == (
        AuthErrorView::Malformed { detail })),
        bearer_token(*header) matches Ok(token) ==> exists|now: u64, granted: Result<
            ClaimsView,
            AuthErrorView,
        >|
            #[trigger] judged_at(verifier, rule, token, now, granted) && match (granted, r) {
                (Ok(c), Ok(claims)) => claims@ == c && exists|i: int|
                    0 <= i < c.scopes.len() && #[trigger] c.scopes[i] == scope@,
                (Ok(c), Err(e)) => e@ == (AuthErrorView::ScopeNotClaimed { requested: scope@ })
                    && forall|i: int|
                    0 <= i < c.scopes.len() ==> #[trigger] c.scopes[i] != scope@,
                (Err(refusal), Err(e)) => e@ == refusal,
                (Err(_), Ok(_)) => false,
            },
{
    let now = choose|now: u64| #[trigger]
        allowed_at(*header, verifier, rule, scope@, now, grant_view(r));
    if let Ok(token) = bearer_token(*header) {
        let granted = verdict(
            rule,
            token,
            verifier.key_family(),
            verifier.key_bytes(),
            verifier.pinned(),
            late_at(verifier, token, now),
        );
        assert(judged_at(verifier, rule, token, now, granted));
        any_granted_scope_is_served(
            *header,
            verifier,
            rule,
            scope@,
            now,
            grant_view(r),
            token,
            granted,
        );
    }
}

} // verus!
