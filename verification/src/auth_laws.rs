//! What holds of tokens, whatever they say: which are granted something, what exactly, and why the
//! others are refused.
use crate::auth::{
    algorithm_name, claim, contents_of, decoder_fault, first_bad_scope, first_member, granted,
    header_of, json_first, json_integer, json_text, json_texts, judged_at, listed_members,
    map_jwt_err, members_of, past_blanks, raw_claims, repeated, scope_of, AuthError, AuthErrorView,
    Claims, ClaimsView, ScopeRule, Verifier,
};
use crate::blocklist::{check, standing, Standing};
use crate::error::ServerError;
use crate::protocol::ScopeId;
use crate::request::{confirm, refuse, requested_scope, Refusal};
use vstd::prelude::*;

verus! {

/// A claim is made once, at place `i`.
pub open spec fn only_at(members: Seq<(Seq<char>, Seq<char>)>, name: Seq<char>, i: int) -> bool {
    &&& 0 <= i < members.len()
    &&& members[i].0 == name
    &&& forall|j: int| 0 <= j < members.len() && j != i ==> (#[trigger] members[j]).0 != name
}

/// A claim is not made.
pub open spec fn nowhere(members: Seq<(Seq<char>, Seq<char>)>, name: Seq<char>) -> bool {
    forall|j: int| 0 <= j < members.len() ==> (#[trigger] members[j]).0 != name
}

proof fn a_single_claim_is_found(members: Seq<(Seq<char>, Seq<char>)>, name: Seq<char>, i: int)
    requires
        only_at(members, name, i),
    ensures
        claim(members, name) == Some(members[i].1),
        !repeated(members, name),
    decreases members.len(),
{
    if i > 0 {
        let rest = members.drop_first();
        assert(members[0].0 != name);
        assert forall|j: int| 0 <= j < rest.len() && j != i - 1 implies (#[trigger] rest[j]).0
            != name by {
            assert(rest[j] == members[j + 1]);
        }
        a_single_claim_is_found(rest, name, i - 1);
    }
}

proof fn a_missing_claim_is_not_found(members: Seq<(Seq<char>, Seq<char>)>, name: Seq<char>)
    requires
        nowhere(members, name),
    ensures
        claim(members, name) is None,
        !repeated(members, name),
    decreases members.len(),
{
    if members.len() > 0 {
        let rest = members.drop_first();
        assert(members[0].0 != name);
        assert forall|j: int| 0 <= j < rest.len() implies (#[trigger] rest[j]).0 != name by {
            assert(rest[j] == members[j + 1]);
        }
        a_missing_claim_is_not_found(rest, name);
    }
}

proof fn a_claim_stands_somewhere(members: Seq<(Seq<char>, Seq<char>)>, name: Seq<char>) -> (i: int)
    requires
        claim(members, name) is Some,
    ensures
        0 <= i < members.len(),
        members[i].0 == name,
        claim(members, name) == Some(members[i].1),
    decreases members.len(),
{
    if members[0].0 == name {
        0
    } else {
        let j = a_claim_stands_somewhere(members.drop_first(), name);
        j + 1
    }
}

proof fn an_unrepeated_claim_is_single(members: Seq<(Seq<char>, Seq<char>)>, name: Seq<char>)
    requires
        !repeated(members, name),
    ensures
        claim(members, name) is None ==> nowhere(members, name),
        claim(members, name) matches Some(json) ==> exists|i: int|
            #[trigger] only_at(members, name, i) && members[i].1 == json,
    decreases members.len(),
{
    if claim(members, name) is Some {
        let i = a_claim_stands_somewhere(members, name);
        assert forall|j: int| 0 <= j < members.len() && j != i implies (#[trigger] members[j]).0
            != name by {
            if members[j].0 == name {
                if i < j {
                    assert(members[i].0 == name && members[j].0 == name);
                } else {
                    assert(members[j].0 == name && members[i].0 == name);
                }
            }
        }
        assert(only_at(members, name, i));
    } else if members.len() > 0 {
        let rest = members.drop_first();
        assert(!repeated(rest, name)) by {
            if repeated(rest, name) {
                let (a, b) = choose|a: int, b: int|
                    0 <= a < b < rest.len() && #[trigger] rest[a].0 == name && #[trigger] rest[b].0
                        == name;
                assert(members[a + 1].0 == name && members[b + 1].0 == name);
            }
        }
        an_unrepeated_claim_is_single(rest, name);
        assert forall|j: int| 0 <= j < members.len() implies (#[trigger] members[j]).0 != name by {
            if j > 0 {
                assert(rest[j - 1] == members[j]);
            }
        }
    }
}

proof fn bad_scopes<R: ScopeRule>(rule: &R, texts: Seq<Seq<char>>)
    ensures
        first_bad_scope(rule, texts) is None <==> forall|i: int|
            0 <= i < texts.len() ==> scope_of(rule, #[trigger] texts[i]) is Ok,
        first_bad_scope(rule, texts) matches Some(e) ==> exists|i: int|
            {
                &&& 0 <= i < texts.len()
                &&& scope_of(rule, #[trigger] texts[i]) == Err::<Seq<char>, Seq<char>>(e)
                &&& forall|j: int| 0 <= j < i ==> scope_of(rule, #[trigger] texts[j]) is Ok
            },
    decreases texts.len(),
{
    if texts.len() > 0 {
        let rest = texts.drop_first();
        bad_scopes(rule, rest);
        if scope_of(rule, texts[0]) is Ok {
            if first_bad_scope(rule, rest) is None {
                assert forall|i: int| 0 <= i < texts.len() implies scope_of(
                    rule,
                    #[trigger] texts[i],
                ) is Ok by {
                    if i > 0 {
                        assert(rest[i - 1] == texts[i]);
                    }
                }
            } else {
                let e = first_bad_scope(rule, rest)->0;
                let i = choose|i: int|
                    {
                        &&& 0 <= i < rest.len()
                        &&& scope_of(rule, #[trigger] rest[i]) == Err::<Seq<char>, Seq<char>>(e)
                        &&& forall|j: int| 0 <= j < i ==> scope_of(rule, #[trigger] rest[j]) is Ok
                    };
                assert(texts[i + 1] == rest[i]);
                assert forall|j: int| 0 <= j < i + 1 implies scope_of(
                    rule,
                    #[trigger] texts[j],
                ) is Ok by {
                    if j > 0 {
                        assert(rest[j - 1] == texts[j]);
                    }
                }
            }
        } else {
            assert(scope_of(rule, texts[0]) is Err);
        }
    }
}

/// A token is granted what it claims. Of a token that names the pinned algorithm, whose signature
/// verifies and whose claims hold a list of scopes, an expiry and perhaps a subject, each once:
/// once the expiry has passed by more than the leeway it is refused as expired; until then it is
/// refused for having no scopes when the list is empty, as malformed when one of them is no scope
/// id, and otherwise granted every scope of the list, in its order, to that subject and until that
/// expiry.
pub proof fn a_token_is_granted_what_it_claims<R: ScopeRule>(
    verifier: &Verifier,
    rule: &R,
    token: Seq<char>,
    now: u64,
    g: Result<ClaimsView, AuthErrorView>,
    text: Seq<char>,
    members: Seq<(Seq<char>, Seq<char>)>,
    scopes_at: int,
    exp_at: int,
    sub_at: Option<int>,
    texts: Seq<Seq<char>>,
    exp: i64,
    subject: Option<Seq<char>>,
)
    requires
        judged_at(verifier, rule, token, now, g),
        verifier.tolerance() <= now,
        header_of(token) == Ok::<Seq<char>, Seq<char>>(algorithm_name(verifier.pinned())),
        contents_of(
            token,
            verifier.key_family(),
            verifier.key_bytes(),
            algorithm_name(verifier.pinned()),
        ) == Ok::<Seq<char>, Seq<char>>(text),
        members_of(text) == Some(members),
        only_at(members, "scopes"@, scopes_at),
        json_texts(members[scopes_at].1) == Some(texts),
        only_at(members, "exp"@, exp_at),
        json_integer(members[exp_at].1) == Some(exp),
        match sub_at {
            Some(k) => only_at(members, "sub"@, k) && json_text(members[k].1) == Some(subject),
            None => nowhere(members, "sub"@) && subject is None,
        },
    ensures
        exp < 0 ==> (g matches Err(e) && e is Malformed),
        0 <= exp && exp + verifier.tolerance() < now ==> g == Err::<ClaimsView, AuthErrorView>(
            AuthErrorView::Expired,
        ),
        0 <= exp && exp + verifier.tolerance() >= now ==> {
            &&& texts.len() == 0 ==> g == Err::<ClaimsView, AuthErrorView>(AuthErrorView::NoScopes)
            &&& (exists|i: int| 0 <= i < texts.len() && scope_of(rule, #[trigger] texts[i]) is Err)
                ==> (g matches Err(e) && e is Malformed)
            &&& texts.len() > 0 && (forall|i: int|
                0 <= i < texts.len() ==> scope_of(rule, #[trigger] texts[i]) is Ok) ==> {
                &&& g matches Ok(c)
                &&& c.scopes.len() == texts.len()
                &&& forall|i: int|
                    0 <= i < texts.len() ==> scope_of(rule, #[trigger] texts[i]) == Ok::<
                        Seq<char>,
                        Seq<char>,
                    >(c.scopes[i])
                &&& c.subject == subject
                &&& c.expires_at == exp
            }
        },
{
    a_single_claim_is_found(members, "scopes"@, scopes_at);
    a_single_claim_is_found(members, "exp"@, exp_at);
    match sub_at {
        Some(k) => a_single_claim_is_found(members, "sub"@, k),
        None => a_missing_claim_is_not_found(members, "sub"@),
    }
    bad_scopes(rule, texts);
    reveal_strlit("ExpiredSignature");
    reveal_strlit("InvalidSignature");
    reveal_strlit("InvalidAlgorithm");
    reveal_strlit("InvalidAlgorithmName");
    reveal_strlit("MissingRequiredClaim(\"exp\")");
    assert("ExpiredSignature"@.len() == 16);
    assert("InvalidSignature"@.len() == 16);
    assert("InvalidAlgorithm"@.len() == 16);
    assert("InvalidAlgorithmName"@.len() == 20);
    assert("MissingRequiredClaim(\"exp\")"@.len() == 27);
    assert(raw_claims(members) is Ok);
}

/// Whatever is granted was claimed: the token names the pinned algorithm, its signature verifies,
/// it makes each claim at most once, the scopes granted are those it lists, one for one and in its
/// order, and the subject and the expiry are its own; and the expiry has not passed by more than
/// the leeway.
pub proof fn what_is_granted_was_claimed<R: ScopeRule>(
    verifier: &Verifier,
    rule: &R,
    token: Seq<char>,
    now: u64,
    c: ClaimsView,
)
    requires
        judged_at(verifier, rule, token, now, Ok(c)),
    ensures
        header_of(token) == Ok::<Seq<char>, Seq<char>>(algorithm_name(verifier.pinned())),
        contents_of(
            token,
            verifier.key_family(),
            verifier.key_bytes(),
            algorithm_name(verifier.pinned()),
        ) matches Ok(text) && (members_of(text) matches Some(members) && {
            &&& exists|i: int|
                {
                    &&& #[trigger] only_at(members, "scopes"@, i)
                    &&& json_texts(members[i].1) matches Some(texts)
                    &&& texts.len() > 0
                    &&& c.scopes.len() == texts.len()
                    &&& forall|k: int|
                        0 <= k < texts.len() ==> scope_of(rule, #[trigger] texts[k]) == Ok::<
                            Seq<char>,
                            Seq<char>,
                        >(c.scopes[k])
                }
            &&& exists|i: int|
                #[trigger] only_at(members, "exp"@, i) && json_integer(members[i].1) == Some(
                    c.expires_at,
                )
            &&& nowhere(members, "sub"@) && c.subject is None || exists|i: int|
                #[trigger] only_at(members, "sub"@, i) && json_text(members[i].1) == Some(c.subject)
        }),
        verifier.tolerance() <= now ==> 0 <= c.expires_at && c.expires_at + verifier.tolerance()
            >= now,
{
    let text = contents_of(
        token,
        verifier.key_family(),
        verifier.key_bytes(),
        algorithm_name(verifier.pinned()),
    )->Ok_0;
    let members = members_of(text)->0;
    an_unrepeated_claim_is_single(members, "scopes"@);
    an_unrepeated_claim_is_single(members, "exp"@);
    an_unrepeated_claim_is_single(members, "sub"@);
    let raw = raw_claims(members)->Ok_0;
    bad_scopes(rule, raw.scopes);
    assert(granted(rule, raw) == Ok::<ClaimsView, AuthErrorView>(c));
    let i = choose|i: int|
        #[trigger] only_at(members, "scopes"@, i) && members[i].1 == claim(members, "scopes"@)->0;
    assert(json_texts(members[i].1) == Some(raw.scopes));
    assert forall|k: int| 0 <= k < raw.scopes.len() implies scope_of(rule, #[trigger] raw.scopes[k])
        == Ok::<Seq<char>, Seq<char>>(c.scopes[k]) by {}
}

/// A token that names another algorithm than the pinned one is refused for that, whatever else it
/// says, and so is one whose signature does not verify; neither is looked at further.
pub proof fn a_foreign_token_is_refused<R: ScopeRule>(
    verifier: &Verifier,
    rule: &R,
    token: Seq<char>,
    now: u64,
    g: Result<ClaimsView, AuthErrorView>,
)
    requires
        judged_at(verifier, rule, token, now, g),
    ensures
        header_of(token) matches Ok(found) ==> found != algorithm_name(verifier.pinned()) ==> g
            == Err::<ClaimsView, AuthErrorView>(AuthErrorView::WrongAlgorithm { found }),
        header_of(token) is Err ==> (g matches Err(e) && e is Malformed),
        header_of(token) == Ok::<Seq<char>, Seq<char>>(algorithm_name(verifier.pinned()))
            && contents_of(
            token,
            verifier.key_family(),
            verifier.key_bytes(),
            algorithm_name(verifier.pinned()),
        ) == Err::<Seq<char>, Seq<char>>("InvalidSignature"@) ==> g == Err::<
            ClaimsView,
            AuthErrorView,
        >(AuthErrorView::BadSignature),
{
    reveal_strlit("ExpiredSignature");
    reveal_strlit("InvalidSignature");
    assert("ExpiredSignature"@[0] == 'E');
    assert("InvalidSignature"@[0] == 'I');
}

/// What a fault of the decoder becomes: expiry is told as expiry and nothing else is, a bad
/// signature as that, a refused algorithm as that, and anything else as malformed, with the
/// decoder's own word for it.
pub proof fn a_decoder_fault_keeps_its_meaning(kind: String, e: AuthError)
    requires
        call_ensures(map_jwt_err, (kind,), e),
    ensures
        e is Expired <==> kind@ == "ExpiredSignature"@,
        e is BadSignature <==> kind@ == "InvalidSignature"@,
        e is WrongAlgorithm <==> kind@ == "InvalidAlgorithm"@ || kind@ == "InvalidAlgorithmName"@,
        e is Malformed || e is Expired || e is BadSignature || e is WrongAlgorithm,
        e matches AuthError::Malformed { detail } ==> detail@ == kind@,
{
    reveal_strlit("ExpiredSignature");
    reveal_strlit("InvalidSignature");
    reveal_strlit("InvalidAlgorithm");
    reveal_strlit("InvalidAlgorithmName");
    assert("ExpiredSignature"@[0] == 'E');
    assert("InvalidSignature"@[0] == 'I' && "InvalidSignature"@[7] == 'S');
    assert("InvalidAlgorithm"@[0] == 'I' && "InvalidAlgorithm"@[7] == 'A');
    assert("InvalidAlgorithmName"@.len() == 20 && "InvalidAlgorithm"@.len() == 16);
    assert("InvalidSignature"@.len() == 16);
    assert("InvalidAlgorithmName"@[0] == 'I' && "InvalidAlgorithmName"@[7] == 'A');
    assert(e@ == decoder_fault(kind@));
}

proof fn blanks_are_skipped(blanks: Seq<char>, rest: Seq<char>)
    requires
        forall|i: int|
            0 <= i < blanks.len() ==> (#[trigger] blanks[i]) == ' ' || blanks[i] == '\t'
                || blanks[i] == '\n' || blanks[i] == '\r',
        rest.len() > 0,
        rest[0] != ' ' && rest[0] != '\t' && rest[0] != '\n' && rest[0] != '\r',
    ensures
        past_blanks(blanks + rest) == rest,
    decreases blanks.len(),
{
    let all = blanks + rest;
    if blanks.len() > 0 {
        let fewer = blanks.drop_first();
        assert(all[0] == blanks[0]);
        assert(all.drop_first() =~= fewer + rest);
        assert forall|i: int| 0 <= i < fewer.len() implies (#[trigger] fewer[i]) == ' ' || fewer[i]
            == '\t' || fewer[i] == '\n' || fewer[i] == '\r' by {
            assert(fewer[i] == blanks[i + 1]);
        }
        blanks_are_skipped(fewer, rest);
    } else {
        assert(all =~= rest);
    }
}

/// The text is blanks only.
pub open spec fn blank(text: Seq<char>) -> bool {
    forall|i: int|
        0 <= i < text.len() ==> (#[trigger] text[i]) == ' ' || text[i] == '\t' || text[i] == '\n'
            || text[i] == '\r'
}

/// Every member of the claims is read, in the order of the text, whatever blanks stand between its
/// parts: a name, a colon and a value, and then a comma and further members, or the brace at the
/// end of the text. A member is not left out for having the name of another.
pub proof fn every_member_is_read(
    text: Seq<char>,
    quoted: Seq<char>,
    before_colon: Seq<char>,
    after_colon: Seq<char>,
    name: Seq<char>,
    value: Seq<char>,
    after_value: Seq<char>,
    more: Seq<char>,
)
    requires
        blank(before_colon),
        blank(after_value),
        json_first(text) == Some((quoted, before_colon + seq![':'] + after_colon)),
        json_text(quoted) == Some(Some(name)),
    ensures
        json_first(after_colon) == Some((value, after_value + seq!['}'])) ==> listed_members(text)
            == Some(seq![(name, value)]),
        json_first(after_colon) == Some((value, after_value + seq![','] + more)) && more.len()
            < text.len() ==> match listed_members(more) {
            Some(others) => listed_members(text) == Some(seq![(name, value)] + others),
            None => listed_members(text) is None,
        },
{
    let rest = before_colon + seq![':'] + after_colon;
    let tail = seq![':'] + after_colon;
    assert(rest =~= before_colon + tail);
    blanks_are_skipped(before_colon, tail);
    assert(tail.drop_first() =~= after_colon);
    blanks_are_skipped(after_value, seq!['}']);
    let comma = seq![','] + more;
    assert(after_value + seq![','] + more =~= after_value + comma);
    blanks_are_skipped(after_value, comma);
    assert(comma.drop_first() =~= more);
    if json_first(after_colon) == Some((value, after_value + seq!['}'])) {
        assert(first_member(text) == Some(((name, value), seq!['}'])));
    }
    if json_first(after_colon) == Some((value, after_value + seq![','] + more)) {
        assert(first_member(text) == Some(((name, value), comma)));
        assert(comma[0] == ',');
        assert(comma != seq!['}']) by {
            assert(seq!['}'][0] == '}');
        }
    }
}

/// The claims are what stands between the braces, and no braces are no claims.
pub proof fn claims_stand_between_braces(text: Seq<char>, blanks: Seq<char>, inside: Seq<char>)
    requires
        blank(blanks),
        text == seq!['{'] + blanks + inside,
        inside.len() > 0,
        inside[0] == '"' || inside == seq!['}'],
    ensures
        inside == seq!['}'] ==> members_of(text) == Some(Seq::<(Seq<char>, Seq<char>)>::empty()),
        inside[0] == '"' ==> members_of(text) == listed_members(inside),
{
    assert(text.drop_first() =~= blanks + inside);
    blanks_are_skipped(blanks, inside);
    assert(seq!['}'][0] == '}');
}

/// A token is allowed any scope that it was granted, by exact name, and no other.
pub proof fn a_grant_allows_its_scopes(
    claims: &Claims,
    scope: &ScopeId,
    named: bool,
    r: Result<(), AuthError>,
)
    requires
        call_ensures(Claims::claims_scope, (claims, scope), named),
        call_ensures(Claims::authorize, (claims, scope), r),
    ensures
        named <==> exists|i: int|
            0 <= i < claims.scopes@.len() && (#[trigger] claims.scopes@[i])@ == scope@,
        r is Ok <==> named,
        r matches Err(e) ==> (e matches AuthError::ScopeNotClaimed { requested } && requested@
            == scope@),
{
    let names = crate::auth::scope_names(claims.scopes@);
    if names.contains(scope@) {
        let i = choose|i: int| 0 <= i < names.len() && names[i] == scope@;
        assert(claims.scopes@[i]@ == scope@);
    }
    if exists|i: int| 0 <= i < claims.scopes@.len() && (#[trigger] claims.scopes@[i])@ == scope@ {
        let i = choose|i: int|
            0 <= i < claims.scopes@.len() && (#[trigger] claims.scopes@[i])@ == scope@;
        assert(names[i] == scope@);
    }
}

/// A scope is served exactly when the blocklist could be read and has no row for it; otherwise the
/// refusal names it, and whether the list was unreadable cannot be told from outside.
pub proof fn the_blocklist_fails_closed(
    rows: Result<usize, ServerError>,
    scope: &ScopeId,
    claims: Claims,
    found: Result<Standing, ServerError>,
    checked: Result<(), AuthError>,
    confirmed: Result<Claims, AuthError>,
)
    requires
        call_ensures(standing, (rows,), found),
        call_ensures(check, (scope, found), checked),
        call_ensures(confirm, (claims, scope, found), confirmed),
    ensures
        checked is Ok <==> (rows matches Ok(n) && n == 0),
        confirmed is Ok <==> (rows matches Ok(n) && n == 0),
        confirmed matches Ok(c) ==> c == claims,
        checked matches Err(e) ==> (e matches AuthError::ScopeBlocked { scope: cut } && cut@
            == scope@),
        confirmed matches Err(e) ==> (e matches AuthError::ScopeBlocked { scope: cut } && cut@
            == scope@),
        rows is Err <==> found is Err,
{
}

/// From outside, every refusal but expiry is one and the same response; expiry has a status and a
/// sentence of its own.
pub proof fn refusals_look_alike(a: &AuthError, b: &AuthError, ra: Refusal, rb: Refusal)
    requires
        call_ensures(refuse, (a,), ra),
        call_ensures(refuse, (b,), rb),
    ensures
        !(a is Expired) && !(b is Expired) ==> ra.status == rb.status && ra.error@ == rb.error@,
        a is Expired && !(b is Expired) ==> ra.status != rb.status && ra.error@ != rb.error@,
        a is Expired <==> ra.status == 401,
        ra.status == 401 || ra.status == 403,
{
    reveal_strlit("This session has expired. Please sign in again.");
    reveal_strlit("Not authorized for this scope.");
    assert("This session has expired. Please sign in again."@[0] == 'T');
    assert("Not authorized for this scope."@[0] == 'N');
}

/// A request names the scope that the rule makes of its text, and a text that is none is refused
/// without repeating it.
pub proof fn a_request_names_its_scope<R: ScopeRule>(
    rule: &R,
    text: &String,
    r: Result<ScopeId, AuthError>,
)
    requires
        call_ensures(requested_scope::<R>, (rule, text), r),
    ensures
        r is Ok <==> scope_of(rule, text@) is Ok,
        r matches Ok(s) ==> scope_of(rule, text@) == Ok::<Seq<char>, Seq<char>>(s@),
        r matches Err(e) ==> (e matches AuthError::ScopeNotClaimed { requested } && requested@
            == "<invalid>"@),
{
}

} // verus!
