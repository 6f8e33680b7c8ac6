//! Scope tokens, mostly as somebody who should not have one would present them.
use base64::Engine as _;
use credsync::auth::{
    parse_claims, read_members, Algorithm, AuthError, Claims, KeyFamily, ScopeRule,
    VerificationKey, Verifier,
};
use credsync::protocol::{ProtocolError, ScopeId};
use jsonwebtoken::{encode, EncodingKey, Header};
use serde_json::Value;

const SECRET: &[u8] = b"a-test-signing-secret-that-is-long-enough";
const OTHER_SECRET: &[u8] = b"a-completely-different-signing-secret!!!!!";

/// Scope ids are made of letters, digits and a few marks.
struct Plain;

impl ScopeRule for Plain {
    fn scope_id(&self, text: &String) -> Result<ScopeId, ProtocolError> {
        let fine = !text.is_empty()
            && text
                .chars()
                .all(|c| c.is_ascii_alphanumeric() || c == ':' || c == '-' || c == '_');
        if fine {
            Ok(ScopeId::new(text))
        } else {
            Err(ProtocolError::Invalid {
                detail: "not a scope id".to_owned(),
            })
        }
    }
}

fn scope(s: &str) -> ScopeId {
    ScopeId::new(s)
}

/// Seconds since the Unix epoch, offset by `delta`.
fn epoch(delta: i64) -> i64 {
    let now = i64::try_from(
        std::time::SystemTime::now()
            .duration_since(std::time::UNIX_EPOCH)
            .expect("after 1970")
            .as_secs(),
    )
    .expect("fits");
    now + delta
}

fn verifier_for(algorithm: Algorithm, leeway: u64) -> Verifier {
    Verifier::new(VerificationKey::from_secret(SECRET.to_vec()), algorithm, leeway)
}

fn strict() -> Verifier {
    verifier_for(Algorithm::HS256, 0)
}

fn verify(token: &str) -> Result<Claims, AuthError> {
    strict().verify(token, &Plain)
}

fn wire(alg: Algorithm) -> jsonwebtoken::Algorithm {
    match alg {
        Algorithm::HS256 => jsonwebtoken::Algorithm::HS256,
        Algorithm::HS384 => jsonwebtoken::Algorithm::HS384,
        Algorithm::HS512 => jsonwebtoken::Algorithm::HS512,
        other => panic!("no test mints {}", other.name()),
    }
}

/// Mints a token the honest way.
fn mint(alg: Algorithm, secret: &[u8], claims: &Value) -> String {
    encode(
        &Header::new(wire(alg)),
        claims,
        &EncodingKey::from_secret(secret),
    )
    .expect("encodes")
}

fn object(members: Vec<(&str, Value)>) -> Value {
    let mut map = serde_json::Map::new();
    for (name, value) in members {
        map.insert(name.to_owned(), value);
    }
    Value::Object(map)
}

fn texts(items: &[&str]) -> Value {
    Value::Array(items.iter().map(|s| Value::from(*s)).collect())
}

fn valid_claims(scopes: &[&str]) -> Value {
    object(vec![
        ("scopes", texts(scopes)),
        ("exp", Value::from(epoch(3600))),
        ("sub", Value::from("user-42")),
    ])
}

fn claims_until(scopes: &[&str], exp: i64) -> Value {
    object(vec![("scopes", texts(scopes)), ("exp", Value::from(exp))])
}

fn header(alg: &str) -> Value {
    object(vec![("alg", Value::from(alg)), ("typ", Value::from("JWT"))])
}

/// Assembles a token from raw parts, so a test can write a header no honest minter would.
fn forge(header: &Value, claims: &Value, signature: &str) -> String {
    let b64 = base64::engine::general_purpose::URL_SAFE_NO_PAD;
    format!(
        "{}.{}.{}",
        b64.encode(serde_json::to_vec(header).expect("encodes")),
        b64.encode(serde_json::to_vec(claims).expect("encodes")),
        signature
    )
}

#[test]
fn a_well_formed_token_yields_its_claims() {
    let token = mint(
        Algorithm::HS256,
        SECRET,
        &valid_claims(&["inst:acme", "inst:beta"]),
    );

    let claims = verify(&token).expect("verifies");

    assert_eq!(claims.scopes.len(), 2);
    assert!(claims.claims_scope(&scope("inst:acme")));
    assert!(claims.claims_scope(&scope("inst:beta")));
    assert_eq!(claims.subject.as_deref(), Some("user-42"));
    claims.authorize(&scope("inst:acme")).expect("authorized");
}

#[test]
fn a_scope_outside_the_claims_is_refused() {
    let token = mint(Algorithm::HS256, SECRET, &valid_claims(&["inst:acme"]));
    let claims = verify(&token).expect("verifies");

    let err = claims
        .authorize(&scope("inst:someone-else"))
        .expect_err("a scope outside the claims must be refused");
    assert!(matches!(err, AuthError::ScopeNotClaimed { .. }), "{err:?}");
}

/// Scope matching is exact: no prefixes, no wildcards, no hierarchy.
#[test]
fn scope_matching_has_no_prefix_or_wildcard_semantics() {
    let token = mint(Algorithm::HS256, SECRET, &valid_claims(&["inst:acme"]));
    let claims = verify(&token).expect("verifies");

    for neighbour in [
        "inst:acme-corp",
        "inst:acm",
        "inst:acme:sub",
        "INST:ACME",
        "inst:acme ",
    ] {
        assert!(
            claims.authorize(&scope(neighbour)).is_err(),
            "a token for 'inst:acme' reached '{neighbour}'"
        );
    }
}

#[test]
fn an_expired_token_is_refused() {
    let token = mint(
        Algorithm::HS256,
        SECRET,
        &claims_until(&["inst:acme"], epoch(-60)),
    );

    let err = verify(&token).expect_err("expired");
    assert_eq!(err, AuthError::Expired);
    assert!(
        err.is_expired(),
        "a client must be able to tell it needs a fresh token"
    );
}

/// A token with no expiry at all is malformed, not eternal.
#[test]
fn a_token_without_an_expiry_is_refused() {
    let token = mint(
        Algorithm::HS256,
        SECRET,
        &object(vec![("scopes", texts(&["inst:acme"]))]),
    );

    let err = verify(&token).expect_err("no exp");
    assert!(
        !matches!(err, AuthError::Expired),
        "a missing exp must not be reported as expiry: {err:?}"
    );
}

#[test]
fn an_unsigned_token_is_refused() {
    let token = forge(&header("none"), &valid_claims(&["inst:acme"]), "");

    let err = verify(&token).expect_err("alg none");
    assert!(
        matches!(
            err,
            AuthError::WrongAlgorithm { .. } | AuthError::Malformed { .. }
        ),
        "an unsigned token was not refused as such: {err:?}"
    );
}

/// Unsigned, with a signature attached anyway, in case emptiness was doing the work.
#[test]
fn an_unsigned_token_with_a_junk_signature_is_refused() {
    let token = forge(
        &header("none"),
        &valid_claims(&["inst:acme"]),
        "bm90LWEtc2lnbmF0dXJl",
    );

    assert!(
        verify(&token).is_err(),
        "an unsigned token with a decorative signature was accepted"
    );
}

#[test]
fn a_token_signed_with_the_wrong_key_is_refused() {
    let token = mint(
        Algorithm::HS256,
        OTHER_SECRET,
        &valid_claims(&["inst:acme"]),
    );

    let err = verify(&token).expect_err("wrong key");
    assert_eq!(err, AuthError::BadSignature);
}

/// A correctly signed token whose algorithm is not the pinned one.
#[test]
fn a_token_signed_with_a_different_algorithm_is_refused() {
    let token = mint(Algorithm::HS512, SECRET, &valid_claims(&["inst:acme"]));

    let err = verify(&token).expect_err("wrong algorithm");
    assert!(matches!(err, AuthError::WrongAlgorithm { .. }), "{err:?}");
}

/// A valid token relabelled as something else.
#[test]
fn a_token_whose_header_algorithm_was_swapped_is_refused() {
    let claims = valid_claims(&["inst:acme"]);
    let genuine = mint(Algorithm::HS256, SECRET, &claims);
    let signature = genuine.rsplit('.').next().expect("three parts");

    for alg in [
        "HS384", "HS512", "RS256", "ES256", "EdDSA", "none", "NONE", "hs256",
    ] {
        let forged = forge(&header(alg), &claims, signature);
        assert!(
            verify(&forged).is_err(),
            "a token relabelled as '{alg}' was accepted"
        );
    }
}

/// A key id must not influence anything.
#[test]
fn a_kid_header_does_not_change_the_outcome() {
    let claims = valid_claims(&["inst:acme"]);

    let mut header = Header::new(jsonwebtoken::Algorithm::HS256);
    header.kid = Some("../../etc/passwd".to_owned());
    let with_kid = encode(&header, &claims, &EncodingKey::from_secret(SECRET)).expect("encodes");
    assert!(
        verify(&with_kid).is_ok(),
        "a legitimate token was refused merely for carrying a kid"
    );

    let mut header = Header::new(jsonwebtoken::Algorithm::HS256);
    header.kid = Some("any-key-you-like".to_owned());
    let wrong_key =
        encode(&header, &claims, &EncodingKey::from_secret(OTHER_SECRET)).expect("encodes");
    assert_eq!(
        verify(&wrong_key).expect_err("wrong key"),
        AuthError::BadSignature,
        "a kid header let a token signed with the wrong key through"
    );
}

/// Editing the claims invalidates the signature, including editing the scope list.
#[test]
fn adding_a_scope_to_a_valid_token_invalidates_it() {
    let genuine = mint(Algorithm::HS256, SECRET, &valid_claims(&["inst:acme"]));
    let mut parts = genuine.split('.');
    let header = parts.next().expect("header");
    let signature = parts.nth(1).expect("signature");

    let b64 = base64::engine::general_purpose::URL_SAFE_NO_PAD;
    let greedy = b64
        .encode(serde_json::to_vec(&valid_claims(&["inst:acme", "inst:victim"])).expect("encodes"));
    let forged = format!("{header}.{greedy}.{signature}");

    assert_eq!(
        verify(&forged).expect_err("tampered"),
        AuthError::BadSignature,
        "a scope was added to a token without invalidating it"
    );
}

#[test]
fn a_token_claiming_no_scopes_is_refused() {
    let token = mint(Algorithm::HS256, SECRET, &claims_until(&[], epoch(3600)));

    assert_eq!(verify(&token).expect_err("no scopes"), AuthError::NoScopes);
}

/// A claimed scope that is not a valid scope id never becomes one.
#[test]
fn a_claimed_scope_that_is_not_a_valid_scope_id_is_refused() {
    for bad in [
        "inst:acme; DROP TABLE sync_changes",
        "inst:acme\0",
        "inst:\u{1F600}",
        "",
    ] {
        let token = mint(
            Algorithm::HS256,
            SECRET,
            &claims_until(&[bad], epoch(3600)),
        );
        let err = verify(&token).expect_err("invalid scope claim");
        assert!(
            matches!(err, AuthError::Malformed { .. }),
            "claimed scope {bad:?} was not refused as malformed: {err:?}"
        );
    }
}

#[test]
fn structurally_broken_tokens_are_refused_without_panicking() {
    let genuine = mint(Algorithm::HS256, SECRET, &valid_claims(&["inst:acme"]));

    let mut cases: Vec<String> = vec![
        String::new(),
        ".".to_owned(),
        "..".to_owned(),
        "not-a-token".to_owned(),
        "a.b.c".to_owned(),
        format!("{genuine}."),
        format!(".{genuine}"),
        format!("{genuine}.{genuine}"),
        genuine.replace('.', ""),
        "Bearer ".to_owned() + &genuine,
    ];
    for cut in 1..genuine.len() {
        cases.push(genuine[..cut].to_owned());
    }

    for case in cases {
        assert!(
            verify(&case).is_err(),
            "a malformed token was accepted: {case:?}"
        );
    }
}

/// The client message must not distinguish the failures.
#[test]
fn the_client_message_is_not_an_oracle() {
    let refusals = [
        AuthError::BadSignature,
        AuthError::WrongAlgorithm {
            found: "none".to_owned(),
        },
        AuthError::NoScopes,
        AuthError::ScopeNotClaimed {
            requested: "inst:victim".to_owned(),
        },
        AuthError::ScopeBlocked {
            scope: "inst:victim".to_owned(),
        },
        AuthError::Malformed {
            detail: "whatever".to_owned(),
        },
    ];

    let first = refusals[0].client_message();
    for r in &refusals {
        assert_eq!(
            r.client_message(),
            first,
            "{r:?} is distinguishable from the others by its client message"
        );
    }

    // Expiry is the deliberate exception: every honest client hits it.
    assert_ne!(AuthError::Expired.client_message(), first);

    // And no message leaks the scope that was asked for.
    for r in &refusals {
        assert!(
            !r.client_message().contains("inst:"),
            "{r:?} leaks a scope name to the client"
        );
    }
}

/// The operator's log, by contrast, must distinguish them.
#[test]
fn the_operator_message_does_distinguish_the_failures() {
    let refusals = [
        AuthError::BadSignature,
        AuthError::NoScopes,
        AuthError::ScopeNotClaimed {
            requested: "inst:victim".to_owned(),
        },
        AuthError::ScopeBlocked {
            scope: "inst:victim".to_owned(),
        },
        AuthError::Expired,
    ];

    let rendered: Vec<String> = refusals.iter().map(|r| r.message()).collect();
    let mut unique = rendered.clone();
    unique.sort();
    unique.dedup();
    assert_eq!(
        unique.len(),
        rendered.len(),
        "two refusals render identically for the operator: {rendered:?}"
    );
}

/// The signing key must never appear in a rendering.
#[test]
fn the_verifier_does_not_print_its_key() {
    let rendered = strict().describe();
    assert!(
        !rendered.contains("secret") && !rendered.contains("a-test-signing"),
        "the verifier printed something key-shaped: {rendered}"
    );
}

/// Leeway is honoured, and is not infinite.
#[test]
fn leeway_covers_small_skew_but_not_a_stale_token() {
    let just_expired = mint(
        Algorithm::HS256,
        SECRET,
        &claims_until(&["inst:acme"], epoch(-30)),
    );

    let no_leeway = verifier_for(Algorithm::HS256, 0);
    assert_eq!(
        no_leeway.verify(&just_expired, &Plain).expect_err("no leeway"),
        AuthError::Expired
    );

    let tolerant = verifier_for(Algorithm::HS256, 120);
    assert!(
        tolerant.verify(&just_expired, &Plain).is_ok(),
        "120s of leeway should cover 30s of skew"
    );

    let long_gone = mint(
        Algorithm::HS256,
        SECRET,
        &claims_until(&["inst:acme"], epoch(-86_400)),
    );
    assert_eq!(
        tolerant
            .verify(&long_gone, &Plain)
            .expect_err("a day is not skew"),
        AuthError::Expired,
        "leeway must not become an unbounded grace period"
    );
}

/// Mints a token whose claims are this JSON text, to the letter.
fn mint_text(json: String) -> String {
    let claims = serde_json::value::RawValue::from_string(json).expect("well formed");
    encode(
        &Header::new(jsonwebtoken::Algorithm::HS256),
        &claims,
        &EncodingKey::from_secret(SECRET),
    )
    .expect("encodes")
}

/// Claims that nobody reads are ignored, whatever they hold, and however often they come.
#[test]
fn unknown_claims_do_not_matter() {
    let token = mint_text(format!(
        "{{\"weight\": 1e999, \"scopes\": [\"inst:acme\"], \"exp\": {}, \"nested\": \
         {{\"a\": [], \"scopes\": [\"inst:other\"]}}, \"weight\": \"}},{{\"}}",
        epoch(3600)
    ));
    let granted = verify(&token).expect("verifies");
    assert_eq!(granted.scopes, vec![scope("inst:acme")]);
    assert_eq!(granted.subject, None);
}

/// A claim that comes twice is refused, and no value of it counts.
#[test]
fn a_repeated_claim_is_refused() {
    let exp = epoch(3600);
    for (text, name) in [
        (
            format!("{{\"scopes\":[\"a\"],\"exp\":{exp},\"scopes\":[\"b\"]}}"),
            "scopes",
        ),
        (
            format!("{{\"scopes\":[\"a\"],\"exp\":{exp},\"scopes\":[\"a\"]}}"),
            "scopes",
        ),
        (
            format!("{{\"scopes\":[\"a\"],\"exp\":{exp},\"\\u0073copes\":[\"b\"]}}"),
            "scopes",
        ),
    ] {
        assert_eq!(
            verify(&mint_text(text)).expect_err("repeated"),
            AuthError::Malformed {
                detail: format!("duplicate field `{name}`")
            }
        );
    }
    for text in [
        format!("{{\"scopes\":[\"a\"],\"exp\":{exp},\"exp\":{exp}}}"),
        format!("{{\"sub\":\"x\",\"scopes\":[\"a\"],\"exp\":{exp},\"sub\":\"y\"}}"),
    ] {
        assert!(matches!(
            verify(&mint_text(text)).expect_err("repeated"),
            AuthError::Malformed { .. }
        ));
    }
}

/// Blanks between the parts of the claims, and names written with escapes, change nothing.
#[test]
fn the_form_of_the_claims_does_not_matter() {
    let exp = epoch(3600);
    let token = mint_text(format!(
        "{{ \n\t\"\\u0073copes\" :\r [ \"inst:acme\" ] , \"exp\": {exp} \n, \"sub\" : null }}"
    ));
    let granted = verify(&token).expect("verifies");
    assert_eq!(granted.scopes, vec![scope("inst:acme")]);
    assert_eq!(granted.subject, None);
    assert_eq!(granted.expires_at, exp);
}

/// The members of an object come out in order, each as it was written.
#[test]
fn claims_are_taken_apart_as_they_were_written() {
    let pair = |name: &str, value: &str| (name.to_owned(), value.to_owned());
    assert_eq!(
        read_members("{\"a\": [1, {\"b\": 2}], \"c\":\"}\" ,\"a\":-7}"),
        Some(vec![
            pair("a", "[1, {\"b\": 2}]"),
            pair("c", "\"}\""),
            pair("a", "-7"),
        ])
    );
    assert_eq!(read_members("{ }"), Some(vec![]));
    for other in ["", "[]", "7", "{", "{\"a\"}", "{\"a\":1,}", "{1:2}", "{\"a\":1 \"b\":2}"] {
        assert_eq!(read_members(other), None, "{other}");
    }
}

/// Claims that lack something say what they lack.
#[test]
fn claims_that_lack_something_are_malformed() {
    for (text, detail) in [
        ("{}", "missing field `scopes`"),
        ("{\"scopes\":[]}", "missing field `exp`"),
        ("{\"scopes\":7,\"exp\":1}", "unreadable field `scopes`"),
        ("{\"scopes\":[],\"exp\":\"x\"}", "unreadable field `exp`"),
        ("{\"scopes\":[],\"exp\":1,\"sub\":3}", "unreadable field `sub`"),
        ("{\"exp\":1,\"exp\":1}", "duplicate field `exp`"),
        ("{\"sub\":null,\"sub\":null}", "duplicate field `sub`"),
        ("[]", "the claims are not an object"),
    ] {
        assert_eq!(
            parse_claims(text).expect_err("malformed"),
            AuthError::Malformed {
                detail: detail.to_owned()
            }
        );
    }
    let claims = parse_claims("{\"exp\":5,\"scopes\":[\"a\",\"b\"],\"sub\":\"me\"}").expect("reads");
    assert_eq!(claims.scopes, vec!["a".to_owned(), "b".to_owned()]);
    assert_eq!(claims.exp, 5);
    assert_eq!(claims.sub.as_deref(), Some("me"));
}

/// An expiry that is no point in time is not an expired one, and an expiry of another form is
/// malformed.
#[test]
fn an_expiry_has_to_be_a_point_in_time() {
    let negative = mint(Algorithm::HS256, SECRET, &claims_until(&["inst:acme"], -5));
    assert_eq!(
        verify(&negative).expect_err("negative"),
        AuthError::Malformed {
            detail: "MissingRequiredClaim(\"exp\")".to_owned()
        }
    );
    let text = mint(
        Algorithm::HS256,
        SECRET,
        &object(vec![
            ("scopes", texts(&["inst:acme"])),
            ("exp", Value::from("tomorrow")),
        ]),
    );
    assert!(matches!(
        verify(&text).expect_err("text"),
        AuthError::Malformed { .. }
    ));
    let zero = mint(Algorithm::HS256, SECRET, &claims_until(&["inst:acme"], 0));
    assert_eq!(verify(&zero).expect_err("long ago"), AuthError::Expired);
}

/// A throwaway key pair for the test below, in DER. It signs nothing real.
const RSA_PUBLIC: &str =
    "3082010a0282010100c491a97a8d6f721d2bfdbb088f29e1871d8fd7483b73389bdb3ca3995e679d\
     c530e458c1a3ceb17bd99bcd1a5b42255021e48b934a8d37383e6872906032821bdf53576414cc87\
     2e135cd7aebc5080edad2f0788fdf7e659606178eeca166cb00f245109da2050ff7c313cbefb9508\
     4bb67c11046309e3056e3a4f653b636e79270e7b92da9604021bafea7651df3da105488fc813f6d7\
     07b541bc5f5cbac8b5ee48aec59c64c1813acd1346e3f8eb4bd29c12b48f2c2ad52263137901272a\
     89257f851d2f3ce9d363d90cbdd370a1038befc678e22be05ac0fa826216ee5bb50bd07bbdfed743\
     708bec960789eec74e7cddda8a703cfdd63f6cd422ad4e10330203010001";
const RSA_PRIVATE: &str =
    "308204a40201000282010100c491a97a8d6f721d2bfdbb088f29e1871d8fd7483b73389bdb3ca399\
     5e679dc530e458c1a3ceb17bd99bcd1a5b42255021e48b934a8d37383e6872906032821bdf535764\
     14cc872e135cd7aebc5080edad2f0788fdf7e659606178eeca166cb00f245109da2050ff7c313cbe\
     fb95084bb67c11046309e3056e3a4f653b636e79270e7b92da9604021bafea7651df3da105488fc8\
     13f6d707b541bc5f5cbac8b5ee48aec59c64c1813acd1346e3f8eb4bd29c12b48f2c2ad522631379\
     01272a89257f851d2f3ce9d363d90cbdd370a1038befc678e22be05ac0fa826216ee5bb50bd07bbd\
     fed743708bec960789eec74e7cddda8a703cfdd63f6cd422ad4e103302030100010282010018365a\
     fa59fe8ebf52225c4de718810b9c14122ff706afc3dee2dec1eef373670d292b579abe44755d6e07\
     fb059fa5a9f3aacb987677e383dd880f088298e616d9d0d1b465ad75bf32aa5e74cb045d85292e60\
     4ebafdb49570be40dfa4ebd3327283062a61005709c939e5621eea120e0569cdcccd08343b008355\
     314279f26ae96e519f84b4b4a7a9fb68b32ca9d1c47ed0a9c0fc25b69eccc373fdcb7229764e3491\
     a0eaebecce18ea045ea4817f2903d8bf770daa6bbe30c263f3d23b8e343a808340736c4e1b581664\
     baba3980e4a1d87c48c27c3348dd9f2ae56eab3b576ecbcb0663b9b2b6e7a775b78ab150fc08e426\
     1999fa4433c6de61a3f7b5626d02818100f51757a2c8f15b50e3adcd6585e56384b86a63d62f6148\
     a05a62766c81340ebf40c46016bb728f29a3a732eee57cc27f915e814ca825ad6a2b96e38401e90a\
     97f5b0ec0a1d05f247837a3f03c697e91157c70d2467effc838c4f22dcad2e9911dc5995e9a7c405\
     cba6cef39e4955f1a6ba89eec424949f69657efd2e5847b6d702818100cd5170b81a021ac44202e2\
     7d62944f780ace33c1e216a658a8ecba26d213c978da4c8bc72322a16623b9eef95a0cfc4e01ba48\
     a5c912d849697bd224f8eb7fe53d8bfa424922010613268910acb3d542966ec5e16246be3627ffca\
     a096b65b707d0acb90ccda5dbbe819dd5d650a0f0f520f333714365f47b29dc3da34aab205028181\
     008b13bcda15d6c7efa5d3295bb3d85059aee04858f137ee237846a956b716984bb4effa6acbe19d\
     158ed54114c94abb7ff238c37c816a27f6b8577e319977e95803c66a9aee8f42458c79212afe5593\
     9f10c55652d35c1e597394307f3312df2f806fa19f1e6120bcc8a26521ec1185f80ba05bca17cbf2\
     8db7579149ec347daf02818100a651ffae931afb55da677dd3b664900f9d2936d22b74cfa1e88d83\
     aa68e9307edecfbd373ea611faac9c3512f738a7b6053e431551521bb53466e26fa2d91accb7d3c9\
     91a2ae9207bac1afacbb4a1e4a87940a662e7742249ab8620b3eab505d4a5dd153662eca59aa8631\
     4533d1372be0fc812f70072f9de3fa5b2a4b19af850281804aebe727a76837166512be759ee36cf8\
     2fbd579020772f0977df513665c12b0fe345450dd745a2940807585f3dbe020d4b17ffa6f41617b8\
     c1b8cbaf24f4906f54944afb3b6c52760ee8374bce2808c4f49935a360a0401fe845e036d02f9806\
     2854dc0df0249b1937e61f3297c97583c3b4251c723068a40a8491f19ad8afec";

fn bytes(hex: &str) -> Vec<u8> {
    (0..hex.len() / 2)
        .map(|i| u8::from_str_radix(&hex[2 * i..2 * i + 2], 16).expect("hexadecimal"))
        .collect()
}

/// The server verifies with a public key, which is public. A token relabelled as one signed with
/// a shared secret, and signed with those public bytes, must be refused by the pin.
#[test]
fn an_hs256_token_signed_with_the_rsa_public_key_is_refused() {
    let public = bytes(RSA_PUBLIC);
    let rs256 = Verifier::new(
        VerificationKey {
            family: KeyFamily::Rsa,
            bytes: public.clone(),
        },
        Algorithm::RS256,
        0,
    );

    // A legitimate token verifies, so the test is not vacuous.
    let honest = encode(
        &Header::new(jsonwebtoken::Algorithm::RS256),
        &valid_claims(&["inst:acme"]),
        &EncodingKey::from_rsa_der(&bytes(RSA_PRIVATE)),
    )
    .expect("encodes");
    rs256
        .verify(&honest, &Plain)
        .expect("a genuine RS256 token must verify");

    let forged = mint(
        Algorithm::HS256,
        &public,
        &valid_claims(&["inst:acme", "inst:victim"]),
    );

    let err = rs256
        .verify(&forged, &Plain)
        .expect_err("RS256 -> HS256 algorithm confusion was not refused");
    assert!(
        matches!(err, AuthError::WrongAlgorithm { .. }),
        "the confusion was refused, but not by the algorithm pin: {err:?}"
    );
}

/// The pin holds for every algorithm of the family, not just the ones a test remembered.
#[test]
fn a_pinned_verifier_refuses_every_other_hmac_algorithm() {
    for pinned in [Algorithm::HS256, Algorithm::HS384, Algorithm::HS512] {
        let pinned_to = verifier_for(pinned, 0);

        for signed_with in [Algorithm::HS256, Algorithm::HS384, Algorithm::HS512] {
            let token = mint(signed_with, SECRET, &valid_claims(&["inst:acme"]));
            let result = pinned_to.verify(&token, &Plain);

            if signed_with == pinned {
                assert!(
                    result.is_ok(),
                    "a {pinned:?} verifier refused a genuine {signed_with:?} token"
                );
            } else {
                let err = result.expect_err("mismatched algorithm");
                assert!(
                    matches!(err, AuthError::WrongAlgorithm { .. }),
                    "a {pinned:?} verifier accepted a {signed_with:?} token, or refused it for \
                     the wrong reason: {err:?}"
                );
            }
        }
    }
}
