//! Authentication header values handed in by a server front end.

use vstd::prelude::*;
use crate::commits::signer_pubkey;
use crate::errors::{AtomicError, AtomicResult, ErrorKind};
use crate::store::{db_wf, Db, DbV};
use crate::text::{
    dec_digits, digest_chars, digest_string, i64_to_string, int_digits, int_lit_value,
    is_int_literal, parse_i64_lenient, str_eq, u64_to_string,
};

verus! {

/// The values carried by the authentication headers of one request.
#[derive(Clone, Debug)]
pub struct AuthValues {
    pub public_key: String,
    pub signature: String,
    pub agent_subject: String,
    pub timestamp: i64,
    pub requested_subject: String,
}

/// Assembles authentication values from the four header strings. All four
/// absent means an anonymous request; all four present must carry a decimal
/// timestamp; anything partial is rejected.
pub fn auth_values_from_headers(
    public_key: Option<String>,
    signature: Option<String>,
    timestamp: Option<String>,
    agent: Option<String>,
    requested_subject: String,
) -> (r: AtomicResult<Option<AuthValues>>)
    ensures
        match (public_key, signature, timestamp, agent) {
            (Some(pk), Some(sig), Some(ts), Some(ag)) => match r {
                Ok(opt) => opt matches Some(av) && av.public_key@ == pk@ && av.signature@ == sig@
                    && av.agent_subject@ == ag@ && is_int_literal(ts@) && av.timestamp as int
                    == int_lit_value(ts@) && av.requested_subject@ == requested_subject@,
                Err(e) => e.kind == ErrorKind::ParseError && (!is_int_literal(ts@)
                    || int_lit_value(ts@) < i64::MIN || int_lit_value(ts@) > i64::MAX),
            },
            (None, None, None, None) => r matches Ok(opt) && opt is None,
            _ => r matches Err(e) && e.kind == ErrorKind::Other,
        },
{
    match (public_key, signature, timestamp, agent) {
        (Some(pk), Some(sig), Some(ts), Some(ag)) => {
            match parse_i64_lenient(&ts) {
                Some(t) => Ok(
                    Some(
                        AuthValues {
                            public_key: pk,
                            signature: sig,
                            agent_subject: ag,
                            timestamp: t,
                            requested_subject,
                        },
                    ),
                ),
                None => Err(
                    AtomicError::new(
                        ErrorKind::ParseError,
                        "timestamp must be a number (milliseconds since unix epoch)",
                    ),
                ),
            }
        },
        (None, None, None, None) => Ok(None),
        _ => Err(
            AtomicError::new(
                ErrorKind::Other,
                "missing authentication headers: public key, signature, agent and timestamp belong together",
            ),
        ),
    }
}

/// The signature the library expects on an authentication header: the
/// decimal digest of the requested subject, a space, the timestamp, and the
/// agent's stored key.
pub open spec fn auth_sig_of(requested_subject: Seq<char>, timestamp: int, key: Seq<char>) -> Seq<
    char,
> {
    dec_digits(digest_chars(requested_subject + seq![' '] + int_digits(timestamp) + key) as nat)
}

/// The authentication decision chain, in order; the first failing stage
/// names the error, and `None` means the request is authenticated.
pub open spec fn auth_check_error(d: DbV, av: AuthValuesV, now_ms: int) -> Option<ErrorKind> {
    if signer_pubkey(d, av.agent_subject) is None {
        Some(ErrorKind::Unauthorized)
    } else if !(now_ms - 10000 <= av.timestamp <= now_ms + 10000) {
        Some(ErrorKind::InvalidTimestamp)
    } else if av.signature != auth_sig_of(
        av.requested_subject,
        av.timestamp,
        signer_pubkey(d, av.agent_subject)->0,
    ) {
        Some(ErrorKind::InvalidSignature)
    } else {
        None
    }
}

/// The mathematical shape of authentication values.
pub struct AuthValuesV {
    pub public_key: Seq<char>,
    pub signature: Seq<char>,
    pub agent_subject: Seq<char>,
    pub timestamp: int,
    pub requested_subject: Seq<char>,
}

impl View for AuthValues {
    type V = AuthValuesV;

    open spec fn view(&self) -> AuthValuesV {
        AuthValuesV {
            public_key: self.public_key@,
            signature: self.signature@,
            agent_subject: self.agent_subject@,
            timestamp: self.timestamp as int,
            requested_subject: self.requested_subject@,
        }
    }
}

/// Checks authentication values against the store: the agent must have a
/// stored key, the timestamp must lie within ten seconds of `now_ms`, and
/// the signature must cover the requested subject and the timestamp under
/// that key. Fails exactly as `auth_check_error` says; on success the
/// agent's subject is returned.
pub fn check_auth_values(av: &AuthValues, store: &Db, now_ms: i64) -> (r: AtomicResult<String>)
    requires
        db_wf(store@),
    ensures
        match r {
            Ok(agent) => agent@ == av.agent_subject@ && auth_check_error(
                store@,
                av@,
                now_ms as int,
            ) is None && (signer_pubkey(store@, av.agent_subject@) matches Some(k)
                && av.signature@ == auth_sig_of(av.requested_subject@, av.timestamp as int, k))
                && now_ms - 10000 <= av.timestamp && av.timestamp <= now_ms + 10000,
            Err(e) => Some(e.kind) == auth_check_error(store@, av@, now_ms as int),
        },
{
    let key = match store.signer_pubkey_exec(&av.agent_subject) {
        Some(k) => k,
        None => {
            return Err(AtomicError::new(ErrorKind::Unauthorized, "agent has no stored key"));
        },
    };
    let lo: i64 = if now_ms < i64::MIN + 10000 {
        i64::MIN
    } else {
        now_ms - 10000
    };
    let hi: i64 = if now_ms > i64::MAX - 10000 {
        i64::MAX
    } else {
        now_ms + 10000
    };
    if !(lo <= av.timestamp && av.timestamp <= hi) {
        return Err(
            AtomicError::new(ErrorKind::InvalidTimestamp, "timestamp outside the window"),
        );
    }
    let mut signed = av.requested_subject.clone();
    signed.append(" ");
    signed.append(i64_to_string(av.timestamp).as_str());
    signed.append(key.as_str());
    proof {
        reveal_strlit(" ");
        assert(" "@ =~= seq![' ']);
        assert(signed@ =~= av.requested_subject@ + seq![' '] + int_digits(av.timestamp as int)
            + key@);
    }
    let expected = u64_to_string(digest_string(&signed));
    if !str_eq(&av.signature, &expected) {
        return Err(
            AtomicError::new(ErrorKind::InvalidSignature, "signature does not cover the request"),
        );
    }
    Ok(av.agent_subject.clone())
}

} // verus!
