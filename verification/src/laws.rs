//! The store's laws, stated and proved once for every input. The triple
//! lookup's own contract carries the exactness laws (what it returns is in
//! the index and nothing else); the commit pipeline's contract carries the
//! state-change laws. The proofs here bridge the two.

use vstd::prelude::*;
use crate::commits::{apply_error, sig_of, signer_pubkey, CommitOpts, CommitV};
use crate::errors::ErrorKind;
use crate::resources::pv_find;
use crate::store::{db_wf, has_atom, res_find, subject_internal, tpf_match, DbV};
use crate::values::ValueV;

verus! {

/// Every atom held by a stored resource stands in the index and matches the
/// triple pattern that names its property and value; by the lookup's
/// contract, a lookup with those patterns and `include_external` set
/// returns it.
pub proof fn lemma_stored_atom_is_found(d: DbV, s: Seq<char>, p: Seq<char>, vs: Seq<char>)
    requires
        db_wf(d),
        res_find(d.resources, s) matches Some(rv) && has_atom(rv, p, vs),
    ensures
        d.index.contains((p, vs, s)),
        tpf_match((p, vs, s), None, Some(p), Some(vs), true, d.server_url),
{
    let w = crate::store::lemma_res_find_witness(d.resources, s);
    assert(has_atom(d.resources[w], p, vs));
}

/// An atom whose subject is not under this server never matches a pattern
/// that excludes external atoms; by the lookup's contract, such an atom is
/// not returned.
pub proof fn lemma_external_atom_is_filtered(
    t: (Seq<char>, Seq<char>, Seq<char>),
    qs: Option<Seq<char>>,
    qp: Option<Seq<char>>,
    qv: Option<Seq<char>>,
    server: Seq<char>,
)
    requires
        !subject_internal(server, t.2),
    ensures
        !tpf_match(t, qs, qp, qv, false, server),
{
}

/// Monotonicity: once a commit with some time is recorded for a target, a
/// second commit for the same target with the same (or an earlier) time
/// does not apply, when timestamps are validated.
pub proof fn lemma_stale_timestamp_rejected(d: DbV, c: CommitV, o: CommitOpts)
    requires
        o.validate_timestamp,
        pv_find(d.last_created, c.subject) matches Some(v) && v matches ValueV::Timestamp(t)
            && c.created_at <= t,
    ensures
        apply_error(d, c, o) is Some,
{
}

/// Tampering: when signatures are validated and the signer's stored key is
/// known, a commit whose signature is not the one over its own canonical
/// form fails with `InvalidSignature`. A payload change changes the
/// canonical form, so a signature over the old form verifies only if the
/// two forms digest alike.
pub proof fn lemma_tampered_payload_rejected(d: DbV, c: CommitV, o: CommitOpts, key: Seq<char>)
    requires
        o.validate_signature,
        c.subject.len() > 0,
        c.signer.len() > 0,
        !(c.previous_commit matches Some(p) && p.len() == 0),
        c.subject != crate::commits::commit_stored_subject(c, d.server_url),
        c.created_at >= 0,
        signer_pubkey(d, c.signer) == Some(key),
        c.signature != Some(sig_of(c, key)),
    ensures
        apply_error(d, c, o) == Some(ErrorKind::InvalidSignature),
{
}

} // verus!
