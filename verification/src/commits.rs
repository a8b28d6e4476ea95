//! The commit pipeline: signed, ordered patches are the only way to mutate
//! state. `Commit::apply` validates, mutates, persists and appends the commit
//! itself as a resource.

use vstd::prelude::*;
use crate::errors::{AtomicError, AtomicResult, ErrorKind};
use crate::resources::{
    pv_find, pv_values_valid, rv_wf, PropVal, Resource, ResourceV,
};
use crate::store::{db_wf, has_atom, res_find, Agent, Db, DbV};
use crate::text::{
    arr_enc, dec_digits, digest_chars, digest_string, encode_net, i64_to_string, int_digits,
    lemma_dec_digits, net_enc, push_char, str_eq, u64_to_string,
};
use crate::urls;
use crate::values::{value_dt, value_string, value_valid, Value, ValueV};

verus! {

/// Which validations `apply` performs.
#[derive(Clone, Copy, Debug)]
pub struct CommitOpts {
    pub validate_signature: bool,
    pub validate_timestamp: bool,
    pub validate_rights: bool,
    pub validate_previous_commit: bool,
}

/// The validations the local save path runs: everything but rights, which
/// the embedding server enforces at its edge.
pub open spec fn save_opts() -> CommitOpts {
    CommitOpts {
        validate_signature: true,
        validate_timestamp: true,
        validate_rights: false,
        validate_previous_commit: true,
    }
}

/// The commit time the local save path stamps: the ticked clock, floored at
/// zero.
pub open spec fn save_commit_time(clock: int) -> int {
    let t = if clock < i64::MAX {
        clock + 1
    } else {
        clock
    };
    if t < 0 {
        0
    } else {
        t
    }
}

/// The store as the save path hands it to `apply`: the clock ticked once.
pub open spec fn save_mid_view(d: DbV) -> DbV {
    DbV {
        clock: if d.clock < i64::MAX {
            d.clock + 1
        } else {
            d.clock
        },
        ..d
    }
}

/// One signed patch of one target subject.
#[derive(Clone, Debug)]
pub struct Commit {
    /// The target subject this commit mutates.
    pub subject: String,
    /// Milliseconds since the epoch at signing time.
    pub created_at: i64,
    /// The agent that signed this commit.
    pub signer: String,
    /// Property values to set, applied after `remove`.
    pub set: Vec<PropVal>,
    /// Property URLs to remove, applied first.
    pub remove: Vec<String>,
    /// Whether the target is destroyed altogether.
    pub destroy: bool,
    /// The commit previously applied to the target, for optimistic locking.
    pub previous_commit: Option<String>,
    /// The signature over the canonical form, absent until signed.
    pub signature: Option<String>,
}

/// The mathematical shape of a commit.
pub struct CommitV {
    pub subject: Seq<char>,
    pub created_at: int,
    pub signer: Seq<char>,
    pub set: Seq<(Seq<char>, ValueV)>,
    pub remove: Seq<Seq<char>>,
    pub destroy: bool,
    pub previous_commit: Option<Seq<char>>,
    pub signature: Option<Seq<char>>,
}

impl View for Commit {
    type V = CommitV;

    open spec fn view(&self) -> CommitV {
        CommitV {
            subject: self.subject@,
            created_at: self.created_at as int,
            signer: self.signer@,
            set: self.set.deep_view(),
            remove: self.remove.deep_view(),
            destroy: self.destroy,
            previous_commit: match self.previous_commit {
                Some(p) => Some(p@),
                None => None,
            },
            signature: match self.signature {
                Some(s) => Some(s@),
                None => None,
            },
        }
    }
}

/// The canonical byte-for-byte form that is signed: every field but the
/// signature, each framed with its length, with keys in the order the commit
/// carries them (builders keep them sorted).
pub open spec fn commit_signing_text(c: CommitV) -> Seq<char> {
    net_enc(c.subject) + net_enc(c.signer) + net_enc(int_digits(c.created_at)) + net_enc(
        if c.destroy {
            seq!['1']
        } else {
            seq!['0']
        },
    ) + net_enc(
        match c.previous_commit {
            Some(p) => p,
            None => Seq::<char>::empty(),
        },
    ) + net_enc(arr_enc(c.remove)) + arr_enc(crate::serialize::flat_pvs(c.set))
}

/// The signature the library expects: the decimal digest of the canonical
/// form followed by the signer's key.
pub open spec fn sig_of(c: CommitV, key: Seq<char>) -> Seq<char> {
    dec_digits(digest_chars(commit_signing_text(c) + key) as nat)
}

/// The content-addressed subject under which an applied commit is stored.
pub open spec fn commit_stored_subject(c: CommitV, server: Seq<char>) -> Seq<char> {
    server + "/commits/"@ + dec_digits(digest_chars(commit_signing_text(c)) as nat)
}

/// The signer's public key as stored: the `publicKey` string property of the
/// signer's resource.
pub open spec fn signer_pubkey(d: DbV, signer: Seq<char>) -> Option<Seq<char>> {
    match res_find(d.resources, signer) {
        Some(rv) => match pv_find(rv.propvals, urls::PUBLIC_KEY@) {
            Some(ValueV::Str(k)) => Some(k),
            _ => None,
        },
        None => None,
    }
}

/// Strict monotonicity: the commit must be newer than the last one applied
/// to the same target.
pub open spec fn ts_monotonic(d: DbV, c: CommitV) -> bool {
    match pv_find(d.last_created, c.subject) {
        Some(ValueV::Timestamp(t)) => c.created_at > t,
        _ => true,
    }
}

/// The `previous_commit` must equal the last commit stored for the target.
pub open spec fn prev_ok(d: DbV, c: CommitV) -> bool {
    match pv_find(d.last_commit, c.subject) {
        Some(ValueV::AtomicUrl(u)) => c.previous_commit == Some(u),
        _ => c.previous_commit is None,
    }
}

/// Whether the value is a member list holding `x`.
pub open spec fn list_holds(v: Option<ValueV>, x: Seq<char>) -> bool {
    match v {
        Some(ValueV::ResourceArray(a)) => a.contains(x) || a.contains(urls::PUBLIC_AGENT@),
        _ => false,
    }
}

/// The write-permission walk: the agent stands in the `write` list of the
/// subject or of an ancestor along `parent`, within the depth bound.
pub open spec fn write_allowed_fuel(d: DbV, agent: Seq<char>, subject: Seq<char>, fuel: nat) -> bool
    decreases fuel,
{
    if fuel == 0 {
        false
    } else {
        match res_find(d.resources, subject) {
            Some(rv) => {
                if list_holds(pv_find(rv.propvals, urls::WRITE@), agent) {
                    true
                } else {
                    match pv_find(rv.propvals, urls::PARENT@) {
                        Some(ValueV::AtomicUrl(p)) => write_allowed_fuel(
                            d,
                            agent,
                            p,
                            (fuel - 1) as nat,
                        ),
                        _ => false,
                    }
                }
            },
            None => false,
        }
    }
}

/// Write permission for a commit: on the target if it exists, else on the
/// parent the commit itself declares.
pub open spec fn write_allowed(d: DbV, c: CommitV) -> bool {
    if res_find(d.resources, c.subject) is Some {
        write_allowed_fuel(d, c.signer, c.subject, 64)
    } else {
        match crate::resources::pv_find(c.set, urls::PARENT@) {
            Some(ValueV::AtomicUrl(p)) => write_allowed_fuel(d, c.signer, p, 64),
            _ => false,
        }
    }
}

/// The value the set list leaves under `k`: the last entry wins.
pub open spec fn set_find(set: Seq<(Seq<char>, ValueV)>, k: Seq<char>) -> Option<ValueV>
    decreases set.len(),
{
    if set.len() == 0 {
        None
    } else if set.last().0 == k {
        Some(set.last().1)
    } else {
        set_find(set.drop_last(), k)
    }
}

/// What the target's propvals hold under `k` once the commit is applied:
/// set wins over remove wins over the stored value.
pub open spec fn apply_find(d: DbV, c: CommitV, k: Seq<char>) -> Option<ValueV> {
    match set_find(c.set, k) {
        Some(v) => Some(v),
        None => if c.remove.contains(k) {
            None
        } else {
            match res_find(d.resources, c.subject) {
                Some(rv) => pv_find(rv.propvals, k),
                None => None,
            }
        },
    }
}

/// The full validation chain, in order; the first failing stage names the
/// error, and `None` means the commit applies.
pub open spec fn apply_error(d: DbV, c: CommitV, o: CommitOpts) -> Option<ErrorKind> {
    if c.subject.len() == 0 || c.signer.len() == 0 || (c.previous_commit matches Some(p) && p.len()
        == 0) {
        Some(ErrorKind::ParseError)
    } else if c.subject == commit_stored_subject(c, d.server_url) {
        // a commit may not target the slot it will itself be stored under
        Some(ErrorKind::ParseError)
    } else if c.created_at < 0 {
        Some(ErrorKind::InvalidTimestamp)
    } else if o.validate_signature && signer_pubkey(d, c.signer) is None {
        Some(ErrorKind::NotFound)
    } else if o.validate_signature && c.signature != Some(
        sig_of(c, signer_pubkey(d, c.signer)->0),
    ) {
        Some(ErrorKind::InvalidSignature)
    } else if o.validate_timestamp && c.created_at > d.clock + 10000 {
        Some(ErrorKind::InvalidTimestamp)
    } else if o.validate_timestamp && !ts_monotonic(d, c) {
        Some(ErrorKind::InvalidTimestamp)
    } else if o.validate_previous_commit && !prev_ok(d, c) {
        Some(ErrorKind::PreviousCommitMismatch)
    } else if o.validate_rights && !write_allowed(d, c) {
        Some(ErrorKind::Unauthorized)
    } else if !pv_values_valid(c.set) {
        Some(ErrorKind::SchemaViolation)
    } else if c.destroy && res_find(d.resources, c.subject) is None {
        Some(ErrorKind::NotFound)
    } else {
        None
    }
}

/// The validation chain never reports the catch-all kind.
pub proof fn lemma_apply_error_kinds(d: DbV, c: CommitV, o: CommitOpts)
    ensures
        apply_error(d, c, o) matches Some(k) ==> k != ErrorKind::Other,
{
}

impl Commit {
    /// The canonical text that is signed.
    pub fn signing_text(&self) -> (out: String)
        ensures
            out@ == commit_signing_text(self@),
    {
        let mut out = String::new();
        encode_net(&mut out, &self.subject);
        encode_net(&mut out, &self.signer);
        encode_net(&mut out, &i64_to_string(self.created_at));
        let mut flag = String::new();
        if self.destroy {
            push_char(&mut flag, '1');
        } else {
            push_char(&mut flag, '0');
        }
        proof {
            if self.destroy {
                assert(flag@ =~= seq!['1']);
            } else {
                assert(flag@ =~= seq!['0']);
            }
        }
        encode_net(&mut out, &flag);
        let prev = match &self.previous_commit {
            Some(p) => p.clone(),
            None => String::new(),
        };
        proof {
            match self@.previous_commit {
                Some(p) => {
                    assert(prev@ == p);
                },
                None => {
                    assert(prev@ =~= Seq::<char>::empty());
                },
            }
        }
        encode_net(&mut out, &prev);
        // the remove list, one frame for the whole list
        let mut removed = String::new();
        let mut i: usize = 0;
        proof {
            assert(self@.remove.take(0) =~= Seq::<Seq<char>>::empty());
            assert(removed@ =~= arr_enc(self@.remove.take(0)));
        }
        while i < self.remove.len()
            invariant
                i <= self.remove.len(),
                removed@ == arr_enc(self@.remove.take(i as int)),
            decreases self.remove.len() - i,
        {
            encode_net(&mut removed, &self.remove[i]);
            proof {
                crate::text::lemma_arr_enc_snoc(self@.remove.take(i as int), self@.remove[i as int]);
                assert(self@.remove.take(i + 1) =~= self@.remove.take(i as int).push(
                    self@.remove[i as int],
                ));
            }
            i = i + 1;
        }
        proof {
            assert(self@.remove.take(self.remove.len() as int) =~= self@.remove);
        }
        encode_net(&mut out, &removed);
        // the set list, two frames per entry as in resource serialization
        let mut k: usize = 0;
        let ghost before_set = out@;
        proof {
            assert(self@.set.take(0) =~= Seq::<(Seq<char>, ValueV)>::empty());
            assert(crate::serialize::flat_pvs(self@.set.take(0)) =~= Seq::<Seq<char>>::empty());
            assert(arr_enc(Seq::<Seq<char>>::empty()) =~= Seq::<char>::empty());
            assert(out@ =~= before_set + arr_enc(crate::serialize::flat_pvs(self@.set.take(0))));
        }
        while k < self.set.len()
            invariant
                k <= self.set.len(),
                out@ == before_set + arr_enc(crate::serialize::flat_pvs(self@.set.take(k as int))),
            decreases self.set.len() - k,
        {
            let pv = &self.set[k];
            encode_net(&mut out, &pv.property);
            let mut tagged = String::new();
            push_char(&mut tagged, crate::values::datatype_code(&pv.value.datatype()));
            let valstr = pv.value.to_string();
            tagged.append(valstr.as_str());
            proof {
                assert(tagged@ =~= seq![crate::values::dt_code(crate::values::value_dt(pv.value@))]
                    + value_string(pv.value@));
            }
            encode_net(&mut out, &tagged);
            proof {
                let pvk = self@.set[k as int];
                assert(pvk == (pv.property@, pv.value@));
                let prefix = crate::serialize::flat_pvs(self@.set.take(k as int));
                crate::text::lemma_arr_enc_snoc(prefix, pv.property@);
                crate::text::lemma_arr_enc_snoc(prefix.push(pv.property@), tagged@);
                crate::serialize::lemma_flat_pvs_snoc(self@.set.take(k as int), pvk);
                assert(self@.set.take(k + 1) =~= self@.set.take(k as int).push(pvk));
                assert(crate::serialize::flat_pvs(self@.set.take(k + 1)) =~= prefix.push(
                    pv.property@,
                ).push(tagged@));
                assert(out@ =~= before_set + arr_enc(
                    crate::serialize::flat_pvs(self@.set.take(k + 1)),
                ));
            }
            k = k + 1;
        }
        proof {
            assert(self@.set.take(self.set.len() as int) =~= self@.set);
            assert(out@ =~= commit_signing_text(self@));
        }
        out
    }

    /// Signs the commit with the given key: stores the expected signature
    /// over the canonical form.
    pub fn sign(&mut self, key: &String)
        ensures
            final(self)@.subject == old(self)@.subject,
            final(self)@.created_at == old(self)@.created_at,
            final(self)@.signer == old(self)@.signer,
            final(self)@.set == old(self)@.set,
            final(self)@.remove == old(self)@.remove,
            final(self)@.destroy == old(self)@.destroy,
            final(self)@.previous_commit == old(self)@.previous_commit,
            final(self)@.signature == Some(sig_of(old(self)@, key@)),
    {
        let text = self.signing_text();
        let signed = text.concat(key.as_str());
        let digest = digest_string(&signed);
        self.signature = Some(u64_to_string(digest));
    }
}

/// Whether the string list holds the given string.
pub(crate) fn vec_str_contains(a: &Vec<String>, x: &String) -> (r: bool)
    ensures
        r == a.deep_view().contains(x@),
{
    let ghost deep = a.deep_view();
    let mut i: usize = 0;
    loop
        invariant
            i <= a.len(),
            deep == a.deep_view(),
            forall|j: int| 0 <= j < i ==> #[trigger] deep[j] != x@,
        decreases a.len() - i,
    {
        if i == a.len() {
            proof {
                if deep.contains(x@) {
                    let w = choose|j: int| 0 <= j < deep.len() && deep[j] == x@;
                }
            }
            return false;
        }
        if str_eq(&a[i], x) {
            proof {
                assert(deep[i as int] == x@);
            }
            return true;
        }
        i = i + 1;
    }
}

/// The first value the set list carries under the key, as `pv_find` reads it.
fn set_get<'a>(set: &'a Vec<PropVal>, key: &String) -> (r: Option<&'a Value>)
    ensures
        match r {
            Some(v) => pv_find(set.deep_view(), key@) == Some(v@),
            None => pv_find(set.deep_view(), key@) is None,
        },
{
    let ghost pvs = set.deep_view();
    proof {
        assert(pvs.skip(0) =~= pvs);
    }
    let mut i: usize = 0;
    loop
        invariant
            i <= set.len(),
            pvs == set.deep_view(),
            pv_find(pvs, key@) == pv_find(pvs.skip(i as int), key@),
        decreases set.len() - i,
    {
        if i == set.len() {
            assert(pvs.skip(i as int).len() == 0);
            return None;
        }
        if str_eq(&set[i].property, key) {
            proof {
                assert(pvs.skip(i as int)[0] == pvs[i as int]);
            }
            return Some(&set[i].value);
        }
        proof {
            assert(pvs.skip(i as int)[0] == pvs[i as int]);
            assert(pvs.skip(i as int).skip(1) =~= pvs.skip(i + 1));
        }
        i = i + 1;
    }
}

impl Db {
    /// The stored public key of the signer, if its resource holds one.
    pub(crate) fn signer_pubkey_exec(&self, signer: &String) -> (r: Option<String>)
        ensures
            match r {
                Some(k) => signer_pubkey(self@, signer@) == Some(k@),
                None => signer_pubkey(self@, signer@) is None,
            },
    {
        match self.get_propvals(signer.as_str()) {
            Err(_) => None,
            Ok(res) => {
                match res.get(urls::PUBLIC_KEY) {
                    Err(_) => None,
                    Ok(v) => match v {
                        Value::Str(k) => Some(k.clone()),
                        _ => None,
                    },
                }
            },
        }
    }

    /// The write-permission walk, with a depth bound.
    fn write_allowed_exec(&self, agent: &String, subject: &String, fuel: u64) -> (r: bool)
        ensures
            r == write_allowed_fuel(self@, agent@, subject@, fuel as nat),
        decreases fuel,
    {
        if fuel == 0 {
            return false;
        }
        match self.get_propvals(subject.as_str()) {
            Err(_) => false,
            Ok(res) => {
                let in_list = match res.get(urls::WRITE) {
                    Ok(v) => match v {
                        Value::ResourceArray(a) => vec_str_contains(a, agent) || vec_str_contains(
                            a,
                            &String::from_str(urls::PUBLIC_AGENT),
                        ),
                        _ => false,
                    },
                    Err(_) => false,
                };
                if in_list {
                    true
                } else {
                    match res.get(urls::PARENT) {
                        Ok(v) => match v {
                            Value::AtomicUrl(p) => {
                                let parent = p.clone();
                                self.write_allowed_exec(agent, &parent, fuel - 1)
                            },
                            _ => false,
                        },
                        Err(_) => false,
                    }
                }
            },
        }
    }
}

impl Commit {
    /// Validates and applies the commit to the store: the only write path.
    /// Fails exactly as `apply_error` says, leaving the store untouched; on
    /// success the target reflects the patch, the commit itself is stored as
    /// a resource, the index is rewritten, and the per-target bookkeeping
    /// advances.
    pub fn apply(&self, store: &mut Db, opts: &CommitOpts) -> (r: AtomicResult<Resource>)
        requires
            db_wf(old(store)@),
        ensures
            db_wf(final(store)@),
            match r {
                Err(e) => Some(e.kind) == apply_error(old(store)@, self@, *opts) && final(store)@
                    == old(store)@,
                Ok(res) => ({
                    let cs = commit_stored_subject(self@, old(store)@.server_url);
                    &&& apply_error(old(store)@, self@, *opts) is None
                    &&& res@.subject == self@.subject
                    &&& rv_wf(res@)
                    &&& forall|k: Seq<char>|
                        #[trigger] pv_find(res@.propvals, k) == apply_find(old(store)@, self@, k)
                    &&& res_find(final(store)@.resources, cs) is Some
                    &&& has_atom(res_find(final(store)@.resources, cs)->0, urls::IS_A@, urls::COMMIT@)
                    &&& cs != self@.subject
                    &&& (self@.destroy ==> res_find(final(store)@.resources, self@.subject) is None
                        && (forall|t: (Seq<char>, Seq<char>, Seq<char>)|
                        t.2 == self@.subject ==> !final(store)@.index.contains(t)))
                    &&& (!self@.destroy ==> (res_find(final(store)@.resources, self@.subject)
                        matches Some(rv) && (forall|k: Seq<char>|
                        #[trigger] pv_find(rv.propvals, k) == apply_find(old(store)@, self@, k))
                        && (forall|t: (Seq<char>, Seq<char>, Seq<char>)|
                        t.2 == self@.subject ==> (#[trigger] final(store)@.index.contains(t) <==> has_atom(
                            rv,
                            t.0,
                            t.1,
                        )))))
                    &&& (forall|t: (Seq<char>, Seq<char>, Seq<char>)|
                        t.2 != self@.subject && t.2 != cs ==> (#[trigger] final(store)@.index.contains(
                            t,
                        ) <==> old(store)@.index.contains(t)))
                    &&& (res_find(final(store)@.resources, cs) matches Some(cr) && (forall|
                        t: (Seq<char>, Seq<char>, Seq<char>),
                    |
                        t.2 == cs ==> (#[trigger] final(store)@.index.contains(t) <==> has_atom(
                            cr,
                            t.0,
                            t.1,
                        ))))
                    &&& (forall|s: Seq<char>|
                        s != self@.subject && s != cs ==> #[trigger] res_find(
                            final(store)@.resources,
                            s,
                        ) == res_find(old(store)@.resources, s))
                    &&& final(store)@.server_url == old(store)@.server_url
                    &&& final(store)@.clock == old(store)@.clock
                    &&& final(store)@.default_agent == old(store)@.default_agent
                    &&& pv_find(final(store)@.last_created, self@.subject) == Some(
                        ValueV::Timestamp(self@.created_at),
                    )
                    &&& pv_find(final(store)@.last_commit, self@.subject) == Some(
                        ValueV::AtomicUrl(cs),
                    )
                    &&& (forall|k: Seq<char>|
                        k != self@.subject ==> #[trigger] pv_find(final(store)@.last_created, k)
                            == pv_find(old(store)@.last_created, k))
                    &&& (forall|k: Seq<char>|
                        k != self@.subject ==> #[trigger] pv_find(final(store)@.last_commit, k)
                            == pv_find(old(store)@.last_commit, k))
                }),
            },
    {
        let ghost d0 = store@;
        // canonical sanity: subjects and the signer are URLs, never empty
        let prev_empty = match &self.previous_commit {
            Some(p) => p.as_str().unicode_len() == 0,
            None => false,
        };
        if self.subject.as_str().unicode_len() == 0 || self.signer.as_str().unicode_len() == 0
            || prev_empty {
            return Err(AtomicError::new(ErrorKind::ParseError, "empty subject, signer or link"));
        }
        {
            let text0 = self.signing_text();
            let digits0 = u64_to_string(digest_string(&text0));
            let own_slot = store.server_url.clone().concat("/commits/").concat(digits0.as_str());
            if str_eq(&own_slot, &self.subject) {
                proof {
                    assert(own_slot@ =~= commit_stored_subject(self@, d0.server_url));
                }
                return Err(
                    AtomicError::new(
                        ErrorKind::ParseError,
                        "a commit may not target its own storage slot",
                    ),
                );
            }
            proof {
                assert(own_slot@ =~= commit_stored_subject(self@, d0.server_url));
                assert(self@.subject != commit_stored_subject(self@, d0.server_url));
            }
        }
        if self.created_at < 0 {
            return Err(AtomicError::new(ErrorKind::InvalidTimestamp, "negative timestamp"));
        }
        // signature
        if opts.validate_signature {
            match store.signer_pubkey_exec(&self.signer) {
                None => {
                    return Err(
                        AtomicError::new(ErrorKind::NotFound, "signer has no stored public key"),
                    );
                },
                Some(key) => {
                    let text = self.signing_text();
                    let signed = text.concat(key.as_str());
                    let expected = u64_to_string(digest_string(&signed));
                    let good = match &self.signature {
                        Some(s) => str_eq(s, &expected),
                        None => false,
                    };
                    if !good {
                        proof {
                            assert(self@.signature != Some(
                                sig_of(self@, signer_pubkey(d0, self@.signer)->0),
                            ));
                        }
                        return Err(
                            AtomicError::new(ErrorKind::InvalidSignature, "signature mismatch"),
                        );
                    }
                },
            }
        }
        // timestamps
        if opts.validate_timestamp {
            let limit: i64 = if store.clock_ms > i64::MAX - 10000 {
                i64::MAX
            } else {
                store.clock_ms + 10000
            };
            if self.created_at > limit {
                return Err(
                    AtomicError::new(ErrorKind::InvalidTimestamp, "timestamp in the far future"),
                );
            }
            let monotonic = match self.last_created_of(store) {
                Some(t) => self.created_at > t,
                None => true,
            };
            if !monotonic {
                return Err(
                    AtomicError::new(
                        ErrorKind::InvalidTimestamp,
                        "not newer than the target's last commit",
                    ),
                );
            }
        }
        // optimistic concurrency
        if opts.validate_previous_commit {
            let good = match store.last_commit.get(self.subject.as_str()) {
                Ok(v) => match v {
                    Value::AtomicUrl(u) => match &self.previous_commit {
                        Some(p) => str_eq(p, u),
                        None => false,
                    },
                    _ => self.previous_commit.is_none(),
                },
                Err(_) => self.previous_commit.is_none(),
            };
            if !good {
                return Err(
                    AtomicError::new(
                        ErrorKind::PreviousCommitMismatch,
                        "previous commit does not match",
                    ),
                );
            }
        }
        // authorization
        if opts.validate_rights {
            let target_exists = match store.get_propvals(self.subject.as_str()) {
                Ok(_) => true,
                Err(_) => false,
            };
            let allowed = if target_exists {
                store.write_allowed_exec(&self.signer, &self.subject, 64)
            } else {
                match set_get(&self.set, &String::from_str(urls::PARENT)) {
                    Some(v) => match v {
                        Value::AtomicUrl(p) => {
                            let parent = p.clone();
                            store.write_allowed_exec(&self.signer, &parent, 64)
                        },
                        _ => false,
                    },
                    None => false,
                }
            };
            if !allowed {
                return Err(AtomicError::new(ErrorKind::Unauthorized, "no write permission"));
            }
        }
        // every value to set must satisfy its own datatype
        if !self.values_ok() {
            return Err(AtomicError::new(ErrorKind::SchemaViolation, "value fails its datatype"));
        }
        // a destroy needs something to destroy
        let stored = match store.get_propvals(self.subject.as_str()) {
            Ok(r) => Some(r),
            Err(_) => None,
        };
        if self.destroy && stored.is_none() {
            return Err(AtomicError::new(ErrorKind::NotFound, "nothing to destroy"));
        }
        proof {
            assert(apply_error(d0, self@, *opts) is None);
        }
        // build the target's new state: remove, then set
        let mut new_res = match stored {
            Some(r) => r,
            None => Resource::new(self.subject.clone()),
        };
        proof {
            if res_find(d0.resources, self@.subject) is Some {
                let w = crate::store::lemma_res_find_witness(d0.resources, self@.subject);
            }
        }
        let ghost base = new_res@.propvals;
        let mut ri: usize = 0;
        proof {
            assert(self@.remove.take(0) =~= Seq::<Seq<char>>::empty());
        }
        while ri < self.remove.len()
            invariant
                ri <= self.remove.len(),
                rv_wf(new_res@),
                new_res@.subject == self@.subject,
                forall|k: Seq<char>|
                    #[trigger] pv_find(new_res@.propvals, k) == (if self@.remove.take(
                        ri as int,
                    ).contains(k) {
                        None
                    } else {
                        pv_find(base, k)
                    }),
            decreases self.remove.len() - ri,
        {
            let ghost before = new_res@.propvals;
            new_res.remove_propval(self.remove[ri].as_str());
            proof {
                let cur = self@.remove[ri as int];
                assert(self@.remove.take(ri + 1) =~= self@.remove.take(ri as int).push(cur));
                assert forall|k: Seq<char>|
                    #[trigger] pv_find(new_res@.propvals, k) == (if self@.remove.take(
                        ri + 1,
                    ).contains(k) {
                        None::<ValueV>
                    } else {
                        pv_find(base, k)
                    }) by {
                    crate::store::lemma_contains_push(self@.remove.take(ri as int), cur, k);
                    if k != cur {
                        assert(pv_find(new_res@.propvals, k) == pv_find(before, k));
                    }
                }
            }
            ri = ri + 1;
        }
        proof {
            assert(self@.remove.take(self.remove.len() as int) =~= self@.remove);
        }
        let mut si: usize = 0;
        proof {
            assert(self@.set.take(0) =~= Seq::<(Seq<char>, ValueV)>::empty());
        }
        while si < self.set.len()
            invariant
                si <= self.set.len(),
                rv_wf(new_res@),
                new_res@.subject == self@.subject,
                pv_values_valid(self@.set),
                forall|k: Seq<char>|
                    #[trigger] pv_find(new_res@.propvals, k) == (match set_find(
                        self@.set.take(si as int),
                        k,
                    ) {
                        Some(v) => Some(v),
                        None => if self@.remove.contains(k) {
                            None
                        } else {
                            pv_find(base, k)
                        },
                    }),
            decreases self.set.len() - si,
        {
            let pv = &self.set[si];
            proof {
                assert(value_valid(self@.set[si as int].1));
            }
            let ghost before = new_res@.propvals;
            new_res.set_propval_unsafe(pv.property.clone(), pv.value.duplicate());
            proof {
                let cur = self@.set[si as int];
                assert(self@.set.take(si + 1) =~= self@.set.take(si as int).push(cur));
                assert(self@.set.take(si + 1).drop_last() =~= self@.set.take(si as int));
                assert(self@.set.take(si + 1).last() == cur);
                assert forall|k: Seq<char>|
                    #[trigger] pv_find(new_res@.propvals, k) == (match set_find(
                        self@.set.take(si + 1),
                        k,
                    ) {
                        Some(v) => Some(v),
                        None => if self@.remove.contains(k) {
                            None::<ValueV>
                        } else {
                            pv_find(base, k)
                        },
                    }) by {
                    if k != cur.0 {
                        assert(pv_find(new_res@.propvals, k) == pv_find(before, k));
                    }
                }
            }
            si = si + 1;
        }
        proof {
            assert(self@.set.take(self.set.len() as int) =~= self@.set);
            assert forall|k: Seq<char>|
                #[trigger] pv_find(new_res@.propvals, k) == apply_find(d0, self@, k) by {
                if res_find(d0.resources, self@.subject) is None {
                    assert(base =~= Seq::<(Seq<char>, ValueV)>::empty());
                }
            }
        }
        // persist: the target, then the commit itself
        if self.destroy {
            let removed = store.remove_resource(self.subject.as_str());
            proof {
                assert(removed is Ok);
            }
        } else {
            store.add_resource_unsafe(new_res.duplicate());
        }
        let ghost d1 = store@;
        let text = self.signing_text();
        let digits = u64_to_string(digest_string(&text));
        let cs = store.server_url.clone().concat("/commits/").concat(digits.as_str());
        proof {
            assert(cs@ =~= commit_stored_subject(self@, d0.server_url));
        }
        let mut cres = Resource::new(cs.clone());
        proof {
            crate::urls::lemma_urls_nonempty();
        }
        let mut commit_class: Vec<String> = Vec::new();
        commit_class.push(String::from_str(urls::COMMIT));
        proof {
            assert(commit_class.deep_view() =~= seq![urls::COMMIT@]);
            assert(crate::values::arr_elems_nonempty(commit_class.deep_view()));
        }
        cres.set_propval_unsafe(
            String::from_str(urls::IS_A),
            Value::ResourceArray(commit_class),
        );
        cres.set_propval_unsafe(
            String::from_str(urls::CREATED_AT),
            Value::Timestamp(self.created_at),
        );
        cres.set_propval_unsafe(
            String::from_str(urls::SIGNER),
            Value::AtomicUrl(self.signer.clone()),
        );
        cres.set_propval_unsafe(
            String::from_str(urls::SUBJECT),
            Value::AtomicUrl(self.subject.clone()),
        );
        match &self.previous_commit {
            Some(p) => {
                cres.set_propval_unsafe(
                    String::from_str(urls::PREVIOUS_COMMIT),
                    Value::AtomicUrl(p.clone()),
                );
            },
            None => {},
        }
        let ghost cres_v = cres@;
        proof {
            crate::urls::lemma_commit_props_distinct();
            assert(pv_find(cres_v.propvals, urls::IS_A@) == Some(
                ValueV::ResourceArray(seq![urls::COMMIT@]),
            ));
        }
        store.add_resource_unsafe(cres);
        let ghost d2 = store@;
        // bookkeeping: the target's last commit time and subject
        proof {
            assert(rv_wf(store.last_created@));
            assert(cs@.len() > 0) by {
                lemma_dec_digits(digest_chars(commit_signing_text(self@)) as nat);
            }
        }
        store.last_created.set_propval_unsafe(
            self.subject.clone(),
            Value::Timestamp(self.created_at),
        );
        proof {
            assert(rv_wf(store.last_commit@));
        }
        store.last_commit.set_propval_unsafe(self.subject.clone(), Value::AtomicUrl(cs.clone()));
        proof {
            assert(db_wf(store@)) by {
                assert(store@.resources == d2.resources);
                assert(store@.index == d2.index);
            }
            assert(has_atom(res_find(store@.resources, cs@)->0, urls::IS_A@, urls::COMMIT@)) by {
                assert(res_find(d2.resources, cs@) == Some(cres_v));
                assert(res_find(store@.resources, cs@) == Some(cres_v));
                let pvs = cres_v.propvals;
                crate::resources::lemma_pv_find_none(pvs, urls::IS_A@);
                let w = crate::resources::lemma_pv_find_witness(pvs, urls::IS_A@);
                assert(pvs[w].1 == ValueV::ResourceArray(seq![urls::COMMIT@]));
                assert(seq![urls::COMMIT@].contains(urls::COMMIT@)) by {
                    assert(seq![urls::COMMIT@][0] == urls::COMMIT@);
                }
                assert(crate::store::val_has_string(pvs[w].1, urls::COMMIT@));
            }
        }
        proof {
            assert(store@.index == d2.index);
            if self@.destroy {
                assert forall|t: (Seq<char>, Seq<char>, Seq<char>)|
                    t.2 == self@.subject implies !store@.index.contains(t) by {
                    if d2.index.contains(t) {
                        assert(d1.index.contains(t) || (t.2 == cs@ && has_atom(cres_v, t.0, t.1)));
                        assert(d1.index.contains(t) ==> (d0.index.contains(t) && t.2
                            != self@.subject));
                    }
                }
            } else {
                let stored_rv = res_find(store@.resources, self@.subject)->0;
                assert(res_find(d1.resources, self@.subject) == Some(stored_rv));
                assert(stored_rv.propvals == new_res@.propvals && stored_rv.subject
                    == new_res@.subject);
                assert(stored_rv == new_res@);
                assert forall|t: (Seq<char>, Seq<char>, Seq<char>)|
                    t.2 == self@.subject implies (#[trigger] store@.index.contains(t) <==> has_atom(
                    stored_rv,
                    t.0,
                    t.1,
                )) by {
                    assert(d2.index.contains(t) <==> d1.index.contains(t));
                    assert(d1.index.contains(t) <==> has_atom(new_res@, t.0, t.1));
                }
            }
            assert forall|t: (Seq<char>, Seq<char>, Seq<char>)|
                t.2 != self@.subject && t.2 != cs@ implies (#[trigger] store@.index.contains(t)
                <==> d0.index.contains(t)) by {
                assert(d2.index.contains(t) <==> d1.index.contains(t));
                assert(d1.index.contains(t) <==> d0.index.contains(t));
            }
            assert(res_find(store@.resources, cs@) == Some(cres_v));
            assert forall|t: (Seq<char>, Seq<char>, Seq<char>)|
                t.2 == cs@ implies (#[trigger] store@.index.contains(t) <==> has_atom(
                cres_v,
                t.0,
                t.1,
            )) by {
                assert(d2.index.contains(t) <==> has_atom(cres_v, t.0, t.1));
            }
        }
        Ok(new_res)
    }

    /// Whether every value in the set list satisfies its own datatype.
    fn values_ok(&self) -> (r: bool)
        ensures
            r == pv_values_valid(self@.set),
    {
        let mut vi: usize = 0;
        while vi < self.set.len()
            invariant
                vi <= self.set.len(),
                forall|j: int| 0 <= j < vi ==> value_valid((#[trigger] self@.set[j]).1),
            decreases self.set.len() - vi,
        {
            if !self.set[vi].value.is_well_formed() {
                proof {
                    assert(!pv_values_valid(self@.set)) by {
                        if pv_values_valid(self@.set) {
                            assert(value_valid(self@.set[vi as int].1));
                        }
                    }
                }
                return false;
            }
            vi = vi + 1;
        }
        true
    }

    /// The last commit time stored for this commit's target, if any.
    fn last_created_of(&self, store: &Db) -> (r: Option<i64>)
        ensures
            match r {
                Some(t) => pv_find(store@.last_created, self@.subject) == Some(
                    ValueV::Timestamp(t as int),
                ),
                None => !(pv_find(store@.last_created, self@.subject) matches Some(
                    ValueV::Timestamp(_),
                )),
            },
    {
        match store.last_created.get(self.subject.as_str()) {
            Ok(v) => match v {
                Value::Timestamp(t) => Some(*t),
                _ => None,
            },
            Err(_) => None,
        }
    }
}

/// The datatype a datatype URL names, by the built-in table; an unknown
/// URL falls back to plain text.
pub open spec fn dt_of_url(u: Seq<char>) -> crate::values::DataType {
    if u == urls::INTEGER@ {
        crate::values::DataType::Integer
    } else if u == urls::MARKDOWN@ {
        crate::values::DataType::Markdown
    } else if u == urls::SLUG@ {
        crate::values::DataType::Slug
    } else if u == urls::FLOAT@ {
        crate::values::DataType::Float
    } else if u == urls::BOOLEAN@ {
        crate::values::DataType::Boolean
    } else if u == urls::DATE@ {
        crate::values::DataType::Date
    } else if u == urls::TIMESTAMP@ {
        crate::values::DataType::Timestamp
    } else if u == urls::ATOMIC_URL@ {
        crate::values::DataType::AtomicUrl
    } else if u == urls::RESOURCE_ARRAY@ {
        crate::values::DataType::ResourceArray
    } else if u == urls::NESTED_RESOURCE@ {
        crate::values::DataType::NestedResource
    } else {
        crate::values::DataType::Str
    }
}

/// The datatype a stored property declares: its `datatype` URL through the
/// built-in table, or plain text when absent or not a URL.
pub open spec fn prop_schema_dt(d: DbV, url: Seq<char>) -> crate::values::DataType {
    match res_find(d.resources, url) {
        Some(rv) => match pv_find(rv.propvals, urls::DATATYPE_PROP@) {
            Some(ValueV::AtomicUrl(u)) => dt_of_url(u),
            _ => crate::values::DataType::Str,
        },
        None => crate::values::DataType::Str,
    }
}

/// Whether a stored resource is the property named by the shortname: it
/// carries that shortname and declares a datatype.
pub open spec fn is_property_with_shortname(rv: crate::resources::ResourceV, shortname: Seq<char>) -> bool {
    &&& (match pv_find(rv.propvals, urls::SHORTNAME@) {
        Some(v) => value_string(v) == shortname,
        None => false,
    })
    &&& pv_find(rv.propvals, urls::DATATYPE_PROP@) is Some
}

impl Db {
    /// The datatype a datatype URL names, by the built-in table.
    pub fn datatype_from_url(url: &String) -> (r: crate::values::DataType)
        ensures
            r == dt_of_url(url@),
    {
        if str_eq(url, &String::from_str(urls::INTEGER)) {
            crate::values::DataType::Integer
        } else if str_eq(url, &String::from_str(urls::MARKDOWN)) {
            crate::values::DataType::Markdown
        } else if str_eq(url, &String::from_str(urls::SLUG)) {
            crate::values::DataType::Slug
        } else if str_eq(url, &String::from_str(urls::FLOAT)) {
            crate::values::DataType::Float
        } else if str_eq(url, &String::from_str(urls::BOOLEAN)) {
            crate::values::DataType::Boolean
        } else if str_eq(url, &String::from_str(urls::DATE)) {
            crate::values::DataType::Date
        } else if str_eq(url, &String::from_str(urls::TIMESTAMP)) {
            crate::values::DataType::Timestamp
        } else if str_eq(url, &String::from_str(urls::ATOMIC_URL)) {
            crate::values::DataType::AtomicUrl
        } else if str_eq(url, &String::from_str(urls::RESOURCE_ARRAY)) {
            crate::values::DataType::ResourceArray
        } else if str_eq(url, &String::from_str(urls::NESTED_RESOURCE)) {
            crate::values::DataType::NestedResource
        } else {
            crate::values::DataType::Str
        }
    }

    /// The schema of a property, read from its stored resource: present
    /// exactly when the property is stored, with the datatype it declares.
    pub fn get_property(&self, property_url: &str) -> (r: AtomicResult<crate::resources::Property>)
        requires
            db_wf(self@),
        ensures
            match r {
                Ok(p) => res_find(self@.resources, property_url@) is Some && p.subject@
                    == property_url@ && p.data_type == prop_schema_dt(self@, property_url@),
                Err(e) => e.kind == ErrorKind::NotFound && res_find(
                    self@.resources,
                    property_url@,
                ) is None,
            },
    {
        let res = match self.get_propvals(property_url) {
            Ok(res) => res,
            Err(e) => {
                return Err(e);
            },
        };
        let data_type = match res.get(urls::DATATYPE_PROP) {
            Ok(v) => match v {
                Value::AtomicUrl(u) => Self::datatype_from_url(u),
                _ => crate::values::DataType::Str,
            },
            Err(_) => crate::values::DataType::Str,
        };
        let shortname = match res.get(urls::SHORTNAME) {
            Ok(v) => v.to_string(),
            Err(_) => String::new(),
        };
        let description = match res.get(urls::DESCRIPTION) {
            Ok(v) => v.to_string(),
            Err(_) => String::new(),
        };
        Ok(
            crate::resources::Property {
                class_type: None,
                data_type,
                shortname,
                description,
                subject: String::from_str(property_url),
            },
        )
    }

    /// The stored property whose shortname is the given one, scanning the
    /// property resources: found exactly when some stored resource carries
    /// the shortname and declares a datatype.
    pub fn property_by_shortname(&self, shortname: &str) -> (r: AtomicResult<
        crate::resources::Property,
    >)
        requires
            db_wf(self@),
        ensures
            match r {
                Ok(p) => (exists|i: int|
                    0 <= i < self@.resources.len() && is_property_with_shortname(
                        #[trigger] self@.resources[i],
                        shortname@,
                    ) && self@.resources[i].subject == p.subject@) && res_find(
                    self@.resources,
                    p.subject@,
                ) is Some && p.data_type == prop_schema_dt(self@, p.subject@),
                Err(e) => e.kind == ErrorKind::NotFound && (forall|i: int|
                    0 <= i < self@.resources.len() ==> !is_property_with_shortname(
                        #[trigger] self@.resources[i],
                        shortname@,
                    )),
            },
    {
        let want = String::from_str(shortname);
        let mut i: usize = 0;
        while i < self.resources.len()
            invariant
                i <= self.resources.len(),
                db_wf(self@),
                want@ == shortname@,
                forall|j: int|
                    0 <= j < i ==> !is_property_with_shortname(
                        #[trigger] self@.resources[j],
                        shortname@,
                    ),
            decreases self.resources.len() - i,
        {
            let res = &self.resources[i];
            let found = match res.get(urls::SHORTNAME) {
                Ok(v) => {
                    let s = v.to_string();
                    str_eq(&s, &want)
                },
                Err(_) => false,
            };
            let is_property = match res.get(urls::DATATYPE_PROP) {
                Ok(_) => true,
                Err(_) => false,
            };
            if found && is_property {
                let subject = res.get_subject().clone();
                proof {
                    assert(is_property_with_shortname(self@.resources[i as int], shortname@));
                    assert forall|j: int|
                        0 <= j < i implies (#[trigger] self@.resources[j]).subject
                        != subject@ by {}
                    crate::store::lemma_res_find_present(self@.resources, subject@, i as int);
                }
                return self.get_property(subject.as_str());
            }
            i = i + 1;
        }
        Err(AtomicError::new(ErrorKind::NotFound, "no property has that shortname"))
    }

    /// Makes a fresh agent: a key derived from the store's counter, a subject
    /// under this server, and its resource stored with the key under
    /// `publicKey` — what signature validation later reads. Fails only when
    /// the counter is exhausted.
    pub fn create_agent(&mut self, name: Option<&str>) -> (r: AtomicResult<Agent>)
        requires
            db_wf(old(self)@),
        ensures
            db_wf(final(self)@),
            r is Ok <==> old(self)@.next_id < u64::MAX,
            r matches Err(e) ==> e.kind == ErrorKind::Other && final(self)@ == old(self)@,
            r matches Ok(agent) ==> agent.subject@.len() > 0 && agent.public_key@.len() > 0
                && crate::text::is_prefix(old(self)@.server_url, agent.subject@),
            r matches Ok(agent) ==> (res_find(final(self)@.resources, agent.subject@)
                matches Some(rv) && pv_find(rv.propvals, urls::PUBLIC_KEY@) == Some(
                ValueV::Str(agent.public_key@),
            ) && has_atom(rv, urls::IS_A@, urls::AGENT@)),
            r matches Ok(agent) ==> signer_pubkey(final(self)@, agent.subject@) == Some(
                agent.public_key@,
            ),
            r matches Ok(agent) ==> (forall|s: Seq<char>|
                s != agent.subject@ ==> #[trigger] res_find(final(self)@.resources, s) == res_find(
                    old(self)@.resources,
                    s,
                )),
            r is Ok ==> final(self)@.server_url == old(self)@.server_url,
            r is Ok ==> final(self)@.clock == old(self)@.clock,
            r is Ok ==> final(self)@.last_created == old(self)@.last_created,
            r is Ok ==> final(self)@.last_commit == old(self)@.last_commit,
            r is Ok ==> final(self)@.default_agent == old(self)@.default_agent,
    {
        let counter = self.next_id;
        if counter == u64::MAX {
            return Err(AtomicError::new(ErrorKind::Other, "agent counter exhausted"));
        }
        self.next_id = counter + 1;
        proof {
            assert(self@.resources == old(self)@.resources);
            assert(self@.index == old(self)@.index);
            assert(db_wf(self@));
        }
        let seed = self.server_url.clone().concat("/agent-seed/").concat(
            u64_to_string(counter).as_str(),
        );
        let key = u64_to_string(digest_string(&seed));
        let subject = self.server_url.clone().concat("/agents/").concat(key.as_str());
        proof {
            lemma_dec_digits(digest_chars(seed@) as nat);
        }
        let mut res = Resource::new(subject.clone());
        proof {
            crate::urls::lemma_urls_nonempty();
        }
        let mut classes: Vec<String> = Vec::new();
        classes.push(String::from_str(urls::AGENT));
        proof {
            assert(classes.deep_view() =~= seq![urls::AGENT@]);
            assert(crate::values::arr_elems_nonempty(classes.deep_view()));
        }
        res.set_propval_unsafe(String::from_str(urls::IS_A), Value::ResourceArray(classes));
        res.set_propval_unsafe(String::from_str(urls::PUBLIC_KEY), Value::Str(key.clone()));
        let held_name = match name {
            Some(n) => {
                res.set_propval_unsafe(String::from_str(urls::NAME), Value::Str(String::from_str(n)));
                Some(String::from_str(n))
            },
            None => None,
        };
        let ghost res_v = res@;
        self.add_resource_unsafe(res);
        proof {
            crate::urls::lemma_agent_props_distinct();
            assert(pv_find(res_v.propvals, urls::PUBLIC_KEY@) == Some(ValueV::Str(key@)));
            assert(pv_find(res_v.propvals, urls::IS_A@) == Some(
                ValueV::ResourceArray(seq![urls::AGENT@]),
            ));
            assert(has_atom(res_v, urls::IS_A@, urls::AGENT@)) by {
                let w = crate::resources::lemma_pv_find_witness(res_v.propvals, urls::IS_A@);
                assert(seq![urls::AGENT@].contains(urls::AGENT@)) by {
                    assert(seq![urls::AGENT@][0] == urls::AGENT@);
                }
                assert(crate::store::val_has_string(res_v.propvals[w].1, urls::AGENT@));
            }
            assert(subject@.take(old(self)@.server_url.len() as int) =~= old(self)@.server_url);
        }
        Ok(Agent { subject, public_key: key, name: held_name })
    }

    /// Installs the process-wide default agent.
    pub fn set_default_agent(&mut self, agent: Agent)
        ensures
            (final(self)@ == DbV { default_agent: final(self)@.default_agent, ..old(self)@ }),
            (final(self)@.default_agent == Some((agent.subject@, agent.public_key@))),
    {
        self.default_agent = Some(agent);
    }

    /// The default agent, if one was installed.
    pub fn get_default_agent(&self) -> (r: AtomicResult<Agent>)
        ensures
            match r {
                Ok(a) => self@.default_agent == Some((a.subject@, a.public_key@)),
                Err(e) => e.kind == ErrorKind::Unauthorized && self@.default_agent is None,
            },
    {
        match &self.default_agent {
            Some(a) => Ok(a.duplicate()),
            None => Err(AtomicError::new(ErrorKind::Unauthorized, "no default agent set")),
        }
    }

    /// Moves the store clock forward one millisecond and returns the time.
    pub fn tick(&mut self) -> (t: i64)
        ensures
            (final(self)@ == DbV { clock: final(self)@.clock, ..old(self)@ }),
            old(self)@.clock < i64::MAX ==> final(self)@.clock == old(self)@.clock + 1,
            old(self)@.clock == i64::MAX ==> final(self)@.clock == old(self)@.clock,
            t as int == final(self)@.clock,
            old(self)@.clock >= 0 ==> t >= 0,
    {
        if self.clock_ms < i64::MAX {
            self.clock_ms = self.clock_ms + 1;
        }
        self.clock_ms
    }
}

impl Agent {
    /// A fresh agent stored in the given store, its key resolvable for
    /// signature validation. Fails only when the store's counter is
    /// exhausted.
    pub fn new(name: Option<&str>, store: &mut Db) -> (r: AtomicResult<Agent>)
        requires
            db_wf(old(store)@),
        ensures
            db_wf(final(store)@),
            r is Ok <==> old(store)@.next_id < u64::MAX,
            r matches Ok(agent) ==> agent.subject@.len() > 0 && agent.public_key@.len() > 0
                && res_find(final(store)@.resources, agent.subject@) is Some && signer_pubkey(
                final(store)@,
                agent.subject@,
            ) == Some(agent.public_key@),
    {
        store.create_agent(name)
    }

    /// The agent's stored resource: its class, key and name.
    pub fn to_resource(&self, store: &Db) -> (r: AtomicResult<Resource>)
        ensures
            match r {
                Ok(res) => res_find(store@.resources, self.subject@) == Some(res@),
                Err(e) => e.kind == ErrorKind::NotFound && res_find(
                    store@.resources,
                    self.subject@,
                ) is None,
            },
    {
        store.get_propvals(self.subject.as_str())
    }
}


/// Every required property is present in the propvals.
pub open spec fn reqs_met(reqs: Seq<Seq<char>>, pvs: Seq<(Seq<char>, ValueV)>) -> bool {
    forall|i: int| 0 <= i < reqs.len() ==> pv_find(pvs, #[trigger] reqs[i]) is Some
}

/// The class's required properties (its `requires` list) are all present.
pub open spec fn class_reqs_ok(d: DbV, cls: Seq<char>, pvs: Seq<(Seq<char>, ValueV)>) -> bool {
    match res_find(d.resources, cls) {
        Some(cr) => match pv_find(cr.propvals, urls::REQUIRES@) {
            Some(ValueV::ResourceArray(reqs)) => reqs_met(reqs, pvs),
            _ => true,
        },
        None => true,
    }
}

/// Each named class's requirements are met.
pub open spec fn classes_ok(d: DbV, classes: Seq<Seq<char>>, pvs: Seq<(Seq<char>, ValueV)>) -> bool {
    forall|i: int| 0 <= i < classes.len() ==> class_reqs_ok(d, #[trigger] classes[i], pvs)
}

/// For every class a resource declares, the class's required properties are
/// present in the resource.
pub open spec fn required_props_ok(d: DbV, pvs: Seq<(Seq<char>, ValueV)>) -> bool {
    match pv_find(pvs, urls::IS_A@) {
        Some(ValueV::ResourceArray(classes)) => classes_ok(d, classes, pvs),
        _ => true,
    }
}

impl Db {
    /// Checks a resource's declared classes for missing required properties.
    fn check_required(&self, res: &Resource) -> (r: bool)
        ensures
            r == required_props_ok(self@, res@.propvals),
    {
        let classes = match res.get(urls::IS_A) {
            Ok(v) => match v {
                Value::ResourceArray(a) => a,
                _ => {
                    return true;
                },
            },
            Err(_) => {
                return true;
            },
        };
        let ghost cls_deep = classes.deep_view();
        let ghost pvs = res@.propvals;
        let mut i: usize = 0;
        while i < classes.len()
            invariant
                i <= classes.len(),
                cls_deep == classes.deep_view(),
                pvs == res@.propvals,
                pv_find(pvs, urls::IS_A@) == Some(ValueV::ResourceArray(cls_deep)),
                forall|j: int| 0 <= j < i ==> class_reqs_ok(self@, #[trigger] cls_deep[j], pvs),
            decreases classes.len() - i,
        {
            let cls = &classes[i];
            proof {
                assert(cls_deep[i as int] == cls@);
            }
            match self.get_propvals(cls.as_str()) {
                Err(_) => {},
                Ok(cr) => {
                    match cr.get(urls::REQUIRES) {
                        Err(_) => {},
                        Ok(v) => match v {
                            Value::ResourceArray(reqs) => {
                                let ghost reqs_deep = reqs.deep_view();
                                let ghost crv = cr@;
                                let mut k: usize = 0;
                                while k < reqs.len()
                                    invariant
                                        k <= reqs.len(),
                                        i < cls_deep.len(),
                                        reqs_deep == reqs.deep_view(),
                                        pvs == res@.propvals,
                                        pv_find(pvs, urls::IS_A@) == Some(
                                            ValueV::ResourceArray(cls_deep),
                                        ),
                                        res_find(self@.resources, cls_deep[i as int]) == Some(
                                            crv,
                                        ),
                                        pv_find(crv.propvals, urls::REQUIRES@) == Some(
                                            ValueV::ResourceArray(reqs_deep),
                                        ),
                                        forall|j: int|
                                            0 <= j < k ==> pv_find(
                                                pvs,
                                                #[trigger] reqs_deep[j],
                                            ) is Some,
                                    decreases reqs.len() - k,
                                {
                                    match res.get(reqs[k].as_str()) {
                                        Ok(_) => {},
                                        Err(_) => {
                                            proof {
                                                assert(reqs_deep[k as int] == reqs@[k as int]@);
                                                assert(!reqs_met(reqs_deep, pvs)) by {
                                                    if reqs_met(reqs_deep, pvs) {
                                                        assert(pv_find(
                                                            pvs,
                                                            reqs_deep[k as int],
                                                        ) is Some);
                                                    }
                                                }
                                                assert(!class_reqs_ok(
                                                    self@,
                                                    cls_deep[i as int],
                                                    pvs,
                                                ));
                                                assert(!classes_ok(self@, cls_deep, pvs)) by {
                                                    if classes_ok(self@, cls_deep, pvs) {
                                                        assert(class_reqs_ok(
                                                            self@,
                                                            cls_deep[i as int],
                                                            pvs,
                                                        ));
                                                    }
                                                }
                                            }
                                            return false;
                                        },
                                    }
                                    k = k + 1;
                                }
                                proof {
                                    assert(reqs_met(reqs_deep, pvs));
                                }
                            },
                            _ => {},
                        },
                    }
                },
            }
            proof {
                assert(class_reqs_ok(self@, cls_deep[i as int], pvs));
            }
            i = i + 1;
        }
        proof {
            assert(classes_ok(self@, cls_deep, pvs));
        }
        true
    }

    /// Stores a resource, optionally refusing one that misses a property its
    /// declared classes require; otherwise as the low-level write path.
    pub fn add_resource(&mut self, resource: Resource, check_required_props: bool) -> (r:
        AtomicResult<()>)
        requires
            rv_wf(resource@),
            db_wf(old(self)@),
        ensures
            db_wf(final(self)@),
            match r {
                Ok(()) => {
                    &&& (check_required_props ==> required_props_ok(
                        old(self)@,
                        resource@.propvals,
                    ))
                    &&& res_find(final(self)@.resources, resource@.subject) == Some(resource@)
                    &&& (forall|s: Seq<char>|
                        s != resource@.subject ==> #[trigger] res_find(final(self)@.resources, s)
                            == res_find(old(self)@.resources, s))
                },
                Err(e) => e.kind == ErrorKind::SchemaViolation && final(self)@ == old(self)@
                    && check_required_props && !required_props_ok(
                    old(self)@,
                    resource@.propvals,
                ),
            },
    {
        if check_required_props {
            if !self.check_required(&resource) {
                return Err(
                    AtomicError::new(ErrorKind::SchemaViolation, "a required property is missing"),
                );
            }
        }
        self.add_resource_unsafe(resource);
        Ok(())
    }
}

/// On sorted keys, last-wins and first-wins agree: each key occurs once.
pub proof fn lemma_set_find_sorted(s: Seq<(Seq<char>, ValueV)>, k: Seq<char>)
    requires
        crate::resources::pv_sorted(s),
    ensures
        set_find(s, k) == pv_find(s, k),
    decreases s.len(),
{
    crate::resources::lemma_pv_find_none(s, k);
    if s.len() == 0 {
    } else if s.len() == 1 {
        let e = Seq::<(Seq<char>, ValueV)>::empty();
        assert(s.last() == s[0]);
        assert(s.drop_last() =~= e);
        assert(s.skip(1) =~= e);
        assert(set_find(e, k) is None);
        assert(pv_find(e, k) is None);
    } else {
        assert(crate::resources::pv_sorted(s.drop_last())) by {
            assert forall|a: int, b: int|
                0 <= a < b < s.drop_last().len() implies crate::text::lex_lt(
                (#[trigger] s.drop_last()[a]).0,
                (#[trigger] s.drop_last()[b]).0,
            ) by {
                assert(s.drop_last()[a] == s[a]);
                assert(s.drop_last()[b] == s[b]);
            }
        }
        lemma_set_find_sorted(s.drop_last(), k);
        crate::resources::lemma_pv_find_none(s.drop_last(), k);
        assert(s.last() == s[s.len() - 1]);
        assert(forall|j: int| 0 <= j < s.len() - 1 ==> #[trigger] s.drop_last()[j] == s[j]);
        if s.last().0 == k {
            // the last entry is the only one with this key
            assert forall|j: int| 0 <= j < s.len() - 1 implies (#[trigger] s[j]).0 != k by {
                assert(crate::text::lex_lt(s[j].0, s[s.len() - 1].0));
                crate::text::lemma_lex_irrefl(k);
            }
            crate::resources::lemma_pv_find_present(s, k, s.len() - 1);
        } else {
            // the key, if present, sits strictly before the last entry
            if pv_find(s, k) is Some {
                let w = crate::resources::lemma_pv_find_witness(s, k);
                assert(w < s.len() - 1);
                assert(s.drop_last()[w] == s[w]);
                assert forall|j: int| 0 <= j < w implies (#[trigger] s.drop_last()[j]).0 != k by {
                    assert(s.drop_last()[j] == s[j]);
                }
                crate::resources::lemma_pv_find_present(s.drop_last(), k, w);
            } else {
                assert forall|j: int|
                    0 <= j < s.drop_last().len() implies (#[trigger] s.drop_last()[j]).0 != k by {
                    assert(s.drop_last()[j] == s[j]);
                }
            }
        }
    }
}

impl Resource {
    /// A fresh resource with a generated subject under this server.
    pub fn new_generate_subject(store: &mut Db) -> (r: Resource)
        ensures
            (final(store)@ == DbV { next_id: final(store)@.next_id, ..old(store)@ }),
            rv_wf(r@),
            r@.propvals.len() == 0,
            r@.subject.len() > 0,
            crate::text::is_prefix(old(store)@.server_url, r@.subject),
    {
        let counter = store.next_id;
        if store.next_id < u64::MAX {
            store.next_id = store.next_id + 1;
        }
        let subject = store.server_url.clone().concat("/r/").concat(
            u64_to_string(digest_string(
                &store.server_url.clone().concat("/r/").concat(u64_to_string(counter).as_str()),
            )).as_str(),
        );
        proof {
            reveal_strlit("/r/");
            assert(subject@.take(store.server_url@.len() as int) =~= store.server_url@);
        }
        Resource::new(subject)
    }

    /// A fresh instance of the given class: a generated subject under this
    /// server whose `is-a` names the class. The class must be stored and
    /// have a usable (non-empty) subject.
    pub fn new_instance(class: &str, store: &mut Db) -> (r: AtomicResult<Resource>)
        requires
            db_wf(old(store)@),
        ensures
            db_wf(final(store)@),
            r is Ok <==> (res_find(old(store)@.resources, class@) is Some && class@.len() > 0),
            match r {
                Ok(res) => rv_wf(res@) && res@.subject.len() > 0 && crate::text::is_prefix(
                    old(store)@.server_url,
                    res@.subject,
                ) && pv_find(res@.propvals, urls::IS_A@) == Some(
                    ValueV::ResourceArray(seq![class@]),
                ),
                Err(e) => e.kind == ErrorKind::NotFound || e.kind == ErrorKind::SchemaViolation,
            },
    {
        match store.get_propvals(class) {
            Err(e) => Err(e),
            Ok(_) => {
                if class.unicode_len() == 0 {
                    return Err(
                        AtomicError::new(ErrorKind::SchemaViolation, "the class has no subject"),
                    );
                }
                let mut out = Resource::new_generate_subject(store);
                let mut classes: Vec<String> = Vec::new();
                classes.push(String::from_str(class));
                proof {
                    assert(classes.deep_view() =~= seq![class@]);
                    assert(crate::values::arr_elems_nonempty(classes.deep_view()));
                }
                out.set_propval_unsafe(String::from_str(urls::IS_A), Value::ResourceArray(classes));
                Ok(out)
            },
        }
    }

    /// Sets a property after checking the value against the property's
    /// declared datatype; succeeds exactly when the property is stored, the
    /// value's datatype is the declared one, and the value is valid.
    pub fn set_propval(&mut self, property: String, value: Value, store: &Db) -> (r: AtomicResult<
        (),
    >)
        requires
            db_wf(store@),
            rv_wf(old(self)@),
        ensures
            rv_wf(final(self)@),
            final(self)@.subject == old(self)@.subject,
            r is Ok <==> (res_find(store@.resources, property@) is Some && value_dt(value@)
                == prop_schema_dt(store@, property@) && value_valid(value@)),
            match r {
                Ok(()) => pv_find(final(self)@.propvals, property@) == Some(value@)
                    && value_valid(value@) && (forall|k: Seq<char>|
                    k != property@ ==> #[trigger] pv_find(final(self)@.propvals, k) == pv_find(
                        old(self)@.propvals,
                        k,
                    )),
                Err(e) => (e.kind == ErrorKind::NotFound || e.kind == ErrorKind::SchemaViolation)
                    && final(self)@ == old(self)@,
            },
    {
        let prop = match store.get_property(property.as_str()) {
            Ok(p) => p,
            Err(e) => {
                return Err(e);
            },
        };
        let dt = value.datatype();
        let declared = prop.data_type;
        let same = match (dt, declared) {
            (crate::values::DataType::Str, crate::values::DataType::Str) => true,
            (crate::values::DataType::Markdown, crate::values::DataType::Markdown) => true,
            (crate::values::DataType::Slug, crate::values::DataType::Slug) => true,
            (crate::values::DataType::Integer, crate::values::DataType::Integer) => true,
            (crate::values::DataType::Float, crate::values::DataType::Float) => true,
            (crate::values::DataType::Boolean, crate::values::DataType::Boolean) => true,
            (crate::values::DataType::Date, crate::values::DataType::Date) => true,
            (crate::values::DataType::Timestamp, crate::values::DataType::Timestamp) => true,
            (crate::values::DataType::AtomicUrl, crate::values::DataType::AtomicUrl) => true,
            (crate::values::DataType::ResourceArray, crate::values::DataType::ResourceArray) => true,
            (
                crate::values::DataType::NestedResource,
                crate::values::DataType::NestedResource,
            ) => true,
            _ => false,
        };
        if !same {
            return Err(
                AtomicError::new(ErrorKind::SchemaViolation, "value datatype differs from schema"),
            );
        }
        if !value.is_well_formed() {
            return Err(AtomicError::new(ErrorKind::SchemaViolation, "value fails its datatype"));
        }
        self.set_propval_unsafe(property, value);
        Ok(())
    }

    /// Parses and sets a value string under the property's declared
    /// datatype; succeeds exactly when the property is stored and the string
    /// decodes under that datatype, and pins the decoded value.
    pub fn set_propval_string(&mut self, property: String, value: &str, store: &Db) -> (r:
        AtomicResult<()>)
        requires
            db_wf(store@),
            rv_wf(old(self)@),
        ensures
            rv_wf(final(self)@),
            final(self)@.subject == old(self)@.subject,
            r is Ok <==> (res_find(store@.resources, property@) is Some
                && crate::values::value_admissible(value@, prop_schema_dt(store@, property@))),
            match r {
                Ok(()) => ({
                    let dt = prop_schema_dt(store@, property@);
                    &&& (pv_find(final(self)@.propvals, property@) matches Some(v) && value_valid(
                        v,
                    ) && value_dt(v) == dt && (dt == crate::values::DataType::Integer ==> v
                        == ValueV::Integer(crate::text::int_lit_value(value@))) && (dt
                        == crate::values::DataType::Timestamp ==> v == ValueV::Timestamp(
                        crate::text::int_lit_value(value@),
                    )) && (dt != crate::values::DataType::Integer && dt
                        != crate::values::DataType::Timestamp ==> value_string(v) == value@))
                    &&& (forall|k: Seq<char>|
                        k != property@ ==> #[trigger] pv_find(final(self)@.propvals, k) == pv_find(
                            old(self)@.propvals,
                            k,
                        ))
                }),
                Err(e) => (e.kind == ErrorKind::NotFound || e.kind == ErrorKind::SchemaViolation)
                    && final(self)@ == old(self)@,
            },
    {
        let prop = match store.get_property(property.as_str()) {
            Ok(p) => p,
            Err(e) => {
                return Err(e);
            },
        };
        let v = match Value::new(value, &prop.data_type) {
            Ok(v) => v,
            Err(e) => {
                return Err(e);
            },
        };
        self.set_propval_unsafe(property, v);
        Ok(())
    }

    /// Resolves a property by its shortname and sets the parsed value under
    /// it. `NotFound` means no stored property carries the shortname;
    /// `SchemaViolation` means the value fails the found property's
    /// datatype.
    pub fn set_propval_shortname(&mut self, shortname: &str, value: &str, store: &Db) -> (r:
        AtomicResult<()>)
        requires
            db_wf(store@),
            rv_wf(old(self)@),
        ensures
            rv_wf(final(self)@),
            final(self)@.subject == old(self)@.subject,
            r matches Ok(()) ==> (exists|i: int|
                0 <= i < store@.resources.len() && is_property_with_shortname(
                    #[trigger] store@.resources[i],
                    shortname@,
                ) && ({
                    let dt = prop_schema_dt(store@, store@.resources[i].subject);
                    pv_find(final(self)@.propvals, store@.resources[i].subject) matches Some(v)
                        && value_valid(v) && value_dt(v) == dt && (dt
                        == crate::values::DataType::Integer ==> v == ValueV::Integer(
                        crate::text::int_lit_value(value@),
                    )) && (dt == crate::values::DataType::Timestamp ==> v == ValueV::Timestamp(
                        crate::text::int_lit_value(value@),
                    )) && (dt != crate::values::DataType::Integer && dt
                        != crate::values::DataType::Timestamp ==> value_string(v) == value@)
                }) && (forall|k: Seq<char>|
                    k != store@.resources[i].subject ==> #[trigger] pv_find(
                        final(self)@.propvals,
                        k,
                    ) == pv_find(old(self)@.propvals, k))),
            r matches Err(e) ==> (e.kind == ErrorKind::NotFound || e.kind
                == ErrorKind::SchemaViolation) && final(self)@ == old(self)@,
            r matches Err(e) ==> (e.kind == ErrorKind::NotFound ==> (forall|i: int|
                0 <= i < store@.resources.len() ==> !is_property_with_shortname(
                    #[trigger] store@.resources[i],
                    shortname@,
                ))),
            r matches Err(e) ==> (e.kind == ErrorKind::SchemaViolation ==> (exists|i: int|
                0 <= i < store@.resources.len() && is_property_with_shortname(
                    #[trigger] store@.resources[i],
                    shortname@,
                ) && !crate::values::value_admissible(
                    value@,
                    prop_schema_dt(store@, store@.resources[i].subject),
                ))),
    {
        let prop = match store.property_by_shortname(shortname) {
            Ok(p) => p,
            Err(e) => {
                return Err(e);
            },
        };
        let v = match Value::new(value, &prop.data_type) {
            Ok(v) => v,
            Err(e) => {
                proof {
                    let w = choose|i: int|
                        0 <= i < store@.resources.len() && is_property_with_shortname(
                            #[trigger] store@.resources[i],
                            shortname@,
                        ) && store@.resources[i].subject == prop.subject@;
                    assert(!crate::values::value_admissible(
                        value@,
                        prop_schema_dt(store@, store@.resources[w].subject),
                    ));
                }
                return Err(e);
            },
        };
        let ghost prop_subject = prop.subject@;
        self.set_propval_unsafe(prop.subject, v);
        proof {
            let w = choose|i: int|
                0 <= i < store@.resources.len() && is_property_with_shortname(
                    #[trigger] store@.resources[i],
                    shortname@,
                ) && store@.resources[i].subject == prop_subject;
            assert(pv_find(self@.propvals, store@.resources[w].subject) is Some);
        }
        Ok(())
    }

    /// The value this resource stores under the property named by the
    /// shortname. Fails exactly when no stored property carries the
    /// shortname, or this resource does not hold the one found.
    pub fn get_shortname(&self, shortname: &str, store: &Db) -> (r: AtomicResult<Value>)
        requires
            db_wf(store@),
        ensures
            match r {
                Ok(v) => exists|i: int|
                    0 <= i < store@.resources.len() && is_property_with_shortname(
                        #[trigger] store@.resources[i],
                        shortname@,
                    ) && pv_find(self@.propvals, store@.resources[i].subject) == Some(v@),
                Err(e) => e.kind == ErrorKind::NotFound && ((forall|i: int|
                    0 <= i < store@.resources.len() ==> !is_property_with_shortname(
                        #[trigger] store@.resources[i],
                        shortname@,
                    )) || (exists|i: int|
                    0 <= i < store@.resources.len() && is_property_with_shortname(
                        #[trigger] store@.resources[i],
                        shortname@,
                    ) && pv_find(self@.propvals, store@.resources[i].subject) is None)),
            },
    {
        let prop = match store.property_by_shortname(shortname) {
            Ok(p) => p,
            Err(e) => {
                return Err(e);
            },
        };
        match self.get(prop.subject.as_str()) {
            Ok(v) => {
                let out = v.duplicate();
                proof {
                    let w = choose|i: int|
                        0 <= i < store@.resources.len() && is_property_with_shortname(
                            #[trigger] store@.resources[i],
                            shortname@,
                        ) && store@.resources[i].subject == prop.subject@;
                    assert(pv_find(self@.propvals, store@.resources[w].subject) == Some(out@));
                }
                Ok(out)
            },
            Err(e) => Err(e),
        }
    }

    /// Builds, signs and applies the commit that brings the stored target to
    /// this resource's state: sets every propval held here and removes every
    /// stored one absent here.
    #[verifier::rlimit(60)]
    pub fn save_locally(&self, store: &mut Db) -> (r: AtomicResult<Resource>)
        requires
            db_wf(old(store)@),
            rv_wf(self@),
        ensures
            db_wf(final(store)@),
            match r {
                Ok(res) => forall|k: Seq<char>|
                    #[trigger] pv_find(res@.propvals, k) == pv_find(self@.propvals, k),
                Err(_) => final(store)@.resources == old(store)@.resources && final(store)@.index
                    == old(store)@.index && final(store)@.last_created == old(store)@.last_created
                    && final(store)@.last_commit == old(store)@.last_commit,
            },
            r matches Err(e) ==> ((old(store)@.default_agent is None && e.kind
                == ErrorKind::Unauthorized) || (old(store)@.default_agent matches Some(ag) && (
            exists|c: CommitV|
                (#[trigger] c.subject) == self@.subject && c.signer == ag.0 && c.destroy == false
                    && c.set == self@.propvals && c.created_at == save_commit_time(
                    old(store)@.clock,
                ) && c.signature == Some(sig_of(c, ag.1)) && Some(e.kind) == apply_error(
                    save_mid_view(old(store)@),
                    c,
                    save_opts(),
                )))),
            r is Ok ==> (res_find(final(store)@.resources, self@.subject) matches Some(rv) && (
            forall|k: Seq<char>|
                #[trigger] pv_find(rv.propvals, k) == pv_find(self@.propvals, k))),
            r is Ok ==> (exists|cs: Seq<char>|
                (#[trigger] res_find(final(store)@.resources, cs) matches Some(cr) && has_atom(
                    cr,
                    urls::IS_A@,
                    urls::COMMIT@,
                )) && pv_find(final(store)@.last_commit, self@.subject) == Some(
                    ValueV::AtomicUrl(cs),
                )),
            r is Ok ==> final(store)@.server_url == old(store)@.server_url,
            r is Ok ==> final(store)@.default_agent == old(store)@.default_agent,
    {
        let agent = match store.get_default_agent() {
            Ok(a) => a,
            Err(e) => {
                return Err(e);
            },
        };
        let created_at_raw = store.tick();
        let created_at: i64 = if created_at_raw < 0 {
            0
        } else {
            created_at_raw
        };
        // the set list: everything this resource holds, in sorted order
        let mut set: Vec<PropVal> = Vec::new();
        let mut i: usize = 0;
        proof {
            assert(set.deep_view() =~= self@.propvals.take(0));
        }
        while i < self.propvals.len()
            invariant
                i <= self.propvals.len(),
                set.deep_view() == self@.propvals.take(i as int),
            decreases self.propvals.len() - i,
        {
            let pv = PropVal {
                property: self.propvals[i].property.clone(),
                value: self.propvals[i].value.duplicate(),
            };
            set.push(pv);
            proof {
                assert(self@.propvals.take(i + 1) =~= self@.propvals.take(i as int).push(
                    self@.propvals[i as int],
                ));
                assert(set.deep_view() =~= self@.propvals.take(i + 1));
            }
            i = i + 1;
        }
        proof {
            assert(self@.propvals.take(self.propvals.len() as int) =~= self@.propvals);
        }
        // the remove list: stored keys this resource no longer holds
        let mut remove: Vec<String> = Vec::new();
        let stored = match store.get_propvals(self.subject.as_str()) {
            Ok(sr) => Some(sr),
            Err(_) => None,
        };
        match &stored {
            Some(sr) => {
                let mut j: usize = 0;
                while j < sr.propvals.len()
                    invariant
                        j <= sr.propvals.len(),
                        forall|jj: int|
                            0 <= jj < j && pv_find(
                                self@.propvals,
                                (#[trigger] sr@.propvals[jj]).0,
                            ) is None ==> remove.deep_view().contains(sr@.propvals[jj].0),
                    decreases sr.propvals.len() - j,
                {
                    let key = &sr.propvals[j].property;
                    let absent = match self.get(key.as_str()) {
                        Ok(_) => false,
                        Err(_) => true,
                    };
                    let ghost old_deep = remove.deep_view();
                    if absent {
                        remove.push(key.clone());
                        proof {
                            assert(remove.deep_view() =~= old_deep.push(key@));
                        }
                    }
                    proof {
                        assert forall|jj: int|
                            0 <= jj < j + 1 && pv_find(
                                self@.propvals,
                                (#[trigger] sr@.propvals[jj]).0,
                            ) is None implies remove.deep_view().contains(sr@.propvals[jj].0) by {
                            if absent {
                                crate::store::lemma_contains_push(
                                    old_deep,
                                    key@,
                                    sr@.propvals[jj].0,
                                );
                            }
                        }
                    }
                    j = j + 1;
                }
            },
            None => {},
        }
        // the previous commit stored for this target, if any
        let previous_commit = match store.last_commit.get(self.subject.as_str()) {
            Ok(v) => match v {
                Value::AtomicUrl(u) => Some(u.clone()),
                _ => None,
            },
            Err(_) => None,
        };
        let mut commit = Commit {
            subject: self.subject.clone(),
            created_at,
            signer: agent.subject.clone(),
            set,
            remove,
            destroy: false,
            previous_commit,
            signature: None,
        };
        commit.sign(&agent.public_key);
        let ghost cv = commit@;
        let opts = CommitOpts {
            validate_signature: true,
            validate_timestamp: true,
            validate_rights: false,
            validate_previous_commit: true,
        };
        let ghost dmid = store@;
        match commit.apply(store, &opts) {
            Ok(res) => {
                proof {
                    let cs = commit_stored_subject(cv, dmid.server_url);
                    assert(res_find(store@.resources, cs) is Some && has_atom(
                        res_find(store@.resources, cs)->0,
                        urls::IS_A@,
                        urls::COMMIT@,
                    ));
                    assert(pv_find(store@.last_commit, cv.subject) == Some(ValueV::AtomicUrl(cs)));
                    assert forall|k: Seq<char>|
                        #[trigger] pv_find(res@.propvals, k) == pv_find(self@.propvals, k) by {
                        assert(pv_find(res@.propvals, k) == apply_find(dmid, cv, k));
                        lemma_set_find_sorted(cv.set, k);
                        if pv_find(self@.propvals, k) is None {
                            if !cv.remove.contains(k) {
                                match res_find(dmid.resources, cv.subject) {
                                    Some(rv) => {
                                        if pv_find(rv.propvals, k) is Some {
                                            let w = crate::resources::lemma_pv_find_witness(
                                                rv.propvals,
                                                k,
                                            );
                                            assert(pv_find(
                                                self@.propvals,
                                                rv.propvals[w].0,
                                            ) is None);
                                            assert(stored matches Some(sr) && sr@ == rv);
                                        }
                                    },
                                    None => {},
                                }
                            }
                        }
                    }
                    let stored_rv = res_find(store@.resources, cv.subject)->0;
                    assert forall|k: Seq<char>|
                        #[trigger] pv_find(stored_rv.propvals, k) == pv_find(
                        self@.propvals,
                        k,
                    ) by {
                        assert(pv_find(stored_rv.propvals, k) == apply_find(dmid, cv, k));
                        assert(pv_find(res@.propvals, k) == apply_find(dmid, cv, k));
                        assert(pv_find(res@.propvals, k) == pv_find(self@.propvals, k));
                    }
                }
                Ok(res)
            },
            Err(e) => {
                proof {
                    let ag = old(store)@.default_agent->0;
                    assert(cv.subject == self@.subject);
                    assert(cv.signer == ag.0);
                    assert(cv.set == self@.propvals);
                    assert(cv.created_at == save_commit_time(old(store)@.clock));
                    assert(cv.signature == Some(sig_of(cv, ag.1)));
                    assert(dmid == save_mid_view(old(store)@));
                    assert(opts == save_opts());
                    assert(Some(e.kind) == apply_error(save_mid_view(old(store)@), cv, save_opts()));
                }
                Err(e)
            },
        }
    }

    /// As `save_locally`: commits this resource's state to the store.
    pub fn save(&self, store: &mut Db) -> (r: AtomicResult<Resource>)
        requires
            db_wf(old(store)@),
            rv_wf(self@),
        ensures
            db_wf(final(store)@),
            match r {
                Ok(res) => forall|k: Seq<char>|
                    #[trigger] pv_find(res@.propvals, k) == pv_find(self@.propvals, k),
                Err(_) => final(store)@.resources == old(store)@.resources && final(store)@.index
                    == old(store)@.index && final(store)@.last_created == old(store)@.last_created
                    && final(store)@.last_commit == old(store)@.last_commit,
            },
            r matches Err(e) ==> ((old(store)@.default_agent is None && e.kind
                == ErrorKind::Unauthorized) || (old(store)@.default_agent matches Some(ag) && (
            exists|c: CommitV|
                (#[trigger] c.subject) == self@.subject && c.signer == ag.0 && c.destroy == false
                    && c.set == self@.propvals && c.created_at == save_commit_time(
                    old(store)@.clock,
                ) && c.signature == Some(sig_of(c, ag.1)) && Some(e.kind) == apply_error(
                    save_mid_view(old(store)@),
                    c,
                    save_opts(),
                )))),
            r is Ok ==> (res_find(final(store)@.resources, self@.subject) matches Some(rv) && (
            forall|k: Seq<char>|
                #[trigger] pv_find(rv.propvals, k) == pv_find(self@.propvals, k))),
            r is Ok ==> (exists|cs: Seq<char>|
                (#[trigger] res_find(final(store)@.resources, cs) matches Some(cr) && has_atom(
                    cr,
                    urls::IS_A@,
                    urls::COMMIT@,
                )) && pv_find(final(store)@.last_commit, self@.subject) == Some(
                    ValueV::AtomicUrl(cs),
                )),
            r is Ok ==> final(store)@.server_url == old(store)@.server_url,
            r is Ok ==> final(store)@.default_agent == old(store)@.default_agent,
    {
        self.save_locally(store)
    }

    /// Destroys the stored resource through a signed commit: its propvals
    /// and every index entry for its subject go away, and the commit itself
    /// is appended.
    pub fn destroy(&self, store: &mut Db) -> (r: AtomicResult<()>)
        requires
            db_wf(old(store)@),
        ensures
            db_wf(final(store)@),
            r is Ok ==> res_find(final(store)@.resources, self@.subject) is None,
            r is Ok ==> (forall|t: (Seq<char>, Seq<char>, Seq<char>)|
                t.2 == self@.subject ==> !final(store)@.index.contains(t)),
            r is Ok ==> (exists|cs: Seq<char>|
                (#[trigger] res_find(final(store)@.resources, cs) matches Some(cr) && has_atom(
                    cr,
                    urls::IS_A@,
                    urls::COMMIT@,
                )) && pv_find(final(store)@.last_commit, self@.subject) == Some(
                    ValueV::AtomicUrl(cs),
                )),
            (r is Err ==> final(store)@.resources == old(store)@.resources),
            (r is Err ==> final(store)@.index == old(store)@.index),
            (r is Err ==> final(store)@.last_created == old(store)@.last_created),
            (r is Err ==> final(store)@.last_commit == old(store)@.last_commit),
            r matches Err(e) ==> ((old(store)@.default_agent is None && e.kind
                == ErrorKind::Unauthorized) || (old(store)@.default_agent matches Some(ag) && (
            exists|c: CommitV|
                (#[trigger] c.subject) == self@.subject && c.signer == ag.0 && c.destroy == true
                    && c.set == Seq::<(Seq<char>, ValueV)>::empty() && c.remove == Seq::<
                    Seq<char>,
                >::empty() && c.created_at == save_commit_time(old(store)@.clock) && c.signature
                    == Some(sig_of(c, ag.1)) && Some(e.kind) == apply_error(
                    save_mid_view(old(store)@),
                    c,
                    save_opts(),
                )))),
    {
        let agent = match store.get_default_agent() {
            Ok(a) => a,
            Err(e) => {
                return Err(e);
            },
        };
        let created_at_raw = store.tick();
        let created_at: i64 = if created_at_raw < 0 {
            0
        } else {
            created_at_raw
        };
        let previous_commit = match store.last_commit.get(self.subject.as_str()) {
            Ok(v) => match v {
                Value::AtomicUrl(u) => Some(u.clone()),
                _ => None,
            },
            Err(_) => None,
        };
        let mut commit = Commit {
            subject: self.subject.clone(),
            created_at,
            signer: agent.subject.clone(),
            set: Vec::new(),
            remove: Vec::new(),
            destroy: true,
            previous_commit,
            signature: None,
        };
        commit.sign(&agent.public_key);
        let ghost cv = commit@;
        let ghost dmid = store@;
        let opts = CommitOpts {
            validate_signature: true,
            validate_timestamp: true,
            validate_rights: false,
            validate_previous_commit: true,
        };
        match commit.apply(store, &opts) {
            Ok(_) => {
                proof {
                    let cs = commit_stored_subject(cv, dmid.server_url);
                    assert(res_find(store@.resources, cs) is Some && has_atom(
                        res_find(store@.resources, cs)->0,
                        urls::IS_A@,
                        urls::COMMIT@,
                    ));
                    assert(pv_find(store@.last_commit, cv.subject) == Some(ValueV::AtomicUrl(cs)));
                }
                Ok(())
            },
            Err(e) => {
                proof {
                    let ag = old(store)@.default_agent->0;
                    assert(cv.set =~= Seq::<(Seq<char>, ValueV)>::empty());
                    assert(cv.remove =~= Seq::<Seq<char>>::empty());
                    assert(cv.subject == self@.subject);
                    assert(cv.signer == ag.0);
                    assert(cv.created_at == save_commit_time(old(store)@.clock));
                    assert(cv.signature == Some(sig_of(cv, ag.1)));
                    assert(dmid == save_mid_view(old(store)@));
                    assert(opts == save_opts());
                    assert(Some(e.kind) == apply_error(save_mid_view(old(store)@), cv, save_opts()));
                }
                Err(e)
            },
        }
    }
}

} // verus!
