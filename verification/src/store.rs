//! The store: resources, the triple-pattern index, and the commit bookkeeping
//! that the pipeline maintains.

use vstd::prelude::*;
use crate::atoms::Atom;
use crate::errors::{AtomicError, AtomicResult, ErrorKind};
use crate::resources::{pv_find, pv_values_valid, rv_wf, Resource, ResourceV};
use crate::text::{is_prefix, str_eq, str_starts_with};
use crate::values::{value_string, Value, ValueV};

verus! {

/// One entry of the triple-pattern index: `(property, value string, subject)`.
#[derive(Clone, Debug)]
pub struct IndexAtom {
    pub property: String,
    pub value: String,
    pub subject: String,
}

impl View for IndexAtom {
    type V = (Seq<char>, Seq<char>, Seq<char>);

    open spec fn view(&self) -> (Seq<char>, Seq<char>, Seq<char>) {
        (self.property@, self.value@, self.subject@)
    }
}

impl DeepView for IndexAtom {
    type V = (Seq<char>, Seq<char>, Seq<char>);

    open spec fn deep_view(&self) -> (Seq<char>, Seq<char>, Seq<char>) {
        self.view()
    }
}

impl IndexAtom {
    /// A copy with the same parts.
    pub fn duplicate_entry(&self) -> (r: IndexAtom)
        ensures
            r@ == self@,
    {
        IndexAtom {
            property: self.property.clone(),
            value: self.value.clone(),
            subject: self.subject.clone(),
        }
    }
}

/// An identity: a subject URL and the key it signs with.
#[derive(Clone, Debug)]
pub struct Agent {
    pub subject: String,
    pub public_key: String,
    pub name: Option<String>,
}

impl Agent {
    /// A copy with the same fields.
    pub fn duplicate(&self) -> (r: Agent)
        ensures
            r.subject@ == self.subject@,
            r.public_key@ == self.public_key@,
            match (r.name, self.name) {
                (None, None) => true,
                (Some(a), Some(b)) => a@ == b@,
                _ => false,
            },
    {
        Agent {
            subject: self.subject.clone(),
            public_key: self.public_key.clone(),
            name: match &self.name {
                Some(n) => Some(n.clone()),
                None => None,
            },
        }
    }
}

/// The mathematical shape of the store.
pub struct DbV {
    pub server_url: Seq<char>,
    pub resources: Seq<ResourceV>,
    pub index: Seq<(Seq<char>, Seq<char>, Seq<char>)>,
    pub clock: int,
    pub next_id: int,
    pub last_created: Seq<(Seq<char>, ValueV)>,
    pub last_commit: Seq<(Seq<char>, ValueV)>,
    pub default_agent: Option<(Seq<char>, Seq<char>)>,
}

/// The resource under `subject`, scanning left to right.
pub open spec fn res_find(rs: Seq<ResourceV>, subject: Seq<char>) -> Option<ResourceV>
    decreases rs.len(),
{
    if rs.len() == 0 {
        None
    } else if rs[0].subject == subject {
        Some(rs[0])
    } else {
        res_find(rs.skip(1), subject)
    }
}

/// Finding at a witness index: the first occurrence decides.
pub proof fn lemma_res_find_present(rs: Seq<ResourceV>, subject: Seq<char>, i: int)
    requires
        0 <= i < rs.len(),
        rs[i].subject == subject,
        forall|j: int| 0 <= j < i ==> (#[trigger] rs[j]).subject != subject,
    ensures
        res_find(rs, subject) == Some(rs[i]),
    decreases i,
{
    if i > 0 {
        assert forall|j: int| 0 <= j < i - 1 implies (#[trigger] rs.skip(1)[j]).subject
            != subject by {
            assert(rs.skip(1)[j] == rs[j + 1]);
        }
        assert(rs.skip(1)[i - 1] == rs[i]);
        lemma_res_find_present(rs.skip(1), subject, i - 1);
    }
}

/// Finding nothing means the subject is nowhere.
pub proof fn lemma_res_find_none(rs: Seq<ResourceV>, subject: Seq<char>)
    ensures
        (res_find(rs, subject) is None) <==> (forall|i: int|
            0 <= i < rs.len() ==> (#[trigger] rs[i]).subject != subject),
    decreases rs.len(),
{
    if rs.len() > 0 {
        lemma_res_find_none(rs.skip(1), subject);
        if rs[0].subject != subject {
            if res_find(rs, subject) is None {
                assert forall|i: int|
                    0 <= i < rs.len() implies (#[trigger] rs[i]).subject != subject by {
                    if i > 0 {
                        assert(rs.skip(1)[i - 1] == rs[i]);
                    }
                }
            } else {
                let w = choose|i: int|
                    0 <= i < rs.skip(1).len() && (#[trigger] rs.skip(1)[i]).subject == subject;
                assert(rs[w + 1].subject == subject);
            }
        }
    }
}

/// A found resource has a witness index, before which the subject is absent.
pub proof fn lemma_res_find_witness(rs: Seq<ResourceV>, subject: Seq<char>) -> (i: int)
    requires
        res_find(rs, subject) is Some,
    ensures
        0 <= i < rs.len(),
        rs[i].subject == subject,
        rs[i] == res_find(rs, subject)->0,
        forall|j: int| 0 <= j < i ==> (#[trigger] rs[j]).subject != subject,
    decreases rs.len(),
{
    if rs[0].subject == subject {
        0
    } else {
        let w = lemma_res_find_witness(rs.skip(1), subject);
        assert forall|j: int| 0 <= j < w + 1 implies (#[trigger] rs[j]).subject != subject by {
            if j > 0 {
                assert(rs.skip(1)[j - 1] == rs[j]);
            }
        }
        assert(rs.skip(1)[w] == rs[w + 1]);
        w + 1
    }
}

/// Whether the value carries the given value string: equal to its string
/// form, or one member of a resource array.
pub open spec fn val_has_string(v: ValueV, vs: Seq<char>) -> bool {
    match v {
        ValueV::ResourceArray(a) => a.contains(vs),
        _ => value_string(v) == vs,
    }
}

/// Whether the resource holds the atom `(property, value string)`.
pub open spec fn has_atom(rv: ResourceV, p: Seq<char>, vs: Seq<char>) -> bool {
    exists|k: int|
        0 <= k < rv.propvals.len() && (#[trigger] rv.propvals[k]).0 == p && val_has_string(
            rv.propvals[k].1,
            vs,
        )
}

/// Whether a subject lies under this server: its URL begins with the server
/// URL. An atom whose subject does not is external.
pub open spec fn subject_internal(server: Seq<char>, subject: Seq<char>) -> bool {
    is_prefix(server, subject)
}

/// Well-formedness of the store: every resource well-formed, subjects unique,
/// index entries unique, and every atom of every resource present in the
/// index (the index may hold more: raw entries can be injected).
pub open spec fn db_wf(d: DbV) -> bool {
    &&& (forall|i: int| 0 <= i < d.resources.len() ==> rv_wf(#[trigger] d.resources[i]))
    &&& (forall|i: int, j: int|
        0 <= i < j < d.resources.len() ==> (#[trigger] d.resources[i]).subject != (
        #[trigger] d.resources[j]).subject)
    &&& (forall|i: int, j: int|
        0 <= i < j < d.index.len() ==> #[trigger] d.index[i] != #[trigger] d.index[j])
    &&& (forall|i: int, p: Seq<char>, vs: Seq<char>|
        0 <= i < d.resources.len() && #[trigger] has_atom(d.resources[i], p, vs)
            ==> d.index.contains((p, vs, d.resources[i].subject)))
    &&& crate::resources::pv_sorted(d.last_created) && pv_values_valid(d.last_created)
    &&& crate::resources::pv_sorted(d.last_commit) && pv_values_valid(d.last_commit)
}

/// The store: an in-memory, index-maintaining resource database.
#[derive(Clone, Debug)]
pub struct Db {
    pub server_url: String,
    pub resources: Vec<Resource>,
    pub index: Vec<IndexAtom>,
    pub clock_ms: i64,
    pub next_id: u64,
    pub last_created: Resource,
    pub last_commit: Resource,
    pub default_agent: Option<Agent>,
}

impl View for Db {
    type V = DbV;

    open spec fn view(&self) -> DbV {
        DbV {
            server_url: self.server_url@,
            resources: self.resources.deep_view(),
            index: self.index.deep_view(),
            clock: self.clock_ms as int,
            next_id: self.next_id as int,
            last_created: self.last_created@.propvals,
            last_commit: self.last_commit@.propvals,
            default_agent: match self.default_agent {
                Some(a) => Some((a.subject@, a.public_key@)),
                None => None,
            },
        }
    }
}

impl DeepView for Resource {
    type V = ResourceV;

    open spec fn deep_view(&self) -> ResourceV {
        self.view()
    }
}

impl Db {
    /// An empty store for the given server URL. Bring it to life with
    /// `create_agent`, `set_default_agent` and `populate`.
    pub fn init(server_url: &str) -> (db: Db)
        ensures
            db@.server_url == server_url@,
            db@.resources.len() == 0,
            db@.index.len() == 0,
            db@.clock == 0,
            db@.next_id == 0,
            db@.last_created.len() == 0,
            db@.last_commit.len() == 0,
            db@.default_agent is None,
            db_wf(db@),
    {
        let db = Db {
            server_url: String::from_str(server_url),
            resources: Vec::new(),
            index: Vec::new(),
            clock_ms: 0,
            next_id: 0,
            last_created: Resource::new(String::from_str(server_url)),
            last_commit: Resource::new(String::from_str(server_url)),
            default_agent: None,
        };
        proof {
            assert(db@.resources =~= Seq::<ResourceV>::empty());
            assert(db@.index =~= Seq::<(Seq<char>, Seq<char>, Seq<char>)>::empty());
        }
        db
    }

    /// The server URL this store answers for.
    pub fn get_server_url(&self) -> (r: &String)
        ensures
            r@ == self@.server_url,
    {
        &self.server_url
    }

    /// The position of the subject's resource, if stored.
    fn find_resource_index(&self, subject: &String) -> (r: Option<usize>)
        ensures
            match r {
                Some(i) => i < self@.resources.len() && self@.resources[i as int].subject
                    == subject@ && res_find(self@.resources, subject@) == Some(
                    self@.resources[i as int],
                ),
                None => res_find(self@.resources, subject@) is None,
            },
    {
        let ghost rs = self@.resources;
        let mut i: usize = 0;
        loop
            invariant
                i <= self.resources.len(),
                rs == self@.resources,
                forall|j: int| 0 <= j < i ==> (#[trigger] rs[j]).subject != subject@,
            decreases self.resources.len() - i,
        {
            if i == self.resources.len() {
                proof {
                    lemma_res_find_none(rs, subject@);
                }
                return None;
            }
            if str_eq(&self.resources[i].subject, subject) {
                proof {
                    lemma_res_find_present(rs, subject@, i as int);
                }
                return Some(i);
            }
            i = i + 1;
        }
    }

    /// The stored propvals of a subject, or `NotFound`.
    pub fn get_propvals(&self, subject: &str) -> (r: AtomicResult<Resource>)
        ensures
            match r {
                Ok(res) => res_find(self@.resources, subject@) == Some(res@),
                Err(e) => e.kind == ErrorKind::NotFound && res_find(
                    self@.resources,
                    subject@,
                ) is None,
            },
    {
        let key = String::from_str(subject);
        match self.find_resource_index(&key) {
            Some(i) => {
                let out = self.resources[i].duplicate();
                proof {
                    assert(out@ =~= self@.resources[i as int]);
                }
                Ok(out)
            },
            None => Err(AtomicError::new(ErrorKind::NotFound, "subject not in store")),
        }
    }

    /// As `get_propvals`: the stored resource for a subject.
    pub fn get_resource(&self, subject: &str) -> (r: AtomicResult<Resource>)
        ensures
            match r {
                Ok(res) => res_find(self@.resources, subject@) == Some(res@),
                Err(e) => e.kind == ErrorKind::NotFound && res_find(
                    self@.resources,
                    subject@,
                ) is None,
            },
    {
        self.get_propvals(subject)
    }

    /// Every stored resource, each exactly once; with `include_external`
    /// false, only those whose subject lies under this server.
    pub fn all_resources(&self, include_external: bool) -> (out: Vec<Resource>)
        requires
            db_wf(self@),
        ensures
            forall|rv: ResourceV|
                #[trigger] out.deep_view().contains(rv) <==> (self@.resources.contains(rv) && (
                include_external || subject_internal(self@.server_url, rv.subject))),
            forall|a: int, b: int|
                0 <= a < b < out.len() ==> (#[trigger] out.deep_view()[a]).subject != (
                #[trigger] out.deep_view()[b]).subject,
    {
        let mut out: Vec<Resource> = Vec::new();
        let mut i: usize = 0;
        while i < self.resources.len()
            invariant
                i <= self.resources.len(),
                db_wf(self@),
                forall|rv: ResourceV|
                    #[trigger] out.deep_view().contains(rv) <==> (self@.resources.take(
                        i as int,
                    ).contains(rv) && (include_external || subject_internal(
                        self@.server_url,
                        rv.subject,
                    ))),
                forall|j2: int|
                    0 <= j2 < out.len() ==> (exists|j: int|
                        0 <= j < i && self@.resources[j] == #[trigger] out.deep_view()[j2]),
                forall|a: int, b: int|
                    0 <= a < b < out.len() ==> (#[trigger] out.deep_view()[a]).subject != (
                    #[trigger] out.deep_view()[b]).subject,
            decreases self.resources.len() - i,
        {
            let keep = if include_external {
                true
            } else {
                str_starts_with(&self.resources[i].subject, &self.server_url)
            };
            let ghost old_deep = out.deep_view();
            if keep {
                out.push(self.resources[i].duplicate());
                proof {
                    assert(out.deep_view() =~= old_deep.push(self@.resources[i as int]));
                    assert forall|j2: int|
                        0 <= j2 < out.len() implies (exists|j: int|
                        0 <= j < i + 1 && self@.resources[j] == #[trigger] out.deep_view()[j2]) by {
                        if j2 < old_deep.len() {
                            let j = choose|j: int|
                                0 <= j < i && self@.resources[j] == #[trigger] old_deep[j2];
                            assert(self@.resources[j] == out.deep_view()[j2]);
                        } else {
                            assert(self@.resources[i as int] == out.deep_view()[j2]);
                        }
                    }
                    assert forall|a: int, b: int|
                        0 <= a < b < out.len() implies (#[trigger] out.deep_view()[a]).subject != (
                    #[trigger] out.deep_view()[b]).subject by {
                        if b == out.len() - 1 {
                            let j = choose|j: int|
                                0 <= j < i && self@.resources[j] == #[trigger] old_deep[a];
                            assert(self@.resources[j].subject
                                != self@.resources[i as int].subject);
                        }
                    }
                }
            }
            proof {
                let cur = self@.resources[i as int];
                assert(self@.resources.take(i as int).push(cur) =~= self@.resources.take(i + 1));
                assert forall|rv: ResourceV| #[trigger]
                    out.deep_view().contains(rv) <==> (self@.resources.take(i + 1).contains(rv) && (
                include_external || subject_internal(self@.server_url, rv.subject))) by {
                    lemma_contains_push(self@.resources.take(i as int), cur, rv);
                    if keep {
                        lemma_contains_push(old_deep, cur, rv);
                    }
                }
            }
            i = i + 1;
        }
        proof {
            assert(self@.resources.take(self.resources.len() as int) =~= self@.resources);
        }
        out
    }
}

/// Whether two strings match with an optional pattern: a missing pattern
/// matches everything.
pub open spec fn opt_match(q: Option<Seq<char>>, s: Seq<char>) -> bool {
    match q {
        Some(p) => p == s,
        None => true,
    }
}

/// Whether an index triple matches a triple pattern and the external filter.
pub open spec fn tpf_match(
    t: (Seq<char>, Seq<char>, Seq<char>),
    qs: Option<Seq<char>>,
    qp: Option<Seq<char>>,
    qv: Option<Seq<char>>,
    include_external: bool,
    server: Seq<char>,
) -> bool {
    &&& opt_match(qs, t.2)
    &&& opt_match(qp, t.0)
    &&& opt_match(qv, t.1)
    &&& (include_external || subject_internal(server, t.2))
}

impl Db {
    /// Whether the index holds the triple.
    fn index_has(&self, property: &String, value: &String, subject: &String) -> (r: bool)
        ensures
            r == self@.index.contains((property@, value@, subject@)),
    {
        let ghost idx = self@.index;
        let mut i: usize = 0;
        loop
            invariant
                i <= self.index.len(),
                idx == self@.index,
                forall|j: int| 0 <= j < i ==> #[trigger] idx[j] != (property@, value@, subject@),
            decreases self.index.len() - i,
        {
            if i == self.index.len() {
                proof {
                    if idx.contains((property@, value@, subject@)) {
                        let w = choose|j: int|
                            0 <= j < idx.len() && idx[j] == (property@, value@, subject@);
                    }
                }
                return false;
            }
            let e = &self.index[i];
            if str_eq(&e.property, property) && str_eq(&e.value, value) && str_eq(
                &e.subject,
                subject,
            ) {
                proof {
                    assert(idx[i as int] == (property@, value@, subject@));
                }
                return true;
            }
            i = i + 1;
        }
    }

    /// Adds a triple to the index unless already present. The atom need not
    /// correspond to any stored resource: this is the raw maintenance hook.
    pub fn add_atom_to_index(&mut self, atom: &Atom, _resource: &Resource) -> (r: AtomicResult<
        (),
    >)
        requires
            db_wf(old(self)@),
        ensures
            r is Ok,
            db_wf(final(self)@),
            final(self)@.resources == old(self)@.resources,
            final(self)@.server_url == old(self)@.server_url,
            final(self)@.clock == old(self)@.clock,
            final(self)@.last_created == old(self)@.last_created,
            final(self)@.last_commit == old(self)@.last_commit,
            final(self)@.default_agent == old(self)@.default_agent,
            forall|t: (Seq<char>, Seq<char>, Seq<char>)|
                #[trigger] final(self)@.index.contains(t) <==> (old(self)@.index.contains(t) || t
                    == atom@),
    {
        let present = self.index_has(&atom.property, &atom.value, &atom.subject);
        if present {
            proof {
                assert forall|t: (Seq<char>, Seq<char>, Seq<char>)|
                    #[trigger] self@.index.contains(t) <==> (self@.index.contains(t) || t
                        == atom@) by {}
            }
            return Ok(());
        }
        let ghost old_idx = self@.index;
        self.index.push(
            IndexAtom {
                property: atom.property.clone(),
                value: atom.value.clone(),
                subject: atom.subject.clone(),
            },
        );
        proof {
            assert(self@.index =~= old_idx.push(atom@));
            assert forall|t: (Seq<char>, Seq<char>, Seq<char>)|
                #[trigger] self@.index.contains(t) <==> (old_idx.contains(t) || t == atom@) by {
                lemma_contains_push(old_idx, atom@, t);
            }
            assert forall|i: int, j: int|
                0 <= i < j < self@.index.len() implies #[trigger] self@.index[i]
                != #[trigger] self@.index[j] by {
                if j == self@.index.len() - 1 {
                    if self@.index[i] == atom@ {
                        assert(old_idx.contains(atom@)) by {
                            assert(old_idx[i] == atom@);
                        }
                    }
                }
            }
            assert(self@.resources == old(self)@.resources);
            assert forall|i: int, p: Seq<char>, vs: Seq<char>|
                0 <= i < self@.resources.len() && #[trigger] has_atom(self@.resources[i], p, vs)
                implies self@.index.contains((p, vs, self@.resources[i].subject)) by {
                assert(has_atom(old(self)@.resources[i], p, vs));
                assert(old_idx.contains((p, vs, old(self)@.resources[i].subject)));
                lemma_contains_push(old_idx, atom@, (p, vs, self@.resources[i].subject));
            }
        }
        Ok(())
    }

    /// Removes a raw triple from the index. An entry that a stored
    /// resource's atoms derive is refused: the write path owns it.
    pub fn remove_atom_from_index(&mut self, atom: &Atom, _resource: &Resource) -> (r:
        AtomicResult<()>)
        requires
            db_wf(old(self)@),
        ensures
            db_wf(final(self)@),
            match r {
                Ok(()) => {
                    &&& (forall|t: (Seq<char>, Seq<char>, Seq<char>)|
                        #[trigger] final(self)@.index.contains(t) <==> (old(
                            self,
                        )@.index.contains(t) && t != atom@))
                    &&& final(self)@.resources == old(self)@.resources
                    &&& final(self)@.server_url == old(self)@.server_url
                    &&& final(self)@.clock == old(self)@.clock
                    &&& final(self)@.last_created == old(self)@.last_created
                    &&& final(self)@.last_commit == old(self)@.last_commit
                    &&& final(self)@.default_agent == old(self)@.default_agent
                },
                Err(e) => e.kind == ErrorKind::Other && final(self)@ == old(self)@ && (res_find(
                    old(self)@.resources,
                    atom.subject@,
                ) matches Some(rv) && has_atom(rv, atom.property@, atom.value@)),
            },
    {
        let ghost oldv = self@;
        // refuse to strip an entry the stored resource still derives
        let key = atom.subject.clone();
        match self.find_resource_index(&key) {
            Some(i) => {
                let atoms = Self::collect_atoms(&self.resources[i]);
                let probe = IndexAtom {
                    property: atom.property.clone(),
                    value: atom.value.clone(),
                    subject: atom.subject.clone(),
                };
                if vec_index_has(&atoms, &probe) {
                    return Err(
                        AtomicError::new(
                            ErrorKind::Other,
                            "the entry is derived from a stored resource",
                        ),
                    );
                }
            },
            None => {},
        }
        let ghost old_idx = self@.index;
        let mut kept: Vec<IndexAtom> = Vec::new();
        let mut i: usize = 0;
        proof {
            assert(kept.deep_view() =~= Seq::<(Seq<char>, Seq<char>, Seq<char>)>::empty());
        }
        while i < self.index.len()
            invariant
                i <= self.index.len(),
                old_idx == self@.index,
                forall|t: (Seq<char>, Seq<char>, Seq<char>)|
                    #[trigger] kept.deep_view().contains(t) <==> (old_idx.take(i as int).contains(
                        t,
                    ) && t != atom@),
                forall|a: int, b: int|
                    0 <= a < b < kept.deep_view().len() ==> #[trigger] kept.deep_view()[a]
                        != #[trigger] kept.deep_view()[b],
            decreases self.index.len() - i,
        {
            let e = &self.index[i];
            let ghost old_deep = kept.deep_view();
            let ghost cur = old_idx[i as int];
            let same = str_eq(&e.property, &atom.property) && str_eq(&e.value, &atom.value)
                && str_eq(&e.subject, &atom.subject);
            if !same {
                let dup = vec_index_has(&kept, e);
                if !dup {
                    kept.push(e.duplicate_entry());
                    proof {
                        assert(kept.deep_view() =~= old_deep.push(cur));
                        assert forall|a: int, b: int|
                            0 <= a < b < kept.deep_view().len() implies #[trigger] kept.deep_view()[a]
                            != #[trigger] kept.deep_view()[b] by {
                            if b == kept.deep_view().len() - 1 {
                                if kept.deep_view()[a] == cur {
                                    assert(old_deep.contains(cur)) by {
                                        assert(old_deep[a] == cur);
                                    }
                                }
                            }
                        }
                    }
                }
            }
            proof {
                assert(old_idx.take(i + 1) =~= old_idx.take(i as int).push(cur));
                assert forall|t: (Seq<char>, Seq<char>, Seq<char>)|
                    #[trigger] kept.deep_view().contains(t) <==> (old_idx.take(i + 1).contains(t)
                        && t != atom@) by {
                    lemma_contains_push(old_idx.take(i as int), cur, t);
                    if cur != atom@ {
                        if kept.deep_view() != old_deep {
                            lemma_contains_push(old_deep, cur, t);
                        }
                    }
                }
            }
            i = i + 1;
        }
        proof {
            assert(old_idx.take(self.index.len() as int) =~= old_idx);
        }
        self.index = kept;
        proof {
            assert forall|i2: int, p: Seq<char>, vs: Seq<char>|
                0 <= i2 < self@.resources.len() && #[trigger] has_atom(self@.resources[i2], p, vs)
                implies self@.index.contains((p, vs, self@.resources[i2].subject)) by {
                let cur = self@.resources[i2];
                assert(has_atom(oldv.resources[i2], p, vs));
                assert(oldv.index.contains((p, vs, cur.subject)));
                if (p, vs, cur.subject) == atom@ {
                    assert(cur.subject == atom.subject@);
                    assert forall|j: int|
                        0 <= j < i2 implies (#[trigger] oldv.resources[j]).subject
                        != cur.subject by {}
                    lemma_res_find_present(oldv.resources, cur.subject, i2);
                }
            }
        }
        Ok(())
    }

    /// All index atoms a resource gives rise to: one per value string, with
    /// resource arrays expanded one entry per member.
    fn collect_atoms(r: &Resource) -> (out: Vec<IndexAtom>)
        ensures
            forall|t: (Seq<char>, Seq<char>, Seq<char>)|
                #[trigger] out.deep_view().contains(t) <==> (t.2 == r@.subject && has_atom(
                    r@,
                    t.0,
                    t.1,
                )),
    {
        let mut out: Vec<IndexAtom> = Vec::new();
        let ghost pvs = r@.propvals;
        proof {
            assert(out.deep_view() =~= Seq::<(Seq<char>, Seq<char>, Seq<char>)>::empty());
        }
        let mut k: usize = 0;
        while k < r.propvals.len()
            invariant
                k <= r.propvals.len(),
                pvs == r@.propvals,
                forall|t: (Seq<char>, Seq<char>, Seq<char>)|
                    #[trigger] out.deep_view().contains(t) ==> (t.2 == r@.subject && exists|k2: int|
                        0 <= k2 < k && (#[trigger] pvs[k2]).0 == t.0 && val_has_string(
                            pvs[k2].1,
                            t.1,
                        )),
                forall|k2: int, vs: Seq<char>|
                    0 <= k2 < k && #[trigger] val_has_string(pvs[k2].1, vs)
                        ==> out.deep_view().contains((pvs[k2].0, vs, r@.subject)),
            decreases r.propvals.len() - k,
        {
            let prop = &r.propvals[k].property;
            match &r.propvals[k].value {
                Value::ResourceArray(a) => {
                    let ghost av = a.deep_view();
                    let mut j: usize = 0;
                    while j < a.len()
                        invariant
                            j <= a.len(),
                            k < r.propvals.len(),
                            pvs == r@.propvals,
                            av == a.deep_view(),
                            pvs[k as int].1 == ValueV::ResourceArray(av),
                            pvs[k as int].0 == prop@,
                            forall|t: (Seq<char>, Seq<char>, Seq<char>)|
                                #[trigger] out.deep_view().contains(t) ==> (t.2 == r@.subject
                                    && exists|k2: int|
                                    0 <= k2 <= k && (#[trigger] pvs[k2]).0 == t.0
                                        && val_has_string(pvs[k2].1, t.1)),
                            forall|k2: int, vs: Seq<char>|
                                0 <= k2 < k && #[trigger] val_has_string(pvs[k2].1, vs)
                                    ==> out.deep_view().contains((pvs[k2].0, vs, r@.subject)),
                            forall|j2: int|
                                0 <= j2 < j ==> out.deep_view().contains(
                                    (prop@, #[trigger] av[j2], r@.subject),
                                ),
                        decreases a.len() - j,
                    {
                        let ghost old_deep = out.deep_view();
                        out.push(
                            IndexAtom {
                                property: prop.clone(),
                                value: a[j].clone(),
                                subject: r.subject.clone(),
                            },
                        );
                        proof {
                            assert(out.deep_view() =~= old_deep.push((prop@, av[j as int], r@.subject)));
                            assert(val_has_string(pvs[k as int].1, av[j as int])) by {
                                assert(av.contains(av[j as int])) by {
                                    assert(av[j as int] == av[j as int]);
                                }
                            }
                            assert forall|t: (Seq<char>, Seq<char>, Seq<char>)|
                                #[trigger] out.deep_view().contains(t) implies (t.2 == r@.subject
                                    && exists|k2: int|
                                    0 <= k2 <= k && (#[trigger] pvs[k2]).0 == t.0
                                        && val_has_string(pvs[k2].1, t.1)) by {
                                lemma_contains_push(old_deep, (prop@, av[j as int], r@.subject), t);
                            }
                            assert forall|k2: int, vs: Seq<char>|
                                0 <= k2 < k && #[trigger] val_has_string(pvs[k2].1, vs)
                                implies out.deep_view().contains((pvs[k2].0, vs, r@.subject)) by {
                                lemma_contains_push(
                                    old_deep,
                                    (prop@, av[j as int], r@.subject),
                                    (pvs[k2].0, vs, r@.subject),
                                );
                            }
                            assert forall|j2: int|
                                0 <= j2 < j + 1 implies out.deep_view().contains(
                                (prop@, #[trigger] av[j2], r@.subject),
                            ) by {
                                lemma_contains_push(
                                    old_deep,
                                    (prop@, av[j as int], r@.subject),
                                    (prop@, av[j2], r@.subject),
                                );
                            }
                        }
                        j = j + 1;
                    }
                },
                _ => {
                    let vs = r.propvals[k].value.to_string();
                    let ghost old_deep = out.deep_view();
                    out.push(
                        IndexAtom {
                            property: prop.clone(),
                            value: vs,
                            subject: r.subject.clone(),
                        },
                    );
                    proof {
                        let vstr = value_string(pvs[k as int].1);
                        assert(out.deep_view() =~= old_deep.push((prop@, vstr, r@.subject)));
                        assert(val_has_string(pvs[k as int].1, vstr));
                        assert forall|t: (Seq<char>, Seq<char>, Seq<char>)|
                            #[trigger] out.deep_view().contains(t) implies (t.2 == r@.subject
                                && exists|k2: int|
                                0 <= k2 <= k && (#[trigger] pvs[k2]).0 == t.0 && val_has_string(
                                    pvs[k2].1,
                                    t.1,
                                )) by {
                            lemma_contains_push(old_deep, (prop@, vstr, r@.subject), t);
                        }
                        assert forall|k2: int, vs2: Seq<char>|
                            0 <= k2 < k && #[trigger] val_has_string(pvs[k2].1, vs2)
                            implies out.deep_view().contains((pvs[k2].0, vs2, r@.subject)) by {
                            lemma_contains_push(
                                old_deep,
                                (prop@, vstr, r@.subject),
                                (pvs[k2].0, vs2, r@.subject),
                            );
                        }
                    }
                },
            }
            proof {
                assert forall|k2: int, vs: Seq<char>|
                    0 <= k2 < k + 1 && #[trigger] val_has_string(pvs[k2].1, vs)
                    implies out.deep_view().contains((pvs[k2].0, vs, r@.subject)) by {
                    if k2 == k {
                        match pvs[k2].1 {
                            ValueV::ResourceArray(a2) => {
                                let w = choose|j2: int| 0 <= j2 < a2.len() && a2[j2] == vs;
                            },
                            _ => {
                                assert(vs == value_string(pvs[k2].1));
                                let d = out.deep_view();
                                assert(d[d.len() - 1] == (pvs[k2].0, vs, r@.subject));
                            },
                        }
                    }
                }
            }
            k = k + 1;
        }
        proof {
            assert forall|t: (Seq<char>, Seq<char>, Seq<char>)|
                #[trigger] out.deep_view().contains(t) <==> (t.2 == r@.subject && has_atom(
                    r@,
                    t.0,
                    t.1,
                )) by {
                if t.2 == r@.subject && has_atom(r@, t.0, t.1) {
                    let k2 = choose|k2: int|
                        0 <= k2 < pvs.len() && (#[trigger] pvs[k2]).0 == t.0 && val_has_string(
                            pvs[k2].1,
                            t.1,
                        );
                    assert(val_has_string(pvs[k2].1, t.1));
                }
            }
        }
        out
    }

    /// Drops every index entry whose subject is the given one.
    fn strip_subject_from_index(&mut self, subject: &String)
        ensures
            final(self).server_url == old(self).server_url,
            final(self).resources == old(self).resources,
            final(self).clock_ms == old(self).clock_ms,
            final(self).next_id == old(self).next_id,
            final(self).last_created == old(self).last_created,
            final(self).last_commit == old(self).last_commit,
            final(self).default_agent == old(self).default_agent,
            forall|t: (Seq<char>, Seq<char>, Seq<char>)|
                #[trigger] final(self)@.index.contains(t) <==> (old(self)@.index.contains(t) && t.2
                    != subject@),
            forall|i: int, j: int|
                0 <= i < j < final(self)@.index.len() ==> #[trigger] final(self)@.index[i]
                    != #[trigger] final(self)@.index[j],
    {
        let ghost old_idx = self@.index;
        let mut kept: Vec<IndexAtom> = Vec::new();
        let mut i: usize = 0;
        proof {
            assert(kept.deep_view() =~= Seq::<(Seq<char>, Seq<char>, Seq<char>)>::empty());
        }
        while i < self.index.len()
            invariant
                i <= self.index.len(),
                old_idx == self@.index,
                forall|t: (Seq<char>, Seq<char>, Seq<char>)|
                    #[trigger] kept.deep_view().contains(t) <==> (old_idx.take(i as int).contains(
                        t,
                    ) && t.2 != subject@),
                forall|a: int, b: int|
                    0 <= a < b < kept.deep_view().len() ==> #[trigger] kept.deep_view()[a]
                        != #[trigger] kept.deep_view()[b],
            decreases self.index.len() - i,
        {
            let e = &self.index[i];
            let ghost old_deep = kept.deep_view();
            let ghost cur = old_idx[i as int];
            if !str_eq(&e.subject, subject) {
                let dup = vec_index_has(&kept, e);
                if !dup {
                    kept.push(e.duplicate_entry());
                    proof {
                        assert(kept.deep_view() =~= old_deep.push(cur));
                        assert forall|a: int, b: int|
                            0 <= a < b < kept.deep_view().len() implies #[trigger] kept.deep_view()[a]
                            != #[trigger] kept.deep_view()[b] by {
                            if b == kept.deep_view().len() - 1 {
                                if kept.deep_view()[a] == cur {
                                    assert(old_deep.contains(cur)) by {
                                        assert(old_deep[a] == cur);
                                    }
                                }
                            }
                        }
                    }
                }
            }
            proof {
                assert(old_idx.take(i + 1) =~= old_idx.take(i as int).push(cur));
                assert forall|t: (Seq<char>, Seq<char>, Seq<char>)|
                    #[trigger] kept.deep_view().contains(t) <==> (old_idx.take(i + 1).contains(t)
                        && t.2 != subject@) by {
                    lemma_contains_push(old_idx.take(i as int), cur, t);
                    if cur.2 != subject@ {
                        if kept.deep_view() != old_deep {
                            lemma_contains_push(old_deep, cur, t);
                        }
                    }
                }
            }
            i = i + 1;
        }
        proof {
            assert(old_idx.take(self.index.len() as int) =~= old_idx);
        }
        self.index = kept;
    }

    /// Inserts the resource's atoms into the index, skipping entries already
    /// present.
    fn index_resource(&mut self, resource: &Resource)
        requires
            (forall|i: int, j: int|
                0 <= i < j < old(self)@.index.len() ==> #[trigger] old(self)@.index[i]
                    != #[trigger] old(self)@.index[j]),
        ensures
            final(self).server_url == old(self).server_url,
            final(self).resources == old(self).resources,
            final(self).clock_ms == old(self).clock_ms,
            final(self).next_id == old(self).next_id,
            final(self).last_created == old(self).last_created,
            final(self).last_commit == old(self).last_commit,
            final(self).default_agent == old(self).default_agent,
            forall|i: int, j: int|
                0 <= i < j < final(self)@.index.len() ==> #[trigger] final(self)@.index[i]
                    != #[trigger] final(self)@.index[j],
            forall|t: (Seq<char>, Seq<char>, Seq<char>)|
                #[trigger] final(self)@.index.contains(t) <==> (old(self)@.index.contains(t) || (
                t.2 == resource@.subject && has_atom(resource@, t.0, t.1))),
    {
        let atoms = Self::collect_atoms(resource);
        let ghost atoms_deep = atoms.deep_view();
        let ghost old_idx = self@.index;
        let mut k: usize = 0;
        while k < atoms.len()
            invariant
                k <= atoms.len(),
                atoms_deep == atoms.deep_view(),
                self.server_url == old(self).server_url,
                self.resources == old(self).resources,
                self.clock_ms == old(self).clock_ms,
                self.next_id == old(self).next_id,
                self.last_created == old(self).last_created,
                self.last_commit == old(self).last_commit,
                self.default_agent == old(self).default_agent,
                forall|i: int, j: int|
                    0 <= i < j < self@.index.len() ==> #[trigger] self@.index[i]
                        != #[trigger] self@.index[j],
                forall|t: (Seq<char>, Seq<char>, Seq<char>)|
                    #[trigger] self@.index.contains(t) <==> (old_idx.contains(t)
                        || atoms_deep.take(k as int).contains(t)),
            decreases atoms.len() - k,
        {
            let a = &atoms[k];
            let present = self.index_has(&a.property, &a.value, &a.subject);
            let ghost before = self@.index;
            let ghost cur = atoms_deep[k as int];
            if !present {
                self.index.push(a.duplicate_entry());
                proof {
                    assert(self@.index =~= before.push(cur));
                    assert forall|i: int, j: int|
                        0 <= i < j < self@.index.len() implies #[trigger] self@.index[i]
                        != #[trigger] self@.index[j] by {
                        if j == self@.index.len() - 1 {
                            if self@.index[i] == cur {
                                assert(before.contains(cur)) by {
                                    assert(before[i] == cur);
                                }
                            }
                        }
                    }
                }
            }
            proof {
                assert(atoms_deep.take(k + 1) =~= atoms_deep.take(k as int).push(cur));
                assert forall|t: (Seq<char>, Seq<char>, Seq<char>)|
                    #[trigger] self@.index.contains(t) <==> (old_idx.contains(t)
                        || atoms_deep.take(k + 1).contains(t)) by {
                    lemma_contains_push(atoms_deep.take(k as int), cur, t);
                    if !present {
                        lemma_contains_push(before, cur, t);
                    } else {
                        if t == cur {
                            assert(before.contains(cur));
                        }
                    }
                }
            }
            k = k + 1;
        }
        proof {
            assert(atoms_deep.take(atoms.len() as int) =~= atoms_deep);
            assert forall|t: (Seq<char>, Seq<char>, Seq<char>)|
                #[trigger] self@.index.contains(t) <==> (old_idx.contains(t) || (t.2
                    == resource@.subject && has_atom(resource@, t.0, t.1))) by {}
        }
    }
}

/// Subjects pairwise distinct.
pub open spec fn res_unique(rs: Seq<ResourceV>) -> bool {
    forall|i: int, j: int|
        0 <= i < j < rs.len() ==> (#[trigger] rs[i]).subject != (#[trigger] rs[j]).subject
}

/// Replacing a resource in place keeps uniqueness and adjusts exactly its
/// subject.
proof fn lemma_res_update(rs: Seq<ResourceV>, i: int, rv: ResourceV)
    requires
        res_unique(rs),
        0 <= i < rs.len(),
        rv.subject == rs[i].subject,
    ensures
        res_unique(rs.update(i, rv)),
        res_find(rs.update(i, rv), rv.subject) == Some(rv),
        forall|s: Seq<char>|
            s != rv.subject ==> #[trigger] res_find(rs.update(i, rv), s) == res_find(rs, s),
{
    let newrs = rs.update(i, rv);
    assert forall|a: int| 0 <= a < newrs.len() implies #[trigger] newrs[a] == (if a == i {
        rv
    } else {
        rs[a]
    }) by {}
    assert forall|j: int| 0 <= j < i implies (#[trigger] newrs[j]).subject != rv.subject by {}
    lemma_res_find_present(newrs, rv.subject, i);
    assert forall|s: Seq<char>|
        s != rv.subject implies #[trigger] res_find(newrs, s) == res_find(rs, s) by {
        lemma_res_find_none(rs, s);
        lemma_res_find_none(newrs, s);
        if res_find(rs, s) is Some {
            let w = lemma_res_find_witness(rs, s);
            assert(w != i);
            lemma_res_find_present(newrs, s, w);
        } else {
            assert forall|j: int| 0 <= j < newrs.len() implies (#[trigger] newrs[j]).subject
                != s by {}
        }
    }
}

/// Appending a fresh subject keeps uniqueness and adjusts exactly it.
proof fn lemma_res_push(rs: Seq<ResourceV>, rv: ResourceV)
    requires
        res_unique(rs),
        forall|j: int| 0 <= j < rs.len() ==> (#[trigger] rs[j]).subject != rv.subject,
    ensures
        res_unique(rs.push(rv)),
        res_find(rs.push(rv), rv.subject) == Some(rv),
        forall|s: Seq<char>|
            s != rv.subject ==> #[trigger] res_find(rs.push(rv), s) == res_find(rs, s),
{
    let newrs = rs.push(rv);
    assert forall|a: int| 0 <= a < newrs.len() implies #[trigger] newrs[a] == (if a < rs.len() {
        rs[a]
    } else {
        rv
    }) by {}
    lemma_res_find_present(newrs, rv.subject, rs.len() as int);
    assert forall|s: Seq<char>|
        s != rv.subject implies #[trigger] res_find(newrs, s) == res_find(rs, s) by {
        lemma_res_find_none(rs, s);
        lemma_res_find_none(newrs, s);
        if res_find(rs, s) is Some {
            let w = lemma_res_find_witness(rs, s);
            lemma_res_find_present(newrs, s, w);
        } else {
            assert forall|j: int| 0 <= j < newrs.len() implies (#[trigger] newrs[j]).subject
                != s by {}
        }
    }
}

/// Removing a resource keeps uniqueness, drops its subject and no other.
proof fn lemma_res_remove(rs: Seq<ResourceV>, i: int)
    requires
        res_unique(rs),
        0 <= i < rs.len(),
    ensures
        res_unique(rs.remove(i)),
        res_find(rs.remove(i), rs[i].subject) is None,
        forall|s: Seq<char>|
            s != rs[i].subject ==> #[trigger] res_find(rs.remove(i), s) == res_find(rs, s),
{
    let newrs = rs.remove(i);
    assert forall|a: int| 0 <= a < newrs.len() implies #[trigger] newrs[a] == (if a < i {
        rs[a]
    } else {
        rs[a + 1]
    }) by {}
    lemma_res_find_none(newrs, rs[i].subject);
    assert forall|j: int| 0 <= j < newrs.len() implies (#[trigger] newrs[j]).subject
        != rs[i].subject by {}
    assert forall|s: Seq<char>|
        s != rs[i].subject implies #[trigger] res_find(newrs, s) == res_find(rs, s) by {
        lemma_res_find_none(rs, s);
        lemma_res_find_none(newrs, s);
        if res_find(rs, s) is Some {
            let w = lemma_res_find_witness(rs, s);
            assert(w != i);
            if w < i {
                lemma_res_find_present(newrs, s, w);
            } else {
                assert(newrs[w - 1] == rs[w]);
                assert forall|j: int| 0 <= j < w - 1 implies (#[trigger] newrs[j]).subject
                    != s by {}
                lemma_res_find_present(newrs, s, w - 1);
            }
        } else {
            assert forall|j: int| 0 <= j < newrs.len() implies (#[trigger] newrs[j]).subject
                != s by {}
        }
    }
}

impl Db {
    /// Stores a resource directly, replacing any prior one for the subject,
    /// and rewrites the subject's index entries to exactly its atoms. This is
    /// the low-level write path; commits are the public one.
    pub fn add_resource_unsafe(&mut self, resource: Resource)
        requires
            rv_wf(resource@),
            db_wf(old(self)@),
        ensures
            db_wf(final(self)@),
            final(self)@.server_url == old(self)@.server_url,
            final(self)@.clock == old(self)@.clock,
            final(self)@.last_created == old(self)@.last_created,
            final(self)@.last_commit == old(self)@.last_commit,
            final(self)@.default_agent == old(self)@.default_agent,
            res_find(final(self)@.resources, resource@.subject) == Some(resource@),
            forall|s: Seq<char>|
                s != resource@.subject ==> #[trigger] res_find(final(self)@.resources, s)
                    == res_find(old(self)@.resources, s),
            forall|t: (Seq<char>, Seq<char>, Seq<char>)|
                t.2 != resource@.subject ==> (#[trigger] final(self)@.index.contains(t) <==> old(
                    self,
                )@.index.contains(t)),
            forall|t: (Seq<char>, Seq<char>, Seq<char>)|
                t.2 == resource@.subject ==> (#[trigger] final(self)@.index.contains(t) <==> has_atom(
                    resource@,
                    t.0,
                    t.1,
                )),
    {
        let ghost oldv = self@;
        let ghost rv = resource@;
        let subj = resource.subject.clone();
        self.strip_subject_from_index(&subj);
        let ghost mid_idx = self@.index;
        self.index_resource(&resource);
        let ghost final_idx = self@.index;
        let found = self.find_resource_index(&subj);
        let ghost mid_res = self@.resources;
        proof {
            assert(mid_res == oldv.resources);
        }
        match found {
            Some(i) => {
                proof {
                    let w = lemma_res_find_witness(mid_res, subj@);
                    assert(w == i || mid_res[w].subject == mid_res[i as int].subject);
                    assert(w == i) by {
                        if w != i {
                            if w < i {
                                assert(mid_res[w].subject != mid_res[i as int].subject);
                            } else {
                                assert(mid_res[i as int].subject != mid_res[w].subject);
                            }
                        }
                    }
                }
                self.resources.set(i, resource);
                proof {
                    assert(self@.resources =~= mid_res.update(i as int, rv));
                    lemma_res_update(mid_res, i as int, rv);
                }
            },
            None => {
                proof {
                    lemma_res_find_none(mid_res, subj@);
                }
                self.resources.push(resource);
                proof {
                    assert(self@.resources =~= mid_res.push(rv));
                    lemma_res_push(mid_res, rv);
                }
            },
        }
        proof {
            assert forall|i: int, p: Seq<char>, vs: Seq<char>|
                0 <= i < self@.resources.len() && #[trigger] has_atom(self@.resources[i], p, vs)
                implies self@.index.contains((p, vs, self@.resources[i].subject)) by {
                let cur = self@.resources[i];
                assert(self@.index == final_idx);
                if cur.subject == rv.subject {
                    assert(cur == rv) by {
                        let w = lemma_res_find_witness(self@.resources, rv.subject);
                        if w != i {
                            if w < i {
                                assert(self@.resources[w].subject != cur.subject);
                            } else {
                                assert(cur.subject != self@.resources[w].subject);
                            }
                        }
                    }
                    assert(has_atom(rv, p, vs));
                    assert(final_idx.contains((p, vs, rv.subject)));
                } else {
                    assert forall|j: int|
                        0 <= j < i implies (#[trigger] self@.resources[j]).subject
                        != cur.subject by {
                        assert(self@.resources[j].subject != self@.resources[i].subject);
                    }
                    lemma_res_find_present(self@.resources, cur.subject, i);
                    assert(res_find(self@.resources, cur.subject) == res_find(
                        oldv.resources,
                        cur.subject,
                    ));
                    let w2 = lemma_res_find_witness(oldv.resources, cur.subject);
                    assert(oldv.resources[w2] == cur);
                    assert(has_atom(oldv.resources[w2], p, vs));
                    assert(oldv.index.contains((p, vs, cur.subject)));
                    assert(mid_idx.contains((p, vs, cur.subject)));
                    assert(final_idx.contains((p, vs, cur.subject)));
                }
            }
        }
    }

    /// Deletes a subject's resource and every index entry for that subject.
    /// Fails with `NotFound` exactly when the subject is absent.
    pub fn remove_resource(&mut self, subject: &str) -> (r: AtomicResult<()>)
        requires
            db_wf(old(self)@),
        ensures
            db_wf(final(self)@),
            match r {
                Ok(()) => {
                    &&& res_find(old(self)@.resources, subject@) is Some
                    &&& res_find(final(self)@.resources, subject@) is None
                    &&& forall|s: Seq<char>|
                        s != subject@ ==> #[trigger] res_find(final(self)@.resources, s)
                            == res_find(old(self)@.resources, s)
                    &&& forall|t: (Seq<char>, Seq<char>, Seq<char>)|
                        #[trigger] final(self)@.index.contains(t) <==> (old(
                            self,
                        )@.index.contains(t) && t.2 != subject@)
                    &&& final(self)@.server_url == old(self)@.server_url
                    &&& final(self)@.clock == old(self)@.clock
                    &&& final(self)@.last_created == old(self)@.last_created
                    &&& final(self)@.last_commit == old(self)@.last_commit
                    &&& final(self)@.default_agent == old(self)@.default_agent
                },
                Err(e) => {
                    &&& e.kind == ErrorKind::NotFound
                    &&& res_find(old(self)@.resources, subject@) is None
                    &&& final(self)@ == old(self)@
                },
            },
    {
        let key = String::from_str(subject);
        let ghost oldv = self@;
        match self.find_resource_index(&key) {
            None => Err(AtomicError::new(ErrorKind::NotFound, "subject not in store")),
            Some(i) => {
                proof {
                    assert forall|j: int|
                        0 <= j < oldv.resources.len() && j != i implies (
                        #[trigger] oldv.resources[j]).subject != subject@ by {
                        if j < i as int {
                            assert(oldv.resources[j].subject != oldv.resources[i as int].subject);
                        } else {
                            assert(oldv.resources[i as int].subject != oldv.resources[j].subject);
                        }
                    }
                }
                self.resources.remove(i);
                proof {
                    assert(self@.resources =~= oldv.resources.remove(i as int));
                    lemma_res_remove(oldv.resources, i as int);
                }
                self.strip_subject_from_index(&key);
                proof {
                    assert forall|i2: int, p: Seq<char>, vs: Seq<char>|
                        0 <= i2 < self@.resources.len() && #[trigger] has_atom(
                            self@.resources[i2],
                            p,
                            vs,
                        ) implies self@.index.contains((p, vs, self@.resources[i2].subject)) by {
                        let cur = self@.resources[i2];
                        assert(cur.subject != subject@);
                        assert(res_find(oldv.resources, cur.subject) == Some(cur)) by {
                            lemma_res_find_present(self@.resources, cur.subject, i2);
                        }
                        let w = lemma_res_find_witness(oldv.resources, cur.subject);
                        assert(has_atom(oldv.resources[w], p, vs));
                        assert(oldv.index.contains((p, vs, cur.subject)));
                    }
                }
                Ok(())
            },
        }
    }
}

/// Whether the list of index entries holds the given one.
fn vec_index_has(v: &Vec<IndexAtom>, e: &IndexAtom) -> (r: bool)
    ensures
        r == v.deep_view().contains(e@),
{
    let ghost deep = v.deep_view();
    let mut i: usize = 0;
    loop
        invariant
            i <= v.len(),
            deep == v.deep_view(),
            forall|j: int| 0 <= j < i ==> #[trigger] deep[j] != e@,
        decreases v.len() - i,
    {
        if i == v.len() {
            proof {
                if deep.contains(e@) {
                    let w = choose|j: int| 0 <= j < deep.len() && deep[j] == e@;
                }
            }
            return false;
        }
        let c = &v[i];
        if str_eq(&c.property, &e.property) && str_eq(&c.value, &e.value) && str_eq(
            &c.subject,
            &e.subject,
        ) {
            proof {
                assert(deep[i as int] == e@);
            }
            return true;
        }
        i = i + 1;
    }
}

/// The view of an optional string pattern.
pub open spec fn opt_view(q: Option<&str>) -> Option<Seq<char>> {
    match q {
        Some(x) => Some(x@),
        None => None,
    }
}

impl Db {
    /// Whether an optional pattern accepts the string.
    fn matches_opt(q: &Option<&str>, s: &String) -> (r: bool)
        ensures
            r == opt_match(opt_view(*q), s@),
    {
        match q {
            Some(p) => str_eq(&String::from_str(p), s),
            None => true,
        }
    }

    /// Triple-pattern lookup: any of subject, property and value may be a
    /// wildcard. Without a subject the index is scanned; with one, the
    /// subject's stored atoms are filtered. External atoms (subjects not
    /// under this server) are dropped unless `include_external` is set.
    pub fn tpf(
        &self,
        q_subject: Option<&str>,
        q_property: Option<&str>,
        q_value: Option<&str>,
        include_external: bool,
    ) -> (r: AtomicResult<Vec<Atom>>)
        requires
            db_wf(self@),
        ensures
            match r {
                Ok(out) => match q_subject {
                    None => forall|t: (Seq<char>, Seq<char>, Seq<char>)|
                        #[trigger] out.deep_view().contains(t) <==> (self@.index.contains(t)
                            && tpf_match(
                            t,
                            None,
                            opt_view(q_property),
                            opt_view(q_value),
                            include_external,
                            self@.server_url,
                        )),
                    Some(s) => res_find(self@.resources, s@) is Some && forall|
                        t: (Seq<char>, Seq<char>, Seq<char>),
                    |
                        #[trigger] out.deep_view().contains(t) <==> (t.2 == s@ && has_atom(
                            res_find(self@.resources, s@)->0,
                            t.0,
                            t.1,
                        ) && tpf_match(
                            t,
                            opt_view(q_subject),
                            opt_view(q_property),
                            opt_view(q_value),
                            include_external,
                            self@.server_url,
                        )),
                },
                Err(e) => e.kind == ErrorKind::NotFound && (q_subject matches Some(s)
                    && res_find(self@.resources, s@) is None),
            },
    {
        match q_subject {
            None => {
                let mut out: Vec<Atom> = Vec::new();
                proof {
                    assert(out.deep_view() =~= Seq::<(Seq<char>, Seq<char>, Seq<char>)>::empty());
                }
                let ghost idx = self@.index;
                let mut i: usize = 0;
                while i < self.index.len()
                    invariant
                        i <= self.index.len(),
                        idx == self@.index,
                        forall|t: (Seq<char>, Seq<char>, Seq<char>)|
                            #[trigger] out.deep_view().contains(t) <==> (idx.take(
                                i as int,
                            ).contains(t) && tpf_match(
                                t,
                                None,
                                opt_view(q_property),
                                opt_view(q_value),
                                include_external,
                                self@.server_url,
                            )),
                    decreases self.index.len() - i,
                {
                    let e = &self.index[i];
                    let ghost cur = idx[i as int];
                    let ghost old_deep = out.deep_view();
                    let keep = Self::matches_opt(&q_property, &e.property) && Self::matches_opt(
                        &q_value,
                        &e.value,
                    ) && (include_external || str_starts_with(&e.subject, &self.server_url));
                    if keep {
                        out.push(
                            Atom {
                                subject: e.subject.clone(),
                                property: e.property.clone(),
                                value: e.value.clone(),
                            },
                        );
                        proof {
                            assert(out.deep_view() =~= old_deep.push(cur));
                        }
                    }
                    proof {
                        assert(idx.take(i + 1) =~= idx.take(i as int).push(cur));
                        assert forall|t: (Seq<char>, Seq<char>, Seq<char>)|
                            #[trigger] out.deep_view().contains(t) <==> (idx.take(i + 1).contains(
                                t,
                            ) && tpf_match(
                                t,
                                None,
                                opt_view(q_property),
                                opt_view(q_value),
                                include_external,
                                self@.server_url,
                            )) by {
                            lemma_contains_push(idx.take(i as int), cur, t);
                            if keep {
                                lemma_contains_push(old_deep, cur, t);
                            }
                        }
                    }
                    i = i + 1;
                }
                proof {
                    assert(idx.take(self.index.len() as int) =~= idx);
                }
                Ok(out)
            },
            Some(s) => {
                let key = String::from_str(s);
                match self.find_resource_index(&key) {
                    None => Err(AtomicError::new(ErrorKind::NotFound, "subject not in store")),
                    Some(ri) => {
                        let ghost rv = self@.resources[ri as int];
                        let atoms = Self::collect_atoms(&self.resources[ri]);
                        let ghost adeep = atoms.deep_view();
                        let mut out: Vec<Atom> = Vec::new();
                        proof {
                            assert(out.deep_view() =~= Seq::<
                                (Seq<char>, Seq<char>, Seq<char>),
                            >::empty());
                        }
                        let mut i: usize = 0;
                        while i < atoms.len()
                            invariant
                                i <= atoms.len(),
                                adeep == atoms.deep_view(),
                                key@ == s@,
                                forall|t: (Seq<char>, Seq<char>, Seq<char>)|
                                    #[trigger] out.deep_view().contains(t) <==> (adeep.take(
                                        i as int,
                                    ).contains(t) && tpf_match(
                                        t,
                                        opt_view(q_subject),
                                        opt_view(q_property),
                                        opt_view(q_value),
                                        include_external,
                                        self@.server_url,
                                    )),
                            decreases atoms.len() - i,
                        {
                            let e = &atoms[i];
                            let ghost cur = adeep[i as int];
                            let ghost old_deep = out.deep_view();
                            let keep = Self::matches_opt(&q_property, &e.property)
                                && Self::matches_opt(&q_value, &e.value) && Self::matches_opt(
                                &q_subject,
                                &e.subject,
                            ) && (include_external || str_starts_with(
                                &e.subject,
                                &self.server_url,
                            ));
                            if keep {
                                out.push(
                                    Atom {
                                        subject: e.subject.clone(),
                                        property: e.property.clone(),
                                        value: e.value.clone(),
                                    },
                                );
                                proof {
                                    assert(out.deep_view() =~= old_deep.push(cur));
                                }
                            }
                            proof {
                                assert(adeep.take(i + 1) =~= adeep.take(i as int).push(cur));
                                assert forall|t: (Seq<char>, Seq<char>, Seq<char>)|
                                    #[trigger] out.deep_view().contains(t) <==> (adeep.take(
                                        i + 1,
                                    ).contains(t) && tpf_match(
                                        t,
                                        opt_view(q_subject),
                                        opt_view(q_property),
                                        opt_view(q_value),
                                        include_external,
                                        self@.server_url,
                                    )) by {
                                    lemma_contains_push(adeep.take(i as int), cur, t);
                                    if keep {
                                        lemma_contains_push(old_deep, cur, t);
                                    }
                                }
                            }
                            i = i + 1;
                        }
                        proof {
                            assert(adeep.take(atoms.len() as int) =~= adeep);
                        }
                        Ok(out)
                    },
                }
            },
        }
    }
}

/// On a well-formed resource, holding an atom is exactly: the property is
/// set and its value carries the value string.
pub proof fn lemma_has_atom_find(rv: ResourceV, p: Seq<char>, vs: Seq<char>)
    requires
        rv_wf(rv),
    ensures
        has_atom(rv, p, vs) <==> (pv_find(rv.propvals, p) matches Some(v) && val_has_string(
            v,
            vs,
        )),
{
    if has_atom(rv, p, vs) {
        let k = choose|k: int|
            0 <= k < rv.propvals.len() && (#[trigger] rv.propvals[k]).0 == p && val_has_string(
                rv.propvals[k].1,
                vs,
            );
        assert forall|j: int| 0 <= j < k implies (#[trigger] rv.propvals[j]).0 != p by {
            if rv.propvals[j].0 == p {
                assert(crate::text::lex_lt(rv.propvals[j].0, rv.propvals[k].0));
                crate::text::lemma_lex_irrefl(p);
            }
        }
        crate::resources::lemma_pv_find_present(rv.propvals, p, k);
    }
    if pv_find(rv.propvals, p) matches Some(v) && val_has_string(v, vs) {
        let w = crate::resources::lemma_pv_find_witness(rv.propvals, p);
        assert(rv.propvals[w].0 == p && val_has_string(rv.propvals[w].1, vs));
    }
}

/// Membership after a push: the old members and the new element.
pub proof fn lemma_contains_push<T>(s: Seq<T>, x: T, y: T)
    ensures
        s.push(x).contains(y) <==> (s.contains(y) || y == x),
{
    if s.contains(y) {
        let w = choose|i: int| 0 <= i < s.len() && s[i] == y;
        assert(s.push(x)[w] == y);
    }
    if y == x {
        assert(s.push(x)[s.len() as int] == y);
    }
    if s.push(x).contains(y) {
        let w = choose|i: int| 0 <= i < s.push(x).len() && s.push(x)[i] == y;
        if w < s.len() {
            assert(s[w] == y);
        }
    }
}

} // verus!
