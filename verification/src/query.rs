//! The query engine: filter, sort, paginate, optionally materialize, with
//! authorization-aware result assembly.

use vstd::prelude::*;
use crate::errors::AtomicResult;
use crate::resources::{pv_find, Resource};
use crate::store::{db_wf, res_find, subject_internal, Db, DbV};
use crate::text::{
    lemma_lex_total, lemma_lex_trans, lex_le, lex_lt, str_eq, str_lt, str_starts_with,
};
use crate::urls;
use crate::values::{value_string, Value, ValueV};

verus! {

/// A structured query: filter, ordering, bounds, pagination, authorization.
#[derive(Clone, Debug)]
pub struct Query {
    /// Keep only subjects carrying this property (with `value`, carrying it
    /// with that value).
    pub property: Option<String>,
    /// Keep only subjects carrying this value string under some property.
    pub value: Option<String>,
    /// How many subjects a page holds at most.
    pub limit: Option<usize>,
    /// Lowest sort value admitted, inclusive.
    pub start_val: Option<String>,
    /// Lowest sort value excluded, as an upper bound.
    pub end_val: Option<String>,
    /// How many matching subjects the page skips.
    pub offset: usize,
    /// The property whose value orders the results.
    pub sort_by: Option<String>,
    /// Whether the page is handed out in reverse order.
    pub sort_desc: bool,
    /// Whether subjects not under this server count as results.
    pub include_external: bool,
    /// Whether the matching resources are fetched into `resources`.
    pub include_nested: bool,
    /// The agent reading: unreadable subjects are dropped from the page.
    pub for_agent: Option<String>,
}

/// What a query returns: the page of subjects, their resources when asked
/// for, and the total match count before pagination.
#[derive(Clone, Debug)]
pub struct QueryResult {
    pub subjects: Vec<String>,
    pub resources: Vec<Resource>,
    pub count: usize,
}

/// The read-permission walk: the agent stands in the `read` list of the
/// subject or of an ancestor along `parent`, within the depth bound.
pub open spec fn read_allowed_fuel(d: DbV, agent: Seq<char>, subject: Seq<char>, fuel: nat) -> bool
    decreases fuel,
{
    if fuel == 0 {
        false
    } else {
        match res_find(d.resources, subject) {
            Some(rv) => {
                if crate::commits::list_holds(pv_find(rv.propvals, urls::READ@), agent) {
                    true
                } else {
                    match pv_find(rv.propvals, urls::PARENT@) {
                        Some(ValueV::AtomicUrl(p)) => read_allowed_fuel(
                            d,
                            agent,
                            p,
                            (fuel - 1) as nat,
                        ),
                        _ => false,
                    }
                }
            },
            None => false,
        }
    }
}

/// The value string that orders a subject under the sort property: its
/// stored value's string form, or empty when absent.
pub open spec fn sort_val_of(d: DbV, subject: Seq<char>, sort_by: Seq<char>) -> Seq<char> {
    match res_find(d.resources, subject) {
        Some(rv) => match pv_find(rv.propvals, sort_by) {
            Some(v) => value_string(v),
            None => Seq::<char>::empty(),
        },
        None => Seq::<char>::empty(),
    }
}

/// Whether an index entry supports subject `s` under the query's filter.
pub open spec fn entry_matches(
    t: (Seq<char>, Seq<char>, Seq<char>),
    q: Query,
    s: Seq<char>,
) -> bool {
    &&& t.2 == s
    &&& (q.property matches Some(p) ==> t.0 == p@)
    &&& (q.value matches Some(v) ==> t.1 == v@)
}

/// Whether a subject matches the query's filter: with a property or value
/// given, some index entry for the subject matches both; with neither, the
/// subject is stored. External subjects match only when asked for.
pub open spec fn query_matches(d: DbV, q: Query, s: Seq<char>) -> bool {
    &&& (q.include_external || subject_internal(d.server_url, s))
    &&& if q.property is Some || q.value is Some {
        exists|t: (Seq<char>, Seq<char>, Seq<char>)| #[trigger] d.index.contains(t) && entry_matches(t, q, s)
    } else {
        res_find(d.resources, s) is Some
    }
}

/// The value that orders a subject under this query: its sort-property
/// value, or empty when the query does not sort.
pub open spec fn query_key(d: DbV, q: Query, s: Seq<char>) -> Seq<char> {
    match q.sort_by {
        Some(p) => sort_val_of(d, s, p@),
        None => Seq::<char>::empty(),
    }
}

/// Whether a subject's sort value lies within the query's bounds: at or
/// above `start_val`, strictly below `end_val`.
pub open spec fn query_in_bounds(d: DbV, q: Query, s: Seq<char>) -> bool {
    &&& (q.start_val matches Some(sv) ==> lex_le(sv@, query_key(d, q, s)))
    &&& (q.end_val matches Some(ev) ==> lex_lt(query_key(d, q, s), ev@))
}

/// The subjects a pair list carries, in order.
pub open spec fn pair_subjects(ps: Seq<(Seq<char>, Seq<char>)>) -> Seq<Seq<char>> {
    Seq::new(ps.len(), |i: int| ps[i].1)
}

/// Subjects pairwise distinct.
pub open spec fn subjects_unique(ps: Seq<(Seq<char>, Seq<char>)>) -> bool {
    forall|a: int, b: int|
        0 <= a < b < ps.len() ==> (#[trigger] ps[a]).1 != (#[trigger] ps[b]).1
}

/// One sortable candidate: its sort value and its subject.
#[derive(Clone, Debug)]
pub struct SortPair {
    pub key: String,
    pub subject: String,
}

impl View for SortPair {
    type V = (Seq<char>, Seq<char>);

    open spec fn view(&self) -> (Seq<char>, Seq<char>) {
        (self.key@, self.subject@)
    }
}

impl DeepView for SortPair {
    type V = (Seq<char>, Seq<char>);

    open spec fn deep_view(&self) -> (Seq<char>, Seq<char>) {
        self.view()
    }
}

/// Keys ascend weakly.
pub open spec fn pairs_sorted(ps: Seq<(Seq<char>, Seq<char>)>) -> bool {
    forall|i: int, j: int|
        0 <= i < j < ps.len() ==> lex_le((#[trigger] ps[i]).0, (#[trigger] ps[j]).0)
}

/// The weak order chains.
proof fn lemma_lex_le_trans(a: Seq<char>, b: Seq<char>, c: Seq<char>)
    requires
        lex_le(a, b),
        lex_le(b, c),
    ensures
        lex_le(a, c),
{
    if a != b && b != c {
        lemma_lex_trans(a, b, c);
    }
}

/// Membership after an insert: the old members and the new element.
proof fn lemma_contains_insert<T>(s: Seq<T>, k: int, x: T, y: T)
    requires
        0 <= k <= s.len(),
    ensures
        s.insert(k, x).contains(y) <==> (s.contains(y) || y == x),
{
    let t = s.insert(k, x);
    if s.contains(y) {
        let w = choose|i: int| 0 <= i < s.len() && s[i] == y;
        if w < k {
            assert(t[w] == y);
        } else {
            assert(t[w + 1] == y);
        }
    }
    if y == x {
        assert(t[k] == y);
    }
    if t.contains(y) {
        let w = choose|i: int| 0 <= i < t.len() && t[i] == y;
        if w < k {
            assert(s[w] == y);
        } else if w == k {
        } else {
            assert(s[w - 1] == y);
        }
    }
}

/// Sorts the pairs ascending by key: the result holds exactly the input's
/// pairs, subjects stay pairwise distinct, and the length is kept.
fn sort_pairs(v: Vec<SortPair>) -> (out: Vec<SortPair>)
    requires
        subjects_unique(v.deep_view()),
    ensures
        out.len() == v.len(),
        pairs_sorted(out.deep_view()),
        subjects_unique(out.deep_view()),
        forall|x: (Seq<char>, Seq<char>)|
            #[trigger] out.deep_view().contains(x) ==> v.deep_view().contains(x),
        forall|x: (Seq<char>, Seq<char>)|
            #[trigger] v.deep_view().contains(x) ==> out.deep_view().contains(x),
{
    let mut out: Vec<SortPair> = Vec::new();
    let mut i: usize = 0;
    proof {
        assert(out.deep_view() =~= Seq::<(Seq<char>, Seq<char>)>::empty());
    }
    while i < v.len()
        invariant
            i <= v.len(),
            out.len() == i,
            subjects_unique(v.deep_view()),
            subjects_unique(out.deep_view()),
            pairs_sorted(out.deep_view()),
            forall|x: (Seq<char>, Seq<char>)|
                #[trigger] out.deep_view().contains(x) ==> v.deep_view().take(i as int).contains(
                    x,
                ),
            forall|x: (Seq<char>, Seq<char>)|
                #[trigger] v.deep_view().take(i as int).contains(x) ==> out.deep_view().contains(
                    x,
                ),
        decreases v.len() - i,
    {
        let p = SortPair { key: v[i].key.clone(), subject: v[i].subject.clone() };
        // find the first position whose key is above the new one
        let mut k: usize = 0;
        while k < out.len() && !str_lt(&p.key, &out[k].key)
            invariant
                k <= out.len(),
                p@ == v.deep_view()[i as int],
                i < v.len(),
                forall|j: int| 0 <= j < k ==> !lex_lt(p@.0, (#[trigger] out.deep_view()[j]).0),
            decreases out.len() - k,
        {
            k = k + 1;
        }
        let ghost old_deep = out.deep_view();
        let ghost kk = k as int;
        out.insert(k, p);
        proof {
            let newd = out.deep_view();
            assert(newd =~= old_deep.insert(kk, v.deep_view()[i as int]));
            let x = v.deep_view()[i as int];
            assert forall|a: int| 0 <= a < newd.len() implies #[trigger] newd[a] == (if a < kk {
                old_deep[a]
            } else if a == kk {
                x
            } else {
                old_deep[a - 1]
            }) by {}
            assert forall|a: int, b: int|
                0 <= a < b < newd.len() implies lex_le(
                (#[trigger] newd[a]).0,
                (#[trigger] newd[b]).0,
            ) by {
                if a < kk && b < kk {
                } else if a < kk && b == kk {
                    assert(!lex_lt(x.0, old_deep[a].0));
                    lemma_lex_total_le(old_deep[a].0, x.0);
                } else if a < kk && b > kk {
                } else if a == kk && b > kk {
                    if kk < old_deep.len() {
                        assert(lex_lt(x.0, old_deep[kk].0));
                        if b - 1 == kk {
                        } else {
                            assert(lex_le(old_deep[kk].0, old_deep[b - 1].0));
                            lemma_lex_le_trans(x.0, old_deep[kk].0, old_deep[b - 1].0);
                        }
                    }
                } else {
                }
            }
            assert forall|y: (Seq<char>, Seq<char>)|
                #[trigger] newd.contains(y) implies v.deep_view().take(i + 1).contains(y) by {
                lemma_contains_insert(old_deep, kk, x, y);
                if y == x {
                    assert(v.deep_view().take(i + 1)[i as int] == y);
                } else {
                    let w = choose|w: int|
                        0 <= w < old_deep.len() && old_deep[w] == y;
                    assert(old_deep.contains(y));
                    let w2 = choose|w2: int|
                        0 <= w2 < i && v.deep_view().take(i as int)[w2] == y;
                    assert(v.deep_view().take(i + 1)[w2] == y);
                }
            }
            assert forall|y: (Seq<char>, Seq<char>)|
                #[trigger] v.deep_view().take(i + 1).contains(y) implies newd.contains(y) by {
                let w = choose|w: int| 0 <= w < i + 1 && #[trigger] v.deep_view().take(i + 1)[w] == y;
                if w < i {
                    assert(v.deep_view().take(i as int)[w] == y);
                    assert(v.deep_view().take(i as int).contains(y));
                    lemma_contains_insert(old_deep, kk, x, y);
                } else {
                    assert(y == x);
                    lemma_contains_insert(old_deep, kk, x, y);
                }
            }
            assert forall|a: int, b: int|
                0 <= a < b < newd.len() implies (#[trigger] newd[a]).1 != (
            #[trigger] newd[b]).1 by {
                if a != kk && b != kk {
                } else {
                    let other = if a == kk {
                        newd[b]
                    } else {
                        newd[a]
                    };
                    assert(old_deep.contains(other)) by {
                        if a == kk {
                            assert(old_deep[b - 1] == other);
                        } else {
                            assert(old_deep[a] == other);
                        }
                    }
                    assert(v.deep_view().take(i as int).contains(other));
                    let w = choose|w: int|
                        0 <= w < i && #[trigger] v.deep_view().take(i as int)[w] == other;
                    assert(v.deep_view()[w] == other);
                    assert(v.deep_view()[w].1 != v.deep_view()[i as int].1);
                }
            }
        }
        i = i + 1;
    }
    proof {
        assert(v.deep_view().take(v.len() as int) =~= v.deep_view());
    }
    out
}

/// What does not come before comes weakly after.
proof fn lemma_lex_total_le(a: Seq<char>, b: Seq<char>)
    requires
        !lex_lt(b, a),
    ensures
        lex_le(a, b),
{
    if !lex_lt(a, b) {
        lemma_lex_total(a, b);
    }
}

impl Db {
    /// The read-permission walk, with a depth bound.
    pub fn read_allowed_exec(&self, agent: &String, subject: &String, fuel: u64) -> (r: bool)
        ensures
            r == read_allowed_fuel(self@, agent@, subject@, fuel as nat),
        decreases fuel,
    {
        if fuel == 0 {
            return false;
        }
        match self.get_propvals(subject.as_str()) {
            Err(_) => false,
            Ok(res) => {
                let in_list = match res.get(urls::READ) {
                    Ok(v) => match v {
                        Value::ResourceArray(a) => crate::commits::vec_str_contains(a, agent)
                            || crate::commits::vec_str_contains(
                            a,
                            &String::from_str(urls::PUBLIC_AGENT),
                        ),
                        _ => false,
                    },
                    Err(_) => false,
                };
                if in_list {
                    true
                } else {
                    match res.get(urls::PARENT) {
                        Ok(v) => match v {
                            Value::AtomicUrl(p) => {
                                let parent = p.clone();
                                self.read_allowed_exec(agent, &parent, fuel - 1)
                            },
                            _ => false,
                        },
                        Err(_) => false,
                    }
                }
            },
        }
    }

    /// The sort value of a subject under the sort property.
    fn sort_val_exec(&self, subject: &String, sort_by: &String) -> (r: String)
        ensures
            r@ == sort_val_of(self@, subject@, sort_by@),
    {
        match self.get_propvals(subject.as_str()) {
            Err(_) => String::new(),
            Ok(res) => match res.get(sort_by.as_str()) {
                Ok(v) => v.to_string(),
                Err(_) => String::new(),
            },
        }
    }

    /// Executes a query: chooses the scan source, applies the sort-value
    /// bounds, counts every match, sorts, drops unreadable subjects, and
    /// hands out one page (in reverse when descending).
    pub fn query(&self, q: &Query) -> (r: AtomicResult<QueryResult>)
        requires
            db_wf(self@),
        ensures
            match r {
                Ok(out) => {
                    &&& (q.limit matches Some(l) ==> out.subjects.len() <= l)
                    &&& out.subjects.len() <= out.count
                    &&& (!q.include_nested ==> out.resources.len() == 0)
                    &&& out.resources.len() <= out.subjects.len()
                    &&& (forall|i: int|
                        0 <= i < out.subjects.len() ==> query_matches(
                            self@,
                            *q,
                            (#[trigger] out.subjects.deep_view()[i]),
                        ))
                    &&& (q.for_agent matches Some(a) ==> (forall|i: int|
                        0 <= i < out.subjects.len() ==> read_allowed_fuel(
                            self@,
                            a@,
                            (#[trigger] out.subjects.deep_view()[i]),
                            64,
                        )))
                    &&& (q.sort_by matches Some(p) ==> (!q.sort_desc ==> (forall|i: int, j: int|
                        0 <= i < j < out.subjects.len() ==> lex_le(
                            sort_val_of(self@, (#[trigger] out.subjects.deep_view()[i]), p@),
                            sort_val_of(self@, (#[trigger] out.subjects.deep_view()[j]), p@),
                        ))))
                    &&& (q.sort_by matches Some(p) ==> (q.sort_desc ==> (forall|i: int, j: int|
                        0 <= i < j < out.subjects.len() ==> lex_le(
                            sort_val_of(self@, (#[trigger] out.subjects.deep_view()[j]), p@),
                            sort_val_of(self@, (#[trigger] out.subjects.deep_view()[i]), p@),
                        ))))
                    &&& (exists|ms: Seq<Seq<char>>|
                        #![trigger ms.len()]
                        (forall|s: Seq<char>|
                            #[trigger] ms.contains(s) <==> (query_matches(self@, *q, s)
                                && query_in_bounds(self@, *q, s))) && (forall|a: int, b: int|
                            0 <= a < b < ms.len() ==> ms[a] != ms[b]) && out.count == ms.len())
                    &&& (forall|a: int, b: int|
                        0 <= a < b < out.subjects.len() ==> #[trigger] out.subjects.deep_view()[a]
                            != #[trigger] out.subjects.deep_view()[b])
                    &&& (q.for_agent is None ==> out.subjects.len() == ({
                        let lim = (match q.limit {
                            Some(l) => l as int,
                            None => out.count as int,
                        });
                        let page_start = (if q.offset as int <= out.count as int {
                            q.offset as int
                        } else {
                            out.count as int
                        });
                        let page_end = (if page_start + lim <= out.count as int {
                            page_start + lim
                        } else {
                            out.count as int
                        });
                        page_end - page_start
                    }))
                    &&& (exists|rs: Seq<Seq<char>>|
                        #![trigger rs.len()]
                        (forall|s: Seq<char>|
                            #[trigger] rs.contains(s) <==> (query_matches(self@, *q, s)
                                && query_in_bounds(self@, *q, s) && (q.for_agent matches Some(a)
                                ==> read_allowed_fuel(self@, a@, s, 64)))) && (forall|
                            a2: int,
                            b2: int,
                        |
                            0 <= a2 < b2 < rs.len() ==> rs[a2] != rs[b2]) && (forall|
                            a2: int,
                            b2: int,
                        |
                            0 <= a2 < b2 < rs.len() ==> lex_le(
                                query_key(self@, *q, #[trigger] rs[a2]),
                                query_key(self@, *q, #[trigger] rs[b2]),
                            )) && ({
                            let lim = (match q.limit {
                                Some(l) => l as int,
                                None => rs.len() as int,
                            });
                            let w_start = (if q.offset as int <= rs.len() as int {
                                q.offset as int
                            } else {
                                rs.len() as int
                            });
                            let w_end = (if w_start + lim <= rs.len() as int {
                                w_start + lim
                            } else {
                                rs.len() as int
                            });
                            out.subjects.deep_view().len() == w_end - w_start && (forall|j: int|
                                0 <= j < w_end - w_start ==> #[trigger] out.subjects.deep_view()[j]
                                    == rs[(if q.sort_desc {
                                    w_end - 1 - j
                                } else {
                                    w_start + j
                                })])
                        }))
                },
                Err(_) => false,
            },
    {
        // 1. candidate subjects, deduplicated, in scan order
        let mut cands: Vec<String> = Vec::new();
        if q.property.is_some() || q.value.is_some() {
            let mut i: usize = 0;
            while i < self.index.len()
                invariant
                    i <= self.index.len(),
                    db_wf(self@),
                    q.property is Some || q.value is Some,
                    forall|j: int|
                        0 <= j < cands.len() ==> query_matches(
                            self@,
                            *q,
                            (#[trigger] cands.deep_view()[j]),
                        ),
                    forall|a: int, b: int|
                        0 <= a < b < cands.len() ==> #[trigger] cands.deep_view()[a]
                            != #[trigger] cands.deep_view()[b],
                    forall|t: (Seq<char>, Seq<char>, Seq<char>), s: Seq<char>|
                        self@.index.take(i as int).contains(t) && #[trigger] entry_matches(
                            t,
                            *q,
                            s,
                        ) && (q.include_external || subject_internal(self@.server_url, s))
                            ==> cands.deep_view().contains(s),
                decreases self.index.len() - i,
            {
                let e = &self.index[i];
                let p_ok = match &q.property {
                    Some(p) => str_eq(&e.property, p),
                    None => true,
                };
                let v_ok = match &q.value {
                    Some(v) => str_eq(&e.value, v),
                    None => true,
                };
                let x_ok = q.include_external || str_starts_with(&e.subject, &self.server_url);
                let ghost cur = self@.index[i as int];
                let ghost old_deep = cands.deep_view();
                if p_ok && v_ok && x_ok {
                    if !crate::commits::vec_str_contains(&cands, &e.subject) {
                        cands.push(e.subject.clone());
                        proof {
                            assert(cands.deep_view() =~= old_deep.push(e.subject@));
                            assert(self@.index.contains(cur)) by {
                                assert(self@.index[i as int] == cur);
                            }
                            assert(cur.2 == e.subject@ && cur.0 == e.property@ && cur.1
                                == e.value@);
                            assert(query_matches(self@, *q, e.subject@)) by {
                                assert(entry_matches(cur, *q, e.subject@));
                            }
                            assert forall|a: int, b: int|
                                0 <= a < b < cands.deep_view().len() implies #[trigger] cands.deep_view()[a]
                                != #[trigger] cands.deep_view()[b] by {
                                if b == cands.deep_view().len() - 1 {
                                    if cands.deep_view()[a] == e.subject@ {
                                        assert(old_deep.contains(e.subject@)) by {
                                            assert(old_deep[a] == e.subject@);
                                        }
                                    }
                                }
                            }
                        }
                    }
                }
                proof {
                    assert(self@.index.take(i + 1) =~= self@.index.take(i as int).push(cur));
                    assert forall|t: (Seq<char>, Seq<char>, Seq<char>), s: Seq<char>|
                        self@.index.take(i + 1).contains(t) && #[trigger] entry_matches(t, *q, s)
                            && (q.include_external || subject_internal(self@.server_url, s))
                        implies cands.deep_view().contains(s) by {
                        crate::store::lemma_contains_push(self@.index.take(i as int), cur, t);
                        if t == cur && !self@.index.take(i as int).contains(t) {
                            assert(s == cur.2);
                            assert(p_ok && v_ok && x_ok);
                            if old_deep.contains(s) {
                                crate::store::lemma_contains_push(old_deep, e.subject@, s);
                            } else {
                                assert(cands.deep_view() =~= old_deep.push(e.subject@));
                                crate::store::lemma_contains_push(old_deep, e.subject@, s);
                            }
                        } else {
                            if old_deep.contains(s) && cands.deep_view() != old_deep {
                                crate::store::lemma_contains_push(old_deep, e.subject@, s);
                            }
                        }
                    }
                }
                i = i + 1;
            }
        } else {
            let mut i: usize = 0;
            while i < self.resources.len()
                invariant
                    i <= self.resources.len(),
                    db_wf(self@),
                    q.property is None && q.value is None,
                    forall|j: int|
                        0 <= j < cands.len() ==> query_matches(
                            self@,
                            *q,
                            (#[trigger] cands.deep_view()[j]),
                        ),
                    forall|a: int, b: int|
                        0 <= a < b < cands.len() ==> #[trigger] cands.deep_view()[a]
                            != #[trigger] cands.deep_view()[b],
                    forall|j: int|
                        0 <= j < i && (q.include_external || subject_internal(
                            self@.server_url,
                            (#[trigger] self@.resources[j]).subject,
                        )) ==> cands.deep_view().contains(self@.resources[j].subject),
                decreases self.resources.len() - i,
            {
                let res = &self.resources[i];
                let x_ok = q.include_external || str_starts_with(&res.subject, &self.server_url);
                let ghost old_deep = cands.deep_view();
                if x_ok {
                    if !crate::commits::vec_str_contains(&cands, &res.subject) {
                        cands.push(res.subject.clone());
                        proof {
                            assert(cands.deep_view() =~= old_deep.push(res.subject@));
                            let rs = self@.resources;
                            assert forall|j: int|
                                0 <= j < i implies (#[trigger] rs[j]).subject
                                != rs[i as int].subject by {
                                assert(rs[j].subject != rs[i as int].subject);
                            }
                            crate::store::lemma_res_find_present(rs, rs[i as int].subject, i as int);
                            assert(res_find(self@.resources, res.subject@) is Some);
                            assert(query_matches(self@, *q, res.subject@));
                            assert forall|a: int, b: int|
                                0 <= a < b < cands.deep_view().len() implies #[trigger] cands.deep_view()[a]
                                != #[trigger] cands.deep_view()[b] by {
                                if b == cands.deep_view().len() - 1 {
                                    if cands.deep_view()[a] == res.subject@ {
                                        assert(old_deep.contains(res.subject@)) by {
                                            assert(old_deep[a] == res.subject@);
                                        }
                                    }
                                }
                            }
                        }
                    }
                }
                proof {
                    assert forall|j: int|
                        0 <= j < i + 1 && (q.include_external || subject_internal(
                            self@.server_url,
                            (#[trigger] self@.resources[j]).subject,
                        )) implies cands.deep_view().contains(self@.resources[j].subject) by {
                        let s = self@.resources[j].subject;
                        if j < i {
                            if cands.deep_view() != old_deep {
                                crate::store::lemma_contains_push(old_deep, res.subject@, s);
                            }
                        } else {
                            if old_deep.contains(s) {
                                if cands.deep_view() != old_deep {
                                    crate::store::lemma_contains_push(old_deep, res.subject@, s);
                                }
                            } else {
                                assert(cands.deep_view() =~= old_deep.push(res.subject@));
                                crate::store::lemma_contains_push(old_deep, res.subject@, s);
                            }
                        }
                    }
                }
                i = i + 1;
            }
        }
        proof {
            assert forall|s: Seq<char>|
                #[trigger] cands.deep_view().contains(s) <==> query_matches(self@, *q, s) by {
                if cands.deep_view().contains(s) {
                    let w = choose|w: int|
                        0 <= w < cands.deep_view().len() && #[trigger] cands.deep_view()[w] == s;
                    assert(query_matches(self@, *q, cands.deep_view()[w]));
                }
                if query_matches(self@, *q, s) {
                    if q.property is Some || q.value is Some {
                        let t = choose|t: (Seq<char>, Seq<char>, Seq<char>)|
                            #[trigger] self@.index.contains(t) && entry_matches(t, *q, s);
                        assert(self@.index.take(self.index.len() as int) =~= self@.index);
                        assert(self@.index.take(self.index.len() as int).contains(t));
                    } else {
                        let w = crate::store::lemma_res_find_witness(self@.resources, s);
                        assert(q.include_external || subject_internal(
                            self@.server_url,
                            self@.resources[w].subject,
                        ));
                    }
                }
            }
        }
        // 2. sort pairs, keeping only those within the sort-value bounds
        let mut pairs: Vec<SortPair> = Vec::new();
        let ghost cdeep = cands.deep_view();
        let mut ci: usize = 0;
        proof {
            assert(pair_subjects(pairs.deep_view()) =~= Seq::<Seq<char>>::empty());
        }
        while ci < cands.len()
            invariant
                ci <= cands.len(),
                cdeep == cands.deep_view(),
                forall|s: Seq<char>|
                    #[trigger] cdeep.contains(s) <==> query_matches(self@, *q, s),
                forall|a: int, b: int|
                    0 <= a < b < cdeep.len() ==> #[trigger] cdeep[a] != #[trigger] cdeep[b],
                forall|j: int|
                    0 <= j < pairs.len() ==> query_matches(
                        self@,
                        *q,
                        (#[trigger] pairs.deep_view()[j]).1,
                    ),
                forall|j: int|
                    0 <= j < pairs.len() ==> (#[trigger] pairs.deep_view()[j]).0 == query_key(
                        self@,
                        *q,
                        pairs.deep_view()[j].1,
                    ),
                subjects_unique(pairs.deep_view()),
                forall|s: Seq<char>|
                    #[trigger] pair_subjects(pairs.deep_view()).contains(s) <==> (cdeep.take(
                        ci as int,
                    ).contains(s) && query_in_bounds(self@, *q, s)),
            decreases cands.len() - ci,
        {
            let subject = cands[ci].clone();
            let key = match &q.sort_by {
                Some(p) => self.sort_val_exec(&subject, p),
                None => String::new(),
            };
            proof {
                assert(key@ == query_key(self@, *q, subject@));
            }
            let after_start = match &q.start_val {
                Some(sv) => {
                    let r = !str_lt(&key, sv);
                    proof {
                        if r {
                            lemma_lex_total_le(sv@, key@);
                        } else {
                            if lex_le(sv@, key@) {
                                if sv@ == key@ {
                                    crate::text::lemma_lex_irrefl(key@);
                                } else {
                                    crate::text::lemma_lex_asym(sv@, key@);
                                }
                            }
                        }
                    }
                    r
                },
                None => true,
            };
            let before_end = match &q.end_val {
                Some(ev) => str_lt(&key, ev),
                None => true,
            };
            let ghost old_deep = pairs.deep_view();
            let ghost key_v = key@;
            let ghost subject_v = subject@;
            proof {
                assert(cdeep[ci as int] == subject_v);
                assert((after_start && before_end) == query_in_bounds(self@, *q, subject_v));
            }
            if after_start && before_end {
                let pr = SortPair { key, subject };
                pairs.push(pr);
                proof {
                    assert(pairs.deep_view() =~= old_deep.push((key_v, subject_v)));
                    assert(pair_subjects(pairs.deep_view()) =~= pair_subjects(old_deep).push(
                        subject_v,
                    ));
                    assert(cdeep.contains(subject_v)) by {
                        assert(cdeep[ci as int] == subject_v);
                    }
                    assert(!cdeep.take(ci as int).contains(subject_v)) by {
                        if cdeep.take(ci as int).contains(subject_v) {
                            let w = choose|w: int|
                                0 <= w < ci && #[trigger] cdeep.take(ci as int)[w] == subject_v;
                            assert(cdeep[w] != cdeep[ci as int]);
                        }
                    }
                    assert(!pair_subjects(old_deep).contains(subject_v));
                    assert forall|a: int, b: int|
                        0 <= a < b < pairs.deep_view().len() implies (
                    #[trigger] pairs.deep_view()[a]).1 != (#[trigger] pairs.deep_view()[b]).1 by {
                        if b == pairs.deep_view().len() - 1 {
                            if pairs.deep_view()[a].1 == subject_v {
                                assert(pair_subjects(old_deep)[a] == subject_v);
                                assert(pair_subjects(old_deep).contains(subject_v));
                            }
                        }
                    }
                }
            }
            proof {
                assert(cdeep.take(ci + 1) =~= cdeep.take(ci as int).push(cdeep[ci as int]));
                assert forall|s: Seq<char>|
                    #[trigger] pair_subjects(pairs.deep_view()).contains(s) <==> (cdeep.take(
                        ci + 1,
                    ).contains(s) && query_in_bounds(self@, *q, s)) by {
                    crate::store::lemma_contains_push(cdeep.take(ci as int), subject_v, s);
                    if after_start && before_end {
                        crate::store::lemma_contains_push(pair_subjects(old_deep), subject_v, s);
                    }
                }
            }
            ci = ci + 1;
        }
        proof {
            assert(cdeep.take(cands.len() as int) =~= cdeep);
        }
        // 3. the total count: every match, before pagination
        let total = pairs.len();
        let ghost match_list = pair_subjects(pairs.deep_view());
        let ghost pairs_deep = pairs.deep_view();
        proof {
            assert(match_list.len() == total);
            assert forall|a: int, b: int|
                0 <= a < b < match_list.len() implies match_list[a] != match_list[b] by {
                assert(pairs.deep_view()[a].1 != pairs.deep_view()[b].1);
            }
        }
        // 4. sort ascending by value when an order is asked for
        let sorted = if q.sort_by.is_some() {
            sort_pairs(pairs)
        } else {
            pairs
        };
        proof {
            assert forall|j: int|
                0 <= j < sorted.len() implies query_matches(
                self@,
                *q,
                (#[trigger] sorted.deep_view()[j]).1,
            ) && (q.sort_by matches Some(p) ==> sorted.deep_view()[j].0 == sort_val_of(
                self@,
                sorted.deep_view()[j].1,
                p@,
            )) by {
                if q.sort_by is Some {
                    assert(sorted.deep_view().contains(sorted.deep_view()[j])) by {
                        assert(sorted.deep_view()[j] == sorted.deep_view()[j]);
                    }
                }
            }
            assert(subjects_unique(sorted.deep_view()));
        }
        // 5. the authorization filter
        let mut readable: Vec<SortPair> = Vec::new();
        let ghost svals = sorted.deep_view();
        let mut ai: usize = 0;
        let ghost mut last_src: int = 0;
        while ai < sorted.len()
            invariant
                ai <= sorted.len(),
                svals == sorted.deep_view(),
                forall|j: int|
                    0 <= j < svals.len() ==> query_matches(self@, *q, (#[trigger] svals[j]).1),
                forall|j: int|
                    0 <= j < svals.len() ==> (q.sort_by matches Some(p) ==> (
                    #[trigger] svals[j]).0 == sort_val_of(self@, svals[j].1, p@)),
                q.sort_by is Some ==> pairs_sorted(svals),
                readable.len() <= ai,
                forall|j: int|
                    0 <= j < readable.len() ==> query_matches(
                        self@,
                        *q,
                        (#[trigger] readable.deep_view()[j]).1,
                    ),
                forall|j: int|
                    0 <= j < readable.len() ==> (q.sort_by matches Some(p) ==> (
                    #[trigger] readable.deep_view()[j]).0 == sort_val_of(
                        self@,
                        readable.deep_view()[j].1,
                        p@,
                    )),
                forall|j: int|
                    0 <= j < readable.len() ==> (q.for_agent matches Some(a)
                        ==> read_allowed_fuel(
                        self@,
                        a@,
                        (#[trigger] readable.deep_view()[j]).1,
                        64,
                    )),
                q.sort_by is Some ==> pairs_sorted(readable.deep_view()),
                readable.len() > 0 ==> 0 <= last_src < ai && last_src < svals.len()
                    && readable.deep_view().last() == svals[last_src],
                q.sort_by is Some ==> (forall|j: int|
                    0 <= j < readable.len() && readable.len() > 0 ==> lex_le(
                        (#[trigger] readable.deep_view()[j]).0,
                        readable.deep_view().last().0,
                    )),
                subjects_unique(svals),
                subjects_unique(readable.deep_view()),
                forall|j2: int|
                    0 <= j2 < readable.deep_view().len() ==> (exists|j: int|
                        0 <= j < ai && svals[j] == #[trigger] readable.deep_view()[j2]),
                forall|j: int|
                    0 <= j < ai && (q.for_agent matches Some(a) ==> read_allowed_fuel(
                        self@,
                        a@,
                        (#[trigger] svals[j]).1,
                        64,
                    )) ==> readable.deep_view().contains(svals[j]),
                q.for_agent is None ==> readable.len() == ai,
            decreases sorted.len() - ai,
        {
            let keep = match &q.for_agent {
                Some(a) => self.read_allowed_exec(a, &sorted[ai].subject, 64),
                None => true,
            };
            let ghost before_deep = readable.deep_view();
            if keep {
                let ghost old_deep = readable.deep_view();
                let pr = SortPair {
                    key: sorted[ai].key.clone(),
                    subject: sorted[ai].subject.clone(),
                };
                readable.push(pr);
                proof {
                    assert(readable.deep_view() =~= old_deep.push(svals[ai as int]));
                    let newd = readable.deep_view();
                    assert forall|j2: int|
                        0 <= j2 < newd.len() implies (exists|j: int|
                        0 <= j < ai + 1 && svals[j] == #[trigger] newd[j2]) by {
                        if j2 < old_deep.len() {
                            let j = choose|j: int|
                                0 <= j < ai && svals[j] == #[trigger] old_deep[j2];
                            assert(svals[j] == newd[j2]);
                        } else {
                            assert(svals[ai as int] == newd[j2]);
                        }
                    }
                    assert forall|a2: int, b2: int|
                        0 <= a2 < b2 < newd.len() implies (#[trigger] newd[a2]).1 != (
                    #[trigger] newd[b2]).1 by {
                        if b2 == newd.len() - 1 {
                            let j = choose|j: int|
                                0 <= j < ai && svals[j] == #[trigger] old_deep[a2];
                            assert(svals[j].1 != svals[ai as int].1);
                        }
                    }
                    if q.sort_by is Some {
                        assert forall|j: int|
                            0 <= j < newd.len() implies lex_le(
                            (#[trigger] newd[j]).0,
                            newd.last().0,
                        ) by {
                            if j < old_deep.len() {
                                if old_deep.len() > 0 {
                                    assert(lex_le(old_deep[j].0, old_deep.last().0));
                                    assert(old_deep.last() == svals[last_src]);
                                    assert(lex_le(svals[last_src].0, svals[ai as int].0));
                                    lemma_lex_le_trans(
                                        old_deep[j].0,
                                        svals[last_src].0,
                                        svals[ai as int].0,
                                    );
                                }
                            }
                        }
                        assert forall|a2: int, b2: int|
                            0 <= a2 < b2 < newd.len() implies lex_le(
                            (#[trigger] newd[a2]).0,
                            (#[trigger] newd[b2]).0,
                        ) by {
                            if b2 < old_deep.len() {
                                assert(lex_le(old_deep[a2].0, old_deep[b2].0));
                            } else {
                                assert(lex_le(newd[a2].0, newd.last().0));
                            }
                        }
                    }
                    last_src = ai as int;
                }
            }
            proof {
                assert forall|j: int|
                    0 <= j < ai + 1 && (q.for_agent matches Some(a) ==> read_allowed_fuel(
                        self@,
                        a@,
                        (#[trigger] svals[j]).1,
                        64,
                    )) implies readable.deep_view().contains(svals[j]) by {
                    if j < ai {
                        assert(before_deep.contains(svals[j]));
                        if readable.deep_view() != before_deep {
                            crate::store::lemma_contains_push(before_deep, svals[ai as int], svals[j]);
                        }
                    } else {
                        assert(keep);
                        assert(readable.deep_view() =~= before_deep.push(svals[ai as int]));
                        crate::store::lemma_contains_push(before_deep, svals[ai as int], svals[j]);
                    }
                }
            }
            ai = ai + 1;
        }
        // 6. the page: skip the offset, take the limit
        let rlen = readable.len();
        let start = if q.offset < rlen {
            q.offset
        } else {
            rlen
        };
        let room = rlen - start;
        let takeable = match q.limit {
            Some(l) => if l < room {
                l
            } else {
                room
            },
            None => room,
        };
        let end = start + takeable;
        let mut page: Vec<SortPair> = Vec::new();
        let mut pi: usize = start;
        let ghost rvals = readable.deep_view();
        while pi < end
            invariant
                start <= pi <= end,
                end <= readable.len(),
                rvals == readable.deep_view(),
                page.len() == pi - start,
                forall|j: int|
                    0 <= j < page.len() ==> #[trigger] page.deep_view()[j] == rvals[start + j],
            decreases end - pi,
        {
            let pr = SortPair {
                key: readable[pi].key.clone(),
                subject: readable[pi].subject.clone(),
            };
            let ghost old_deep = page.deep_view();
            page.push(pr);
            proof {
                assert(page.deep_view() =~= old_deep.push(rvals[pi as int]));
            }
            pi = pi + 1;
        }
        // 7. reverse the page when descending
        let mut ordered: Vec<SortPair> = Vec::new();
        if q.sort_desc {
            let plen = page.len();
            let mut qi: usize = 0;
            let ghost pvals = page.deep_view();
            while qi < plen
                invariant
                    qi <= plen,
                    plen == page.len(),
                    pvals == page.deep_view(),
                    ordered.len() == qi,
                    forall|j: int|
                        0 <= j < qi ==> #[trigger] ordered.deep_view()[j] == pvals[plen - 1 - j],
                decreases plen - qi,
            {
                let src = plen - 1 - qi;
                let pr = SortPair {
                    key: page[src].key.clone(),
                    subject: page[src].subject.clone(),
                };
                let ghost old_deep = ordered.deep_view();
                ordered.push(pr);
                proof {
                    assert(ordered.deep_view() =~= old_deep.push(pvals[src as int]));
                }
                qi = qi + 1;
            }
        } else {
            ordered = page;
        }
        // 8. the page's subjects, and their resources when asked for
        let mut subjects: Vec<String> = Vec::new();
        let mut resources: Vec<Resource> = Vec::new();
        let mut oi: usize = 0;
        let ghost ovals = ordered.deep_view();
        while oi < ordered.len()
            invariant
                oi <= ordered.len(),
                ovals == ordered.deep_view(),
                db_wf(self@),
                subjects.len() == oi,
                resources.len() <= oi,
                !q.include_nested ==> resources.len() == 0,
                forall|j: int|
                    0 <= j < oi ==> #[trigger] subjects.deep_view()[j] == ovals[j].1,
            decreases ordered.len() - oi,
        {
            let ghost old_deep = subjects.deep_view();
            subjects.push(ordered[oi].subject.clone());
            proof {
                assert(subjects.deep_view() =~= old_deep.push(ovals[oi as int].1));
            }
            if q.include_nested {
                match self.get_propvals(ordered[oi].subject.as_str()) {
                    Ok(res) => {
                        resources.push(res);
                    },
                    Err(_) => {},
                }
            }
            oi = oi + 1;
        }
        proof {
            assert forall|i: int|
                0 <= i < subjects.len() implies query_matches(
                self@,
                *q,
                (#[trigger] subjects.deep_view()[i]),
            ) by {
                if q.sort_desc {
                    assert(subjects.deep_view()[i] == rvals[start + (end - start - 1 - i)].1);
                } else {
                    assert(subjects.deep_view()[i] == rvals[start + i].1);
                }
            }
            if q.for_agent is Some {
                assert forall|i: int|
                    0 <= i < subjects.len() implies read_allowed_fuel(
                    self@,
                    (q.for_agent->0)@,
                    (#[trigger] subjects.deep_view()[i]),
                    64,
                ) by {
                    if q.sort_desc {
                        assert(subjects.deep_view()[i] == rvals[start + (end - start - 1 - i)].1);
                    } else {
                        assert(subjects.deep_view()[i] == rvals[start + i].1);
                    }
                }
            }
            if q.sort_by is Some {
                let p = q.sort_by->0;
                if !q.sort_desc {
                    assert forall|i: int, j: int|
                        0 <= i < j < subjects.len() implies lex_le(
                        sort_val_of(self@, (#[trigger] subjects.deep_view()[i]), p@),
                        sort_val_of(self@, (#[trigger] subjects.deep_view()[j]), p@),
                    ) by {
                        assert(subjects.deep_view()[i] == rvals[start + i].1);
                        assert(subjects.deep_view()[j] == rvals[start + j].1);
                        assert(lex_le(rvals[start + i].0, rvals[start + j].0));
                    }
                } else {
                    assert forall|i: int, j: int|
                        0 <= i < j < subjects.len() implies lex_le(
                        sort_val_of(self@, (#[trigger] subjects.deep_view()[j]), p@),
                        sort_val_of(self@, (#[trigger] subjects.deep_view()[i]), p@),
                    ) by {
                        let ri = start + (end - start - 1 - i);
                        let rj = start + (end - start - 1 - j);
                        assert(subjects.deep_view()[i] == rvals[ri].1);
                        assert(subjects.deep_view()[j] == rvals[rj].1);
                        assert(lex_le(rvals[rj].0, rvals[ri].0));
                    }
                }
            }
        }
        proof {
            // the count names exactly the distinct matching subjects
            assert(exists|ms: Seq<Seq<char>>|
                (forall|s: Seq<char>|
                    #[trigger] ms.contains(s) <==> (query_matches(self@, *q, s) && query_in_bounds(
                        self@,
                        *q,
                        s,
                    ))) && (forall|a: int, b: int| 0 <= a < b < ms.len() ==> ms[a] != ms[b])
                    && total == ms.len()) by {
                assert(forall|s: Seq<char>|
                    #[trigger] match_list.contains(s) <==> (query_matches(self@, *q, s)
                        && query_in_bounds(self@, *q, s)));
            }
            // the page carries no subject twice
            assert forall|a: int, b: int|
                0 <= a < b < subjects.len() implies #[trigger] subjects.deep_view()[a]
                != #[trigger] subjects.deep_view()[b] by {
                let plen = end - start;
                if q.sort_desc {
                    assert(subjects.deep_view()[a] == rvals[start + (plen - 1 - a)].1);
                    assert(subjects.deep_view()[b] == rvals[start + (plen - 1 - b)].1);
                    assert(rvals[start + (plen - 1 - b)].1 != rvals[start + (plen - 1 - a)].1);
                } else {
                    assert(subjects.deep_view()[a] == rvals[start + a].1);
                    assert(subjects.deep_view()[b] == rvals[start + b].1);
                    assert(rvals[start + a].1 != rvals[start + b].1);
                }
            }
            // without an agent filter every match survives to the window
            if q.for_agent is None {
                assert(readable.len() == sorted.len());
                assert(rlen == total);
            }
            // the page is exactly the offset window of the readable matches
            let rs = pair_subjects(rvals);
            assert forall|s: Seq<char>|
                #[trigger] rs.contains(s) <==> (query_matches(self@, *q, s) && query_in_bounds(
                    self@,
                    *q,
                    s,
                ) && (q.for_agent matches Some(a) ==> read_allowed_fuel(self@, a@, s, 64))) by {
                if rs.contains(s) {
                    let j2 = choose|j2: int| 0 <= j2 < rs.len() && #[trigger] rs[j2] == s;
                    assert(rvals[j2].1 == s);
                    let j = choose|j: int|
                        0 <= j < sorted.len() && svals[j] == #[trigger] rvals[j2];
                    assert(svals.contains(svals[j])) by {
                        assert(svals[j] == svals[j]);
                    }
                    assert(pairs_deep.contains(svals[j]));
                    let j3 = choose|j3: int|
                        0 <= j3 < pairs_deep.len() && #[trigger] pairs_deep[j3] == svals[j];
                    assert(match_list[j3] == s);
                    assert(match_list.contains(s)) by {
                        assert(match_list[j3] == s);
                    }
                }
                if query_matches(self@, *q, s) && query_in_bounds(self@, *q, s) && (
                q.for_agent matches Some(a) ==> read_allowed_fuel(self@, a@, s, 64)) {
                    assert(match_list.contains(s));
                    let j3 = choose|j3: int|
                        0 <= j3 < match_list.len() && #[trigger] match_list[j3] == s;
                    assert(pairs_deep[j3].1 == s);
                    assert(pairs_deep.contains(pairs_deep[j3])) by {
                        assert(pairs_deep[j3] == pairs_deep[j3]);
                    }
                    assert(svals.contains(pairs_deep[j3]));
                    let j = choose|j: int|
                        0 <= j < svals.len() && #[trigger] svals[j] == pairs_deep[j3];
                    assert(svals[j].1 == s);
                    assert(readable.deep_view().contains(svals[j]));
                    let j2 = choose|j2: int|
                        0 <= j2 < rvals.len() && #[trigger] rvals[j2] == svals[j];
                    assert(rs[j2] == s);
                    assert(rs.contains(s)) by {
                        assert(rs[j2] == s);
                    }
                }
            }
            assert forall|a2: int, b2: int| 0 <= a2 < b2 < rs.len() implies rs[a2] != rs[b2] by {
                assert(rvals[a2].1 != rvals[b2].1);
            }
            assert forall|a2: int, b2: int|
                0 <= a2 < b2 < rs.len() implies lex_le(
                query_key(self@, *q, #[trigger] rs[a2]),
                query_key(self@, *q, #[trigger] rs[b2]),
            ) by {
                if q.sort_by is Some {
                    assert(lex_le(rvals[a2].0, rvals[b2].0));
                    assert(rvals[a2].0 == query_key(self@, *q, rvals[a2].1));
                    assert(rvals[b2].0 == query_key(self@, *q, rvals[b2].1));
                }
            }
            assert(rs.len() == rlen);
            assert forall|j: int|
                0 <= j < end - start implies #[trigger] subjects.deep_view()[j] == rs[(
            if q.sort_desc {
                (end - 1 - j)
            } else {
                (start + j)
            })] by {
                if q.sort_desc {
                    assert(subjects.deep_view()[j] == rvals[start + (end - start - 1 - j)].1);
                } else {
                    assert(subjects.deep_view()[j] == rvals[start + j].1);
                }
            }
        }
        Ok(QueryResult { subjects, resources, count: total })
    }
}

} // verus!
