//! The dynamic collection resolver: query-parameterized subjects whose
//! propvals are the result of a query executed at read time.

use vstd::prelude::*;
use crate::errors::{AtomicError, AtomicResult, ErrorKind};
use crate::helpers::find_char;
use crate::query::Query;
use crate::resources::{pv_find, rv_wf, Resource};
use crate::query::read_allowed_fuel;
use crate::store::{db_wf, res_find, Db};
use crate::text::{parse_u64_str, str_eq};
use crate::urls;
use crate::values::Value;

verus! {

/// How many members a collection page holds when the caller does not say.
pub const DEFAULT_PAGE_SIZE: usize = 30;

/// One `key=value` pair from a collection subject's query string.
#[derive(Clone, Debug)]
pub struct QueryParam {
    pub key: String,
    pub value: String,
}

impl View for QueryParam {
    type V = (Seq<char>, Seq<char>);

    open spec fn view(&self) -> (Seq<char>, Seq<char>) {
        (self.key@, self.value@)
    }
}

impl DeepView for QueryParam {
    type V = (Seq<char>, Seq<char>);

    open spec fn deep_view(&self) -> (Seq<char>, Seq<char>) {
        self.view()
    }
}

/// The value under `key`, scanning parameters left to right.
pub open spec fn qp_find(ps: Seq<(Seq<char>, Seq<char>)>, key: Seq<char>) -> Option<Seq<char>>
    decreases ps.len(),
{
    if ps.len() == 0 {
        None
    } else if ps[0].0 == key {
        Some(ps[0].1)
    } else {
        qp_find(ps.skip(1), key)
    }
}

/// The position of the first `c` in `s`, or the length if none.
fn find_char_in(s: &String, c: char, from: usize) -> (r: usize)
    requires
        from <= s@.len(),
    ensures
        from <= r <= s@.len(),
        r == find_char(s@, c, from as int),
{
    proof {
        crate::helpers::lemma_find_char(s@, c, from as int);
    }
    let slen = s.as_str().unicode_len();
    let mut i: usize = from;
    loop
        invariant
            from <= i <= slen,
            slen == s@.len(),
            find_char(s@, c, from as int) == find_char(s@, c, i as int),
        decreases slen - i,
    {
        if i == slen {
            return i;
        }
        let ci = s.as_str().get_char(i);
        if ci == c {
            return i;
        }
        i = i + 1;
    }
}

/// Splits a collection subject's query string into its `key=value` pairs.
/// Pairs without an equals sign get an empty value.
pub fn parse_query_params(params: &String) -> (out: Vec<QueryParam>)
{
    let mut out: Vec<QueryParam> = Vec::new();
    let slen = params.as_str().unicode_len();
    let mut pos: usize = 0;
    while pos < slen
        invariant
            pos <= slen,
            slen == params@.len(),
        decreases slen - pos,
    {
        let amp = find_char_in(params, '&', pos);
        let eq = find_char_in(params, '=', pos);
        if eq < amp {
            let key = String::from_str(params.as_str().substring_char(pos, eq));
            let value = String::from_str(params.as_str().substring_char(eq + 1, amp));
            out.push(QueryParam { key, value });
        } else {
            let key = String::from_str(params.as_str().substring_char(pos, amp));
            out.push(QueryParam { key, value: String::new() });
        }
        if amp == slen {
            return out;
        }
        pos = amp + 1;
    }
    out
}

/// The value under a parameter key: the first pair that carries it.
fn param_get(params: &Vec<QueryParam>, key: &str) -> (r: Option<String>)
    ensures
        match r {
            Some(v) => qp_find(params.deep_view(), key@) == Some(v@),
            None => qp_find(params.deep_view(), key@) is None,
        },
{
    let want = String::from_str(key);
    let ghost ps = params.deep_view();
    proof {
        assert(ps.skip(0) =~= ps);
    }
    let mut i: usize = 0;
    loop
        invariant
            i <= params.len(),
            ps == params.deep_view(),
            want@ == key@,
            qp_find(ps, key@) == qp_find(ps.skip(i as int), key@),
        decreases params.len() - i,
    {
        if i == params.len() {
            assert(ps.skip(i as int).len() == 0);
            return None;
        }
        if str_eq(&params[i].key, &want) {
            proof {
                assert(ps.skip(i as int)[0] == ps[i as int]);
            }
            return Some(params[i].value.clone());
        }
        proof {
            assert(ps.skip(i as int)[0] == ps[i as int]);
            assert(ps.skip(i as int).skip(1) =~= ps.skip(i + 1));
        }
        i = i + 1;
    }
}

/// Whether the propvals carry, under the member-count property, exactly the
/// number of distinct subjects matching the query (clamped to the integer
/// range).
pub open spec fn member_count_pinned(
    d: crate::store::DbV,
    qq: Query,
    pvs: Seq<(Seq<char>, crate::values::ValueV)>,
) -> bool {
    exists|ms: Seq<Seq<char>>|
        #![trigger ms.len()]
        (forall|s: Seq<char>|
            #[trigger] ms.contains(s) <==> (crate::query::query_matches(d, qq, s)
                && crate::query::query_in_bounds(d, qq, s))) && pv_find(
            pvs,
            crate::urls::COLLECTION_MEMBER_COUNT@,
        ) == Some(
            crate::values::ValueV::Integer(
                if ms.len() <= i64::MAX {
                    ms.len() as int
                } else {
                    i64::MAX as int
                },
            ),
        )
}

/// Whether the query reads as the given agent.
pub open spec fn query_as_agent(qq: Query, fa: Option<Seq<char>>) -> bool {
    match qq.for_agent {
        Some(a) => fa == Some(a@),
        None => fa is None,
    }
}

/// Whether a stored resource is a collection: its `is-a` list names the
/// collection class.
pub open spec fn is_collection_rv(rv: crate::resources::ResourceV) -> bool {
    pv_find(rv.propvals, crate::urls::IS_A@) matches Some(v) && v
        matches crate::values::ValueV::ResourceArray(a) && a.contains(crate::urls::COLLECTION@)
}

impl Db {
    /// Resolves a subject into a resource, executing it as a dynamic
    /// collection when its stored base is one: query parameters override the
    /// stored collection settings, the query runs, and a synthesized
    /// resource carries the page. Pagination past the member count fails
    /// with `OutOfBounds`; a read by an agent without permission fails with
    /// `Unauthorized`.
    #[verifier::rlimit(80)]
    pub fn get_resource_extended(
        &self,
        subject: &str,
        skip_dynamic: bool,
        for_agent: Option<&str>,
    ) -> (r: AtomicResult<Resource>)
        requires
            db_wf(self@),
        ensures
            match r {
                Ok(res) => rv_wf(res@),
                Err(e) => e.kind == ErrorKind::NotFound || e.kind == ErrorKind::OutOfBounds
                    || e.kind == ErrorKind::Unauthorized || e.kind == ErrorKind::ParseError,
            },
            (r matches Err(e) && e.kind == ErrorKind::NotFound) <==> res_find(
                self@.resources,
                subject@.take(crate::helpers::find_char(subject@, '?', 0)),
            ) is None,
            ({
                let base_v = subject@.take(crate::helpers::find_char(subject@, '?', 0));
                res_find(self@.resources, base_v) matches Some(rv) ==> ((skip_dynamic
                    || !is_collection_rv(rv)) ==> match r {
                    Ok(res) => res@ == rv && (for_agent matches Some(a) ==> read_allowed_fuel(
                        self@,
                        a@,
                        base_v,
                        64,
                    )),
                    Err(e) => e.kind == ErrorKind::Unauthorized && (for_agent matches Some(a)
                        && !read_allowed_fuel(self@, a@, base_v, 64)),
                })
            }),
            ({
                let base_v = subject@.take(crate::helpers::find_char(subject@, '?', 0));
                res_find(self@.resources, base_v) matches Some(rv) ==> ((!skip_dynamic
                    && is_collection_rv(rv) && crate::helpers::find_char(subject@, '?', 0)
                    == subject@.len()) ==> r is Ok)
            }),
            ({
                let base_v = subject@.take(crate::helpers::find_char(subject@, '?', 0));
                res_find(self@.resources, base_v) matches Some(rv) ==> ((!skip_dynamic
                    && is_collection_rv(rv)) ==> (r matches Ok(res) ==> (exists|qq: Query|
                    (#[trigger] qq.include_external) == false && query_as_agent(
                        qq,
                        (match for_agent {
                            Some(fa) => Some(fa@),
                            None => None,
                        }),
                    ) && member_count_pinned(self@, qq, res@.propvals))))
            }),
            ({
                let base_v = subject@.take(crate::helpers::find_char(subject@, '?', 0));
                res_find(self@.resources, base_v) matches Some(rv) ==> ((!skip_dynamic
                    && is_collection_rv(rv)) ==> (r matches Ok(res) ==> res@.subject == subject@
                    && pv_find(res@.propvals, crate::urls::IS_A@) == Some(
                    crate::values::ValueV::ResourceArray(seq![crate::urls::COLLECTION@]),
                ) && (pv_find(res@.propvals, crate::urls::COLLECTION_MEMBER_COUNT@) matches Some(
                    mc,
                ) && mc matches crate::values::ValueV::Integer(n) && n >= 0) && (pv_find(
                    res@.propvals,
                    crate::urls::COLLECTION_CURRENT_PAGE@,
                ) matches Some(cp) && cp matches crate::values::ValueV::Integer(p) && p >= 1) && (
                pv_find(res@.propvals, crate::urls::COLLECTION_PAGE_SIZE@) matches Some(pgs)
                    && pgs matches crate::values::ValueV::Integer(sz) && sz >= 1) && (pv_find(
                    res@.propvals,
                    crate::urls::COLLECTION_MEMBERS@,
                ) matches Some(mm) && mm matches crate::values::ValueV::ResourceArray(_)) && (
                pv_find(res@.propvals, crate::urls::COLLECTION_INCLUDE_NESTED@) matches Some(inc)
                    && inc matches crate::values::ValueV::Boolean(_))))
            }),
    {
        let full = String::from_str(subject);
        let qpos = find_char_in(&full, '?', 0);
        let flen = full.as_str().unicode_len();
        let base = String::from_str(full.as_str().substring_char(0, qpos));
        let params = if qpos == flen {
            Vec::new()
        } else {
            parse_query_params(&String::from_str(full.as_str().substring_char(qpos + 1, flen)))
        };
        let base_res = match self.get_propvals(base.as_str()) {
            Ok(res) => res,
            Err(e) => {
                return Err(e);
            },
        };
        proof {
            let w = crate::store::lemma_res_find_witness(self@.resources, base@);
        }
        // is the base a collection?
        let is_collection = match base_res.get(urls::IS_A) {
            Ok(v) => match v {
                Value::ResourceArray(a) => crate::commits::vec_str_contains(
                    a,
                    &String::from_str(urls::COLLECTION),
                ),
                _ => false,
            },
            Err(_) => false,
        };
        if skip_dynamic || !is_collection {
            match for_agent {
                Some(agent) => {
                    let ok = self.read_allowed_exec(
                        &String::from_str(agent),
                        &base,
                        64,
                    );
                    if !ok {
                        return Err(AtomicError::new(ErrorKind::Unauthorized, "not readable"));
                    }
                },
                None => {},
            }
            return Ok(base_res);
        }
        // collection settings: stored propvals, overridden by parameters
        let mut property: Option<String> = match base_res.get(urls::COLLECTION_PROPERTY) {
            Ok(v) => Some(v.to_string()),
            Err(_) => None,
        };
        match param_get(&params, "property") {
            Some(p) => {
                property = Some(p);
            },
            None => {},
        }
        let mut value: Option<String> = match base_res.get(urls::COLLECTION_VALUE) {
            Ok(v) => Some(v.to_string()),
            Err(_) => None,
        };
        match param_get(&params, "value") {
            Some(p) => {
                value = Some(p);
            },
            None => {},
        }
        let mut sort_by: Option<String> = match base_res.get(urls::COLLECTION_SORT_BY) {
            Ok(v) => Some(v.to_string()),
            Err(_) => None,
        };
        match param_get(&params, "sort_by") {
            Some(p) => {
                sort_by = Some(p);
            },
            None => {},
        }
        let mut sort_desc = match base_res.get(urls::COLLECTION_SORT_DESC) {
            Ok(v) => match v.to_bool() {
                Ok(b) => b,
                Err(_) => false,
            },
            Err(_) => false,
        };
        match param_get(&params, "sort_desc") {
            Some(p) => {
                sort_desc = str_eq(&p, &String::from_str("true"));
            },
            None => {},
        }
        let mut include_nested = true;
        match param_get(&params, "include_nested") {
            Some(p) => {
                include_nested = str_eq(&p, &String::from_str("true"));
            },
            None => {},
        }
        let mut page_size: usize = DEFAULT_PAGE_SIZE;
        match base_res.get(urls::COLLECTION_PAGE_SIZE) {
            Ok(v) => match v.to_int() {
                Ok(n) => {
                    if n > 0 && n <= usize::MAX as i64 {
                        page_size = n as usize;
                    }
                },
                Err(_) => {},
            },
            Err(_) => {},
        }
        match param_get(&params, "page_size") {
            Some(p) => match parse_u64_str(&p) {
                Some(n) => {
                    if n > 0 && n <= usize::MAX as u64 {
                        page_size = n as usize;
                    }
                },
                None => {
                    return Err(AtomicError::new(ErrorKind::ParseError, "page_size not a number"));
                },
            },
            None => {},
        }
        let mut current_page: usize = 1;
        match param_get(&params, "current_page") {
            Some(p) => match parse_u64_str(&p) {
                Some(n) => {
                    if n > 0 && n <= usize::MAX as u64 {
                        current_page = n as usize;
                    }
                },
                None => {
                    return Err(
                        AtomicError::new(ErrorKind::ParseError, "current_page not a number"),
                    );
                },
            },
            None => {},
        }
        // execute
        let offset: usize;
        if current_page >= 1 && page_size > 0 && (current_page - 1) <= usize::MAX / page_size {
            proof {
                assert((current_page - 1) * page_size <= usize::MAX) by (nonlinear_arith)
                    requires
                        page_size > 0,
                        current_page >= 1,
                        (current_page - 1) <= usize::MAX / page_size,
                ;
            }
            offset = (current_page - 1) * page_size;
        } else {
            offset = usize::MAX;
        }
        let q = Query {
            property: property.clone(),
            value: value.clone(),
            limit: Some(page_size),
            start_val: None,
            end_val: None,
            offset,
            sort_by: sort_by.clone(),
            sort_desc,
            include_external: false,
            include_nested,
            for_agent: match for_agent {
                Some(a) => Some(String::from_str(a)),
                None => None,
            },
        };
        let result = match self.query(&q) {
            Ok(res) => res,
            Err(e) => {
                return Err(AtomicError::new(ErrorKind::ParseError, "query failed"));
            },
        };
        // pagination bound: the page must exist
        let pages_raw = if result.count == 0 || page_size == 0 {
            1
        } else if result.count > usize::MAX - page_size {
            result.count / page_size
        } else {
            (result.count + page_size - 1) / page_size
        };
        // page one always exists, whatever the count
        let pages = if pages_raw == 0 {
            1
        } else {
            pages_raw
        };
        if current_page > pages {
            return Err(AtomicError::new(ErrorKind::OutOfBounds, "page past the member count"));
        }
        // synthesize
        let mut out = Resource::new(full.clone());
        let mut classes: Vec<String> = Vec::new();
        classes.push(String::from_str(urls::COLLECTION));
        proof {
            crate::urls::lemma_urls_nonempty();
            assert(classes.deep_view() =~= seq![urls::COLLECTION@]);
            assert(crate::values::arr_elems_nonempty(classes.deep_view()));
        }
        out.set_propval_unsafe(String::from_str(urls::IS_A), Value::ResourceArray(classes));
        match &property {
            Some(p) => {
                if p.as_str().unicode_len() > 0 {
                    out.set_propval_unsafe(
                        String::from_str(urls::COLLECTION_PROPERTY),
                        Value::AtomicUrl(p.clone()),
                    );
                }
            },
            None => {},
        }
        match &value {
            Some(v) => {
                out.set_propval_unsafe(
                    String::from_str(urls::COLLECTION_VALUE),
                    Value::Str(v.clone()),
                );
            },
            None => {},
        }
        match &sort_by {
            Some(p) => {
                if p.as_str().unicode_len() > 0 {
                    out.set_propval_unsafe(
                        String::from_str(urls::COLLECTION_SORT_BY),
                        Value::AtomicUrl(p.clone()),
                    );
                }
            },
            None => {},
        }
        out.set_propval_unsafe(
            String::from_str(urls::COLLECTION_SORT_DESC),
            Value::Boolean(sort_desc),
        );
        let page_i64: i64 = if current_page <= i64::MAX as usize {
            current_page as i64
        } else {
            i64::MAX
        };
        out.set_propval_unsafe(
            String::from_str(urls::COLLECTION_CURRENT_PAGE),
            Value::Integer(page_i64),
        );
        let size_i64: i64 = if page_size <= i64::MAX as usize {
            page_size as i64
        } else {
            i64::MAX
        };
        out.set_propval_unsafe(
            String::from_str(urls::COLLECTION_PAGE_SIZE),
            Value::Integer(size_i64),
        );
        let count_i64: i64 = if result.count as u64 <= i64::MAX as u64 {
            result.count as i64
        } else {
            i64::MAX
        };
        out.set_propval_unsafe(
            String::from_str(urls::COLLECTION_MEMBER_COUNT),
            Value::Integer(count_i64),
        );
        let mut members: Vec<String> = Vec::new();
        let mut mi: usize = 0;
        while mi < result.subjects.len()
            invariant
                mi <= result.subjects.len(),
                crate::values::arr_elems_nonempty(members.deep_view()),
            decreases result.subjects.len() - mi,
        {
            if result.subjects[mi].as_str().unicode_len() > 0 {
                let ghost old_deep = members.deep_view();
                let s = result.subjects[mi].clone();
                let ghost sv = s@;
                members.push(s);
                proof {
                    assert(members.deep_view() =~= old_deep.push(sv));
                    assert forall|j: int|
                        0 <= j < members.deep_view().len() implies (
                    #[trigger] members.deep_view()[j]).len() >= 1 by {
                        if j < old_deep.len() {
                            assert(old_deep[j].len() >= 1);
                        }
                    }
                }
            }
            mi = mi + 1;
        }
        out.set_propval_unsafe(
            String::from_str(urls::COLLECTION_MEMBERS),
            Value::ResourceArray(members),
        );
        out.set_propval_unsafe(
            String::from_str(urls::COLLECTION_INCLUDE_NESTED),
            Value::Boolean(include_nested),
        );
        proof {
            crate::urls::lemma_collection_props_distinct();
            assert(pv_find(out@.propvals, crate::urls::IS_A@) == Some(
                crate::values::ValueV::ResourceArray(seq![crate::urls::COLLECTION@]),
            ));
            // the member count names the match count of the executed query
            assert(q.include_external == false);
            assert(query_as_agent(
                q,
                (match for_agent {
                    Some(fa) => Some(fa@),
                    None => None,
                }),
            ));
            let ms = choose|ms: Seq<Seq<char>>|
                #![trigger ms.len()]
                (forall|s: Seq<char>|
                    #[trigger] ms.contains(s) <==> (crate::query::query_matches(self@, q, s)
                        && crate::query::query_in_bounds(self@, q, s))) && (forall|
                    a2: int,
                    b2: int,
                |
                    0 <= a2 < b2 < ms.len() ==> ms[a2] != ms[b2]) && result.count == ms.len();
            assert(pv_find(out@.propvals, crate::urls::COLLECTION_MEMBER_COUNT@) == Some(
                crate::values::ValueV::Integer(count_i64 as int),
            ));
            assert(pv_find(out@.propvals, crate::urls::COLLECTION_CURRENT_PAGE@) == Some(
                crate::values::ValueV::Integer(page_i64 as int),
            ));
            assert(pv_find(out@.propvals, crate::urls::COLLECTION_PAGE_SIZE@) == Some(
                crate::values::ValueV::Integer(size_i64 as int),
            ));
            assert(member_count_pinned(self@, q, out@.propvals)) by {
                assert(count_i64 as int == (if ms.len() <= i64::MAX {
                    ms.len() as int
                } else {
                    i64::MAX as int
                }));
            }
        }
        Ok(out)
    }
}

} // verus!
