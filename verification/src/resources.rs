//! Resources: an in-memory bag of (property URL → value) for one subject,
//! with deterministic (lexicographic) iteration order.

use vstd::prelude::*;
use crate::errors::{AtomicError, AtomicResult, ErrorKind};
use crate::text::{lemma_lex_irrefl, lemma_lex_trans, lex_lt, str_compare, str_eq};
use crate::values::{value_valid, DataType, Value, ValueV};

verus! {

/// The schema of one property: its subject URL, datatype and shortname.
#[derive(Clone, Debug)]
pub struct Property {
    pub class_type: Option<String>,
    pub data_type: DataType,
    pub shortname: String,
    pub description: String,
    pub subject: String,
}

impl Property {
    /// A copy with the same fields.
    pub fn duplicate(&self) -> (r: Property)
        ensures
            r.data_type == self.data_type,
            r.shortname@ == self.shortname@,
            r.description@ == self.description@,
            r.subject@ == self.subject@,
            match (r.class_type, self.class_type) {
                (None, None) => true,
                (Some(a), Some(b)) => a@ == b@,
                _ => false,
            },
    {
        Property {
            class_type: match &self.class_type {
                Some(c) => Some(c.clone()),
                None => None,
            },
            data_type: self.data_type,
            shortname: self.shortname.clone(),
            description: self.description.clone(),
            subject: self.subject.clone(),
        }
    }
}

/// One (property URL, value) pair of a resource.
#[derive(Clone, Debug)]
pub struct PropVal {
    pub property: String,
    pub value: Value,
}

impl View for PropVal {
    type V = (Seq<char>, ValueV);

    open spec fn view(&self) -> (Seq<char>, ValueV) {
        (self.property@, self.value@)
    }
}

impl DeepView for PropVal {
    type V = (Seq<char>, ValueV);

    open spec fn deep_view(&self) -> (Seq<char>, ValueV) {
        self.view()
    }
}

/// The mathematical shape of a resource.
pub struct ResourceV {
    pub subject: Seq<char>,
    pub propvals: Seq<(Seq<char>, ValueV)>,
}

/// The value under `key`, scanning left to right.
pub open spec fn pv_find(pvs: Seq<(Seq<char>, ValueV)>, key: Seq<char>) -> Option<ValueV>
    decreases pvs.len(),
{
    if pvs.len() == 0 {
        None
    } else if pvs[0].0 == key {
        Some(pvs[0].1)
    } else {
        pv_find(pvs.skip(1), key)
    }
}

/// Keys strictly ascend in lexicographic order.
pub open spec fn pv_sorted(pvs: Seq<(Seq<char>, ValueV)>) -> bool {
    forall|i: int, j: int|
        0 <= i < j < pvs.len() ==> lex_lt((#[trigger] pvs[i]).0, (#[trigger] pvs[j]).0)
}

/// Every held value is valid for its datatype.
pub open spec fn pv_values_valid(pvs: Seq<(Seq<char>, ValueV)>) -> bool {
    forall|i: int| 0 <= i < pvs.len() ==> value_valid((#[trigger] pvs[i]).1)
}

/// Well-formedness of a resource: sorted keys, valid values.
pub open spec fn rv_wf(rv: ResourceV) -> bool {
    pv_sorted(rv.propvals) && pv_values_valid(rv.propvals)
}

/// Finding at a witness index: the first occurrence decides.
pub proof fn lemma_pv_find_present(pvs: Seq<(Seq<char>, ValueV)>, key: Seq<char>, i: int)
    requires
        0 <= i < pvs.len(),
        pvs[i].0 == key,
        forall|j: int| 0 <= j < i ==> (#[trigger] pvs[j]).0 != key,
    ensures
        pv_find(pvs, key) == Some(pvs[i].1),
    decreases i,
{
    if i == 0 {
    } else {
        assert(pvs[0].0 != key);
        assert forall|j: int| 0 <= j < i - 1 implies (#[trigger] pvs.skip(1)[j]).0 != key by {
            assert(pvs.skip(1)[j] == pvs[j + 1]);
        }
        assert(pvs.skip(1)[i - 1] == pvs[i]);
        lemma_pv_find_present(pvs.skip(1), key, i - 1);
    }
}

/// Finding nothing means the key is nowhere.
pub proof fn lemma_pv_find_none(pvs: Seq<(Seq<char>, ValueV)>, key: Seq<char>)
    ensures
        (pv_find(pvs, key) is None) <==> (forall|i: int|
            0 <= i < pvs.len() ==> (#[trigger] pvs[i]).0 != key),
    decreases pvs.len(),
{
    if pvs.len() > 0 {
        lemma_pv_find_none(pvs.skip(1), key);
        if pvs[0].0 != key {
            assert forall|j: int|
                0 <= j < pvs.skip(1).len() implies pvs.skip(1)[j] == pvs[j + 1] by {}
            if pv_find(pvs, key) is None {
                assert forall|i: int| 0 <= i < pvs.len() implies (#[trigger] pvs[i]).0 != key by {
                    if i > 0 {
                        assert(pvs.skip(1)[i - 1] == pvs[i]);
                    }
                }
            } else {
                let w = choose|i: int|
                    0 <= i < pvs.skip(1).len() && (#[trigger] pvs.skip(1)[i]).0 == key;
                assert(pvs[w + 1].0 == key);
            }
        }
    }
}

/// A found value has a witness index, before which the key is absent.
pub proof fn lemma_pv_find_witness(pvs: Seq<(Seq<char>, ValueV)>, key: Seq<char>) -> (i: int)
    requires
        pv_find(pvs, key) is Some,
    ensures
        0 <= i < pvs.len(),
        pvs[i].0 == key,
        pvs[i].1 == pv_find(pvs, key)->0,
        forall|j: int| 0 <= j < i ==> (#[trigger] pvs[j]).0 != key,
    decreases pvs.len(),
{
    if pvs[0].0 == key {
        0
    } else {
        let w = lemma_pv_find_witness(pvs.skip(1), key);
        assert forall|j: int| 0 <= j < w + 1 implies (#[trigger] pvs[j]).0 != key by {
            if j > 0 {
                assert(pvs.skip(1)[j - 1] == pvs[j]);
            }
        }
        assert(pvs.skip(1)[w] == pvs[w + 1]);
        w + 1
    }
}

/// A resource: a subject and its property values.
#[derive(Clone, Debug)]
pub struct Resource {
    pub subject: String,
    pub propvals: Vec<PropVal>,
}

impl View for Resource {
    type V = ResourceV;

    open spec fn view(&self) -> ResourceV {
        ResourceV { subject: self.subject@, propvals: self.propvals.deep_view() }
    }
}

impl Resource {
    /// An empty resource for the subject.
    pub fn new(subject: String) -> (r: Resource)
        ensures
            r@.subject == subject@,
            r@.propvals.len() == 0,
            rv_wf(r@),
    {
        let r = Resource { subject, propvals: Vec::new() };
        proof {
            assert(r@.propvals =~= Seq::<(Seq<char>, ValueV)>::empty());
        }
        r
    }

    /// The subject URL.
    pub fn get_subject(&self) -> (r: &String)
        ensures
            r@ == self@.subject,
    {
        &self.subject
    }

    /// How many property values the resource holds.
    pub fn len(&self) -> (r: usize)
        ensures
            r == self@.propvals.len(),
    {
        self.propvals.len()
    }

    /// The value under the property, or `NotFound`.
    pub fn get(&self, property: &str) -> (r: AtomicResult<&Value>)
        ensures
            match r {
                Ok(v) => pv_find(self@.propvals, property@) == Some(v@),
                Err(e) => e.kind == ErrorKind::NotFound && pv_find(
                    self@.propvals,
                    property@,
                ) is None,
            },
    {
        let key = String::from_str(property);
        let ghost pvs = self@.propvals;
        proof {
            assert(pvs.skip(0) =~= pvs);
        }
        let mut i: usize = 0;
        loop
            invariant
                i <= self.propvals.len(),
                pvs == self@.propvals,
                key@ == property@,
                pv_find(pvs, key@) == pv_find(pvs.skip(i as int), key@),
            decreases self.propvals.len() - i,
        {
            if i == self.propvals.len() {
                assert(pvs.skip(i as int).len() == 0);
                return Err(AtomicError::new(ErrorKind::NotFound, "property not set"));
            }
            if str_eq(&self.propvals[i].property, &key) {
                proof {
                    assert(pvs.skip(i as int)[0] == pvs[i as int]);
                    assert(pvs[i as int].0 == key@);
                }
                return Ok(&self.propvals[i].value);
            }
            proof {
                assert(pvs.skip(i as int)[0] == pvs[i as int]);
                assert(pvs.skip(i as int).skip(1) =~= pvs.skip(i + 1));
            }
            i = i + 1;
        }
    }

    /// Sets one property value without consulting a schema, keeping keys
    /// sorted; replaces any prior value under the same property.
    pub fn set_propval_unsafe(&mut self, property: String, value: Value)
        requires
            value_valid(value@),
            rv_wf(old(self)@),
        ensures
            rv_wf(final(self)@),
            final(self)@.subject == old(self)@.subject,
            pv_find(final(self)@.propvals, property@) == Some(value@),
            forall|k: Seq<char>|
                k != property@ ==> #[trigger] pv_find(final(self)@.propvals, k) == pv_find(
                    old(self)@.propvals,
                    k,
                ),
    {
        let ghost pvs = self@.propvals;
        let mut i: usize = 0;
        loop
            invariant
                i <= self.propvals.len(),
                *self == *old(self),
                pvs == self@.propvals,
                rv_wf(old(self)@),
                value_valid(value@),
                forall|j: int| 0 <= j < i ==> lex_lt((#[trigger] pvs[j]).0, property@),
            decreases self.propvals.len() - i,
        {
            if i == self.propvals.len() {
                self.propvals.push(PropVal { property, value });
                proof {
                    let newpvs = self@.propvals;
                    assert(newpvs =~= pvs.push((property@, value@)));
                    lemma_pv_set_at(pvs, i as int, property@, value@, newpvs);
                }
                return ;
            }
            let c = str_compare(&self.propvals[i].property, &property);
            if c == 0 {
                self.propvals.set(i, PropVal { property, value });
                proof {
                    let newpvs = self@.propvals;
                    assert(newpvs =~= pvs.update(i as int, (property@, value@)));
                    lemma_pv_replace_at(pvs, i as int, property@, value@, newpvs);
                }
                return ;
            }
            if c == 1 {
                self.propvals.insert(i, PropVal { property, value });
                proof {
                    let newpvs = self@.propvals;
                    assert(newpvs =~= pvs.insert(i as int, (property@, value@)));
                    lemma_pv_insert_at(pvs, i as int, property@, value@, newpvs);
                }
                return ;
            }
            i = i + 1;
        }
    }

    /// Removes the property, if set.
    pub fn remove_propval(&mut self, property: &str)
        requires
            rv_wf(old(self)@),
        ensures
            rv_wf(final(self)@),
            final(self)@.subject == old(self)@.subject,
            pv_find(final(self)@.propvals, property@) is None,
            forall|k: Seq<char>|
                k != property@ ==> #[trigger] pv_find(final(self)@.propvals, k) == pv_find(
                    old(self)@.propvals,
                    k,
                ),
    {
        let key = String::from_str(property);
        let ghost pvs = self@.propvals;
        let mut i: usize = 0;
        loop
            invariant
                i <= self.propvals.len(),
                *self == *old(self),
                pvs == self@.propvals,
                rv_wf(old(self)@),
                key@ == property@,
                forall|j: int| 0 <= j < i ==> (#[trigger] pvs[j]).0 != property@,
            decreases self.propvals.len() - i,
        {
            if i == self.propvals.len() {
                proof {
                    lemma_pv_find_none(pvs, property@);
                }
                return ;
            }
            if str_eq(&self.propvals[i].property, &key) {
                self.propvals.remove(i);
                proof {
                    let newpvs = self@.propvals;
                    assert(newpvs =~= pvs.remove(i as int));
                    lemma_pv_remove_at(pvs, i as int, property@, newpvs);
                }
                return ;
            }
            i = i + 1;
        }
    }

    /// A copy with the same shape.
    pub fn duplicate(&self) -> (r: Resource)
        ensures
            r@.subject == self@.subject,
            r@.propvals == self@.propvals,
    {
        let mut out: Vec<PropVal> = Vec::new();
        let mut i: usize = 0;
        proof {
            assert(out.deep_view() =~= self@.propvals.take(0));
        }
        while i < self.propvals.len()
            invariant
                i <= self.propvals.len(),
                out.deep_view() == self@.propvals.take(i as int),
            decreases self.propvals.len() - i,
        {
            let pv = PropVal {
                property: self.propvals[i].property.clone(),
                value: self.propvals[i].value.duplicate(),
            };
            out.push(pv);
            proof {
                assert(self@.propvals.take(i + 1) =~= self@.propvals.take(i as int).push(
                    self@.propvals[i as int],
                ));
                assert(pv.deep_view() == self@.propvals[i as int]);
                assert(out.deep_view() =~= self@.propvals.take(i + 1));
            }
            i = i + 1;
        }
        proof {
            assert(self@.propvals.take(self.propvals.len() as int) =~= self@.propvals);
        }
        Resource { subject: self.subject.clone(), propvals: out }
    }
}

/// Appending or inserting a fresh key at its sorted place keeps the shape and
/// adjusts exactly that key.
proof fn lemma_pv_set_at(
    pvs: Seq<(Seq<char>, ValueV)>,
    i: int,
    key: Seq<char>,
    val: ValueV,
    newpvs: Seq<(Seq<char>, ValueV)>,
)
    requires
        pv_sorted(pvs),
        pv_values_valid(pvs),
        value_valid(val),
        i == pvs.len(),
        forall|j: int| 0 <= j < i ==> lex_lt((#[trigger] pvs[j]).0, key),
        newpvs == pvs.push((key, val)),
    ensures
        pv_sorted(newpvs),
        pv_values_valid(newpvs),
        pv_find(newpvs, key) == Some(val),
        forall|k: Seq<char>|
            k != key ==> #[trigger] pv_find(newpvs, k) == pv_find(pvs, k),
{
    assert(newpvs =~= pvs.insert(i, (key, val)));
    lemma_pv_insert_at(pvs, i, key, val, newpvs);
}

/// Inserting a fresh key at its sorted place keeps the shape and adjusts
/// exactly that key.
proof fn lemma_pv_insert_at(
    pvs: Seq<(Seq<char>, ValueV)>,
    i: int,
    key: Seq<char>,
    val: ValueV,
    newpvs: Seq<(Seq<char>, ValueV)>,
)
    requires
        pv_sorted(pvs),
        pv_values_valid(pvs),
        value_valid(val),
        0 <= i <= pvs.len(),
        forall|j: int| 0 <= j < i ==> lex_lt((#[trigger] pvs[j]).0, key),
        i < pvs.len() ==> lex_lt(key, pvs[i].0),
        newpvs == pvs.insert(i, (key, val)),
    ensures
        pv_sorted(newpvs),
        pv_values_valid(newpvs),
        pv_find(newpvs, key) == Some(val),
        forall|k: Seq<char>|
            k != key ==> #[trigger] pv_find(newpvs, k) == pv_find(pvs, k),
{
    assert(newpvs.len() == pvs.len() + 1);
    assert forall|a: int| 0 <= a < newpvs.len() implies #[trigger] newpvs[a] == (if a < i {
        pvs[a]
    } else if a == i {
        (key, val)
    } else {
        pvs[a - 1]
    }) by {}
    assert forall|a: int, b: int|
        0 <= a < b < newpvs.len() implies lex_lt(
        (#[trigger] newpvs[a]).0,
        (#[trigger] newpvs[b]).0,
    ) by {
        if a < i && b < i {
        } else if a < i && b == i {
        } else if a < i && b > i {
            if b - 1 == a {
            } else {
                assert(lex_lt(pvs[a].0, pvs[b - 1].0));
            }
        } else if a == i && b > i {
            if b - 1 == i {
                assert(lex_lt(key, pvs[i].0));
            } else {
                assert(lex_lt(pvs[i].0, pvs[b - 1].0));
                lemma_lex_trans(key, pvs[i].0, pvs[b - 1].0);
            }
        } else {
            assert(lex_lt(pvs[a - 1].0, pvs[b - 1].0));
        }
    }
    assert forall|a: int| 0 <= a < newpvs.len() implies value_valid((#[trigger] newpvs[a]).1) by {}
    assert forall|j: int| 0 <= j < i implies (#[trigger] newpvs[j]).0 != key by {
        lemma_lex_irrefl(key);
        if newpvs[j].0 == key {
            assert(lex_lt(key, key));
        }
    }
    lemma_pv_find_present(newpvs, key, i);
    assert forall|k: Seq<char>|
        k != key implies #[trigger] pv_find(newpvs, k) == pv_find(pvs, k) by {
        lemma_pv_find_none(pvs, k);
        lemma_pv_find_none(newpvs, k);
        if pv_find(pvs, k) is Some {
            let w = lemma_pv_find_witness(pvs, k);
            if w < i {
                lemma_pv_find_present(newpvs, k, w);
            } else {
                assert(newpvs[w + 1] == pvs[w]);
                assert forall|j: int| 0 <= j < w + 1 implies (#[trigger] newpvs[j]).0 != k by {
                    if j < i {
                        assert(newpvs[j] == pvs[j]);
                    } else if j == i {
                    } else {
                        assert(newpvs[j] == pvs[j - 1]);
                    }
                }
                lemma_pv_find_present(newpvs, k, w + 1);
            }
        } else {
            assert forall|j: int| 0 <= j < newpvs.len() implies (#[trigger] newpvs[j]).0 != k by {
                if j < i {
                    assert(newpvs[j] == pvs[j]);
                } else if j == i {
                } else {
                    assert(newpvs[j] == pvs[j - 1]);
                }
            }
        }
    }
}

/// Replacing the value under an existing key keeps the shape and adjusts
/// exactly that key.
proof fn lemma_pv_replace_at(
    pvs: Seq<(Seq<char>, ValueV)>,
    i: int,
    key: Seq<char>,
    val: ValueV,
    newpvs: Seq<(Seq<char>, ValueV)>,
)
    requires
        pv_sorted(pvs),
        pv_values_valid(pvs),
        value_valid(val),
        0 <= i < pvs.len(),
        pvs[i].0 == key,
        forall|j: int| 0 <= j < i ==> lex_lt((#[trigger] pvs[j]).0, key),
        newpvs == pvs.update(i, (key, val)),
    ensures
        pv_sorted(newpvs),
        pv_values_valid(newpvs),
        pv_find(newpvs, key) == Some(val),
        forall|k: Seq<char>|
            k != key ==> #[trigger] pv_find(newpvs, k) == pv_find(pvs, k),
{
    assert(newpvs.len() == pvs.len());
    assert forall|a: int| 0 <= a < newpvs.len() implies #[trigger] newpvs[a] == (if a == i {
        (key, val)
    } else {
        pvs[a]
    }) by {}
    assert forall|a: int, b: int|
        0 <= a < b < newpvs.len() implies lex_lt(
        (#[trigger] newpvs[a]).0,
        (#[trigger] newpvs[b]).0,
    ) by {
        assert(lex_lt(pvs[a].0, pvs[b].0));
        assert(newpvs[a].0 == pvs[a].0);
        assert(newpvs[b].0 == pvs[b].0);
    }
    assert forall|a: int| 0 <= a < newpvs.len() implies value_valid((#[trigger] newpvs[a]).1) by {}
    assert forall|j: int| 0 <= j < i implies (#[trigger] newpvs[j]).0 != key by {
        lemma_lex_irrefl(key);
        if newpvs[j].0 == key {
            assert(lex_lt(key, key));
        }
    }
    lemma_pv_find_present(newpvs, key, i);
    assert forall|k: Seq<char>|
        k != key implies #[trigger] pv_find(newpvs, k) == pv_find(pvs, k) by {
        lemma_pv_find_none(pvs, k);
        lemma_pv_find_none(newpvs, k);
        if pv_find(pvs, k) is Some {
            let w = lemma_pv_find_witness(pvs, k);
            assert(w != i);
            assert(newpvs[w] == pvs[w]);
            assert forall|j: int| 0 <= j < w implies (#[trigger] newpvs[j]).0 != k by {
                if j != i {
                    assert(newpvs[j] == pvs[j]);
                }
            }
            lemma_pv_find_present(newpvs, k, w);
        } else {
            assert forall|j: int| 0 <= j < newpvs.len() implies (#[trigger] newpvs[j]).0 != k by {
                if j != i {
                    assert(newpvs[j] == pvs[j]);
                }
            }
        }
    }
}

/// Removing a key keeps the shape, drops that key and no other.
proof fn lemma_pv_remove_at(
    pvs: Seq<(Seq<char>, ValueV)>,
    i: int,
    key: Seq<char>,
    newpvs: Seq<(Seq<char>, ValueV)>,
)
    requires
        pv_sorted(pvs),
        pv_values_valid(pvs),
        0 <= i < pvs.len(),
        pvs[i].0 == key,
        forall|j: int| 0 <= j < i ==> (#[trigger] pvs[j]).0 != key,
        newpvs == pvs.remove(i),
    ensures
        pv_sorted(newpvs),
        pv_values_valid(newpvs),
        pv_find(newpvs, key) is None,
        forall|k: Seq<char>|
            k != key ==> #[trigger] pv_find(newpvs, k) == pv_find(pvs, k),
{
    assert(newpvs.len() == pvs.len() - 1);
    assert forall|a: int| 0 <= a < newpvs.len() implies #[trigger] newpvs[a] == (if a < i {
        pvs[a]
    } else {
        pvs[a + 1]
    }) by {}
    assert forall|a: int, b: int|
        0 <= a < b < newpvs.len() implies lex_lt(
        (#[trigger] newpvs[a]).0,
        (#[trigger] newpvs[b]).0,
    ) by {
        if a < i && b < i {
        } else if a < i {
            assert(lex_lt(pvs[a].0, pvs[b + 1].0));
        } else {
            assert(lex_lt(pvs[a + 1].0, pvs[b + 1].0));
        }
    }
    assert forall|a: int| 0 <= a < newpvs.len() implies value_valid((#[trigger] newpvs[a]).1) by {}
    lemma_pv_find_none(newpvs, key);
    assert forall|j: int| 0 <= j < newpvs.len() implies (#[trigger] newpvs[j]).0 != key by {
        if j >= i {
            assert(newpvs[j] == pvs[j + 1]);
            assert(lex_lt(pvs[i].0, pvs[j + 1].0));
            lemma_lex_irrefl(key);
        }
    }
    assert forall|k: Seq<char>|
        k != key implies #[trigger] pv_find(newpvs, k) == pv_find(pvs, k) by {
        lemma_pv_find_none(pvs, k);
        lemma_pv_find_none(newpvs, k);
        if pv_find(pvs, k) is Some {
            let w = lemma_pv_find_witness(pvs, k);
            assert(w != i);
            if w < i {
                assert(newpvs[w] == pvs[w]);
                assert forall|j: int| 0 <= j < w implies (#[trigger] newpvs[j]).0 != k by {
                    assert(newpvs[j] == pvs[j]);
                }
                lemma_pv_find_present(newpvs, k, w);
            } else {
                assert(newpvs[w - 1] == pvs[w]);
                assert forall|j: int| 0 <= j < w - 1 implies (#[trigger] newpvs[j]).0 != k by {
                    if j < i {
                        assert(newpvs[j] == pvs[j]);
                    } else {
                        assert(newpvs[j] == pvs[j + 1]);
                    }
                }
                lemma_pv_find_present(newpvs, k, w - 1);
            }
        } else {
            assert forall|j: int| 0 <= j < newpvs.len() implies (#[trigger] newpvs[j]).0 != k by {
                if j < i {
                    assert(newpvs[j] == pvs[j]);
                } else {
                    assert(newpvs[j] == pvs[j + 1]);
                }
            }
        }
    }
}

} // verus!
