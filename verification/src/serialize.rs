//! Resource serialization: a resource as one string of length-prefixed
//! fields, and the parse that inverts it.

use vstd::prelude::*;
use crate::errors::{AtomicError, AtomicResult, ErrorKind};
use crate::resources::{pv_values_valid, PropVal, Resource, ResourceV};
use crate::text::{
    arr_enc, encode_net, lemma_arr_enc_injective, lemma_arr_enc_snoc, parse_str_list, push_char,
};
use crate::values::{
    datatype_code, datatype_from_code, dt_code, lemma_value_string_injective, value_dt,
    value_string, Value, ValueV,
};

verus! {

/// One propval as two serialized fields: the property URL, and the value
/// string prefixed with its one-character datatype tag.
pub open spec fn flat_pvs(pvs: Seq<(Seq<char>, ValueV)>) -> Seq<Seq<char>>
    decreases pvs.len(),
{
    if pvs.len() == 0 {
        Seq::<Seq<char>>::empty()
    } else {
        seq![pvs[0].0, seq![dt_code(value_dt(pvs[0].1))] + value_string(pvs[0].1)] + flat_pvs(
            pvs.skip(1),
        )
    }
}

/// The serialized fields of a resource: the subject, then each propval.
pub open spec fn flat_resource(rv: ResourceV) -> Seq<Seq<char>> {
    seq![rv.subject] + flat_pvs(rv.propvals)
}

/// The serialized text of a resource.
pub open spec fn resource_enc(rv: ResourceV) -> Seq<char> {
    arr_enc(flat_resource(rv))
}

/// Appending one propval appends its two fields.
pub proof fn lemma_flat_pvs_snoc(pvs: Seq<(Seq<char>, ValueV)>, x: (Seq<char>, ValueV))
    ensures
        flat_pvs(pvs.push(x)) == flat_pvs(pvs) + seq![
            x.0,
            seq![dt_code(value_dt(x.1))] + value_string(x.1),
        ],
    decreases pvs.len(),
{
    if pvs.len() == 0 {
        assert(pvs.push(x)[0] == x);
        assert(pvs.push(x).skip(1) =~= Seq::<(Seq<char>, ValueV)>::empty());
        assert(flat_pvs(Seq::<(Seq<char>, ValueV)>::empty()) =~= Seq::<Seq<char>>::empty());
        assert(flat_pvs(pvs.push(x)) =~= flat_pvs(pvs) + seq![
            x.0,
            seq![dt_code(value_dt(x.1))] + value_string(x.1),
        ]);
    } else {
        assert(pvs.push(x)[0] == pvs[0]);
        assert(pvs.push(x).skip(1) =~= pvs.skip(1).push(x));
        lemma_flat_pvs_snoc(pvs.skip(1), x);
        assert(flat_pvs(pvs.push(x)) =~= flat_pvs(pvs) + seq![
            x.0,
            seq![dt_code(value_dt(x.1))] + value_string(x.1),
        ]);
    }
}

/// Where each propval's fields stand in the flattened list.
pub proof fn lemma_flat_pvs_index(pvs: Seq<(Seq<char>, ValueV)>, k: int)
    requires
        0 <= k < pvs.len(),
    ensures
        flat_pvs(pvs).len() == 2 * pvs.len(),
        flat_pvs(pvs)[2 * k] == pvs[k].0,
        flat_pvs(pvs)[2 * k + 1] == seq![dt_code(value_dt(pvs[k].1))] + value_string(pvs[k].1),
    decreases k,
{
    lemma_flat_pvs_len(pvs);
    if k == 0 {
    } else {
        lemma_flat_pvs_index(pvs.skip(1), k - 1);
        assert(pvs.skip(1)[k - 1] == pvs[k]);
    }
}

/// The flattened list holds two fields per propval.
pub proof fn lemma_flat_pvs_len(pvs: Seq<(Seq<char>, ValueV)>)
    ensures
        flat_pvs(pvs).len() == 2 * pvs.len(),
    decreases pvs.len(),
{
    if pvs.len() > 0 {
        lemma_flat_pvs_len(pvs.skip(1));
    }
}

/// Serializes a resource as one string of length-prefixed fields.
pub fn serialize_resource(r: &Resource) -> (out: String)
    ensures
        out@ == resource_enc(r@),
{
    let mut out = String::new();
    encode_net(&mut out, &r.subject);
    proof {
        assert(out@ =~= arr_enc(seq![r@.subject])) by {
            assert(seq![r@.subject].skip(1) =~= Seq::<Seq<char>>::empty());
            assert(arr_enc(Seq::<Seq<char>>::empty()) =~= Seq::<char>::empty());
            assert(arr_enc(seq![r@.subject]) =~= crate::text::net_enc(r@.subject));
        }
        assert(seq![r@.subject] =~= flat_resource(
            ResourceV { subject: r@.subject, propvals: r@.propvals.take(0) },
        )) by {
            assert(flat_pvs(r@.propvals.take(0)) =~= Seq::<Seq<char>>::empty());
        }
    }
    let mut i: usize = 0;
    while i < r.propvals.len()
        invariant
            i <= r.propvals.len(),
            out@ == arr_enc(seq![r@.subject] + flat_pvs(r@.propvals.take(i as int))),
        decreases r.propvals.len() - i,
    {
        let pv = &r.propvals[i];
        let ghost before = out@;
        encode_net(&mut out, &pv.property);
        let mut tagged = String::new();
        push_char(&mut tagged, datatype_code(&pv.value.datatype()));
        let valstr = pv.value.to_string();
        tagged.append(valstr.as_str());
        proof {
            assert(tagged@ =~= seq![dt_code(value_dt(pv.value@))] + value_string(pv.value@));
        }
        encode_net(&mut out, &tagged);
        proof {
            let pvk = r@.propvals[i as int];
            assert(pvk == (pv.property@, pv.value@));
            let prefix = seq![r@.subject] + flat_pvs(r@.propvals.take(i as int));
            lemma_arr_enc_snoc(prefix, pv.property@);
            lemma_arr_enc_snoc(prefix.push(pv.property@), tagged@);
            lemma_flat_pvs_snoc(r@.propvals.take(i as int), pvk);
            assert(r@.propvals.take(i + 1) =~= r@.propvals.take(i as int).push(pvk));
            assert(seq![r@.subject] + flat_pvs(r@.propvals.take(i + 1)) =~= prefix.push(
                pv.property@,
            ).push(tagged@));
            assert(out@ =~= arr_enc(seq![r@.subject] + flat_pvs(r@.propvals.take(i + 1))));
        }
        i = i + 1;
    }
    proof {
        assert(r@.propvals.take(r.propvals.len() as int) =~= r@.propvals);
    }
    out
}

/// Parses a serialized resource: succeeds exactly on the serialized form of
/// a resource whose values are valid, and returns that resource.
pub fn parse_resource(s: &String) -> (r: AtomicResult<Resource>)
    ensures
        match r {
            Ok(res) => s@ == resource_enc(res@) && pv_values_valid(res@.propvals),
            Err(e) => e.kind == ErrorKind::ParseError,
        },
        forall|rv: ResourceV|
            (#[trigger] resource_enc(rv) == s@ && pv_values_valid(rv.propvals)) ==> (
            r matches Ok(res) && res@.subject == rv.subject && res@.propvals == rv.propvals),
{
    let parsed = parse_str_list(s);
    match parsed {
        None => {
            proof {
                assert forall|rv: ResourceV|
                    !(#[trigger] resource_enc(rv) == s@ && pv_values_valid(rv.propvals)) by {}
            }
            Err(AtomicError::new(ErrorKind::ParseError, "not a serialized resource"))
        },
        Some(xs) => {
            proof {
                assert forall|rv: ResourceV|
                    #[trigger] resource_enc(rv) == s@ && pv_values_valid(rv.propvals)
                    implies flat_resource(rv) == xs.deep_view() by {
                    lemma_arr_enc_injective(flat_resource(rv), xs.deep_view());
                }
            }
            if xs.len() == 0 {
                proof {
                    assert forall|rv: ResourceV|
                        !(#[trigger] resource_enc(rv) == s@ && pv_values_valid(rv.propvals)) by {
                        if resource_enc(rv) == s@ && pv_values_valid(rv.propvals) {
                            assert(flat_resource(rv).len() >= 1);
                        }
                    }
                }
                return Err(AtomicError::new(ErrorKind::ParseError, "empty field list"));
            }
            if (xs.len() - 1) % 2 != 0 {
                proof {
                    assert forall|rv: ResourceV|
                        !(#[trigger] resource_enc(rv) == s@ && pv_values_valid(rv.propvals)) by {
                        if resource_enc(rv) == s@ && pv_values_valid(rv.propvals) {
                            lemma_flat_pvs_len(rv.propvals);
                        }
                    }
                }
                return Err(AtomicError::new(ErrorKind::ParseError, "dangling field"));
            }
            let subject = xs[0].clone();
            let pairs = (xs.len() - 1) / 2;
            let mut propvals: Vec<PropVal> = Vec::new();
            let ghost deep = xs.deep_view();
            proof {
                assert(propvals.deep_view() =~= Seq::<(Seq<char>, ValueV)>::empty());
            }
            let mut k: usize = 0;
            while k < pairs
                invariant
                    k <= pairs,
                    xs.len() == 1 + 2 * pairs,
                    deep == xs.deep_view(),
                    subject@ == deep[0],
                    propvals.len() == k,
                    pv_values_valid(propvals.deep_view()),
                    forall|j: int|
                        0 <= j < k ==> (#[trigger] propvals.deep_view()[j]).0 == deep[1 + 2 * j]
                            && seq![
                            dt_code(value_dt(propvals.deep_view()[j].1)),
                        ] + value_string(propvals.deep_view()[j].1) == deep[2 + 2 * j],
                    forall|rv: ResourceV|
                        #[trigger] resource_enc(rv) == s@ && pv_values_valid(rv.propvals)
                            ==> flat_resource(rv) == deep,
                decreases pairs - k,
            {
                let prop = xs[1 + 2 * k].clone();
                let tagged = &xs[2 + 2 * k];
                let tl = tagged.as_str().unicode_len();
                if tl == 0 {
                    proof {
                        assert forall|rv: ResourceV|
                            !(#[trigger] resource_enc(rv) == s@ && pv_values_valid(rv.propvals))
                            by {
                            if resource_enc(rv) == s@ && pv_values_valid(rv.propvals) {
                                lemma_flat_pvs_len(rv.propvals);
                                assert(rv.propvals.len() == pairs);
                                lemma_flat_pvs_index(rv.propvals, k as int);
                                assert(deep[2 + 2 * k] == flat_pvs(rv.propvals)[2 * k + 1]);
                            }
                        }
                    }
                    return Err(AtomicError::new(ErrorKind::ParseError, "empty value field"));
                }
                let code = tagged.as_str().get_char(0);
                let dt = match datatype_from_code(code) {
                    Some(dt) => dt,
                    None => {
                        proof {
                            assert forall|rv: ResourceV|
                                !(#[trigger] resource_enc(rv) == s@ && pv_values_valid(
                                    rv.propvals,
                                )) by {
                                if resource_enc(rv) == s@ && pv_values_valid(rv.propvals) {
                                    lemma_flat_pvs_len(rv.propvals);
                                    assert(rv.propvals.len() == pairs);
                                    lemma_flat_pvs_index(rv.propvals, k as int);
                                    let vv = rv.propvals[k as int].1;
                                    assert(deep[2 + 2 * k][0] == dt_code(value_dt(vv)));
                                }
                            }
                        }
                        return Err(AtomicError::new(ErrorKind::ParseError, "unknown datatype tag"));
                    },
                };
                let valstr = tagged.as_str().substring_char(1, tl);
                proof {
                    assert(valstr@ =~= tagged@.skip(1));
                }
                let value = match Value::new(valstr, &dt) {
                    Ok(v) => v,
                    Err(_) => {
                        proof {
                            assert forall|rv: ResourceV|
                                !(#[trigger] resource_enc(rv) == s@ && pv_values_valid(
                                    rv.propvals,
                                )) by {
                                if resource_enc(rv) == s@ && pv_values_valid(rv.propvals) {
                                    lemma_flat_pvs_len(rv.propvals);
                                    assert(rv.propvals.len() == pairs);
                                    lemma_flat_pvs_index(rv.propvals, k as int);
                                    let vv = rv.propvals[k as int].1;
                                    let enc2 = seq![dt_code(value_dt(vv))] + value_string(vv);
                                    assert(deep[2 + 2 * k] == enc2);
                                    assert(enc2[0] == dt_code(value_dt(vv)));
                                    assert(enc2.skip(1) =~= value_string(vv));
                                    assert(value_dt(vv) == dt);
                                    assert(value_string(vv) == valstr@);
                                    match vv {
                                        ValueV::Integer(i) => {
                                            crate::text::lemma_int_digits_literal(i);
                                        },
                                        ValueV::Timestamp(t) => {
                                            crate::text::lemma_int_digits_literal(t);
                                        },
                                        _ => {},
                                    }
                                    assert(crate::values::value_admissible(valstr@, dt));
                                }
                            }
                        }
                        return Err(AtomicError::new(ErrorKind::ParseError, "value fails its tag"));
                    },
                };
                // the wire form is canonical: the value must render back to
                // the very string it was read from
                let valstr_s = String::from_str(valstr);
                let canon = value.to_string();
                if !crate::text::str_eq(&canon, &valstr_s) {
                    proof {
                        assert forall|rv: ResourceV|
                            !(#[trigger] resource_enc(rv) == s@ && pv_values_valid(
                                rv.propvals,
                            )) by {
                            if resource_enc(rv) == s@ && pv_values_valid(rv.propvals) {
                                lemma_flat_pvs_len(rv.propvals);
                                assert(rv.propvals.len() == pairs);
                                lemma_flat_pvs_index(rv.propvals, k as int);
                                let vv = rv.propvals[k as int].1;
                                let enc2 = seq![dt_code(value_dt(vv))] + value_string(vv);
                                assert(deep[2 + 2 * k] == enc2);
                                assert(enc2[0] == dt_code(value_dt(vv)));
                                assert(enc2.skip(1) =~= value_string(vv));
                                assert(value_dt(vv) == dt) by {
                                    lemma_dt_code_injective(value_dt(vv), dt);
                                }
                                assert(value_string(vv) == valstr@);
                                match vv {
                                    ValueV::Integer(i) => {
                                        crate::text::lemma_int_digits_literal(i);
                                    },
                                    ValueV::Timestamp(t) => {
                                        crate::text::lemma_int_digits_literal(t);
                                    },
                                    _ => {},
                                }
                                assert(canon@ == valstr@);
                            }
                        }
                    }
                    return Err(
                        AtomicError::new(ErrorKind::ParseError, "value not in canonical form"),
                    );
                }
                proof {
                    assert(value_string(value@) == valstr@);
                }
                let ghost old_deepvals = propvals.deep_view();
                propvals.push(PropVal { property: prop, value });
                proof {
                    assert(propvals.deep_view() =~= old_deepvals.push((prop@, value@)));
                }
                k = k + 1;
            }
            let res = Resource { subject, propvals };
            proof {
                lemma_flat_pvs_len(res@.propvals);
                assert forall|j: int|
                    0 <= j < 2 * pairs + 1 implies #[trigger] flat_resource(res@)[j] == deep[j] by {
                    if j == 0 {
                    } else if (j - 1) % 2 == 0 {
                        let kk = (j - 1) / 2;
                        lemma_flat_pvs_index(res@.propvals, kk);
                        assert(flat_resource(res@)[j] == flat_pvs(res@.propvals)[2 * kk]);
                        assert(res@.propvals[kk].0 == deep[1 + 2 * kk]);
                    } else {
                        let kk = (j - 2) / 2;
                        lemma_flat_pvs_index(res@.propvals, kk);
                        assert(flat_resource(res@)[j] == flat_pvs(res@.propvals)[2 * kk + 1]);
                    }
                }
                assert(flat_resource(res@) =~= deep);
                assert(s@ == resource_enc(res@));
                assert forall|rv: ResourceV|
                    #[trigger] resource_enc(rv) == s@ && pv_values_valid(rv.propvals)
                    implies res@.subject == rv.subject && res@.propvals == rv.propvals by {
                    assert(flat_resource(rv) == deep);
                    lemma_flat_pvs_len(rv.propvals);
                    assert(rv.propvals.len() == pairs);
                    assert(rv.subject == deep[0]);
                    assert forall|j: int|
                        0 <= j < pairs implies #[trigger] res@.propvals[j] == rv.propvals[j] by {
                        lemma_flat_pvs_index(rv.propvals, j);
                        let vv = rv.propvals[j].1;
                        let mine = res@.propvals[j].1;
                        assert(rv.propvals[j].0 == deep[1 + 2 * j]);
                        let enc2 = seq![dt_code(value_dt(vv))] + value_string(vv);
                        let enc1 = seq![dt_code(value_dt(mine))] + value_string(mine);
                        assert(enc2 == deep[2 + 2 * j] && enc1 == deep[2 + 2 * j]);
                        assert(enc1[0] == enc2[0]);
                        assert(enc1.skip(1) =~= value_string(mine));
                        assert(enc2.skip(1) =~= value_string(vv));
                        assert(value_dt(mine) == value_dt(vv)) by {
                            assert(dt_code(value_dt(mine)) == dt_code(value_dt(vv)));
                            lemma_dt_code_injective(value_dt(mine), value_dt(vv));
                        }
                        lemma_value_string_injective(mine, vv);
                    }
                    assert(res@.propvals =~= rv.propvals);
                }
            }
            Ok(res)
        },
    }
}

/// The tag characters of two distinct datatypes differ.
pub proof fn lemma_dt_code_injective(a: crate::values::DataType, b: crate::values::DataType)
    requires
        dt_code(a) == dt_code(b),
    ensures
        a == b,
{
}

/// Law: serializing a well-formed resource and parsing the text back yields
/// a resource with the same subject and identical propvals.
pub fn serialize_parse_round_trip(r: &Resource) -> (out: Resource)
    requires
        pv_values_valid(r@.propvals),
    ensures
        out@.subject == r@.subject,
        out@.propvals == r@.propvals,
{
    let text = serialize_resource(r);
    let parsed = parse_resource(&text);
    match parsed {
        Ok(res) => res,
        Err(_) => {
            proof {
                assert(resource_enc(r@) == text@);
                assert(false);
            }
            vstd::pervasive::unreached()
        },
    }
}

} // verus!
