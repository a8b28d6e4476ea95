//! Bootstrap: seed the built-in ontology and the base collections on an
//! empty store, and commit the drive and setup resources as the default
//! agent.

use vstd::prelude::*;
use crate::errors::{AtomicError, AtomicResult, ErrorKind};
use crate::resources::{pv_find, Resource};
use crate::store::{db_wf, res_find, Db};
use crate::urls;
use crate::values::{DataType, Value, ValueV};

verus! {

/// A property resource is stored with its class marker, shortname and
/// declared datatype.
pub open spec fn property_seeded(
    d: crate::store::DbV,
    subject: Seq<char>,
    shortname: Seq<char>,
    datatype_url: Seq<char>,
) -> bool {
    res_find(d.resources, subject) matches Some(rv) && pv_find(rv.propvals, urls::SHORTNAME@)
        == Some(ValueV::Slug(shortname)) && pv_find(rv.propvals, urls::DATATYPE_PROP@) == Some(
        ValueV::AtomicUrl(datatype_url),
    )
}

/// A class resource is stored and declares itself a class.
pub open spec fn class_seeded(d: crate::store::DbV, subject: Seq<char>) -> bool {
    res_find(d.resources, subject) matches Some(rv) && crate::store::has_atom(
        rv,
        urls::IS_A@,
        urls::CLASS@,
    )
}

/// A collection resource is stored under this server, filters instances of
/// its class by `is-a`, and materializes members.
pub open spec fn collection_seeded(
    d: crate::store::DbV,
    subject: Seq<char>,
    class_url: Seq<char>,
) -> bool {
    res_find(d.resources, subject) matches Some(rv) && crate::store::has_atom(
        rv,
        urls::IS_A@,
        urls::COLLECTION@,
    ) && pv_find(rv.propvals, urls::COLLECTION_PROPERTY@) == Some(ValueV::AtomicUrl(urls::IS_A@))
        && pv_find(rv.propvals, urls::COLLECTION_VALUE@) == Some(ValueV::Str(class_url)) && pv_find(
        rv.propvals,
        urls::COLLECTION_INCLUDE_NESTED@,
    ) == Some(ValueV::Boolean(true))
}

/// The whole seeded ontology: every built-in property, class and collection
/// stands in the store as `populate` leaves it.
pub open spec fn ontology_seeded(d: crate::store::DbV) -> bool {
    &&& property_seeded(d, urls::SHORTNAME@, "shortname"@, urls::SLUG@)
    &&& property_seeded(d, urls::DESCRIPTION@, "description"@, urls::MARKDOWN@)
    &&& property_seeded(d, urls::IS_A@, "is-a"@, urls::RESOURCE_ARRAY@)
    &&& property_seeded(d, urls::PARENT@, "parent"@, urls::ATOMIC_URL@)
    &&& property_seeded(d, urls::READ@, "read"@, urls::RESOURCE_ARRAY@)
    &&& property_seeded(d, urls::WRITE@, "write"@, urls::RESOURCE_ARRAY@)
    &&& property_seeded(d, urls::NAME@, "name"@, urls::STRING@)
    &&& property_seeded(d, urls::PUBLIC_KEY@, "public-key"@, urls::STRING@)
    &&& property_seeded(d, urls::DESTINATION@, "destination"@, urls::ATOMIC_URL@)
    &&& property_seeded(d, urls::CREATED_AT@, "created-at"@, urls::TIMESTAMP@)
    &&& property_seeded(d, urls::SIGNER@, "signer"@, urls::ATOMIC_URL@)
    &&& property_seeded(d, urls::SUBJECT@, "subject"@, urls::ATOMIC_URL@)
    &&& property_seeded(d, urls::PREVIOUS_COMMIT@, "previous-commit"@, urls::ATOMIC_URL@)
    &&& property_seeded(d, urls::DATATYPE_PROP@, "datatype"@, urls::ATOMIC_URL@)
    &&& property_seeded(d, urls::REQUIRES@, "requires"@, urls::RESOURCE_ARRAY@)
    &&& property_seeded(d, urls::COLLECTION_PROPERTY@, "property"@, urls::ATOMIC_URL@)
    &&& property_seeded(d, urls::COLLECTION_VALUE@, "value"@, urls::STRING@)
    &&& property_seeded(d, urls::COLLECTION_SORT_BY@, "sort-by"@, urls::ATOMIC_URL@)
    &&& property_seeded(d, urls::COLLECTION_SORT_DESC@, "sort-desc"@, urls::BOOLEAN@)
    &&& property_seeded(d, urls::COLLECTION_CURRENT_PAGE@, "current-page"@, urls::INTEGER@)
    &&& property_seeded(d, urls::COLLECTION_PAGE_SIZE@, "page-size"@, urls::INTEGER@)
    &&& property_seeded(d, urls::COLLECTION_MEMBER_COUNT@, "member-count"@, urls::INTEGER@)
    &&& property_seeded(d, urls::COLLECTION_MEMBERS@, "members"@, urls::RESOURCE_ARRAY@)
    &&& property_seeded(d, urls::COLLECTION_INCLUDE_NESTED@, "include-nested"@, urls::BOOLEAN@)
    &&& class_seeded(d, urls::CLASS@)
    &&& class_seeded(d, urls::PROPERTY@)
    &&& class_seeded(d, urls::AGENT@)
    &&& class_seeded(d, urls::DATATYPE_CLASS@)
    &&& class_seeded(d, urls::COMMIT@)
    &&& class_seeded(d, urls::COLLECTION@)
    &&& class_seeded(d, urls::DRIVE@)
    &&& class_seeded(d, urls::INVITE@)
    &&& class_seeded(d, urls::REDIRECT@)
    &&& class_seeded(d, urls::ARTICLE@)
    &&& class_seeded(d, urls::PARAGRAPH@)
    &&& class_seeded(d, urls::DOCUMENT@)
    &&& class_seeded(d, urls::MESSAGE@)
    &&& class_seeded(d, urls::CHATROOM@)
    &&& collection_seeded(d, d.server_url + "/classes"@, urls::CLASS@)
    &&& collection_seeded(d, d.server_url + "/properties"@, urls::PROPERTY@)
    &&& collection_seeded(d, d.server_url + "/agents"@, urls::AGENT@)
    &&& collection_seeded(d, d.server_url + "/datatypes"@, urls::DATATYPE_CLASS@)
    &&& collection_seeded(d, d.server_url + "/commits"@, urls::COMMIT@)
    &&& collection_seeded(d, d.server_url + "/collections"@, urls::COLLECTION@)
    &&& collection_seeded(d, d.server_url + "/drives"@, urls::DRIVE@)
    &&& collection_seeded(d, d.server_url + "/invites"@, urls::INVITE@)
    &&& collection_seeded(d, d.server_url + "/redirects"@, urls::REDIRECT@)
    &&& collection_seeded(d, d.server_url + "/articles"@, urls::ARTICLE@)
    &&& collection_seeded(d, d.server_url + "/paragraphs"@, urls::PARAGRAPH@)
    &&& collection_seeded(d, d.server_url + "/documents"@, urls::DOCUMENT@)
    &&& collection_seeded(d, d.server_url + "/messages"@, urls::MESSAGE@)
    &&& collection_seeded(d, d.server_url + "/chatrooms"@, urls::CHATROOM@)
}

/// Stores one property resource: its class, shortname, datatype and
/// description.
fn seed_property(
    store: &mut Db,
    subject: &str,
    shortname: &str,
    datatype_url: &str,
    description: &str,
) -> (r: AtomicResult<()>)
    requires
        db_wf(old(store)@),
    ensures
        db_wf(final(store)@),
        r matches Err(e) ==> e.kind == ErrorKind::SchemaViolation,
{
    let mut res = Resource::new(String::from_str(subject));
    let mut classes: Vec<String> = Vec::new();
    classes.push(String::from_str(urls::PROPERTY));
    proof {
        crate::urls::lemma_urls_nonempty();
        assert(classes.deep_view() =~= seq![urls::PROPERTY@]);
        assert(crate::values::arr_elems_nonempty(classes.deep_view()));
    }
    res.set_propval_unsafe(String::from_str(urls::IS_A), Value::ResourceArray(classes));
    let sn = match Value::new(shortname, &DataType::Slug) {
        Ok(v) => v,
        Err(e) => {
            return Err(e);
        },
    };
    res.set_propval_unsafe(String::from_str(urls::SHORTNAME), sn);
    let dt = match Value::new(datatype_url, &DataType::AtomicUrl) {
        Ok(v) => v,
        Err(e) => {
            return Err(e);
        },
    };
    res.set_propval_unsafe(String::from_str(urls::DATATYPE_PROP), dt);
    res.set_propval_unsafe(
        String::from_str(urls::DESCRIPTION),
        Value::Markdown(String::from_str(description)),
    );
    store.add_resource_unsafe(res);
    Ok(())
}

/// Stores one class resource: its class and shortname.
fn seed_class(store: &mut Db, subject: &str, shortname: &str) -> (r: AtomicResult<()>)
    requires
        db_wf(old(store)@),
    ensures
        db_wf(final(store)@),
        r matches Err(e) ==> e.kind == ErrorKind::SchemaViolation,
{
    let mut res = Resource::new(String::from_str(subject));
    let mut classes: Vec<String> = Vec::new();
    classes.push(String::from_str(urls::CLASS));
    proof {
        crate::urls::lemma_urls_nonempty();
        assert(classes.deep_view() =~= seq![urls::CLASS@]);
        assert(crate::values::arr_elems_nonempty(classes.deep_view()));
    }
    res.set_propval_unsafe(String::from_str(urls::IS_A), Value::ResourceArray(classes));
    let sn = match Value::new(shortname, &DataType::Slug) {
        Ok(v) => v,
        Err(e) => {
            return Err(e);
        },
    };
    res.set_propval_unsafe(String::from_str(urls::SHORTNAME), sn);
    store.add_resource_unsafe(res);
    Ok(())
}

/// Stores one collection resource under this server: members are the
/// instances of one class, handed out with nested resources.
fn seed_collection(store: &mut Db, suffix: &str, class_url: &str, name: &str) -> (r: AtomicResult<
    (),
>)
    requires
        db_wf(old(store)@),
    ensures
        db_wf(final(store)@),
        r matches Err(e) ==> e.kind == ErrorKind::SchemaViolation,
{
    let subject = store.get_server_url().clone().concat(suffix);
    let mut res = Resource::new(subject);
    let mut classes: Vec<String> = Vec::new();
    classes.push(String::from_str(urls::COLLECTION));
    proof {
        crate::urls::lemma_urls_nonempty();
        assert(classes.deep_view() =~= seq![urls::COLLECTION@]);
        assert(crate::values::arr_elems_nonempty(classes.deep_view()));
    }
    res.set_propval_unsafe(String::from_str(urls::IS_A), Value::ResourceArray(classes));
    res.set_propval_unsafe(
        String::from_str(urls::COLLECTION_PROPERTY),
        Value::AtomicUrl(String::from_str(urls::IS_A)),
    );
    let cv = match Value::new(class_url, &DataType::Str) {
        Ok(v) => v,
        Err(e) => {
            return Err(e);
        },
    };
    res.set_propval_unsafe(String::from_str(urls::COLLECTION_VALUE), cv);
    res.set_propval_unsafe(
        String::from_str(urls::COLLECTION_INCLUDE_NESTED),
        Value::Boolean(true),
    );
    res.set_propval_unsafe(String::from_str(urls::NAME), Value::Str(String::from_str(name)));
    store.add_resource_unsafe(res);
    Ok(())
}


/// A failed local save never reports the catch-all kind: it is either the
/// missing default agent or a named stage of the validation chain.
proof fn lemma_save_error_not_other(
    pre: crate::store::DbV,
    rv: crate::resources::ResourceV,
    kind: ErrorKind,
)
    requires
        (pre.default_agent is None && kind == ErrorKind::Unauthorized) || (
        pre.default_agent matches Some(ag) && (exists|c: crate::commits::CommitV|
            (#[trigger] c.subject) == rv.subject && c.signer == ag.0 && c.destroy == false
                && c.set == rv.propvals && c.created_at == crate::commits::save_commit_time(
                pre.clock,
            ) && c.signature == Some(crate::commits::sig_of(c, ag.1)) && Some(kind)
                == crate::commits::apply_error(
                crate::commits::save_mid_view(pre),
                c,
                crate::commits::save_opts(),
            ))),
    ensures
        kind != ErrorKind::Other,
{
    match pre.default_agent {
        None => {},
        Some(ag) => {
            if !(pre.default_agent is None && kind == ErrorKind::Unauthorized) {
            let c = choose|c: crate::commits::CommitV|
                (#[trigger] c.subject) == rv.subject && c.signer == ag.0 && c.destroy == false
                    && c.set == rv.propvals && c.created_at == crate::commits::save_commit_time(
                    pre.clock,
                ) && c.signature == Some(crate::commits::sig_of(c, ag.1)) && Some(kind)
                    == crate::commits::apply_error(
                    crate::commits::save_mid_view(pre),
                    c,
                    crate::commits::save_opts(),
                );
            crate::commits::lemma_apply_error_kinds(
                crate::commits::save_mid_view(pre),
                c,
                crate::commits::save_opts(),
            );
            }
        },
    }
}

impl Db {
    /// Whether the store holds the property resource as seeded.
    fn check_property(&self, subject: &str, shortname: &str, datatype_url: &str) -> (r: bool)
        requires
            db_wf(self@),
        ensures
            r == property_seeded(self@, subject@, shortname@, datatype_url@),
    {
        let rv = match self.get_propvals(subject) {
            Ok(rv) => rv,
            Err(_) => {
                return false;
            },
        };
        let sn_ok = match rv.get(urls::SHORTNAME) {
            Ok(v) => match v {
                Value::Slug(s) => crate::text::str_eq(s, &String::from_str(shortname)),
                _ => false,
            },
            Err(_) => false,
        };
        let dt_ok = match rv.get(urls::DATATYPE_PROP) {
            Ok(v) => match v {
                Value::AtomicUrl(u) => crate::text::str_eq(u, &String::from_str(datatype_url)),
                _ => false,
            },
            Err(_) => false,
        };
        sn_ok && dt_ok
    }

    /// Whether the store holds the class resource as seeded.
    fn check_class(&self, subject: &str) -> (r: bool)
        requires
            db_wf(self@),
        ensures
            r == class_seeded(self@, subject@),
    {
        let rv = match self.get_propvals(subject) {
            Ok(rv) => rv,
            Err(_) => {
                return false;
            },
        };
        proof {
            let w = crate::store::lemma_res_find_witness(self@.resources, subject@);
            assert(crate::resources::rv_wf(rv@));
            crate::store::lemma_has_atom_find(rv@, urls::IS_A@, urls::CLASS@);
        }
        match rv.get(urls::IS_A) {
            Ok(v) => match v {
                Value::ResourceArray(a) => crate::commits::vec_str_contains(
                    a,
                    &String::from_str(urls::CLASS),
                ),
                _ => {
                    let s = v.to_string();
                    crate::text::str_eq(&s, &String::from_str(urls::CLASS))
                },
            },
            Err(_) => false,
        }
    }

    /// Whether the store holds the collection resource as seeded.
    fn check_collection(&self, suffix: &str, class_url: &str) -> (r: bool)
        requires
            db_wf(self@),
        ensures
            r == collection_seeded(self@, self@.server_url + suffix@, class_url@),
    {
        let subject = self.get_server_url().clone().concat(suffix);
        let rv = match self.get_propvals(subject.as_str()) {
            Ok(rv) => rv,
            Err(_) => {
                return false;
            },
        };
        proof {
            let w = crate::store::lemma_res_find_witness(self@.resources, subject@);
            assert(crate::resources::rv_wf(rv@));
            crate::store::lemma_has_atom_find(rv@, urls::IS_A@, urls::COLLECTION@);
        }
        let isa_ok = match rv.get(urls::IS_A) {
            Ok(v) => match v {
                Value::ResourceArray(a) => crate::commits::vec_str_contains(
                    a,
                    &String::from_str(urls::COLLECTION),
                ),
                _ => {
                    let s = v.to_string();
                    crate::text::str_eq(&s, &String::from_str(urls::COLLECTION))
                },
            },
            Err(_) => false,
        };
        let prop_ok = match rv.get(urls::COLLECTION_PROPERTY) {
            Ok(v) => match v {
                Value::AtomicUrl(u) => crate::text::str_eq(u, &String::from_str(urls::IS_A)),
                _ => false,
            },
            Err(_) => false,
        };
        let val_ok = match rv.get(urls::COLLECTION_VALUE) {
            Ok(v) => match v {
                Value::Str(s) => crate::text::str_eq(s, &String::from_str(class_url)),
                _ => false,
            },
            Err(_) => false,
        };
        let nested_ok = match rv.get(urls::COLLECTION_INCLUDE_NESTED) {
            Ok(v) => match v {
                Value::Boolean(b) => *b,
                _ => false,
            },
            Err(_) => false,
        };
        isa_ok && prop_ok && val_ok && nested_ok
    }
}

impl Db {
    /// Seeds the ontology (properties, classes), the base collections, and
    /// commits the drive and setup resources as the default agent; then
    /// checks its own work, so success pins every seeded resource.
    pub fn populate(&mut self) -> (r: AtomicResult<()>)
        requires
            db_wf(old(self)@),
        ensures
            db_wf(final(self)@),
            r is Ok ==> ontology_seeded(final(self)@),
            r matches Err(e) ==> (e.kind == ErrorKind::Other ==> !ontology_seeded(final(self)@)),
            r is Ok ==> property_seeded(final(self)@, urls::SHORTNAME@, "shortname"@, urls::SLUG@),
            r is Ok ==> property_seeded(final(self)@, urls::DESCRIPTION@, "description"@, urls::MARKDOWN@),
            r is Ok ==> property_seeded(final(self)@, urls::IS_A@, "is-a"@, urls::RESOURCE_ARRAY@),
            r is Ok ==> property_seeded(final(self)@, urls::PARENT@, "parent"@, urls::ATOMIC_URL@),
            r is Ok ==> property_seeded(final(self)@, urls::READ@, "read"@, urls::RESOURCE_ARRAY@),
            r is Ok ==> property_seeded(final(self)@, urls::WRITE@, "write"@, urls::RESOURCE_ARRAY@),
            r is Ok ==> property_seeded(final(self)@, urls::NAME@, "name"@, urls::STRING@),
            r is Ok ==> property_seeded(final(self)@, urls::PUBLIC_KEY@, "public-key"@, urls::STRING@),
            r is Ok ==> property_seeded(final(self)@, urls::DESTINATION@, "destination"@, urls::ATOMIC_URL@),
            r is Ok ==> property_seeded(final(self)@, urls::CREATED_AT@, "created-at"@, urls::TIMESTAMP@),
            r is Ok ==> property_seeded(final(self)@, urls::SIGNER@, "signer"@, urls::ATOMIC_URL@),
            r is Ok ==> property_seeded(final(self)@, urls::SUBJECT@, "subject"@, urls::ATOMIC_URL@),
            r is Ok ==> property_seeded(final(self)@, urls::PREVIOUS_COMMIT@, "previous-commit"@, urls::ATOMIC_URL@),
            r is Ok ==> property_seeded(final(self)@, urls::DATATYPE_PROP@, "datatype"@, urls::ATOMIC_URL@),
            r is Ok ==> property_seeded(final(self)@, urls::REQUIRES@, "requires"@, urls::RESOURCE_ARRAY@),
            r is Ok ==> property_seeded(final(self)@, urls::COLLECTION_PROPERTY@, "property"@, urls::ATOMIC_URL@),
            r is Ok ==> property_seeded(final(self)@, urls::COLLECTION_VALUE@, "value"@, urls::STRING@),
            r is Ok ==> property_seeded(final(self)@, urls::COLLECTION_SORT_BY@, "sort-by"@, urls::ATOMIC_URL@),
            r is Ok ==> property_seeded(final(self)@, urls::COLLECTION_SORT_DESC@, "sort-desc"@, urls::BOOLEAN@),
            r is Ok ==> property_seeded(final(self)@, urls::COLLECTION_CURRENT_PAGE@, "current-page"@, urls::INTEGER@),
            r is Ok ==> property_seeded(final(self)@, urls::COLLECTION_PAGE_SIZE@, "page-size"@, urls::INTEGER@),
            r is Ok ==> property_seeded(final(self)@, urls::COLLECTION_MEMBER_COUNT@, "member-count"@, urls::INTEGER@),
            r is Ok ==> property_seeded(final(self)@, urls::COLLECTION_MEMBERS@, "members"@, urls::RESOURCE_ARRAY@),
            r is Ok ==> property_seeded(final(self)@, urls::COLLECTION_INCLUDE_NESTED@, "include-nested"@, urls::BOOLEAN@),
            r is Ok ==> class_seeded(final(self)@, urls::CLASS@),
            r is Ok ==> class_seeded(final(self)@, urls::PROPERTY@),
            r is Ok ==> class_seeded(final(self)@, urls::AGENT@),
            r is Ok ==> class_seeded(final(self)@, urls::DATATYPE_CLASS@),
            r is Ok ==> class_seeded(final(self)@, urls::COMMIT@),
            r is Ok ==> class_seeded(final(self)@, urls::COLLECTION@),
            r is Ok ==> class_seeded(final(self)@, urls::DRIVE@),
            r is Ok ==> class_seeded(final(self)@, urls::INVITE@),
            r is Ok ==> class_seeded(final(self)@, urls::REDIRECT@),
            r is Ok ==> class_seeded(final(self)@, urls::ARTICLE@),
            r is Ok ==> class_seeded(final(self)@, urls::PARAGRAPH@),
            r is Ok ==> class_seeded(final(self)@, urls::DOCUMENT@),
            r is Ok ==> class_seeded(final(self)@, urls::MESSAGE@),
            r is Ok ==> class_seeded(final(self)@, urls::CHATROOM@),
            r is Ok ==> collection_seeded(final(self)@, final(self)@.server_url + "/classes"@, urls::CLASS@),
            r is Ok ==> collection_seeded(final(self)@, final(self)@.server_url + "/properties"@, urls::PROPERTY@),
            r is Ok ==> collection_seeded(final(self)@, final(self)@.server_url + "/agents"@, urls::AGENT@),
            r is Ok ==> collection_seeded(final(self)@, final(self)@.server_url + "/datatypes"@, urls::DATATYPE_CLASS@),
            r is Ok ==> collection_seeded(final(self)@, final(self)@.server_url + "/commits"@, urls::COMMIT@),
            r is Ok ==> collection_seeded(final(self)@, final(self)@.server_url + "/collections"@, urls::COLLECTION@),
            r is Ok ==> collection_seeded(final(self)@, final(self)@.server_url + "/drives"@, urls::DRIVE@),
            r is Ok ==> collection_seeded(final(self)@, final(self)@.server_url + "/invites"@, urls::INVITE@),
            r is Ok ==> collection_seeded(final(self)@, final(self)@.server_url + "/redirects"@, urls::REDIRECT@),
            r is Ok ==> collection_seeded(final(self)@, final(self)@.server_url + "/articles"@, urls::ARTICLE@),
            r is Ok ==> collection_seeded(final(self)@, final(self)@.server_url + "/paragraphs"@, urls::PARAGRAPH@),
            r is Ok ==> collection_seeded(final(self)@, final(self)@.server_url + "/documents"@, urls::DOCUMENT@),
            r is Ok ==> collection_seeded(final(self)@, final(self)@.server_url + "/messages"@, urls::MESSAGE@),
            r is Ok ==> collection_seeded(final(self)@, final(self)@.server_url + "/chatrooms"@, urls::CHATROOM@),
    {
        // properties
        seed_property(self, urls::SHORTNAME, "shortname", urls::SLUG, "a short name")?;
        seed_property(self, urls::DESCRIPTION, "description", urls::MARKDOWN, "a description")?;
        seed_property(self, urls::IS_A, "is-a", urls::RESOURCE_ARRAY, "the classes of a resource")?;
        seed_property(self, urls::PARENT, "parent", urls::ATOMIC_URL, "the hierarchical parent")?;
        seed_property(self, urls::READ, "read", urls::RESOURCE_ARRAY, "agents that may read")?;
        seed_property(self, urls::WRITE, "write", urls::RESOURCE_ARRAY, "agents that may write")?;
        seed_property(self, urls::NAME, "name", urls::STRING, "a display name")?;
        seed_property(self, urls::PUBLIC_KEY, "public-key", urls::STRING, "a signing key")?;
        seed_property(
            self,
            urls::DESTINATION,
            "destination",
            urls::ATOMIC_URL,
            "where something points",
        )?;
        seed_property(
            self,
            urls::CREATED_AT,
            "created-at",
            urls::TIMESTAMP,
            "when something was made",
        )?;
        seed_property(self, urls::SIGNER, "signer", urls::ATOMIC_URL, "who signed a commit")?;
        seed_property(self, urls::SUBJECT, "subject", urls::ATOMIC_URL, "a commit's target")?;
        seed_property(
            self,
            urls::PREVIOUS_COMMIT,
            "previous-commit",
            urls::ATOMIC_URL,
            "the commit before this one",
        )?;
        seed_property(self, urls::DATATYPE_PROP, "datatype", urls::ATOMIC_URL, "a value's shape")?;
        seed_property(
            self,
            urls::REQUIRES,
            "requires",
            urls::RESOURCE_ARRAY,
            "properties an instance must hold",
        )?;
        seed_property(
            self,
            urls::COLLECTION_PROPERTY,
            "property",
            urls::ATOMIC_URL,
            "the property a collection filters by",
        )?;
        seed_property(
            self,
            urls::COLLECTION_VALUE,
            "value",
            urls::STRING,
            "the value a collection filters by",
        )?;
        seed_property(
            self,
            urls::COLLECTION_SORT_BY,
            "sort-by",
            urls::ATOMIC_URL,
            "the property a collection sorts by",
        )?;
        seed_property(
            self,
            urls::COLLECTION_SORT_DESC,
            "sort-desc",
            urls::BOOLEAN,
            "whether a collection sorts descending",
        )?;
        seed_property(
            self,
            urls::COLLECTION_CURRENT_PAGE,
            "current-page",
            urls::INTEGER,
            "the page being shown",
        )?;
        seed_property(
            self,
            urls::COLLECTION_PAGE_SIZE,
            "page-size",
            urls::INTEGER,
            "how many members a page holds",
        )?;
        seed_property(
            self,
            urls::COLLECTION_MEMBER_COUNT,
            "member-count",
            urls::INTEGER,
            "how many members match",
        )?;
        seed_property(
            self,
            urls::COLLECTION_MEMBERS,
            "members",
            urls::RESOURCE_ARRAY,
            "the members of this page",
        )?;
        seed_property(
            self,
            urls::COLLECTION_INCLUDE_NESTED,
            "include-nested",
            urls::BOOLEAN,
            "whether members are materialized",
        )?;
        // classes
        seed_class(self, urls::CLASS, "class")?;
        seed_class(self, urls::PROPERTY, "property")?;
        seed_class(self, urls::AGENT, "agent")?;
        seed_class(self, urls::DATATYPE_CLASS, "datatype")?;
        seed_class(self, urls::COMMIT, "commit")?;
        seed_class(self, urls::COLLECTION, "collection")?;
        seed_class(self, urls::DRIVE, "drive")?;
        seed_class(self, urls::INVITE, "invite")?;
        seed_class(self, urls::REDIRECT, "redirect")?;
        seed_class(self, urls::ARTICLE, "article")?;
        seed_class(self, urls::PARAGRAPH, "paragraph")?;
        seed_class(self, urls::DOCUMENT, "document")?;
        seed_class(self, urls::MESSAGE, "message")?;
        seed_class(self, urls::CHATROOM, "chatroom")?;
        // collections
        seed_collection(self, "/classes", urls::CLASS, "classes")?;
        seed_collection(self, "/properties", urls::PROPERTY, "properties")?;
        seed_collection(self, "/agents", urls::AGENT, "agents")?;
        seed_collection(self, "/datatypes", urls::DATATYPE_CLASS, "datatypes")?;
        seed_collection(self, "/commits", urls::COMMIT, "commits")?;
        seed_collection(self, "/collections", urls::COLLECTION, "collections")?;
        seed_collection(self, "/drives", urls::DRIVE, "drives")?;
        seed_collection(self, "/invites", urls::INVITE, "invites")?;
        seed_collection(self, "/redirects", urls::REDIRECT, "redirects")?;
        seed_collection(self, "/articles", urls::ARTICLE, "articles")?;
        seed_collection(self, "/paragraphs", urls::PARAGRAPH, "paragraphs")?;
        seed_collection(self, "/documents", urls::DOCUMENT, "documents")?;
        seed_collection(self, "/messages", urls::MESSAGE, "messages")?;
        seed_collection(self, "/chatrooms", urls::CHATROOM, "chatrooms")?;
        // the drive and setup resources come in through real commits,
        // when a default agent is installed to sign them
        let agent_opt = match self.get_default_agent() {
            Ok(a) => Some(a),
            Err(_) => None,
        };
        match agent_opt {
            None => {},
            Some(agent) => {
                let server = self.get_server_url().clone();
                let mut drive = Resource::new(server.clone());
                let mut drive_classes: Vec<String> = Vec::new();
                drive_classes.push(String::from_str(urls::DRIVE));
                proof {
            crate::urls::lemma_urls_nonempty();
            assert(drive_classes.deep_view() =~= seq![urls::DRIVE@]);
            assert(crate::values::arr_elems_nonempty(drive_classes.deep_view()));
                }
                drive.set_propval_unsafe(String::from_str(urls::IS_A), Value::ResourceArray(drive_classes));
                drive.set_propval_unsafe(
            String::from_str(urls::NAME),
            Value::Str(String::from_str("Main drive")),
                );
                let writers = Value::ResourceArray(vec![agent.subject.clone()]);
                if writers.is_well_formed() {
            drive.set_propval_unsafe(String::from_str(urls::WRITE), writers);
                }
                let readers = Value::ResourceArray(vec![agent.subject.clone()]);
                if readers.is_well_formed() {
            drive.set_propval_unsafe(String::from_str(urls::READ), readers);
                }
                let ghost pre_drive = self@;
                match drive.save_locally(self) {
            Ok(_) => {},
            Err(e) => {
                proof {
                    lemma_save_error_not_other(pre_drive, drive@, e.kind);
                }
                return Err(e);
            },
                }
                let mut setup = Resource::new(server.concat("/setup"));
                setup.set_propval_unsafe(
            String::from_str(urls::NAME),
            Value::Str(String::from_str("setup")),
                );
                setup.set_propval_unsafe(
            String::from_str(urls::DESCRIPTION),
            Value::Markdown(String::from_str("the first resources of this drive")),
                );
                let ghost pre_setup = self@;
                match setup.save_locally(self) {
                    Ok(_) => {},
                    Err(e) => {
                        proof {
                            lemma_save_error_not_other(pre_setup, setup@, e.kind);
                        }
                        return Err(e);
                    },
                }
            },
        }
        // verify the seeding: success promises every seeded resource
        let mut ok = true;
        ok = ok && self.check_property(urls::SHORTNAME, "shortname", urls::SLUG);
        ok = ok && self.check_property(urls::DESCRIPTION, "description", urls::MARKDOWN);
        ok = ok && self.check_property(urls::IS_A, "is-a", urls::RESOURCE_ARRAY);
        ok = ok && self.check_property(urls::PARENT, "parent", urls::ATOMIC_URL);
        ok = ok && self.check_property(urls::READ, "read", urls::RESOURCE_ARRAY);
        ok = ok && self.check_property(urls::WRITE, "write", urls::RESOURCE_ARRAY);
        ok = ok && self.check_property(urls::NAME, "name", urls::STRING);
        ok = ok && self.check_property(urls::PUBLIC_KEY, "public-key", urls::STRING);
        ok = ok && self.check_property(urls::DESTINATION, "destination", urls::ATOMIC_URL);
        ok = ok && self.check_property(urls::CREATED_AT, "created-at", urls::TIMESTAMP);
        ok = ok && self.check_property(urls::SIGNER, "signer", urls::ATOMIC_URL);
        ok = ok && self.check_property(urls::SUBJECT, "subject", urls::ATOMIC_URL);
        ok = ok && self.check_property(urls::PREVIOUS_COMMIT, "previous-commit", urls::ATOMIC_URL);
        ok = ok && self.check_property(urls::DATATYPE_PROP, "datatype", urls::ATOMIC_URL);
        ok = ok && self.check_property(urls::REQUIRES, "requires", urls::RESOURCE_ARRAY);
        ok = ok && self.check_property(urls::COLLECTION_PROPERTY, "property", urls::ATOMIC_URL);
        ok = ok && self.check_property(urls::COLLECTION_VALUE, "value", urls::STRING);
        ok = ok && self.check_property(urls::COLLECTION_SORT_BY, "sort-by", urls::ATOMIC_URL);
        ok = ok && self.check_property(urls::COLLECTION_SORT_DESC, "sort-desc", urls::BOOLEAN);
        ok = ok && self.check_property(urls::COLLECTION_CURRENT_PAGE, "current-page", urls::INTEGER);
        ok = ok && self.check_property(urls::COLLECTION_PAGE_SIZE, "page-size", urls::INTEGER);
        ok = ok && self.check_property(urls::COLLECTION_MEMBER_COUNT, "member-count", urls::INTEGER);
        ok = ok && self.check_property(urls::COLLECTION_MEMBERS, "members", urls::RESOURCE_ARRAY);
        ok = ok && self.check_property(urls::COLLECTION_INCLUDE_NESTED, "include-nested", urls::BOOLEAN);
        ok = ok && self.check_class(urls::CLASS);
        ok = ok && self.check_class(urls::PROPERTY);
        ok = ok && self.check_class(urls::AGENT);
        ok = ok && self.check_class(urls::DATATYPE_CLASS);
        ok = ok && self.check_class(urls::COMMIT);
        ok = ok && self.check_class(urls::COLLECTION);
        ok = ok && self.check_class(urls::DRIVE);
        ok = ok && self.check_class(urls::INVITE);
        ok = ok && self.check_class(urls::REDIRECT);
        ok = ok && self.check_class(urls::ARTICLE);
        ok = ok && self.check_class(urls::PARAGRAPH);
        ok = ok && self.check_class(urls::DOCUMENT);
        ok = ok && self.check_class(urls::MESSAGE);
        ok = ok && self.check_class(urls::CHATROOM);
        ok = ok && self.check_collection("/classes", urls::CLASS);
        ok = ok && self.check_collection("/properties", urls::PROPERTY);
        ok = ok && self.check_collection("/agents", urls::AGENT);
        ok = ok && self.check_collection("/datatypes", urls::DATATYPE_CLASS);
        ok = ok && self.check_collection("/commits", urls::COMMIT);
        ok = ok && self.check_collection("/collections", urls::COLLECTION);
        ok = ok && self.check_collection("/drives", urls::DRIVE);
        ok = ok && self.check_collection("/invites", urls::INVITE);
        ok = ok && self.check_collection("/redirects", urls::REDIRECT);
        ok = ok && self.check_collection("/articles", urls::ARTICLE);
        ok = ok && self.check_collection("/paragraphs", urls::PARAGRAPH);
        ok = ok && self.check_collection("/documents", urls::DOCUMENT);
        ok = ok && self.check_collection("/messages", urls::MESSAGE);
        ok = ok && self.check_collection("/chatrooms", urls::CHATROOM);
        if !ok {
            return Err(AtomicError::new(ErrorKind::Other, "the seeded ontology did not verify"));
        }
        Ok(())
    }
}

} // verus!
