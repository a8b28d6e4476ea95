//! The shared URLs of the default ontology: classes, properties, datatypes
//! and the public agent.

use vstd::prelude::*;

verus! {

// classes
pub const CLASS: &'static str = "https://atomicdata.dev/classes/Class";
pub const PROPERTY: &'static str = "https://atomicdata.dev/classes/Property";
pub const AGENT: &'static str = "https://atomicdata.dev/classes/Agent";
pub const DATATYPE_CLASS: &'static str = "https://atomicdata.dev/classes/Datatype";
pub const COMMIT: &'static str = "https://atomicdata.dev/classes/Commit";
pub const COLLECTION: &'static str = "https://atomicdata.dev/classes/Collection";
pub const DRIVE: &'static str = "https://atomicdata.dev/classes/Drive";
pub const INVITE: &'static str = "https://atomicdata.dev/classes/Invite";
pub const REDIRECT: &'static str = "https://atomicdata.dev/classes/Redirect";
pub const ARTICLE: &'static str = "https://atomicdata.dev/classes/Article";
pub const PARAGRAPH: &'static str = "https://atomicdata.dev/classes/elements/Paragraph";
pub const DOCUMENT: &'static str = "https://atomicdata.dev/classes/Document";
pub const MESSAGE: &'static str = "https://atomicdata.dev/classes/Message";
pub const CHATROOM: &'static str = "https://atomicdata.dev/classes/ChatRoom";

// properties
pub const SHORTNAME: &'static str = "https://atomicdata.dev/properties/shortname";
pub const DESCRIPTION: &'static str = "https://atomicdata.dev/properties/description";
pub const IS_A: &'static str = "https://atomicdata.dev/properties/isA";
pub const PARENT: &'static str = "https://atomicdata.dev/properties/parent";
pub const READ: &'static str = "https://atomicdata.dev/properties/read";
pub const WRITE: &'static str = "https://atomicdata.dev/properties/write";
pub const NAME: &'static str = "https://atomicdata.dev/properties/name";
pub const PUBLIC_KEY: &'static str = "https://atomicdata.dev/properties/publicKey";
pub const DESTINATION: &'static str = "https://atomicdata.dev/properties/destination";
pub const CREATED_AT: &'static str = "https://atomicdata.dev/properties/createdAt";
pub const SIGNER: &'static str = "https://atomicdata.dev/properties/signer";
pub const SUBJECT: &'static str = "https://atomicdata.dev/properties/subject";
pub const PREVIOUS_COMMIT: &'static str = "https://atomicdata.dev/properties/previousCommit";
pub const DATATYPE_PROP: &'static str = "https://atomicdata.dev/properties/datatype";
pub const REQUIRES: &'static str = "https://atomicdata.dev/properties/requires";

// collection properties
pub const COLLECTION_PROPERTY: &'static str =
    "https://atomicdata.dev/properties/collection/property";
pub const COLLECTION_VALUE: &'static str = "https://atomicdata.dev/properties/collection/value";
pub const COLLECTION_SORT_BY: &'static str =
    "https://atomicdata.dev/properties/collection/sortBy";
pub const COLLECTION_SORT_DESC: &'static str =
    "https://atomicdata.dev/properties/collection/sortDesc";
pub const COLLECTION_CURRENT_PAGE: &'static str =
    "https://atomicdata.dev/properties/collection/currentPage";
pub const COLLECTION_PAGE_SIZE: &'static str =
    "https://atomicdata.dev/properties/collection/pageSize";
pub const COLLECTION_MEMBER_COUNT: &'static str =
    "https://atomicdata.dev/properties/collection/memberCount";
pub const COLLECTION_MEMBERS: &'static str =
    "https://atomicdata.dev/properties/collection/members";
pub const COLLECTION_INCLUDE_NESTED: &'static str =
    "https://atomicdata.dev/properties/collection/includeNested";

// datatype URLs
pub const STRING: &'static str = "https://atomicdata.dev/datatypes/string";
pub const MARKDOWN: &'static str = "https://atomicdata.dev/datatypes/markdown";
pub const SLUG: &'static str = "https://atomicdata.dev/datatypes/slug";
pub const INTEGER: &'static str = "https://atomicdata.dev/datatypes/integer";
pub const FLOAT: &'static str = "https://atomicdata.dev/datatypes/float";
pub const BOOLEAN: &'static str = "https://atomicdata.dev/datatypes/boolean";
pub const DATE: &'static str = "https://atomicdata.dev/datatypes/date";
pub const TIMESTAMP: &'static str = "https://atomicdata.dev/datatypes/timestamp";
pub const ATOMIC_URL: &'static str = "https://atomicdata.dev/datatypes/atomicURL";
pub const RESOURCE_ARRAY: &'static str = "https://atomicdata.dev/datatypes/resourceArray";
pub const NESTED_RESOURCE: &'static str = "https://atomicdata.dev/datatypes/nestedResource";

// special agents
pub const PUBLIC_AGENT: &'static str = "https://atomicdata.dev/agents/publicAgent";


/// The ontology URLs are non-empty, so each may stand as an `AtomicUrl`
/// value or a member of a resource array.
pub proof fn lemma_urls_nonempty()
    ensures
        CLASS@.len() > 0,
        PROPERTY@.len() > 0,
        AGENT@.len() > 0,
        DATATYPE_CLASS@.len() > 0,
        COMMIT@.len() > 0,
        COLLECTION@.len() > 0,
        DRIVE@.len() > 0,
        INVITE@.len() > 0,
        REDIRECT@.len() > 0,
        ARTICLE@.len() > 0,
        PARAGRAPH@.len() > 0,
        DOCUMENT@.len() > 0,
        MESSAGE@.len() > 0,
        CHATROOM@.len() > 0,
        IS_A@.len() > 0,
        SHORTNAME@.len() > 0,
        DESCRIPTION@.len() > 0,
        STRING@.len() > 0,
        MARKDOWN@.len() > 0,
        SLUG@.len() > 0,
        INTEGER@.len() > 0,
        FLOAT@.len() > 0,
        BOOLEAN@.len() > 0,
        DATE@.len() > 0,
        TIMESTAMP@.len() > 0,
        ATOMIC_URL@.len() > 0,
        RESOURCE_ARRAY@.len() > 0,
        NESTED_RESOURCE@.len() > 0,
        PUBLIC_AGENT@.len() > 0,
{
    reveal_strlit("https://atomicdata.dev/agents/publicAgent");
    reveal_strlit("https://atomicdata.dev/classes/Agent");
    reveal_strlit("https://atomicdata.dev/classes/Article");
    reveal_strlit("https://atomicdata.dev/classes/ChatRoom");
    reveal_strlit("https://atomicdata.dev/classes/Class");
    reveal_strlit("https://atomicdata.dev/classes/Collection");
    reveal_strlit("https://atomicdata.dev/classes/Commit");
    reveal_strlit("https://atomicdata.dev/classes/Datatype");
    reveal_strlit("https://atomicdata.dev/classes/Document");
    reveal_strlit("https://atomicdata.dev/classes/Drive");
    reveal_strlit("https://atomicdata.dev/classes/Invite");
    reveal_strlit("https://atomicdata.dev/classes/Message");
    reveal_strlit("https://atomicdata.dev/classes/Property");
    reveal_strlit("https://atomicdata.dev/classes/Redirect");
    reveal_strlit("https://atomicdata.dev/classes/elements/Paragraph");
    reveal_strlit("https://atomicdata.dev/datatypes/atomicURL");
    reveal_strlit("https://atomicdata.dev/datatypes/boolean");
    reveal_strlit("https://atomicdata.dev/datatypes/date");
    reveal_strlit("https://atomicdata.dev/datatypes/float");
    reveal_strlit("https://atomicdata.dev/datatypes/integer");
    reveal_strlit("https://atomicdata.dev/datatypes/markdown");
    reveal_strlit("https://atomicdata.dev/datatypes/nestedResource");
    reveal_strlit("https://atomicdata.dev/datatypes/resourceArray");
    reveal_strlit("https://atomicdata.dev/datatypes/slug");
    reveal_strlit("https://atomicdata.dev/datatypes/string");
    reveal_strlit("https://atomicdata.dev/datatypes/timestamp");
    reveal_strlit("https://atomicdata.dev/properties/description");
    reveal_strlit("https://atomicdata.dev/properties/isA");
    reveal_strlit("https://atomicdata.dev/properties/shortname");
}


/// The commit-resource property URLs differ pairwise.
pub proof fn lemma_commit_props_distinct()
    ensures
        IS_A@ != CREATED_AT@,
        IS_A@ != SIGNER@,
        IS_A@ != SUBJECT@,
        IS_A@ != PREVIOUS_COMMIT@,
        CREATED_AT@ != SIGNER@,
        CREATED_AT@ != SUBJECT@,
        CREATED_AT@ != PREVIOUS_COMMIT@,
        SIGNER@ != SUBJECT@,
        SIGNER@ != PREVIOUS_COMMIT@,
        SUBJECT@ != PREVIOUS_COMMIT@,
{
    reveal_strlit("https://atomicdata.dev/properties/isA");
    reveal_strlit("https://atomicdata.dev/properties/createdAt");
    reveal_strlit("https://atomicdata.dev/properties/signer");
    reveal_strlit("https://atomicdata.dev/properties/subject");
    reveal_strlit("https://atomicdata.dev/properties/previousCommit");
    assert(IS_A@.len() == 37);
    assert(CREATED_AT@.len() == 43);
    assert(SIGNER@.len() == 40);
    assert(SUBJECT@.len() == 41);
    assert(PREVIOUS_COMMIT@.len() == 48);
}


/// The agent-resource property URLs differ pairwise.
pub proof fn lemma_agent_props_distinct()
    ensures
        IS_A@ != PUBLIC_KEY@,
        IS_A@ != NAME@,
        PUBLIC_KEY@ != NAME@,
{
    reveal_strlit("https://atomicdata.dev/properties/isA");
    reveal_strlit("https://atomicdata.dev/properties/publicKey");
    reveal_strlit("https://atomicdata.dev/properties/name");
    assert(IS_A@.len() == 37);
    assert(PUBLIC_KEY@.len() == 43);
    assert(NAME@.len() == 38);
}


/// The collection property URLs pinned by the resolver differ pairwise.
pub proof fn lemma_collection_props_distinct()
    ensures
        IS_A@ != COLLECTION_PROPERTY@,
        IS_A@ != COLLECTION_VALUE@,
        IS_A@ != COLLECTION_SORT_BY@,
        IS_A@ != COLLECTION_SORT_DESC@,
        IS_A@ != COLLECTION_CURRENT_PAGE@,
        IS_A@ != COLLECTION_PAGE_SIZE@,
        IS_A@ != COLLECTION_MEMBER_COUNT@,
        IS_A@ != COLLECTION_MEMBERS@,
        IS_A@ != COLLECTION_INCLUDE_NESTED@,
        COLLECTION_CURRENT_PAGE@ != COLLECTION_PAGE_SIZE@,
        COLLECTION_CURRENT_PAGE@ != COLLECTION_MEMBER_COUNT@,
        COLLECTION_CURRENT_PAGE@ != COLLECTION_MEMBERS@,
        COLLECTION_CURRENT_PAGE@ != COLLECTION_INCLUDE_NESTED@,
        COLLECTION_PAGE_SIZE@ != COLLECTION_MEMBER_COUNT@,
        COLLECTION_PAGE_SIZE@ != COLLECTION_MEMBERS@,
        COLLECTION_PAGE_SIZE@ != COLLECTION_INCLUDE_NESTED@,
        COLLECTION_MEMBER_COUNT@ != COLLECTION_MEMBERS@,
        COLLECTION_MEMBER_COUNT@ != COLLECTION_INCLUDE_NESTED@,
        COLLECTION_MEMBERS@ != COLLECTION_INCLUDE_NESTED@,
{
    reveal_strlit("https://atomicdata.dev/properties/isA");
    reveal_strlit("https://atomicdata.dev/properties/collection/property");
    reveal_strlit("https://atomicdata.dev/properties/collection/value");
    reveal_strlit("https://atomicdata.dev/properties/collection/sortBy");
    reveal_strlit("https://atomicdata.dev/properties/collection/sortDesc");
    reveal_strlit("https://atomicdata.dev/properties/collection/currentPage");
    reveal_strlit("https://atomicdata.dev/properties/collection/pageSize");
    reveal_strlit("https://atomicdata.dev/properties/collection/memberCount");
    reveal_strlit("https://atomicdata.dev/properties/collection/members");
    reveal_strlit("https://atomicdata.dev/properties/collection/includeNested");
    assert(IS_A@.len() == 37);
    assert(COLLECTION_PROPERTY@.len() == 53);
    assert(COLLECTION_VALUE@.len() == 50);
    assert(COLLECTION_SORT_BY@.len() == 51);
    assert(COLLECTION_SORT_DESC@.len() == 53);
    assert(COLLECTION_CURRENT_PAGE@.len() == 56);
    assert(COLLECTION_PAGE_SIZE@.len() == 53);
    assert(COLLECTION_MEMBER_COUNT@.len() == 56);
    assert(COLLECTION_MEMBERS@.len() == 52);
    assert(COLLECTION_INCLUDE_NESTED@.len() == 58);
    assert(COLLECTION_CURRENT_PAGE@[45] == 'c');
    assert(COLLECTION_MEMBER_COUNT@[45] == 'm');
}

} // verus!
