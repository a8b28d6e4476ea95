//! Small helpers shared by servers that embed the store.

use vstd::prelude::*;

verus! {

/// A content type chosen from a path extension.
#[derive(Clone, Copy, Debug, PartialEq, Eq, Structural)]
pub enum ContentType {
    Json,
    JsonLd,
    JsonAd,
    Html,
    Turtle,
}

/// Turns an empty string into `None`. Useful for parsing form inputs.
pub fn empty_to_nothing(string: Option<String>) -> (r: Option<String>)
    ensures
        match string {
            None => r is None,
            Some(s) => if s@.len() == 0 {
                r is None
            } else {
                r matches Some(out) && out@ == s@
            },
        },
{
    match string.as_ref() {
        Some(st) => {
            if st.as_str().unicode_len() == 0 {
                None
            } else {
                string
            }
        },
        None => None,
    }
}

/// The position of the first `c` at or after `from`, or the length if none.
pub open spec fn find_char(s: Seq<char>, c: char, from: int) -> int
    decreases s.len() - from,
    when 0 <= from <= s.len()
{
    if from < s.len() {
        if s[from] == c {
            from
        } else {
            find_char(s, c, from + 1)
        }
    } else {
        s.len() as int
    }
}

/// Bounds and meaning of `find_char`.
pub proof fn lemma_find_char(s: Seq<char>, c: char, from: int)
    requires
        0 <= from <= s.len(),
    ensures
        from <= find_char(s, c, from) <= s.len(),
        forall|k: int| from <= k < find_char(s, c, from) ==> s[k] != c,
        find_char(s, c, from) < s.len() ==> s[find_char(s, c, from)] == c,
    decreases s.len() - from,
{
    if from < s.len() && s[from] != c {
        lemma_find_char(s, c, from + 1);
    }
}

/// The content type a path extension names, if any.
pub open spec fn ext_content_type(e: Seq<char>) -> Option<ContentType> {
    if e == "json"@ {
        Some(ContentType::Json)
    } else if e == "jsonld"@ {
        Some(ContentType::JsonLd)
    } else if e == "jsonad"@ {
        Some(ContentType::JsonAd)
    } else if e == "html"@ {
        Some(ContentType::Html)
    } else if e == "ttl"@ {
        Some(ContentType::Turtle)
    } else {
        None
    }
}

/// The position of the first `c` in `s`, or the length if none.
fn find_char_str(s: &str, c: char, from: usize) -> (r: usize)
    requires
        from <= s@.len(),
    ensures
        r == find_char(s@, c, from as int),
{
    let slen = s.unicode_len();
    let mut i: usize = from;
    loop
        invariant
            from <= i <= slen,
            slen == s@.len(),
            find_char(s@, c, from as int) == find_char(s@, c, i as int),
        decreases slen - i,
    {
        if i == slen {
            return i;
        }
        let ci = s.get_char(i);
        if ci == c {
            return i;
        }
        i = i + 1;
    }
}

/// Splits a path of the form `base.extension` into the content type named
/// by the extension and the base. Returns nothing when the path has no dot,
/// several dots, or an unknown extension.
pub fn try_extension<'a>(path: &'a str) -> (r: Option<(ContentType, &'a str)>)
    ensures
        ({
            let d = find_char(path@, '.', 0);
            let second = find_char(path@, '.', d + 1);
            &&& (r is Some <==> d < path@.len() && second == path@.len() && ext_content_type(
                path@.skip(d + 1),
            ) is Some)
            &&& (r matches Some(p) ==> p.1@ == path@.take(d) && Some(p.0) == ext_content_type(
                path@.skip(d + 1),
            ))
        }),
{
    let slen = path.unicode_len();
    proof {
        lemma_find_char(path@, '.', 0);
    }
    let d = find_char_str(path, '.', 0);
    if d == slen {
        return None;
    }
    proof {
        lemma_find_char(path@, '.', d + 1);
    }
    let second = find_char_str(path, '.', d + 1);
    if second != slen {
        return None;
    }
    let base = path.substring_char(0, d);
    let ext = path.substring_char(d + 1, slen);
    let ext_s = String::from_str(ext);
    proof {
        assert(ext_s@ =~= path@.skip(d + 1));
        assert(base@ =~= path@.take(d as int));
    }
    let content_type = if crate::text::str_eq(&ext_s, &String::from_str("json")) {
        Some(ContentType::Json)
    } else if crate::text::str_eq(&ext_s, &String::from_str("jsonld")) {
        Some(ContentType::JsonLd)
    } else if crate::text::str_eq(&ext_s, &String::from_str("jsonad")) {
        Some(ContentType::JsonAd)
    } else if crate::text::str_eq(&ext_s, &String::from_str("html")) {
        Some(ContentType::Html)
    } else if crate::text::str_eq(&ext_s, &String::from_str("ttl")) {
        Some(ContentType::Turtle)
    } else {
        None
    };
    match content_type {
        Some(ct) => Some((ct, base)),
        None => None,
    }
}

} // verus!
