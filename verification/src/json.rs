//! JSON documents, taken apart one level at a time. A value inside a document is
//! handed out as the JSON text of that value.
use vstd::prelude::*;
use vstd::utf8::encode_utf8;
use crate::text;

verus! {

/// The elements of a JSON array, each as its JSON text; `None` for bytes that
/// are no JSON array.
pub uninterp spec fn json_items(bytes: Seq<u8>) -> Option<Seq<Seq<char>>>;

/// `serde_json::from_slice` and, of an array, `Value::to_string` of each
/// element: what comes out depends on the bytes alone.
#[verifier::external_body]
pub(crate) fn items(bytes: &[u8]) -> (r: Option<Vec<String>>)
    ensures
        match r {
            Some(v) => json_items(bytes@) == Some(text::texts(v@)),
            None => json_items(bytes@) is None,
        },
{
    match serde_json::from_slice::<serde_json::Value>(bytes).ok()? {
        serde_json::Value::Array(v) => Some(v.iter().map(|x| x.to_string()).collect()),
        _ => None,
    }
}

/// The members of a JSON object, each with the JSON text of its value; `None`
/// for bytes that are no JSON object.
pub uninterp spec fn json_fields(bytes: Seq<u8>) -> Option<Seq<(Seq<char>, Seq<char>)>>;

/// Names and texts.
pub open spec fn pairs(v: Seq<(String, String)>) -> Seq<(Seq<char>, Seq<char>)> {
    Seq::new(v.len(), |i: int| (v[i].0@, v[i].1@))
}

/// `serde_json::from_slice` and, of an object, `Value::to_string` of each
/// member: what comes out depends on the bytes alone.
#[verifier::external_body]
pub(crate) fn fields(bytes: &[u8]) -> (r: Option<Vec<(String, String)>>)
    ensures
        match r {
            Some(v) => json_fields(bytes@) == Some(pairs(v@)),
            None => json_fields(bytes@) is None,
        },
{
    match serde_json::from_slice::<serde_json::Value>(bytes).ok()? {
        serde_json::Value::Object(m) => {
            Some(m.into_iter().map(|(k, v)| (k, v.to_string())).collect())
        },
        _ => None,
    }
}

/// The text that a JSON string stands for; `None` for bytes that are no JSON
/// string.
pub uninterp spec fn json_text(bytes: Seq<u8>) -> Option<Seq<char>>;

/// `serde_json::from_slice` to a `String`: what comes out depends on the bytes
/// alone.
#[verifier::external_body]
pub(crate) fn string(bytes: &[u8]) -> (r: Option<String>)
    ensures
        text::text_in(r) == json_text(bytes@),
{
    serde_json::from_slice::<String>(bytes).ok()
}

/// The integer that a JSON number stands for; `None` for bytes that are no JSON
/// integer in the range.
pub uninterp spec fn json_int(bytes: Seq<u8>) -> Option<i64>;

/// `serde_json::from_slice` to an `i64`: what comes out depends on the bytes
/// alone.
#[verifier::external_body]
pub(crate) fn integer(bytes: &[u8]) -> (r: Option<i64>)
    ensures
        r == json_int(bytes@),
{
    serde_json::from_slice::<i64>(bytes).ok()
}

/// The JSON text of the member `key`.
pub open spec fn member(fields: Seq<(Seq<char>, Seq<char>)>, key: Seq<char>) -> Option<Seq<char>>
    decreases fields.len(),
{
    if fields.len() == 0 {
        None
    } else {
        match member(fields.drop_last(), key) {
            Some(v) => Some(v),
            None => if fields.last().0 == key {
                Some(fields.last().1)
            } else {
                None
            },
        }
    }
}

/// The member `key` of a document that is an object.
pub open spec fn member_in(document: Seq<char>, key: Seq<char>) -> Option<Seq<char>> {
    match json_fields(encode_utf8(document)) {
        Some(f) => member(f, key),
        None => None,
    }
}

/// The JSON text of the member `key` of a document, where it is an object with
/// that member.
pub fn member_of(document: &str, key: &str) -> (r: Option<String>)
    ensures
        text::text_in(r) == member_in(document@, key@),
{
    let bytes = document.as_bytes();
    assert(bytes@ == encode_utf8(document@));
    match fields(bytes) {
        Some(v) => find_member(&v, key),
        None => None,
    }
}

/// The JSON text of the member `key`.
pub fn find_member(v: &[(String, String)], key: &str) -> (r: Option<String>)
    ensures
        text::text_in(r) == member(pairs(v@), key@),
{
    let ghost p = pairs(v@);
    let mut found: Option<String> = None;
    assert(p.take(0) == Seq::<(Seq<char>, Seq<char>)>::empty());
    for i in 0..v.len()
        invariant
            p == pairs(v@),
            text::text_in(found) == member(p.take(i as int), key@),
    {
        assert(p.take(i + 1).drop_last() == p.take(i as int));
        assert(p.take(i + 1).last() == (v@[i as int].0@, v@[i as int].1@));
        if found.is_none() && text::same(&v[i].0, key) {
            found = Some(text::copy_text(&v[i].1));
        }
    }
    assert(p.take(p.len() as int) == p);
    found
}

/// The text that a JSON document stands for, where it is a JSON string.
pub fn string_of(document: &str) -> (r: Option<String>)
    ensures
        text::text_in(r) == json_text(encode_utf8(document@)),
{
    let bytes = document.as_bytes();
    assert(bytes@ == encode_utf8(document@));
    string(bytes)
}

// ---------------------------------------------------------------------------
// Tables
// ---------------------------------------------------------------------------

/// The table that a list of names and texts makes; the last of equal names
/// counts.
pub open spec fn listed(v: Seq<(Seq<char>, Option<Seq<char>>)>) -> Map<
    Seq<char>,
    Option<Seq<char>>,
>
    decreases v.len(),
{
    if v.len() == 0 {
        Map::empty()
    } else {
        listed(v.drop_last()).insert(v.last().0, v.last().1)
    }
}

/// A list as names and texts.
pub open spec fn rows(v: Seq<(String, Option<String>)>) -> Seq<(Seq<char>, Option<Seq<char>>)> {
    Seq::new(v.len(), |i: int| (v[i].0@, text::text_in(v[i].1)))
}

/// Whether a value is a string or `null`.
pub open spec fn text_or_null(value: Seq<char>) -> bool {
    json_text(encode_utf8(value)) is Some || value == "null"@
}

/// Whether every member of an object is a string or `null`.
pub open spec fn all_texts(fields: Seq<(Seq<char>, Seq<char>)>) -> bool {
    forall|i: int| 0 <= i < fields.len() ==> text_or_null((#[trigger] fields[i]).1)
}

/// The table of an object of strings and nulls: a null has no text.
pub open spec fn table_of(fields: Seq<(Seq<char>, Seq<char>)>) -> Map<
    Seq<char>,
    Option<Seq<char>>,
>
    decreases fields.len(),
{
    if fields.len() == 0 {
        Map::empty()
    } else {
        table_of(fields.drop_last()).insert(
            fields.last().0,
            json_text(encode_utf8(fields.last().1)),
        )
    }
}

/// Whether a document reads back as an object with a text under one key and a
/// table of texts and nulls under another.
pub open spec fn reads_back(
    document: Seq<char>,
    key: Seq<char>,
    value: Seq<char>,
    table_key: Seq<char>,
    table: Map<Seq<char>, Option<Seq<char>>>,
) -> bool {
    &&& member_in(document, key) matches Some(v) && json_text(encode_utf8(v)) == Some(value)
    &&& member_in(document, table_key) matches Some(t) && (json_fields(encode_utf8(t)) matches Some(
        f,
    ) && all_texts(f) && table_of(f) == table)
}

/// `serde_json::Value::to_string` of an object that holds a text under one key
/// and a table of texts and nulls under another key. What `serde_json` writes it
/// reads back as it was.
#[verifier::external_body]
pub(crate) fn document(
    key: &str,
    value: &str,
    table_key: &str,
    table: &[(String, Option<String>)],
) -> (r: String)
    requires
        key@ != table_key@,
    ensures
        reads_back(r@, key@, value@, table_key@, listed(rows(table@))),
{
    let entries: serde_json::Map<String, serde_json::Value> = table
        .iter()
        .map(|(k, v)| (k.clone(), serde_json::Value::from(v.clone())))
        .collect();
    let mut whole = serde_json::Map::new();
    whole.insert(key.to_string(), serde_json::Value::from(value));
    whole.insert(table_key.to_string(), serde_json::Value::Object(entries));
    serde_json::Value::Object(whole).to_string()
}

/// A key has the value of the first member of that name, and a key without one has
/// none.
pub proof fn law_the_first_member_of_a_name_counts(
    fields: Seq<(Seq<char>, Seq<char>)>,
    key: Seq<char>,
)
    ensures
        member(fields, key) matches Some(v) ==> exists|i: int|
            0 <= i < fields.len() && (#[trigger] fields[i]).0 == key && fields[i].1 == v && forall|
                k: int,
            |
                0 <= k < i ==> (#[trigger] fields[k]).0 != key,
        member(fields, key) is None ==> forall|k: int|
            0 <= k < fields.len() ==> (#[trigger] fields[k]).0 != key,
    decreases fields.len(),
{
    if fields.len() > 0 {
        let d = fields.drop_last();
        law_the_first_member_of_a_name_counts(d, key);
        assert(forall|k: int| 0 <= k < d.len() ==> fields[k] == d[k]);
        let n = fields.len() - 1;
        assert(fields[n] == fields.last());
        if member(d, key) is Some {
            let i = choose|i: int|
                0 <= i < d.len() && (#[trigger] d[i]).0 == key && d[i].1 == member(d, key)->Some_0
                    && forall|k: int| 0 <= k < i ==> (#[trigger] d[k]).0 != key;
            assert(fields[i].0 == key);
        } else if fields.last().0 == key {
            assert(fields[n].0 == key && fields[n].1 == member(fields, key)->Some_0);
        }
    }
}

/// The table of an object has the last value of each name, and no other names.
pub proof fn law_a_table_holds_the_members(fields: Seq<(Seq<char>, Seq<char>)>, i: int)
    requires
        0 <= i < fields.len(),
        forall|k: int| i < k < fields.len() ==> (#[trigger] fields[k]).0 != fields[i].0,
    ensures
        table_of(fields).contains_key(fields[i].0),
        table_of(fields)[fields[i].0] == json_text(encode_utf8(fields[i].1)),
        forall|key: Seq<char>| #[trigger]
            table_of(fields).contains_key(key) ==> exists|k: int|
                0 <= k < fields.len() && (#[trigger] fields[k]).0 == key,
    decreases fields.len(),
{
    let d = fields.drop_last();
    let n = fields.len() - 1;
    assert(forall|k: int| 0 <= k < d.len() ==> fields[k] == d[k]);
    assert(fields[n] == fields.last());
    if i < n {
        assert(fields[n].0 != fields[i].0);
        law_a_table_holds_the_members(d, i);
    }
    assert forall|key: Seq<char>| #[trigger] table_of(fields).contains_key(key) implies exists|k: int|
        0 <= k < fields.len() && (#[trigger] fields[k]).0 == key by {
        lemma_table_key(fields, key);
    }
}

proof fn lemma_table_key(fields: Seq<(Seq<char>, Seq<char>)>, key: Seq<char>)
    requires
        table_of(fields).contains_key(key),
    ensures
        exists|k: int| 0 <= k < fields.len() && (#[trigger] fields[k]).0 == key,
    decreases fields.len(),
{
    if fields.len() > 0 {
        let d = fields.drop_last();
        if fields.last().0 == key {
            assert(fields[fields.len() - 1] == fields.last());
        } else {
            lemma_table_key(d, key);
            let k = choose|k: int| 0 <= k < d.len() && (#[trigger] d[k]).0 == key;
            assert(fields[k] == d[k]);
        }
    }
}

/// A list of names has the last text given for each of them.
pub proof fn law_a_list_has_the_last_of_each_name(
    v: Seq<(Seq<char>, Option<Seq<char>>)>,
    name: Seq<char>,
    value: Option<Seq<char>>,
    other: Seq<char>,
)
    ensures
        listed(Seq::empty()) == Map::<Seq<char>, Option<Seq<char>>>::empty(),
        listed(v.push((name, value))).contains_key(name),
        listed(v.push((name, value)))[name] == value,
        other != name ==> listed(v.push((name, value))).contains_key(other) == listed(
            v,
        ).contains_key(other),
        other != name && listed(v).contains_key(other) ==> listed(v.push((name, value)))[other]
            == listed(v)[other],
{
    assert(v.push((name, value)).drop_last() == v);
}

/// A table is refused for one value that is neither a string nor null.
pub proof fn law_tables_hold_texts_and_nulls(fields: Seq<(Seq<char>, Seq<char>)>, i: int)
    requires
        0 <= i < fields.len(),
    ensures
        text_or_null("null"@),
        json_text(encode_utf8(fields[i].1)) is None && fields[i].1 != "null"@ ==> !all_texts(
            fields,
        ),
{
}

} // verus!
