//! JSON documents as plain values, and the decoding of work items from them.
use vstd::prelude::*;

use crate::error::ClientError;
use crate::models::{
    BulkResponse, ItemModel, RelationModel, WorkItem, WorkItemFields, WorkItemRelation,
    WorkItemRelationAttributes, item_models,
};
use crate::text::{parse_u32, parse_u32_spec, text_eq};

verus! {

/// A JSON document. A number holds its text as written; an object holds its
/// members in order.
#[derive(Debug, PartialEq, Eq)]
pub enum JsonValue {
    Null,
    Bool(bool),
    Number(String),
    Text(String),
    Array(Vec<JsonValue>),
    Object(Vec<(String, JsonValue)>),
}

/// The value of the first member of `entries` named `key`.
pub open spec fn lookup(entries: Seq<(String, JsonValue)>, key: Seq<char>) -> Option<JsonValue>
    decreases entries.len(),
{
    if entries.len() == 0 {
        None
    } else {
        match lookup(entries.drop_last(), key) {
            Some(v) => Some(v),
            None => if entries.last().0@ == key {
                Some(entries.last().1)
            } else {
                None
            },
        }
    }
}

/// The member `key` of `v`, where `v` is an object that has one.
pub open spec fn member(v: JsonValue, key: Seq<char>) -> Option<JsonValue> {
    match v {
        JsonValue::Object(entries) => lookup(entries@, key),
        _ => None,
    }
}

/// The member `key` of `v`, where it is a string.
pub open spec fn member_text(v: JsonValue, key: Seq<char>) -> Option<Seq<char>> {
    match member(v, key) {
        Some(JsonValue::Text(s)) => Some(s@),
        _ => None,
    }
}

/// The member `key` of `v`, where it is a number that is an item identifier.
pub open spec fn member_id(v: JsonValue, key: Seq<char>) -> Option<u32> {
    match member(v, key) {
        Some(JsonValue::Number(s)) => parse_u32_spec(s@),
        _ => None,
    }
}

/// `{ "attributes": { "name": <type> }, "url": <url> }` as a relation.
pub open spec fn relation_model(v: JsonValue) -> Option<RelationModel> {
    match member(v, "attributes"@) {
        Some(a) => match (member_text(a, "name"@), member_text(v, "url"@)) {
            (Some(n), Some(u)) => Some(RelationModel { relation_type: n, url: u }),
            _ => None,
        },
        None => None,
    }
}

/// Each element as a relation, in order, where all of them are relations.
pub open spec fn relation_models(s: Seq<JsonValue>) -> Option<Seq<RelationModel>>
    decreases s.len(),
{
    if s.len() == 0 {
        Some(Seq::empty())
    } else {
        match (relation_models(s.drop_last()), relation_model(s.last())) {
            (Some(rs), Some(r)) => Some(rs.push(r)),
            _ => None,
        }
    }
}

/// The relations of an item object: none where the member is absent.
pub open spec fn relations_member(v: JsonValue) -> Option<Seq<RelationModel>> {
    match member(v, "relations"@) {
        None => Some(Seq::empty()),
        Some(JsonValue::Array(a)) => relation_models(a@),
        Some(_) => None,
    }
}

/// `{ "id": <id>, "fields": { "System.Title": <title>,
/// "System.WorkItemType": <type> }, "relations": [ <relation>, ... ] }` as a
/// work item.
pub open spec fn item_model(v: JsonValue) -> Option<ItemModel> {
    match (member_id(v, "id"@), member(v, "fields"@), relations_member(v)) {
        (Some(id), Some(f), Some(rels)) => match (
            member_text(f, "System.Title"@),
            member_text(f, "System.WorkItemType"@),
        ) {
            (Some(title), Some(ty)) => Some(
                ItemModel { id, title, work_item_type: ty, relations: rels },
            ),
            _ => None,
        },
        _ => None,
    }
}

/// Each element as a work item, in order, where all of them are work items.
pub open spec fn item_models_of(s: Seq<JsonValue>) -> Option<Seq<ItemModel>>
    decreases s.len(),
{
    if s.len() == 0 {
        Some(Seq::empty())
    } else {
        match (item_models_of(s.drop_last()), item_model(s.last())) {
            (Some(items), Some(w)) => Some(items.push(w)),
            _ => None,
        }
    }
}

/// `{ "value": [ <item>, ... ] }` as a sequence of work items.
pub open spec fn bulk_model(v: JsonValue) -> Option<Seq<ItemModel>> {
    match member(v, "value"@) {
        Some(JsonValue::Array(a)) => item_models_of(a@),
        _ => None,
    }
}

/// Decoding an array of well-formed items yields one item per element, in
/// the order of the array: the item at index `i` is the decoding of the
/// element at index `i`.
pub proof fn lemma_items_keep_order(arr: Seq<JsonValue>)
    requires
        forall|i: int| 0 <= i < arr.len() ==> (#[trigger] item_model(arr[i])) is Some,
    ensures
        item_models_of(arr) is Some,
        item_models_of(arr).unwrap().len() == arr.len(),
        forall|i: int|
            0 <= i < arr.len() ==> item_model(arr[i]) == Some(
                #[trigger] item_models_of(arr).unwrap()[i],
            ),
    decreases arr.len(),
{
    if arr.len() > 0 {
        let init = arr.drop_last();
        assert forall|i: int| 0 <= i < init.len() implies (#[trigger] item_model(init[i])) is Some by {
            assert(init[i] == arr[i]);
        }
        lemma_items_keep_order(init);
        let last = arr.len() - 1;
        assert(arr.last() == arr[last]);
        assert(item_model(arr[last]) is Some);
        let prev = item_models_of(init).unwrap();
        let all = item_models_of(arr).unwrap();
        assert forall|i: int| 0 <= i < arr.len() implies item_model(arr[i]) == Some(
            #[trigger] item_models_of(arr).unwrap()[i],
        ) by {
            if i < last {
                assert(arr[i] == init[i]);
                assert(all[i] == prev[i]);
                assert(item_model(init[i]) == Some(item_models_of(init).unwrap()[i]));
            }
        }
    }
}

/// The member `key` of `v`.
pub fn find_member<'a>(v: &'a JsonValue, key: &str) -> (r: Option<&'a JsonValue>)
    ensures
        match r {
            Some(x) => member(*v, key@) == Some(*x),
            None => member(*v, key@) is None,
        },
{
    match v {
        JsonValue::Object(entries) => {
            assert(*v == JsonValue::Object(*entries));
            let mut i: usize = 0;
            while i < entries.len()
                invariant
                    *v == JsonValue::Object(*entries),
                    i <= entries@.len(),
                    lookup(entries@.subrange(0, i as int), key@) is None,
                decreases entries@.len() - i,
            {
                assert(entries@.subrange(0, i as int + 1).drop_last() =~= entries@.subrange(
                    0,
                    i as int,
                ));
                if text_eq(entries[i].0.as_str(), key) {
                    proof {
                        let pre = entries@.subrange(0, i as int + 1);
                        assert(pre.last() == entries@[i as int]);
                        assert(lookup(pre, key@) == Some(entries@[i as int].1));
                        lemma_lookup_prefix(entries@, i as int + 1, key@);
                    }
                    return Some(&entries[i].1);
                }
                i = i + 1;
            }
            assert(entries@.subrange(0, i as int) =~= entries@);
            None
        },
        _ => None,
    }
}

/// A member found in a prefix is the member found in the whole.
proof fn lemma_lookup_prefix(entries: Seq<(String, JsonValue)>, k: int, key: Seq<char>)
    requires
        0 <= k <= entries.len(),
        lookup(entries.subrange(0, k), key) is Some,
    ensures
        lookup(entries, key) == lookup(entries.subrange(0, k), key),
    decreases entries.len() - k,
{
    if k < entries.len() {
        assert(entries.subrange(0, k + 1).drop_last() =~= entries.subrange(0, k));
        lemma_lookup_prefix(entries, k + 1, key);
    } else {
        assert(entries.subrange(0, k) =~= entries);
    }
}

/// The member `key` of `v`, where it is a string.
fn text_member(v: &JsonValue, key: &str) -> (r: Option<String>)
    ensures
        match r {
            Some(s) => member_text(*v, key@) == Some(s@),
            None => member_text(*v, key@) is None,
        },
{
    match find_member(v, key) {
        Some(JsonValue::Text(s)) => Some(s.clone()),
        _ => None,
    }
}

/// The member `key` of `v`, where it is a number that is an item identifier.
fn id_member(v: &JsonValue, key: &str) -> (r: Option<u32>)
    ensures
        r == member_id(*v, key@),
{
    match find_member(v, key) {
        Some(JsonValue::Number(s)) => parse_u32(s.as_str()),
        _ => None,
    }
}

/// Decodes a relation object.
pub fn decode_relation(v: &JsonValue) -> (r: Option<WorkItemRelation>)
    ensures
        match r {
            Some(x) => relation_model(*v) == Some(x@),
            None => relation_model(*v) is None,
        },
{
    let attributes = match find_member(v, "attributes") {
        Some(a) => a,
        None => return None,
    };
    let name = match text_member(attributes, "name") {
        Some(n) => n,
        None => return None,
    };
    let url = match text_member(v, "url") {
        Some(u) => u,
        None => return None,
    };
    Some(
        WorkItemRelation {
            attributes: WorkItemRelationAttributes { relation_type: name },
            url,
        },
    )
}

/// Decodes an array of relation objects.
fn decode_relations(items: &Vec<JsonValue>) -> (r: Option<Vec<WorkItemRelation>>)
    ensures
        match r {
            Some(rs) => relation_models(items@) == Some(
                rs@.map_values(|x: WorkItemRelation| x@),
            ),
            None => relation_models(items@) is None,
        },
{
    let mut out: Vec<WorkItemRelation> = Vec::new();
    let mut i: usize = 0;
    while i < items.len()
        invariant
            i <= items@.len(),
            relation_models(items@.subrange(0, i as int)) == Some(
                out@.map_values(|x: WorkItemRelation| x@),
            ),
        decreases items@.len() - i,
    {
        let ghost pre = items@.subrange(0, i as int + 1);
        assert(pre.drop_last() =~= items@.subrange(0, i as int));
        match decode_relation(&items[i]) {
            Some(x) => {
                let ghost before = out@;
                out.push(x);
                assert(out@.map_values(|x: WorkItemRelation| x@) =~= before.map_values(
                    |x: WorkItemRelation| x@,
                ).push(x@));
            },
            None => {
                proof {
                    lemma_relations_prefix(items@, i as int + 1);
                }
                return None;
            },
        }
        i = i + 1;
    }
    assert(items@.subrange(0, i as int) =~= items@);
    Some(out)
}

/// Where a prefix holds something that is no relation, so does the whole.
proof fn lemma_relations_prefix(s: Seq<JsonValue>, k: int)
    requires
        0 <= k <= s.len(),
        relation_models(s.subrange(0, k)) is None,
    ensures
        relation_models(s) is None,
    decreases s.len() - k,
{
    if k < s.len() {
        assert(s.subrange(0, k + 1).drop_last() =~= s.subrange(0, k));
        lemma_relations_prefix(s, k + 1);
    } else {
        assert(s.subrange(0, k) =~= s);
    }
}

/// Where a prefix holds something that is no work item, so does the whole.
proof fn lemma_items_prefix(s: Seq<JsonValue>, k: int)
    requires
        0 <= k <= s.len(),
        item_models_of(s.subrange(0, k)) is None,
    ensures
        item_models_of(s) is None,
    decreases s.len() - k,
{
    if k < s.len() {
        assert(s.subrange(0, k + 1).drop_last() =~= s.subrange(0, k));
        lemma_items_prefix(s, k + 1);
    } else {
        assert(s.subrange(0, k) =~= s);
    }
}

impl WorkItem {
    /// Decodes a work item object.
    pub fn from_json(v: &JsonValue) -> (r: Option<WorkItem>)
        ensures
            match r {
                Some(w) => item_model(*v) == Some(w@),
                None => item_model(*v) is None,
            },
    {
        let id = match id_member(v, "id") {
            Some(id) => id,
            None => return None,
        };
        let fields = match find_member(v, "fields") {
            Some(f) => f,
            None => return None,
        };
        let relations = match find_member(v, "relations") {
            None => Vec::new(),
            Some(JsonValue::Array(a)) => match decode_relations(a) {
                Some(rs) => rs,
                None => return None,
            },
            Some(_) => return None,
        };
        let title = match text_member(fields, "System.Title") {
            Some(t) => t,
            None => return None,
        };
        let work_item_type = match text_member(fields, "System.WorkItemType") {
            Some(t) => t,
            None => return None,
        };
        let w = WorkItem { id, fields: WorkItemFields { title, work_item_type }, relations };
        assert(w@.relations =~= relations_member(*v).unwrap());
        Some(w)
    }
}

/// Decodes an array of work item objects.
fn decode_items(items: &Vec<JsonValue>) -> (r: Option<Vec<WorkItem>>)
    ensures
        match r {
            Some(ws) => item_models_of(items@) == Some(item_models(ws@)),
            None => item_models_of(items@) is None,
        },
{
    let mut out: Vec<WorkItem> = Vec::new();
    let mut i: usize = 0;
    while i < items.len()
        invariant
            i <= items@.len(),
            item_models_of(items@.subrange(0, i as int)) == Some(item_models(out@)),
        decreases items@.len() - i,
    {
        let ghost pre = items@.subrange(0, i as int + 1);
        assert(pre.drop_last() =~= items@.subrange(0, i as int));
        match WorkItem::from_json(&items[i]) {
            Some(w) => {
                let ghost before = out@;
                out.push(w);
                assert(item_models(out@) =~= item_models(before).push(w@));
            },
            None => {
                proof {
                    lemma_items_prefix(items@, i as int + 1);
                }
                return None;
            },
        }
        i = i + 1;
    }
    assert(items@.subrange(0, i as int) =~= items@);
    Some(out)
}

/// Decodes the body of a successful single-item response. `parsed` is the
/// body read as JSON, or `None` where it is no JSON text.
pub fn decode_work_item(body: String, parsed: Option<JsonValue>) -> (r: Result<
    WorkItem,
    ClientError,
>)
    ensures
        match parsed {
            Some(v) => match item_model(v) {
                Some(m) => r matches Ok(w) && w@ == m,
                None => r == Err::<WorkItem, ClientError>(ClientError::Decode(body)),
            },
            None => r == Err::<WorkItem, ClientError>(ClientError::Decode(body)),
        },
{
    match parsed {
        Some(v) => match WorkItem::from_json(&v) {
            Some(w) => Ok(w),
            None => Err(ClientError::Decode(body)),
        },
        None => Err(ClientError::Decode(body)),
    }
}

/// Decodes the body of a successful bulk response: the items come out in
/// the order of the `value` array.
pub fn decode_bulk(body: String, parsed: Option<JsonValue>) -> (r: Result<
    BulkResponse<WorkItem>,
    ClientError,
>)
    ensures
        match parsed {
            Some(v) => match bulk_model(v) {
                Some(ms) => r matches Ok(b) && item_models(b.value@) == ms,
                None => r == Err::<BulkResponse<WorkItem>, ClientError>(
                    ClientError::Decode(body),
                ),
            },
            None => r == Err::<BulkResponse<WorkItem>, ClientError>(ClientError::Decode(body)),
        },
{
    match parsed {
        Some(v) => {
            let items = match find_member(&v, "value") {
                Some(JsonValue::Array(a)) => decode_items(a),
                _ => None,
            };
            match items {
                Some(ws) => Ok(BulkResponse { value: ws }),
                None => Err(ClientError::Decode(body)),
            }
        },
        None => Err(ClientError::Decode(body)),
    }
}

} // verus!
