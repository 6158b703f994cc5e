//! Reading JSON search results.

use crate::search::{hit_views, text_view, Hit, HitView, PageView, SearchPage};
use serde_json::Value;
use vstd::prelude::*;
use vstd::string::*;

verus! {

/// What a JSON value holds, as far as the followers read it.
pub enum Json {
    /// A text.
    Text(Seq<char>),
    /// A number that is stored as a non-negative integer; 5.0 is none.
    Whole(u64),
    /// A list.
    List(Seq<Json>),
    /// An object.
    Object(Map<Seq<char>, Json>),
    /// Anything else, `null` among it.
    Other,
}

/// `serde_json::Value`: a JSON value.
#[verifier::external_type_specification]
#[verifier::external_body]
pub struct ExValue(Value);

/// What a `serde_json::Value` holds.
pub uninterp spec fn json_of(value: Value) -> Json;

/// The member of an object under a key; of anything else, and where the key is missing, `null`.
pub open spec fn member_of(json: Json, key: Seq<char>) -> Json {
    match json {
        Json::Object(members) => if members.contains_key(key) {
            members[key]
        } else {
            Json::Other
        },
        _ => Json::Other,
    }
}

/// `serde_json::Value::as_str`: the text of a text; of anything else nothing.
pub assume_specification[ Value::as_str ](value: &Value) -> (r: Option<&str>)
    ensures
        match r {
            Some(text) => json_of(*value) == Json::Text(text@),
            None => !(json_of(*value) is Text),
        },
;

/// `serde_json::Value::as_u64`: the value of a whole number that fits; of anything else nothing.
pub assume_specification[ Value::as_u64 ](value: &Value) -> (r: Option<u64>)
    ensures
        match r {
            Some(number) => json_of(*value) == Json::Whole(number),
            None => !(json_of(*value) is Whole),
        },
;

/// `serde_json::Value::as_array`: the items of a list; of anything else nothing.
pub assume_specification[ Value::as_array ](value: &Value) -> (r: Option<&Vec<Value>>)
    ensures
        match r {
            Some(items) => json_of(*value) == Json::List(
                items@.map_values(|item: Value| json_of(item)),
            ),
            None => !(json_of(*value) is List),
        },
;

/// Indexes a `serde_json::Value` with a text (`Index::index`): the member of an object under that
/// key; `null` where the key is missing or the value is no object.
#[verifier::external_body]
fn member<'a>(value: &'a Value, key: &str) -> (r: &'a Value)
    ensures
        json_of(*r) == member_of(json_of(*value), key@),
{
    &value[key]
}

/// The text of a text.
pub open spec fn text_of(json: Json) -> Option<Seq<char>> {
    match json {
        Json::Text(text) => Some(text),
        _ => None,
    }
}

/// The value of a whole number.
pub open spec fn whole_of(json: Json) -> Option<u64> {
    match json {
        Json::Whole(number) => Some(number),
        _ => None,
    }
}

/// The fields of one search hit.
pub open spec fn hit_of(json: Json) -> HitView {
    HitView {
        name: text_of(member_of(json, "name"@)),
        duration: whole_of(member_of(json, "duration"@)),
        id: whole_of(member_of(json, "id"@)),
        published: text_of(member_of(json, "publishedDate"@)),
    }
}

/// The fields of one page of search results.
pub open spec fn page_of(json: Json) -> PageView {
    PageView {
        pages: match whole_of(member_of(json, "nbPages"@)) {
            Some(pages) => pages,
            None => 0,
        },
        total: match whole_of(member_of(json, "nbHits"@)) {
            Some(total) => total,
            None => 0,
        },
        hits: match member_of(json, "hits"@) {
            Json::List(items) => Some(items.map_values(|item: Json| hit_of(item))),
            _ => None,
        },
    }
}

/// Reads the text of a member.
fn member_text(value: &Value, key: &str) -> (r: Option<String>)
    ensures
        text_view(r) == text_of(member_of(json_of(*value), key@)),
{
    match member(value, key).as_str() {
        Some(text) => Some(String::from_str(text)),
        None => None,
    }
}

/// Reads one search hit.
pub fn read_hit(hit: &Value) -> (r: Hit)
    ensures
        r@ == hit_of(json_of(*hit)),
{
    Hit {
        name: member_text(hit, "name"),
        duration: member(hit, "duration").as_u64(),
        id: member(hit, "id").as_u64(),
        published: member_text(hit, "publishedDate"),
    }
}

/// Reads one page of search results.
pub fn read_page(result: &Value) -> (r: SearchPage)
    ensures
        r@ == page_of(json_of(*result)),
{
    let pages: u64 = member(result, "nbPages").as_u64().unwrap_or(0);
    let total: u64 = member(result, "nbHits").as_u64().unwrap_or(0);
    let hits = match member(result, "hits").as_array() {
        Some(items) => {
            let ghost jsons = items@.map_values(|item: Value| json_of(item));
            let ghost views = jsons.map_values(|item: Json| hit_of(item));
            let mut hits: Vec<Hit> = Vec::new();
            let mut i: usize = 0;
            while i < items.len()
                invariant
                    i <= items.len(),
                    jsons == items@.map_values(|item: Value| json_of(item)),
                    views == jsons.map_values(|item: Json| hit_of(item)),
                    hit_views(hits@) == views.take(i as int),
                decreases items.len() - i,
            {
                let ghost done = hit_views(hits@);
                hits.push(read_hit(&items[i]));
                assert(hit_views(hits@) =~= done.push(views[i as int]));
                assert(views.take(i + 1) =~= views.take(i as int).push(views[i as int]));
                i = i + 1;
            }
            assert(views.take(i as int) =~= views);
            Some(hits)
        },
        None => None,
    };
    SearchPage { pages, total, hits }
}

/// The fields of a page are the members `nbPages`, `nbHits` and `hits` of an object, and each item
/// of `hits` is a hit.
pub proof fn law_page_fields(members: Map<Seq<char>, Json>)
    ensures
        ({
            let page = page_of(Json::Object(members));
            &&& members.contains_key("nbPages"@) && members["nbPages"@] is Whole ==> page.pages
                == members["nbPages"@]->Whole_0
            &&& !(members.contains_key("nbPages"@) && members["nbPages"@] is Whole) ==> page.pages
                == 0
            &&& members.contains_key("nbHits"@) && members["nbHits"@] is Whole ==> page.total
                == members["nbHits"@]->Whole_0
            &&& !(members.contains_key("nbHits"@) && members["nbHits"@] is Whole) ==> page.total
                == 0
            &&& page.hits is Some <==> members.contains_key("hits"@) && members["hits"@] is List
            &&& page.hits is Some ==> page.hits->0.len() == members["hits"@]->List_0.len()
            &&& page.hits is Some ==> forall|i: int|
                0 <= i < page.hits->0.len() ==> #[trigger] page.hits->0[i] == hit_of(
                    members["hits"@]->List_0[i],
                )
        }),
{
}

/// The fields of a hit are the members `name`, `duration`, `id` and `publishedDate` of an object:
/// texts and whole numbers; what is missing or of another kind is not there.
pub proof fn law_hit_fields(members: Map<Seq<char>, Json>)
    ensures
        ({
            let hit = hit_of(Json::Object(members));
            &&& hit.name is Some <==> members.contains_key("name"@) && members["name"@] is Text
            &&& hit.name is Some ==> members["name"@] == Json::Text(hit.name->0)
            &&& hit.duration is Some <==> members.contains_key("duration"@) && members["duration"@]
                is Whole
            &&& hit.duration is Some ==> members["duration"@] == Json::Whole(hit.duration->0)
            &&& hit.id is Some <==> members.contains_key("id"@) && members["id"@] is Whole
            &&& hit.id is Some ==> members["id"@] == Json::Whole(hit.id->0)
            &&& hit.published is Some <==> members.contains_key("publishedDate"@)
                && members["publishedDate"@] is Text
            &&& hit.published is Some ==> members["publishedDate"@] == Json::Text(hit.published->0)
        }),
{
}

/// What is no object has no fields.
pub proof fn law_other_values_have_no_fields(json: Json)
    requires
        !(json is Object),
    ensures
        page_of(json).pages == 0,
        page_of(json).total == 0,
        page_of(json).hits is None,
        hit_of(json).name is None,
        hit_of(json).duration is None,
        hit_of(json).id is None,
        hit_of(json).published is None,
{
}

} // verus!
