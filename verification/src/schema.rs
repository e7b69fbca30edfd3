//! The JSON schema that a judge's reply is held to.

use crate::contest::{Criterion, Spec};
use crate::json::{
    count_value, distinct_keys, entry_views, flag_value, json_of, json_text, json_views,
    list_value, object_value, text_value, Json, JsonNumber,
};
use crate::llm::schema_text;
use vstd::prelude::*;
use vstd::string::*;

verus! {

/// The ids of the criteria of a contest.
pub open spec fn criterion_ids(criteria: Seq<Criterion>) -> Seq<Seq<char>> {
    criteria.map_values(|c: Criterion| c.id@)
}

/// A JSON text.
pub open spec fn jtext(s: Seq<char>) -> Json {
    Json::Text(s)
}

/// A JSON natural number.
pub open spec fn jcount(n: nat) -> Json {
    Json::Number(JsonNumber::Natural(n))
}

/// A JSON list of texts.
pub open spec fn jtexts(v: Seq<Seq<char>>) -> Json {
    Json::List(v.map_values(|s: Seq<char>| jtext(s)))
}

pub const WINNING_DESCRIPTION: &'static str =
    "3-6 conditions a winning entry in this contest should have, written before reading the document";

pub const EVIDENCE_DESCRIPTION: &'static str =
    "Direct quote from the document's original text (30+ characters)";

pub const WHY_DESCRIPTION: &'static str = "Why not a higher score";

pub const IMPROVEMENT_DESCRIPTION: &'static str = "An immediately actionable revision instruction";

/// The schema of a text.
pub open spec fn text_schema() -> Json {
    Json::Object(seq![("type"@, jtext("string"@))])
}

/// The schema of a text with a description.
pub open spec fn described_text_schema(description: Seq<char>) -> Json {
    Json::Object(seq![("type"@, jtext("string"@)), ("description"@, jtext(description))])
}

/// The schema of the conditions of a winning entry.
pub open spec fn winning_entries() -> Seq<(Seq<char>, Json)> {
    seq![
        ("type"@, jtext("array"@)),
        ("minItems"@, jcount(3)),
        ("items"@, text_schema()),
        ("description"@, jtext(WINNING_DESCRIPTION@)),
    ]
}

/// The schema of the id of a criterion: one of the given ids.
pub open spec fn id_entries(ids: Seq<Seq<char>>) -> Seq<(Seq<char>, Json)> {
    seq![("type"@, jtext("string"@)), ("enum"@, jtexts(ids))]
}

/// The schema of the number of a score: an integer from 0 to 100.
pub open spec fn number_entries() -> Seq<(Seq<char>, Json)> {
    seq![("type"@, jtext("integer"@)), ("minimum"@, jcount(0)), ("maximum"@, jcount(100))]
}

/// The properties of one score. Quote and reason come before the number.
pub open spec fn score_properties(ids: Seq<Seq<char>>) -> Seq<(Seq<char>, Json)> {
    seq![
        ("id"@, Json::Object(id_entries(ids))),
        ("evidence"@, described_text_schema(EVIDENCE_DESCRIPTION@)),
        ("why_not_higher"@, described_text_schema(WHY_DESCRIPTION@)),
        ("score"@, Json::Object(number_entries())),
    ]
}

/// The schema of one score: all its properties and no others.
pub open spec fn score_entries(ids: Seq<Seq<char>>) -> Seq<(Seq<char>, Json)> {
    seq![
        ("type"@, jtext("object"@)),
        ("properties"@, Json::Object(score_properties(ids))),
        ("required"@, jtexts(seq!["id"@, "evidence"@, "why_not_higher"@, "score"@])),
        ("additionalProperties"@, Json::Bool(false)),
    ]
}

/// The schema of the scores: at least one per criterion.
pub open spec fn scores_entries(ids: Seq<Seq<char>>) -> Seq<(Seq<char>, Json)> {
    seq![
        ("type"@, jtext("array"@)),
        ("minItems"@, jcount(ids.len())),
        ("items"@, Json::Object(score_entries(ids))),
    ]
}

/// The schema of the improvements.
pub open spec fn improvements_entries() -> Seq<(Seq<char>, Json)> {
    seq![
        ("type"@, jtext("array"@)),
        ("minItems"@, jcount(3)),
        ("maxItems"@, jcount(8)),
        ("items"@, described_text_schema(IMPROVEMENT_DESCRIPTION@)),
    ]
}

/// The properties of a reply, in the order in which the judge writes them.
pub open spec fn reply_properties(ids: Seq<Seq<char>>) -> Seq<(Seq<char>, Json)> {
    seq![
        ("winning_conditions"@, Json::Object(winning_entries())),
        ("criteria"@, Json::Object(scores_entries(ids))),
        ("improvements"@, Json::Object(improvements_entries())),
        ("comment"@, text_schema()),
    ]
}

/// The schema of a reply. The order of the properties is the order of writing: a judge states the
/// conditions of a winning entry before it scores.
pub open spec fn reply_entries(ids: Seq<Seq<char>>) -> Seq<(Seq<char>, Json)> {
    seq![
        ("type"@, jtext("object"@)),
        ("properties"@, Json::Object(reply_properties(ids))),
        (
            "required"@,
            jtexts(seq!["winning_conditions"@, "criteria"@, "improvements"@, "comment"@]),
        ),
        ("additionalProperties"@, Json::Bool(false)),
    ]
}

/// A judge writes down the conditions of a winning entry before any score, and of each score the
/// quote and the reason before the number.
pub proof fn law_reasons_come_first(ids: Seq<Seq<char>>, i: int, j: int)
    requires
        0 <= i < 4,
        0 <= j < 4,
        reply_properties(ids)[i].0 == "criteria"@,
        score_properties(ids)[j].0 == "score"@,
    ensures
        exists|k: int| 0 <= k < i && (#[trigger] reply_properties(ids)[k]).0 == "winning_conditions"@,
        exists|k: int| 0 <= k < j && (#[trigger] score_properties(ids)[k]).0 == "evidence"@,
        exists|k: int| 0 <= k < j && (#[trigger] score_properties(ids)[k]).0 == "why_not_higher"@,
{
    lemma_reply_keys();
    lemma_score_keys();
    assert(reply_properties(ids)[0].0 == "winning_conditions"@);
    assert(score_properties(ids)[1].0 == "evidence"@);
    assert(score_properties(ids)[2].0 == "why_not_higher"@);
}

/// An object under construction: its entries and what they hold.
struct Entries {
    list: Vec<(String, serde_json::Value)>,
}

impl Entries {
    spec fn holds(self) -> Seq<(Seq<char>, Json)> {
        entry_views(self.list@)
    }

    fn new() -> (r: Entries)
        ensures
            r.holds() == Seq::<(Seq<char>, Json)>::empty(),
    {
        let r = Entries { list: Vec::new() };
        assert(r.holds() =~= Seq::empty());
        r
    }

    fn with(self, key: &str, v: serde_json::Value) -> (r: Entries)
        ensures
            r.holds() == self.holds().push((key@, json_of(v))),
    {
        let mut list = self.list;
        list.push((String::from_str(key), v));
        let r = Entries { list };
        assert(r.holds() =~= self.holds().push((key@, json_of(v))));
        r
    }

    fn done(self) -> (v: serde_json::Value)
        requires
            distinct_keys(self.holds()),
        ensures
            json_of(v) == Json::Object(self.holds()),
    {
        object_value(self.list)
    }
}

/// The keywords that stand side by side in the schema differ.
proof fn lemma_keywords()
    ensures
        "type"@ != "minItems"@,
        "type"@ != "maxItems"@,
        "type"@ != "items"@,
        "type"@ != "description"@,
        "type"@ != "properties"@,
        "type"@ != "required"@,
        "type"@ != "additionalProperties"@,
        "type"@ != "enum"@,
        "type"@ != "minimum"@,
        "type"@ != "maximum"@,
        "minItems"@ != "maxItems"@,
        "minItems"@ != "items"@,
        "minItems"@ != "description"@,
        "maxItems"@ != "items"@,
        "items"@ != "description"@,
        "properties"@ != "required"@,
        "properties"@ != "additionalProperties"@,
        "required"@ != "additionalProperties"@,
        "minimum"@ != "maximum"@,
{
    reveal_strlit("type");
    reveal_strlit("minItems");
    reveal_strlit("maxItems");
    reveal_strlit("items");
    reveal_strlit("description");
    reveal_strlit("properties");
    reveal_strlit("required");
    reveal_strlit("additionalProperties");
    reveal_strlit("enum");
    reveal_strlit("minimum");
    reveal_strlit("maximum");
    assert("type"@.len() != "minItems"@.len());
    assert("type"@.len() != "maxItems"@.len());
    assert("type"@.len() != "items"@.len());
    assert("type"@.len() != "description"@.len());
    assert("type"@.len() != "properties"@.len());
    assert("type"@.len() != "required"@.len());
    assert("type"@.len() != "additionalProperties"@.len());
    assert("type"@[0] != "enum"@[0]);
    assert("type"@.len() != "minimum"@.len());
    assert("type"@.len() != "maximum"@.len());
    assert("minItems"@[1] != "maxItems"@[1]);
    assert("minItems"@.len() != "items"@.len());
    assert("minItems"@.len() != "description"@.len());
    assert("maxItems"@.len() != "items"@.len());
    assert("items"@.len() != "description"@.len());
    assert("properties"@.len() != "required"@.len());
    assert("properties"@.len() != "additionalProperties"@.len());
    assert("required"@.len() != "additionalProperties"@.len());
    assert("minimum"@[1] != "maximum"@[1]);
}

/// The properties of a score differ.
proof fn lemma_score_keys()
    ensures
        "id"@ != "evidence"@,
        "id"@ != "why_not_higher"@,
        "id"@ != "score"@,
        "evidence"@ != "why_not_higher"@,
        "evidence"@ != "score"@,
        "why_not_higher"@ != "score"@,
{
    reveal_strlit("id");
    reveal_strlit("evidence");
    reveal_strlit("why_not_higher");
    reveal_strlit("score");
    assert("id"@.len() != "evidence"@.len());
    assert("id"@.len() != "why_not_higher"@.len());
    assert("id"@.len() != "score"@.len());
    assert("evidence"@.len() != "why_not_higher"@.len());
    assert("evidence"@.len() != "score"@.len());
    assert("why_not_higher"@.len() != "score"@.len());
}

/// The properties of a reply differ.
proof fn lemma_reply_keys()
    ensures
        "winning_conditions"@ != "criteria"@,
        "winning_conditions"@ != "improvements"@,
        "winning_conditions"@ != "comment"@,
        "criteria"@ != "improvements"@,
        "criteria"@ != "comment"@,
        "improvements"@ != "comment"@,
{
    reveal_strlit("winning_conditions");
    reveal_strlit("criteria");
    reveal_strlit("improvements");
    reveal_strlit("comment");
    assert("winning_conditions"@.len() != "criteria"@.len());
    assert("winning_conditions"@.len() != "improvements"@.len());
    assert("winning_conditions"@.len() != "comment"@.len());
    assert("criteria"@.len() != "improvements"@.len());
    assert("criteria"@.len() != "comment"@.len());
    assert("improvements"@.len() != "comment"@.len());
}

fn text_schema_value() -> (v: serde_json::Value)
    ensures
        json_of(v) == text_schema(),
{
    let e = Entries::new().with("type", text_value("string"));
    assert(e.holds() =~= seq![("type"@, jtext("string"@))]);
    e.done()
}

fn described_text_value(description: &str) -> (v: serde_json::Value)
    ensures
        json_of(v) == described_text_schema(description@),
{
    proof {
        lemma_keywords();
    }
    let e = Entries::new().with("type", text_value("string")).with(
        "description",
        text_value(description),
    );
    assert(e.holds() =~= seq![
        ("type"@, jtext("string"@)),
        ("description"@, jtext(description@)),
    ]);
    e.done()
}

fn winning_value() -> (v: serde_json::Value)
    ensures
        json_of(v) == Json::Object(winning_entries()),
{
    proof {
        lemma_keywords();
    }
    let e = Entries::new().with("type", text_value("array")).with("minItems", count_value(3)).with(
        "items",
        text_schema_value(),
    ).with("description", text_value(WINNING_DESCRIPTION));
    assert(e.holds() =~= winning_entries());
    e.done()
}

fn texts_value(v: &Vec<String>) -> (r: serde_json::Value)
    ensures
        json_of(r) == jtexts(crate::text::views(v@)),
{
    let mut list: Vec<serde_json::Value> = Vec::new();
    let mut i: usize = 0;
    while i < v.len()
        invariant
            i <= v@.len(),
            list@.len() == i,
            forall|k: int| 0 <= k < i ==> json_of(#[trigger] list@[k]) == jtext(v@[k]@),
        decreases v@.len() - i,
    {
        list.push(text_value(v[i].as_str()));
        i += 1;
    }
    assert(json_views(list@) =~= crate::text::views(v@).map_values(|s: Seq<char>| jtext(s)));
    list_value(list)
}

fn four_texts(a: &str, b: &str, c: &str, d: &str) -> (r: serde_json::Value)
    ensures
        json_of(r) == jtexts(seq![a@, b@, c@, d@]),
{
    let mut v: Vec<String> = Vec::new();
    v.push(String::from_str(a));
    v.push(String::from_str(b));
    v.push(String::from_str(c));
    v.push(String::from_str(d));
    assert(crate::text::views(v@) =~= seq![a@, b@, c@, d@]);
    texts_value(&v)
}

fn score_value(ids: &Vec<String>) -> (v: serde_json::Value)
    ensures
        json_of(v) == Json::Object(score_entries(crate::text::views(ids@))),
{
    proof {
        lemma_keywords();
        lemma_score_keys();
    }
    let ghost names = crate::text::views(ids@);
    let id = Entries::new().with("type", text_value("string")).with("enum", texts_value(ids));
    assert(id.holds() =~= id_entries(names));
    let score = Entries::new().with("type", text_value("integer")).with(
        "minimum",
        count_value(0),
    ).with("maximum", count_value(100));
    assert(score.holds() =~= number_entries());
    let properties = Entries::new().with("id", id.done()).with(
        "evidence",
        described_text_value(EVIDENCE_DESCRIPTION),
    ).with("why_not_higher", described_text_value(WHY_DESCRIPTION)).with("score", score.done());
    assert(properties.holds() =~= score_properties(names));
    let required = four_texts("id", "evidence", "why_not_higher", "score");
    let e = Entries::new().with("type", text_value("object")).with("properties", properties.done()).with(
        "required",
        required,
    ).with("additionalProperties", flag_value(false));
    assert(e.holds() =~= score_entries(names));
    e.done()
}

fn scores_value(ids: &Vec<String>) -> (v: serde_json::Value)
    ensures
        json_of(v) == Json::Object(scores_entries(crate::text::views(ids@))),
{
    proof {
        lemma_keywords();
    }
    let e = Entries::new().with("type", text_value("array")).with(
        "minItems",
        count_value(ids.len()),
    ).with("items", score_value(ids));
    assert(e.holds() =~= scores_entries(crate::text::views(ids@)));
    e.done()
}

fn improvements_value() -> (v: serde_json::Value)
    ensures
        json_of(v) == Json::Object(improvements_entries()),
{
    proof {
        lemma_keywords();
    }
    let e = Entries::new().with("type", text_value("array")).with("minItems", count_value(3)).with(
        "maxItems",
        count_value(8),
    ).with("items", described_text_value(IMPROVEMENT_DESCRIPTION));
    assert(e.holds() =~= improvements_entries());
    e.done()
}

/// The schema of a judge's reply for the given contest.
pub fn judge_schema(sp: &Spec) -> (v: serde_json::Value)
    ensures
        json_of(v) == Json::Object(reply_entries(criterion_ids(sp.criteria@))),
{
    proof {
        lemma_keywords();
        lemma_reply_keys();
    }
    let mut ids: Vec<String> = Vec::new();
    let mut i: usize = 0;
    while i < sp.criteria.len()
        invariant
            i <= sp.criteria@.len(),
            ids@.len() == i,
            forall|k: int| 0 <= k < i ==> (#[trigger] ids@[k])@ == sp.criteria@[k].id@,
        decreases sp.criteria@.len() - i,
    {
        ids.push(sp.criteria[i].id.clone());
        i += 1;
    }
    let ghost names = criterion_ids(sp.criteria@);
    assert(crate::text::views(ids@) =~= names);
    let properties = Entries::new().with("winning_conditions", winning_value()).with(
        "criteria",
        scores_value(&ids),
    ).with("improvements", improvements_value()).with("comment", text_schema_value());
    assert(properties.holds() =~= reply_properties(names));
    let required = four_texts("winning_conditions", "criteria", "improvements", "comment");
    let e = Entries::new().with("type", text_value("object")).with("properties", properties.done()).with(
        "required",
        required,
    ).with("additionalProperties", flag_value(false));
    assert(e.holds() =~= reply_entries(names));
    e.done()
}

/// The schema of a judge's reply, as the text that is handed to the model.
pub fn judge_schema_text(sp: &Spec) -> (s: String)
    ensures
        s@ == json_text(Json::Object(reply_entries(criterion_ids(sp.criteria@)))),
{
    schema_text(&judge_schema(sp))
}

} // verus!
