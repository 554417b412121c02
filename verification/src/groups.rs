//! Prism's `instgroups.json`: which instances are listed together.
use vstd::prelude::*;
use vstd::string::*;

use crate::text::same;
use crate::textmap::{ascending, entry_keys};

verus! {

// ---------------------------------------------------------------------------
// JSON
// ---------------------------------------------------------------------------

/// A JSON value. A number is held as it was read.
#[derive(Debug)]
pub enum Json {
    Null,
    Bool(bool),
    Number(serde_json::Number),
    Text(String),
    List(Vec<Json>),
    Fields(Vec<(String, Json)>),
}

/// A JSON value as texts.
pub enum JsonView {
    Null,
    Bool(bool),
    Number(serde_json::Number),
    Text(Seq<char>),
    List(Seq<JsonView>),
    Fields(Seq<(Seq<char>, JsonView)>),
}

/// A value as texts, item by item and field by field.
pub open spec fn json_view(j: Json) -> JsonView
    decreases j,
{
    match j {
        Json::Null => JsonView::Null,
        Json::Bool(b) => JsonView::Bool(b),
        Json::Number(n) => JsonView::Number(n),
        Json::Text(t) => JsonView::Text(t@),
        Json::List(items) => JsonView::List(
            Seq::new(
                items@.len(),
                |i: int|
                    if 0 <= i < items@.len() {
                        json_view(items@[i])
                    } else {
                        JsonView::Null
                    },
            ),
        ),
        Json::Fields(fields) => JsonView::Fields(
            Seq::new(
                fields@.len(),
                |i: int|
                    if 0 <= i < fields@.len() {
                        (fields@[i].0@, json_view(fields@[i].1))
                    } else {
                        (Seq::empty(), JsonView::Null)
                    },
            ),
        ),
    }
}

impl View for Json {
    type V = JsonView;

    open spec fn view(&self) -> JsonView {
        json_view(*self)
    }
}

pub open spec fn item_views(s: Seq<Json>) -> Seq<JsonView> {
    s.map_values(|j: Json| j@)
}

pub open spec fn field_views(s: Seq<(String, Json)>) -> Seq<(Seq<char>, JsonView)> {
    s.map_values(|f: (String, Json)| (f.0@, f.1@))
}

/// A list is viewed item by item, and fields one by one.
proof fn lemma_views(j: Json)
    ensures
        j matches Json::List(items) ==> j@ == JsonView::List(item_views(items@)),
        j matches Json::Fields(fields) ==> j@ == JsonView::Fields(field_views(fields@)),
{
    match j {
        Json::List(items) => {
            assert(j@->List_0 =~= item_views(items@));
        },
        Json::Fields(fields) => {
            assert(j@->Fields_0 =~= field_views(fields@));
        },
        _ => {},
    }
}

pub open spec fn optional_json(j: Option<Json>) -> Option<JsonView> {
    match j {
        Some(j) => Some(j@),
        None => None,
    }
}

#[verifier::external_type_specification]
#[verifier::external_body]
pub struct ExValue(serde_json::Value);

#[verifier::external_type_specification]
#[verifier::external_body]
pub struct ExNumber(serde_json::Number);

/// What a `serde_json::Value` holds.
pub uninterp spec fn json_of(value: serde_json::Value) -> JsonView;

/// The value that `serde_json::from_str` reads in a text, if the text is JSON.
pub uninterp spec fn json_read(text: Seq<char>) -> Option<JsonView>;

/// The text that `serde_json::to_string_pretty` writes for a value, if it writes
/// one.
pub uninterp spec fn json_pretty(value: JsonView) -> Option<Seq<char>>;

/// The fields of an object stand in the order of their names, each name once.
pub open spec fn fields_in_order(fields: Seq<(Seq<char>, JsonView)>) -> bool {
    ascending(entry_keys(fields))
}

/// The fields of every object in the value are in order.
pub open spec fn in_order(value: JsonView) -> bool
    decreases value,
{
    match value {
        JsonView::List(items) => forall|i: int|
            0 <= i < items.len() ==> in_order(#[trigger] items[i]),
        JsonView::Fields(fields) => fields_in_order(fields) && forall|i: int|
            0 <= i < fields.len() ==> in_order((#[trigger] fields[i]).1),
        _ => true,
    }
}

/// The same value but for its numbers.
pub open spec fn alike(a: JsonView, b: JsonView) -> bool
    decreases a,
{
    match (a, b) {
        (JsonView::Null, JsonView::Null) => true,
        (JsonView::Bool(x), JsonView::Bool(y)) => x == y,
        (JsonView::Number(_), JsonView::Number(_)) => true,
        (JsonView::Text(x), JsonView::Text(y)) => x == y,
        (JsonView::List(x), JsonView::List(y)) => x.len() == y.len() && forall|i: int|
            0 <= i < x.len() ==> alike(#[trigger] x[i], y[i]),
        (JsonView::Fields(x), JsonView::Fields(y)) => x.len() == y.len() && forall|i: int|
            0 <= i < x.len() ==> (#[trigger] x[i]).0 == y[i].0 && alike(x[i].1, y[i].1),
        _ => false,
    }
}

/// What was read, if anything, is the value but for its numbers.
pub open spec fn reads_alike(read: Option<JsonView>, value: JsonView) -> bool {
    match read {
        Some(again) => alike(again, value),
        None => true,
    }
}

/// A `serde_json::Value` with its outermost layer opened.
enum Layer {
    Null,
    Bool(bool),
    Number(serde_json::Number),
    Text(String),
    List(Vec<serde_json::Value>),
    Fields(Vec<(String, serde_json::Value)>),
}

spec fn held(s: Seq<serde_json::Value>) -> Seq<JsonView> {
    s.map_values(|v: serde_json::Value| json_of(v))
}

spec fn held_fields(s: Seq<(String, serde_json::Value)>) -> Seq<(Seq<char>, JsonView)> {
    s.map_values(|f: (String, serde_json::Value)| (f.0@, json_of(f.1)))
}

impl Layer {
    spec fn holds(self) -> JsonView {
        match self {
            Layer::Null => JsonView::Null,
            Layer::Bool(b) => JsonView::Bool(b),
            Layer::Number(n) => JsonView::Number(n),
            Layer::Text(t) => JsonView::Text(t@),
            Layer::List(items) => JsonView::List(held(items@)),
            Layer::Fields(fields) => JsonView::Fields(held_fields(fields@)),
        }
    }

    spec fn wf(self) -> bool {
        self matches Layer::Fields(fields) ==> fields_in_order(held_fields(fields@))
    }
}

/// The variant of a `serde_json::Value`. An object's `serde_json::Map`, which is
/// kept in a `BTreeMap`, gives its fields in the order of their names by
/// `into_iter`.
#[verifier::external_body]
fn opened(value: serde_json::Value) -> (r: Layer)
    ensures
        r.holds() == json_of(value),
        r.wf(),
{
    match value {
        serde_json::Value::Null => Layer::Null,
        serde_json::Value::Bool(b) => Layer::Bool(b),
        serde_json::Value::Number(n) => Layer::Number(n),
        serde_json::Value::String(t) => Layer::Text(t),
        serde_json::Value::Array(items) => Layer::List(items),
        serde_json::Value::Object(fields) => Layer::Fields(fields.into_iter().collect()),
    }
}

/// The `serde_json::Value` of that variant. `serde_json::Map` collects fields
/// that are in the order of their names, each name once, as they are.
#[verifier::external_body]
fn closed_over(layer: Layer) -> (r: serde_json::Value)
    requires
        layer.wf(),
    ensures
        json_of(r) == layer.holds(),
{
    match layer {
        Layer::Null => serde_json::Value::Null,
        Layer::Bool(b) => serde_json::Value::Bool(b),
        Layer::Number(n) => serde_json::Value::Number(n),
        Layer::Text(t) => serde_json::Value::String(t),
        Layer::List(items) => serde_json::Value::Array(items),
        Layer::Fields(fields) => serde_json::Value::Object(fields.into_iter().collect()),
    }
}

spec fn optional_held(value: Option<serde_json::Value>) -> Option<JsonView> {
    match value {
        Some(value) => Some(json_of(value)),
        None => None,
    }
}

/// `serde_json::from_str` reads a JSON text into a `serde_json::Value`. What it
/// reads depends on the text alone; the grammar is not stated.
#[verifier::external_body]
fn read_value(text: &str) -> (r: Option<serde_json::Value>)
    ensures
        optional_held(r) == json_read(text@),
{
    serde_json::from_str::<serde_json::Value>(text).ok()
}

/// `serde_json::to_string_pretty` writes a `serde_json::Value` as a JSON text with
/// line breaks. What it writes depends on what the value holds alone; the layout
/// is not stated. Where `serde_json::from_str` reads the text, it reads the value
/// again, with a number for each number. That it reads it is not stated, as it
/// gives up on deep nesting; nor that the numbers are the same, as it may round
/// the last digit of a fraction.
#[verifier::external_body]
fn write_value(value: &serde_json::Value) -> (r: Option<String>)
    ensures
        crate::merge::optional_text(r) == json_pretty(json_of(*value)),
        r matches Some(t) ==> reads_alike(json_read(t@), json_of(*value)),
{
    serde_json::to_string_pretty(value).ok()
}

/// A `serde_json::Value` as a value of this library, layer by layer.
fn from_value(value: serde_json::Value) -> (r: Json)
    ensures
        r@ == json_of(value),
        in_order(r@),
    decreases json_of(value),
{
    let ghost all = json_of(value);
    match opened(value) {
        Layer::Null => Json::Null,
        Layer::Bool(b) => Json::Bool(b),
        Layer::Number(n) => Json::Number(n),
        Layer::Text(t) => Json::Text(t),
        Layer::List(values) => {
            let mut items: Vec<Json> = Vec::new();
            let ghost of = values@;
            for v in it: values
                invariant
                    all == json_of(value),
                    all == JsonView::List(held(of)),
                    it.seq() == of,
                    items.len() == it.index(),
                    forall|i: int|
                        0 <= i < items.len() ==> (#[trigger] items@[i])@ == json_of(of[i])
                            && in_order(items@[i]@),
            {
                assert(held(of)[it.index()] == json_of(v));
                assert(decreases_to!(all => all->List_0));
                assert(decreases_to!(all->List_0 => all->List_0[it.index()]));
                items.push(from_value(v));
            }
            let r = Json::List(items);
            proof {
                lemma_views(r);
                assert(item_views(items@) =~= held(of));
                assert forall|i: int| 0 <= i < held(of).len() implies in_order(
                    #[trigger] held(of)[i],
                ) by {
                    assert(in_order(items@[i]@));
                }
            }
            r
        },
        Layer::Fields(values) => {
            let mut fields: Vec<(String, Json)> = Vec::new();
            let ghost of = values@;
            for f in it: values
                invariant
                    all == json_of(value),
                    all == JsonView::Fields(held_fields(of)),
                    it.seq() == of,
                    fields.len() == it.index(),
                    forall|i: int|
                        0 <= i < fields.len() ==> (#[trigger] fields@[i]).0@ == of[i].0@
                            && fields@[i].1@ == json_of(of[i].1) && in_order(fields@[i].1@),
            {
                let (key, v) = f;
                assert(held_fields(of)[it.index()].1 == json_of(v));
                assert(decreases_to!(all => all->Fields_0));
                assert(decreases_to!(all->Fields_0 => all->Fields_0[it.index()]));
                assert(decreases_to!(
                    all->Fields_0[it.index()] => all->Fields_0[it.index()].1
                ));
                fields.push((key, from_value(v)));
            }
            let r = Json::Fields(fields);
            proof {
                lemma_views(r);
                assert(field_views(fields@) =~= held_fields(of));
                assert forall|i: int| 0 <= i < held_fields(of).len() implies in_order(
                    (#[trigger] held_fields(of)[i]).1,
                ) by {
                    assert(in_order(fields@[i].1@));
                }
            }
            r
        },
    }
}

/// A value of this library as a `serde_json::Value`, layer by layer.
fn to_value(json: Json) -> (r: serde_json::Value)
    requires
        in_order(json@),
    ensures
        json_of(r) == json@,
    decreases json@,
{
    let ghost all = json@;
    proof {
        lemma_views(json);
    }
    let layer = match json {
        Json::Null => Layer::Null,
        Json::Bool(b) => Layer::Bool(b),
        Json::Number(n) => Layer::Number(n),
        Json::Text(t) => Layer::Text(t),
        Json::List(items) => {
            let mut values: Vec<serde_json::Value> = Vec::new();
            let ghost of = items@;
            for item in it: items
                invariant
                    all == json@,
                    all == JsonView::List(item_views(of)),
                    in_order(all),
                    it.seq() == of,
                    values.len() == it.index(),
                    forall|i: int|
                        0 <= i < values.len() ==> json_of(#[trigger] values@[i]) == of[i]@,
            {
                assert(item_views(of)[it.index()] == item@);
                assert(decreases_to!(all => all->List_0));
                assert(decreases_to!(all->List_0 => all->List_0[it.index()]));
                values.push(to_value(item));
            }
            assert(held(values@) =~= item_views(of));
            Layer::List(values)
        },
        Json::Fields(fields) => {
            let mut values: Vec<(String, serde_json::Value)> = Vec::new();
            let ghost of = fields@;
            for f in it: fields
                invariant
                    all == json@,
                    all == JsonView::Fields(field_views(of)),
                    in_order(all),
                    it.seq() == of,
                    values.len() == it.index(),
                    forall|i: int|
                        0 <= i < values.len() ==> (#[trigger] values@[i]).0@ == of[i].0@ && json_of(
                            values@[i].1,
                        ) == of[i].1@,
            {
                let (key, item) = f;
                assert(field_views(of)[it.index()].1 == item@);
                assert(decreases_to!(all => all->Fields_0));
                assert(decreases_to!(all->Fields_0 => all->Fields_0[it.index()]));
                assert(decreases_to!(
                    all->Fields_0[it.index()] => all->Fields_0[it.index()].1
                ));
                values.push((key, to_value(item)));
            }
            assert(held_fields(values@) =~= field_views(of));
            Layer::Fields(values)
        },
    };
    closed_over(layer)
}

/// Read a JSON text. Its objects hold their fields in order.
pub(crate) fn read_json(text: &str) -> (r: Option<Json>)
    ensures
        optional_json(r) == json_read(text@),
        r matches Some(file) ==> in_order(file@),
{
    match read_value(text) {
        Some(value) => Some(from_value(value)),
        None => None,
    }
}

/// Write a value as a JSON text.
pub(crate) fn write_json(json: Json) -> (r: Option<String>)
    requires
        in_order(json@),
    ensures
        crate::merge::optional_text(r) == json_pretty(json@),
        r matches Some(t) ==> reads_alike(json_read(t@), json@),
{
    write_value(&to_value(json))
}

// ---------------------------------------------------------------------------
// Groups
// ---------------------------------------------------------------------------

/// The first field of that name at or behind `from`; the number of fields if there
/// is none.
pub open spec fn field_at(fields: Seq<(Seq<char>, JsonView)>, key: Seq<char>, from: int) -> int
    decreases fields.len() - from,
{
    if from >= fields.len() {
        fields.len() as int
    } else if fields[from].0 == key {
        from
    } else {
        field_at(fields, key, from + 1)
    }
}

/// The instances that a group lists.
pub open spec fn members(group: JsonView) -> Option<Seq<JsonView>> {
    match group {
        JsonView::Fields(fields) => {
            let k = field_at(fields, "instances"@, 0);
            if k < fields.len() {
                match fields[k].1 {
                    JsonView::List(items) => Some(items),
                    _ => None,
                }
            } else {
                None
            }
        },
        _ => None,
    }
}

/// The group lists that instance.
pub open spec fn lists(group: JsonView, name: Seq<char>) -> bool {
    members(group) matches Some(items) && items.contains(JsonView::Text(name))
}

/// The first group at or behind `from` that lists the instance.
pub open spec fn group_with(
    groups: Seq<(Seq<char>, JsonView)>,
    name: Seq<char>,
    from: int,
) -> int
    decreases groups.len() - from,
{
    if from >= groups.len() {
        groups.len() as int
    } else if lists(groups[from].1, name) {
        from
    } else {
        group_with(groups, name, from + 1)
    }
}

/// The group with the instance in its list, once.
pub open spec fn joined_by(group: JsonView, name: Seq<char>) -> JsonView {
    match group {
        JsonView::Fields(fields) => {
            let k = field_at(fields, "instances"@, 0);
            match fields[k].1 {
                JsonView::List(items) => if items.contains(JsonView::Text(name)) {
                    group
                } else {
                    JsonView::Fields(
                        fields.update(
                            k,
                            (fields[k].0, JsonView::List(items.push(JsonView::Text(name)))),
                        ),
                    )
                },
                _ => group,
            }
        },
        _ => group,
    }
}

/// The groups with the new instance next to the old one.
pub open spec fn groups_joined(
    groups: Seq<(Seq<char>, JsonView)>,
    old_name: Seq<char>,
    new_name: Seq<char>,
) -> Option<Seq<(Seq<char>, JsonView)>> {
    let t = group_with(groups, old_name, 0);
    if t < groups.len() {
        Some(groups.update(t, (groups[t].0, joined_by(groups[t].1, new_name))))
    } else {
        None
    }
}

/// The file with the new instance in the group of the old one, if it is in one.
pub open spec fn registered(
    file: JsonView,
    old_name: Seq<char>,
    new_name: Seq<char>,
) -> Option<JsonView> {
    match file {
        JsonView::Fields(fields) => {
            let k = field_at(fields, "groups"@, 0);
            if k < fields.len() {
                match fields[k].1 {
                    JsonView::Fields(groups) => match groups_joined(groups, old_name, new_name) {
                        Some(after) => Some(
                            JsonView::Fields(
                                fields.update(k, (fields[k].0, JsonView::Fields(after))),
                            ),
                        ),
                        None => None,
                    },
                    _ => None,
                }
            } else {
                None
            }
        },
        _ => None,
    }
}

fn find_field(fields: &Vec<(String, Json)>, key: &str) -> (r: usize)
    ensures
        r == field_at(field_views(fields@), key@, 0),
        r <= fields.len(),
{
    let mut i: usize = 0;
    while i < fields.len()
        invariant
            i <= fields.len(),
            field_at(field_views(fields@), key@, 0) == field_at(
                field_views(fields@),
                key@,
                i as int,
            ),
        decreases fields.len() - i,
    {
        if same(fields[i].0.as_str(), key) {
            return i;
        }
        i += 1;
    }
    i
}

fn has_text(items: &Vec<Json>, name: &str) -> (r: bool)
    ensures
        r == item_views(items@).contains(JsonView::Text(name@)),
{
    let ghost all = item_views(items@);
    let mut i: usize = 0;
    while i < items.len()
        invariant
            all == item_views(items@),
            i <= items.len(),
            forall|j: int| 0 <= j < i ==> #[trigger] all[j] != JsonView::Text(name@),
        decreases items.len() - i,
    {
        assert(all[i as int] == items@[i as int]@);
        if let Json::Text(t) = &items[i] {
            if same(t.as_str(), name) {
                assert(all[i as int] == JsonView::Text(name@));
                return true;
            }
        }
        i += 1;
    }
    false
}

fn is_listed(group: &Json, name: &str) -> (r: bool)
    ensures
        r == lists(group@, name@),
{
    proof {
        lemma_views(*group);
    }
    if let Json::Fields(fields) = group {
        let k = find_field(fields, "instances");
        if k < fields.len() {
            proof {
                assert(field_views(fields@)[k as int].1 == fields@[k as int].1@);
                lemma_views(fields@[k as int].1);
            }
            if let Json::List(items) = &fields[k].1 {
                return has_text(items, name);
            }
        }
    }
    false
}

fn joined(group: Json, name: &str) -> (r: Json)
    requires
        members(group@) is Some,
    ensures
        r@ == joined_by(group@, name@),
{
    let ghost gv = group@;
    proof {
        lemma_views(group);
    }
    match group {
        Json::Fields(fields) => {
            let mut fields = fields;
            let ghost before_it = field_views(fields@);
            let k = find_field(&fields, "instances");
            assert(before_it[k as int].1 == fields@[k as int].1@);
            let (key, value) = fields.remove(k);
            proof {
                lemma_views(value);
            }
            let after = match value {
                Json::List(items) => {
                    let mut items = items;
                    if has_text(&items, name) {
                        Json::List(items)
                    } else {
                        let ghost iv = item_views(items@);
                        items.push(Json::Text(name.to_owned()));
                        assert(item_views(items@) =~= iv.push(JsonView::Text(name@)));
                        Json::List(items)
                    }
                },
                other => other,
            };
            proof {
                lemma_views(after);
            }
            let ghost av = after@;
            let ghost kv = key@;
            fields.insert(k, (key, after));
            let r = Json::Fields(fields);
            proof {
                lemma_views(r);
                assert(field_views(fields@) =~= before_it.update(k as int, (kv, av)));
                if av == before_it[k as int].1 {
                    assert(before_it.update(k as int, (kv, av)) =~= before_it);
                }
            }
            r
        },
        other => other,
    }
}

fn find_group(groups: &Vec<(String, Json)>, name: &str) -> (r: usize)
    ensures
        r == group_with(field_views(groups@), name@, 0),
        r < groups.len() ==> lists(groups@[r as int].1@, name@),
{
    let ghost all = field_views(groups@);
    let mut i: usize = 0;
    while i < groups.len()
        invariant
            all == field_views(groups@),
            i <= groups.len(),
            group_with(all, name@, 0) == group_with(all, name@, i as int),
        decreases groups.len() - i,
    {
        assert(all[i as int].1 == groups@[i as int].1@);
        if is_listed(&groups[i].1, name) {
            return i;
        }
        i += 1;
    }
    i
}

fn join_groups(groups: Vec<(String, Json)>, old_name: &str, new_name: &str) -> (r: Option<
    Vec<(String, Json)>,
>)
    ensures
        r is Some <==> groups_joined(field_views(groups@), old_name@, new_name@) is Some,
        r matches Some(after) ==> groups_joined(field_views(groups@), old_name@, new_name@) == Some(
            field_views(after@),
        ),
{
    let ghost all = field_views(groups@);
    let at = find_group(&groups, old_name);
    let mut groups = groups;
    if at >= groups.len() {
        return None;
    }
    assert(all[at as int].1 == groups@[at as int].1@);
    let (name, group) = groups.remove(at);
    let ghost nv = name@;
    let after = joined(group, new_name);
    let ghost av = after@;
    groups.insert(at, (name, after));
    assert(field_views(groups@) =~= all.update(at as int, (nv, av)));
    Some(groups)
}

/// Put the new instance into the group that the old one is in. Gives the changed
/// file; `None` if there is nothing to change.
pub fn register(file: Json, old_name: &str, new_name: &str) -> (r: Option<Json>)
    ensures
        optional_json(r) == registered(file@, old_name@, new_name@),
{
    proof {
        lemma_views(file);
    }
    match file {
        Json::Fields(fields) => {
            let mut fields = fields;
            let ghost before_it = field_views(fields@);
            let k = find_field(&fields, "groups");
            if k >= fields.len() {
                return None;
            }
            assert(before_it[k as int].1 == fields@[k as int].1@);
            let (key, value) = fields.remove(k);
            proof {
                lemma_views(value);
            }
            let groups = match value {
                Json::Fields(groups) => groups,
                _ => return None,
            };
            match join_groups(groups, old_name, new_name) {
                Some(after) => {
                    let ghost av = field_views(after@);
                    let ghost kv = key@;
                    let entry = Json::Fields(after);
                    proof {
                        lemma_views(entry);
                    }
                    fields.insert(k, (key, entry));
                    let r = Json::Fields(fields);
                    proof {
                        lemma_views(r);
                        assert(field_views(fields@) =~= before_it.update(
                            k as int,
                            (kv, JsonView::Fields(av)),
                        ));
                    }
                    Some(r)
                },
                None => None,
            }
        },
        _ => None,
    }
}

/// Giving a field another value keeps the fields in order.
proof fn lemma_value_replaced(fields: Seq<(Seq<char>, JsonView)>, at: int, value: JsonView)
    requires
        0 <= at < fields.len(),
        in_order(JsonView::Fields(fields)),
        in_order(value),
    ensures
        in_order(JsonView::Fields(fields.update(at, (fields[at].0, value)))),
{
    let now = fields.update(at, (fields[at].0, value));
    assert(entry_keys(now) =~= entry_keys(fields));
    assert forall|i: int| 0 <= i < now.len() implies in_order((#[trigger] now[i]).1) by {
        assert(in_order(fields[i].1));
    }
}

/// Joining keeps every object's fields in order.
proof fn lemma_joined_in_order(group: JsonView, name: Seq<char>)
    requires
        members(group) is Some,
        in_order(group),
    ensures
        in_order(joined_by(group, name)),
{
    let fields = group->Fields_0;
    let k = field_at(fields, "instances"@, 0);
    lemma_field_at(fields, "instances"@, 0);
    let items = members(group)->0;
    if !items.contains(JsonView::Text(name)) {
        let more = items.push(JsonView::Text(name));
        assert(in_order(fields[k].1));
        assert forall|i: int| 0 <= i < more.len() implies in_order(#[trigger] more[i]) by {
            if i < items.len() {
                assert(in_order(items[i]));
            }
        }
        lemma_value_replaced(fields, k, JsonView::List(more));
    }
}

/// So does what becomes of the whole file.
proof fn lemma_registered_in_order(file: JsonView, old_name: Seq<char>, new_name: Seq<char>)
    requires
        in_order(file),
    ensures
        registered(file, old_name, new_name) matches Some(after) ==> in_order(after),
{
    if registered(file, old_name, new_name) is Some {
        let fields = file->Fields_0;
        let k = field_at(fields, "groups"@, 0);
        lemma_field_at(fields, "groups"@, 0);
        assert(in_order(fields[k].1));
        let groups = fields[k].1->Fields_0;
        let t = group_with(groups, old_name, 0);
        lemma_group_with(groups, old_name, 0);
        assert(in_order(groups[t].1));
        lemma_joined_in_order(groups[t].1, new_name);
        let after = joined_by(groups[t].1, new_name);
        lemma_value_replaced(groups, t, after);
        lemma_value_replaced(
            fields,
            k,
            JsonView::Fields(groups.update(t, (groups[t].0, after))),
        );
    }
}

/// What becomes of the text of `instgroups.json`, given what it holds.
pub open spec fn regrouped(
    held: Option<JsonView>,
    old_name: Seq<char>,
    new_name: Seq<char>,
) -> Option<JsonView> {
    match held {
        Some(file) => registered(file, old_name, new_name),
        None => None,
    }
}

/// Add the new instance to whatever group the old one was in, so it shows up in
/// the same place in Prism's instance list. Takes the text of `instgroups.json`
/// and gives the new one; `None` if the file stays as it is. Doing it again with
/// the new text adds nothing.
pub fn register_in_group(text: &str, old_dir_name: &str, new_dir_name: &str) -> (r: Option<String>)
    ensures
        crate::merge::optional_text(r) == (match regrouped(
            json_read(text@),
            old_dir_name@,
            new_dir_name@,
        ) {
            Some(after) => json_pretty(after),
            None => None,
        }),
        r matches Some(t) ==> regrouped(json_read(t@), old_dir_name@, new_dir_name@) == json_read(
            t@,
        ),
{
    let file = match read_json(text) {
        Some(file) => file,
        None => return None,
    };
    let ghost before_it = file@;
    proof {
        lemma_registered_in_order(file@, old_dir_name@, new_dir_name@);
    }
    match register(file, old_dir_name, new_dir_name) {
        Some(after) => {
            let ghost now = after@;
            let r = write_json(after);
            proof {
                law_joining_again_adds_nothing(before_it, old_dir_name@, new_dir_name@);
                if r is Some && json_read(r->0@) is Some {
                    let again = json_read(r->0@)->0;
                    lemma_both_alike(again, now, old_dir_name@, new_dir_name@);
                    lemma_nothing_to_add(again, old_dir_name@, new_dir_name@);
                }
            }
            r
        },
        None => None,
    }
}

// ---------------------------------------------------------------------------
// Laws
// ---------------------------------------------------------------------------

proof fn lemma_group_with(groups: Seq<(Seq<char>, JsonView)>, name: Seq<char>, from: int)
    requires
        0 <= from <= groups.len(),
    ensures
        from <= group_with(groups, name, from) <= groups.len(),
        group_with(groups, name, from) < groups.len() ==> lists(
            groups[group_with(groups, name, from)].1,
            name,
        ),
        forall|j: int|
            from <= j < group_with(groups, name, from) ==> !lists((#[trigger] groups[j]).1, name),
    decreases groups.len() - from,
{
    if from < groups.len() && !lists(groups[from].1, name) {
        lemma_group_with(groups, name, from + 1);
    }
}

proof fn lemma_field_at(fields: Seq<(Seq<char>, JsonView)>, key: Seq<char>, from: int)
    requires
        0 <= from <= fields.len(),
    ensures
        from <= field_at(fields, key, from) <= fields.len(),
        field_at(fields, key, from) < fields.len() ==> fields[field_at(fields, key, from)].0 == key,
        forall|j: int| from <= j < field_at(fields, key, from) ==> (#[trigger] fields[j]).0 != key,
    decreases fields.len() - from,
{
    if from < fields.len() && fields[from].0 != key {
        lemma_field_at(fields, key, from + 1);
    }
}

proof fn lemma_field_kept(
    fields: Seq<(Seq<char>, JsonView)>,
    key: Seq<char>,
    at: int,
    value: JsonView,
    from: int,
)
    requires
        0 <= from <= fields.len(),
        0 <= at < fields.len(),
    ensures
        field_at(fields.update(at, (fields[at].0, value)), key, from) == field_at(fields, key, from),
    decreases fields.len() - from,
{
    if from < fields.len() {
        lemma_field_kept(fields, key, at, value, from + 1);
    }
}

/// Whoever was in a group stays in it, and the one that joins is in it then.
pub proof fn law_joining_keeps_the_members(group: JsonView, name: Seq<char>)
    requires
        members(group) is Some,
    ensures
        lists(joined_by(group, name), name),
        members(joined_by(group, name)) is Some,
        members(group)->0.is_prefix_of(members(joined_by(group, name))->0),
        joined_by(joined_by(group, name), name) == joined_by(group, name),
{
    let fields = group->Fields_0;
    let k = field_at(fields, "instances"@, 0);
    lemma_field_at(fields, "instances"@, 0);
    let items = members(group)->0;
    if !items.contains(JsonView::Text(name)) {
        let more = items.push(JsonView::Text(name));
        lemma_field_kept(fields, "instances"@, k, JsonView::List(more), 0);
        assert(more[items.len() as int] == JsonView::Text(name));
        assert(items.is_prefix_of(more));
    }
}

/// The first group that lists the old instance lists the new one too.
pub open spec fn both_listed(file: JsonView, old_name: Seq<char>, new_name: Seq<char>) -> bool {
    match file {
        JsonView::Fields(fields) => {
            let k = field_at(fields, "groups"@, 0);
            k < fields.len() && match fields[k].1 {
                JsonView::Fields(groups) => {
                    let t = group_with(groups, old_name, 0);
                    t < groups.len() && lists(groups[t].1, new_name)
                },
                _ => false,
            }
        },
        _ => false,
    }
}

proof fn lemma_nothing_to_add(file: JsonView, old_name: Seq<char>, new_name: Seq<char>)
    requires
        both_listed(file, old_name, new_name),
    ensures
        registered(file, old_name, new_name) == Some(file),
{
    let fields = file->Fields_0;
    let k = field_at(fields, "groups"@, 0);
    lemma_field_at(fields, "groups"@, 0);
    let groups = fields[k].1->Fields_0;
    let t = group_with(groups, old_name, 0);
    lemma_group_with(groups, old_name, 0);
    assert(joined_by(groups[t].1, new_name) == groups[t].1);
    assert(groups.update(t, (groups[t].0, groups[t].1)) =~= groups);
    assert(fields.update(k, (fields[k].0, fields[k].1)) =~= fields);
}

proof fn lemma_group_kept(
    groups: Seq<(Seq<char>, JsonView)>,
    at: int,
    value: JsonView,
    name: Seq<char>,
    from: int,
)
    requires
        0 <= from <= at < groups.len(),
        lists(value, name),
        forall|j: int| from <= j < at ==> !lists((#[trigger] groups[j]).1, name),
    ensures
        group_with(groups.update(at, (groups[at].0, value)), name, from) == at,
    decreases at - from,
{
    if from < at {
        lemma_group_kept(groups, at, value, name, from + 1);
    }
}

/// Once the new instance has joined, doing it again changes nothing.
pub proof fn law_joining_again_adds_nothing(
    file: JsonView,
    old_name: Seq<char>,
    new_name: Seq<char>,
)
    ensures
        registered(file, old_name, new_name) matches Some(after) ==> both_listed(
            after,
            old_name,
            new_name,
        ) && registered(after, old_name, new_name) == Some(after),
{
    if registered(file, old_name, new_name) is Some {
        let after = registered(file, old_name, new_name)->0;
        let fields = file->Fields_0;
        let k = field_at(fields, "groups"@, 0);
        lemma_field_at(fields, "groups"@, 0);
        let groups = fields[k].1->Fields_0;
        let t = group_with(groups, old_name, 0);
        lemma_group_with(groups, old_name, 0);
        law_joining_keeps_the_members(groups[t].1, new_name);
        let joined = joined_by(groups[t].1, new_name);
        let was = members(groups[t].1)->0;
        let now = members(joined)->0;
        let i = was.index_of(JsonView::Text(old_name));
        assert(now[i] == was[i]);
        assert(lists(joined, old_name));
        lemma_group_kept(groups, t, joined, old_name, 0);
        let grouped = groups.update(t, (groups[t].0, joined));
        lemma_field_kept(fields, "groups"@, k, JsonView::Fields(grouped), 0);
        assert(both_listed(after, old_name, new_name));
        lemma_nothing_to_add(after, old_name, new_name);
    }
}

proof fn lemma_field_alike(
    a: Seq<(Seq<char>, JsonView)>,
    b: Seq<(Seq<char>, JsonView)>,
    key: Seq<char>,
    from: int,
)
    requires
        0 <= from <= a.len(),
        a.len() == b.len(),
        forall|i: int| 0 <= i < a.len() ==> (#[trigger] a[i]).0 == b[i].0,
    ensures
        field_at(a, key, from) == field_at(b, key, from),
    decreases a.len() - from,
{
    if from < a.len() {
        assert(a[from].0 == b[from].0);
        lemma_field_alike(a, b, key, from + 1);
    }
}

proof fn lemma_lists_alike(a: JsonView, b: JsonView, name: Seq<char>)
    requires
        alike(a, b),
    ensures
        lists(a, name) == lists(b, name),
{
    if a is Fields {
        let x = a->Fields_0;
        let y = b->Fields_0;
        lemma_field_alike(x, y, "instances"@, 0);
        lemma_field_at(x, "instances"@, 0);
        let k = field_at(x, "instances"@, 0);
        if k < x.len() {
            assert(alike(x[k].1, y[k].1));
            if x[k].1 is List {
                let p = x[k].1->List_0;
                let q = y[k].1->List_0;
                let text = JsonView::Text(name);
                if p.contains(text) {
                    let i = p.index_of(text);
                    assert(alike(p[i], q[i]));
                    assert(q[i] == text);
                }
                if q.contains(text) {
                    let i = q.index_of(text);
                    assert(alike(p[i], q[i]));
                    assert(p[i] == text);
                }
            }
        }
    }
}

proof fn lemma_group_alike(
    a: Seq<(Seq<char>, JsonView)>,
    b: Seq<(Seq<char>, JsonView)>,
    name: Seq<char>,
    from: int,
)
    requires
        0 <= from <= a.len(),
        alike(JsonView::Fields(a), JsonView::Fields(b)),
    ensures
        group_with(a, name, from) == group_with(b, name, from),
    decreases a.len() - from,
{
    if from < a.len() {
        assert(alike(a[from].1, b[from].1));
        lemma_lists_alike(a[from].1, b[from].1, name);
        lemma_group_alike(a, b, name, from + 1);
    }
}

proof fn lemma_both_alike(
    a: JsonView,
    b: JsonView,
    old_name: Seq<char>,
    new_name: Seq<char>,
)
    requires
        alike(a, b),
        both_listed(b, old_name, new_name),
    ensures
        both_listed(a, old_name, new_name),
{
    let x = a->Fields_0;
    let y = b->Fields_0;
    lemma_field_alike(x, y, "groups"@, 0);
    lemma_field_at(x, "groups"@, 0);
    let k = field_at(x, "groups"@, 0);
    assert(alike(x[k].1, y[k].1));
    let p = x[k].1->Fields_0;
    let q = y[k].1->Fields_0;
    lemma_group_alike(p, q, old_name, 0);
    lemma_group_with(p, old_name, 0);
    let t = group_with(p, old_name, 0);
    assert(alike(p[t].1, q[t].1));
    lemma_lists_alike(p[t].1, q[t].1, new_name);
}

/// The new instance joins the group that the old one is in and no other: every
/// other group, and everything else in the file, stays as it is. Where the old
/// one is in no group the file stays as it is.
pub proof fn law_the_new_instance_joins_the_old_one(
    fields: Seq<(Seq<char>, JsonView)>,
    groups: Seq<(Seq<char>, JsonView)>,
    old_name: Seq<char>,
    new_name: Seq<char>,
)
    requires
        field_at(fields, "groups"@, 0) < fields.len(),
        fields[field_at(fields, "groups"@, 0)].1 == JsonView::Fields(groups),
    ensures
        ({
            let k = field_at(fields, "groups"@, 0);
            let t = group_with(groups, old_name, 0);
            match registered(JsonView::Fields(fields), old_name, new_name) {
                None => forall|j: int|
                    0 <= j < groups.len() ==> !lists((#[trigger] groups[j]).1, old_name),
                Some(after) => after matches JsonView::Fields(now) && now.len() == fields.len() && (
                forall|j: int| 0 <= j < fields.len() && j != k ==> #[trigger] now[j] == fields[j])
                    && (now[k].1 matches JsonView::Fields(grouped) && grouped.len() == groups.len()
                    && 0 <= t < groups.len() && lists(groups[t].1, old_name) && lists(
                    grouped[t].1,
                    old_name,
                ) && lists(grouped[t].1, new_name) && (forall|j: int|
                    0 <= j < groups.len() && j != t ==> #[trigger] grouped[j] == groups[j])),
            }
        }),
{
    lemma_group_with(groups, old_name, 0);
    lemma_field_at(fields, "groups"@, 0);
    let t = group_with(groups, old_name, 0);
    if t < groups.len() {
        law_joining_keeps_the_members(groups[t].1, new_name);
        let was = members(groups[t].1)->0;
        let now = members(joined_by(groups[t].1, new_name))->0;
        let i = was.index_of(JsonView::Text(old_name));
        assert(now[i] == was[i]);
        assert(now.contains(JsonView::Text(old_name)));
    }
}

/// A group lists an instance where its first field `instances` is a list with that
/// name in it, as a text; in every other case it does not.
pub proof fn law_who_is_in_a_group(
    fields: Seq<(Seq<char>, JsonView)>,
    m: int,
    items: Seq<JsonView>,
    name: Seq<char>,
)
    requires
        0 <= m <= fields.len(),
        forall|j: int| 0 <= j < m ==> (#[trigger] fields[j]).0 != "instances"@,
        m < fields.len() ==> fields[m].0 == "instances"@,
    ensures
        m < fields.len() && fields[m].1 == JsonView::List(items) ==> (lists(
            JsonView::Fields(fields),
            name,
        ) <==> items.contains(JsonView::Text(name))),
        m < fields.len() && !(fields[m].1 is List) ==> !lists(JsonView::Fields(fields), name),
        m == fields.len() ==> !lists(JsonView::Fields(fields), name),
        forall|other: JsonView| !(other is Fields) ==> !#[trigger] lists(other, name),
{
    lemma_field_is(fields, "instances"@, 0, m);
}

proof fn lemma_field_is(fields: Seq<(Seq<char>, JsonView)>, key: Seq<char>, from: int, at: int)
    requires
        0 <= from <= at <= fields.len(),
        forall|j: int| from <= j < at ==> (#[trigger] fields[j]).0 != key,
        at < fields.len() ==> fields[at].0 == key,
    ensures
        field_at(fields, key, from) == at,
    decreases at - from,
{
    if from < at {
        assert(fields[from].0 != key);
        lemma_field_is(fields, key, from + 1, at);
    }
}

/// What becomes of the file, field by field. The first group in the field `groups` that
/// lists the old instance has the new one behind its members, once; every other value
/// of the file stays where it is. Where no group lists the old one, nothing is written.
pub proof fn law_what_joining_writes(
    fields: Seq<(Seq<char>, JsonView)>,
    k: int,
    groups: Seq<(Seq<char>, JsonView)>,
    t: int,
    group: Seq<(Seq<char>, JsonView)>,
    m: int,
    items: Seq<JsonView>,
    old_name: Seq<char>,
    new_name: Seq<char>,
)
    requires
        0 <= k < fields.len(),
        fields[k] == ("groups"@, JsonView::Fields(groups)),
        forall|j: int| 0 <= j < k ==> (#[trigger] fields[j]).0 != "groups"@,
        0 <= t <= groups.len(),
        forall|j: int| 0 <= j < t ==> !lists((#[trigger] groups[j]).1, old_name),
        t < groups.len() ==> {
            &&& groups[t].1 == JsonView::Fields(group)
            &&& 0 <= m < group.len()
            &&& group[m] == ("instances"@, JsonView::List(items))
            &&& forall|j: int| 0 <= j < m ==> (#[trigger] group[j]).0 != "instances"@
            &&& items.contains(JsonView::Text(old_name))
        },
    ensures
        ({
            let out = registered(JsonView::Fields(fields), old_name, new_name);
            let more = if items.contains(JsonView::Text(new_name)) {
                items
            } else {
                items + seq![JsonView::Text(new_name)]
            };
            let joined = JsonView::Fields(group.update(m, ("instances"@, JsonView::List(more))));
            let grouped = JsonView::Fields(groups.update(t, (groups[t].0, joined)));
            &&& t < groups.len() ==> out == Some(
                JsonView::Fields(fields.update(k, ("groups"@, grouped))),
            )
            &&& t == groups.len() ==> out is None
        }),
{
    lemma_field_is(fields, "groups"@, 0, k);
    if t < groups.len() {
        law_who_is_in_a_group(group, m, items, old_name);
        lemma_field_is(group, "instances"@, 0, m);
        assert(items.push(JsonView::Text(new_name)) =~= items + seq![JsonView::Text(new_name)]);
        if items.contains(JsonView::Text(new_name)) {
            assert(group.update(m, ("instances"@, JsonView::List(items))) =~= group);
        }
    }
    lemma_group_is(groups, old_name, 0, t);
}

proof fn lemma_group_is(groups: Seq<(Seq<char>, JsonView)>, name: Seq<char>, from: int, at: int)
    requires
        0 <= from <= at <= groups.len(),
        forall|j: int| from <= j < at ==> !lists((#[trigger] groups[j]).1, name),
        at < groups.len() ==> lists(groups[at].1, name),
    ensures
        group_with(groups, name, from) == at,
    decreases at - from,
{
    if from < at {
        assert(!lists(groups[from].1, name));
        lemma_group_is(groups, name, from + 1, at);
    }
}

/// A file without groups, or whose `groups` are something else, stays as it is.
pub proof fn law_files_without_groups_stay(
    fields: Seq<(Seq<char>, JsonView)>,
    k: int,
    old_name: Seq<char>,
    new_name: Seq<char>,
)
    requires
        0 <= k <= fields.len(),
        forall|j: int| 0 <= j < k ==> (#[trigger] fields[j]).0 != "groups"@,
        k < fields.len() ==> fields[k].0 == "groups"@ && !(fields[k].1 is Fields),
    ensures
        registered(JsonView::Fields(fields), old_name, new_name) is None,
        forall|other: JsonView|
            !(other is Fields) ==> #[trigger] registered(other, old_name, new_name) is None,
{
    lemma_field_is(fields, "groups"@, 0, k);
}

} // verus!
