//! JSON sources read as tables: an array of objects (keys as columns) or
//! an array of equally long arrays (positions as columns).

use vstd::prelude::*;

use crate::file_translate::asset_intake::{column_labels_spec, build_column_labels};
use crate::file_translate::types::{
    clone_strings, rows_view, strs_view, HeaderMode, JsonTableShape, SourceEncoding, SourceKind,
    TableSourceData, TableView,
};
use crate::text::str_equal;

verus! {

/// A parsed JSON value. Numbers keep the text that the parser prints for
/// them; arrays and objects keep, beside their items, their compact JSON
/// text.
#[derive(Debug)]
pub enum JsonValue {
    Null,
    Bool(bool),
    Number(String),
    Text(String),
    Array(Vec<JsonValue>, String),
    Object(Vec<JsonEntry>, String),
}

/// One member of a JSON object.
#[derive(Debug)]
pub struct JsonEntry {
    pub key: String,
    pub value: JsonValue,
}

/// The cell text of a value: `null`, `true` or `false`, a number's text,
/// a string's contents, or an array's or object's compact JSON text.
pub open spec fn cell_text(v: JsonValue) -> Seq<char> {
    match v {
        JsonValue::Null => "null"@,
        JsonValue::Bool(b) => if b {
            "true"@
        } else {
            "false"@
        },
        JsonValue::Number(s) => s@,
        JsonValue::Text(s) => s@,
        JsonValue::Array(_, t) => t@,
        JsonValue::Object(_, t) => t@,
    }
}

pub fn json_value_to_cell(value: &JsonValue) -> (r: String)
    ensures
        r@ == cell_text(*value),
{
    match value {
        JsonValue::Null => "null".to_string(),
        JsonValue::Bool(b) => if *b {
            "true".to_string()
        } else {
            "false".to_string()
        },
        JsonValue::Number(s) => s.clone(),
        JsonValue::Text(s) => s.clone(),
        JsonValue::Array(_, t) => t.clone(),
        JsonValue::Object(_, t) => t.clone(),
    }
}

/// The keys of `entries` appended to `acc` in order, each key once.
pub open spec fn add_keys(acc: Seq<Seq<char>>, entries: Seq<JsonEntry>) -> Seq<Seq<char>>
    decreases entries.len(),
{
    if entries.len() == 0 {
        acc
    } else {
        let a = add_keys(acc, entries.drop_last());
        let k = entries.last().key@;
        if a.contains(k) {
            a
        } else {
            a.push(k)
        }
    }
}

/// The keys of the objects among `items`, in order of first appearance.
pub open spec fn object_keys(items: Seq<JsonValue>) -> Seq<Seq<char>>
    decreases items.len(),
{
    if items.len() == 0 {
        Seq::empty()
    } else {
        match items.last() {
            JsonValue::Object(es, _) => add_keys(object_keys(items.drop_last()), es@),
            _ => object_keys(items.drop_last()),
        }
    }
}

/// The value of the first member named `key`.
pub open spec fn member(entries: Seq<JsonEntry>, key: Seq<char>) -> Option<JsonValue>
    decreases entries.len(),
{
    if entries.len() == 0 {
        None
    } else if entries[0].key@ == key {
        Some(entries[0].value)
    } else {
        member(entries.skip(1), key)
    }
}

/// The row of an object under the labels: each member's cell text, or an
/// empty cell where the object has no such member.
pub open spec fn object_row(item: JsonValue, labels: Seq<Seq<char>>) -> Seq<Seq<char>> {
    let es = match item {
        JsonValue::Object(es, _) => es@,
        _ => Seq::empty(),
    };
    Seq::new(
        labels.len(),
        |j: int|
            match member(es, labels[j]) {
                Some(v) => cell_text(v),
                None => Seq::empty(),
            },
    )
}

/// The row of an array: its items' cell texts.
pub open spec fn array_row(item: JsonValue) -> Seq<Seq<char>> {
    match item {
        JsonValue::Array(vs, _) => vs@.map_values(|v: JsonValue| cell_text(v)),
        _ => Seq::empty(),
    }
}

pub open spec fn is_object(v: JsonValue) -> bool {
    v is Object
}

pub open spec fn is_array(v: JsonValue) -> bool {
    v is Array
}

/// The table of a JSON text, or why it has none.
pub open spec fn json_table_spec(
    file: Seq<char>,
    file_size: u64,
    encoding: SourceEncoding,
    parsed: Result<JsonValue, Seq<char>>,
) -> Result<TableView, Seq<char>> {
    match parsed {
        Err(e) => Err("parse failed: "@ + e),
        Ok(JsonValue::Array(items, _)) => {
            let items = items@;
            if items.len() == 0 {
                Err("root array is empty"@)
            } else if forall|i: int| 0 <= i < items.len() ==> is_object(#[trigger] items[i]) {
                let labels = object_keys(items);
                if labels.len() == 0 {
                    Err("array<object> has no keys"@)
                } else {
                    Ok(
                        TableView {
                            file,
                            file_size,
                            source_kind: SourceKind::JsonText,
                            encoding,
                            header_mode: HeaderMode::Present,
                            suggested_header: true,
                            header_row: Some(labels),
                            column_labels: labels,
                            rows: items.map_values(|v: JsonValue| object_row(v, labels)),
                            total_rows: items.len() as usize,
                            delimiter: None,
                            json_shape: Some(JsonTableShape::ArrayOfObjects),
                            json_diagnostic: Some(
                                "object keys are used as columns; nested values are stringified"@,
                            ),
                        },
                    )
                }
            } else if forall|i: int| 0 <= i < items.len() ==> is_array(#[trigger] items[i]) {
                let rows = items.map_values(|v: JsonValue| array_row(v));
                let n = rows[0].len();
                if n == 0 {
                    Err("array<array> rows are empty"@)
                } else if exists|i: int| 0 <= i < rows.len() && (#[trigger] rows[i]).len() != n {
                    Err("array<array> column counts are irregular"@)
                } else {
                    Ok(
                        TableView {
                            file,
                            file_size,
                            source_kind: SourceKind::JsonText,
                            encoding,
                            header_mode: HeaderMode::Absent,
                            suggested_header: false,
                            header_row: None,
                            column_labels: column_labels_spec(None, n as int),
                            rows,
                            total_rows: rows.len() as usize,
                            delimiter: None,
                            json_shape: Some(JsonTableShape::ArrayOfArrays),
                            json_diagnostic: Some(
                                "array indices are used as columns; nested values are stringified"@,
                            ),
                        },
                    )
                }
            } else {
                Err("root array is heterogeneous and stays preview-only"@)
            }
        },
        Ok(_) => Err("root must be array<object> or array<array>"@),
    }
}

pub open spec fn table_result_view(r: Result<TableSourceData, String>) -> Result<TableView, Seq<char>> {
    match r {
        Ok(t) => Ok(t@),
        Err(e) => Err(e@),
    }
}

pub open spec fn parsed_view(p: Result<JsonValue, String>) -> Result<JsonValue, Seq<char>> {
    match p {
        Ok(v) => Ok(v),
        Err(e) => Err(e@),
    }
}

#[verifier::external_type_specification]
#[verifier::external_body]
pub struct ExJsonValue(serde_json::Value);

/// What serde_json makes of a text as a `serde_json::Value`, taken over as
/// a `JsonValue`: the value, or the parser's error message. It depends on
/// the text alone.
pub uninterp spec fn json_parsed(text: Seq<char>) -> Result<JsonValue, Seq<char>>;

/// `serde_json::from_str::<serde_json::Value>`: the value taken over as a
/// `JsonValue`, or the text of the parser's error. Claimed: the outcome is
/// `json_parsed` of the text; nothing is said of what that is.
#[verifier::external_body]
pub fn parse_json_value(text: &str) -> (r: Result<JsonValue, String>)
    ensures
        parsed_view(r) == json_parsed(text@),
{
    match serde_json::from_str::<serde_json::Value>(text) {
        Ok(value) => Ok(json_value_of(&value)),
        Err(e) => Err(e.to_string()),
    }
}

/// The conversion that `parse_json_value` makes: a `serde_json::Value`
/// taken over variant for variant, a number by its `to_string`, an array
/// or object with its text from `serde_json::to_string`. Nothing is
/// claimed of it here; `parse_json_value` names its outcome as a whole.
#[verifier::external_body]
fn json_value_of(value: &serde_json::Value) -> JsonValue {
    match value {
        serde_json::Value::Null => JsonValue::Null,
        serde_json::Value::Bool(b) => JsonValue::Bool(*b),
        serde_json::Value::Number(n) => JsonValue::Number(n.to_string()),
        serde_json::Value::String(s) => JsonValue::Text(s.clone()),
        serde_json::Value::Array(items) => JsonValue::Array(
            items.iter().map(json_value_of).collect(),
            serde_json::to_string(value).unwrap_or_default(),
        ),
        serde_json::Value::Object(map) => JsonValue::Object(
            map.iter().map(|(k, v)| JsonEntry { key: k.clone(), value: json_value_of(v) }).collect(),
            serde_json::to_string(value).unwrap_or_default(),
        ),
    }
}

fn contains_key(labels: &Vec<String>, key: &String) -> (r: bool)
    ensures
        r == strs_view(labels@).contains(key@),
{
    let mut i: usize = 0;
    while i < labels.len()
        invariant
            i <= labels@.len(),
            forall|j: int| 0 <= j < i ==> labels@[j]@ != key@,
        decreases labels.len() - i,
    {
        if str_equal(labels[i].as_str(), key.as_str()) {
            assert(strs_view(labels@)[i as int] == key@);
            return true;
        }
        i += 1;
    }
    assert(!strs_view(labels@).contains(key@)) by {
        if strs_view(labels@).contains(key@) {
            let j = choose|j: int| 0 <= j < labels@.len() && strs_view(labels@)[j] == key@;
            assert(labels@[j]@ == key@);
        }
    }
    false
}

fn collect_keys(items: &Vec<JsonValue>) -> (r: Vec<String>)
    ensures
        strs_view(r@) == object_keys(items@),
{
    let mut labels: Vec<String> = Vec::new();
    let mut i: usize = 0;
    while i < items.len()
        invariant
            i <= items@.len(),
            strs_view(labels@) == object_keys(items@.take(i as int)),
        decreases items.len() - i,
    {
        assert(items@.take(i as int + 1).drop_last() =~= items@.take(i as int));
        assert(items@.take(i as int + 1).last() == items@[i as int]);
        match &items[i] {
            JsonValue::Object(es, _) => {
                let ghost start = strs_view(labels@);
                let mut k: usize = 0;
                while k < es.len()
                    invariant
                        k <= es@.len(),
                        strs_view(labels@) == add_keys(start, es@.take(k as int)),
                    decreases es.len() - k,
                {
                    assert(es@.take(k as int + 1).drop_last() =~= es@.take(k as int));
                    assert(es@.take(k as int + 1).last() == es@[k as int]);
                    if !contains_key(&labels, &es[k].key) {
                        let ghost before = strs_view(labels@);
                        labels.push(es[k].key.clone());
                        assert(strs_view(labels@) =~= before.push(es@[k as int].key@));
                    }
                    k += 1;
                }
                assert(es@.take(es@.len() as int) =~= es@);
            },
            _ => {},
        }
        i += 1;
    }
    assert(items@.take(items@.len() as int) =~= items@);
    labels
}

fn find_member<'a>(entries: &'a Vec<JsonEntry>, key: &String) -> (r: Option<&'a JsonValue>)
    ensures
        match r {
            Some(v) => member(entries@, key@) == Some(*v),
            None => member(entries@, key@) is None,
        },
{
    let mut i: usize = 0;
    assert(entries@.skip(0) =~= entries@);
    while i < entries.len()
        invariant
            i <= entries@.len(),
            member(entries@, key@) == member(entries@.skip(i as int), key@),
        decreases entries.len() - i,
    {
        assert(entries@.skip(i as int).skip(1) =~= entries@.skip(i as int + 1));
        if str_equal(entries[i].key.as_str(), key.as_str()) {
            return Some(&entries[i].value);
        }
        i += 1;
    }
    None
}

fn object_row_of(item: &JsonValue, labels: &Vec<String>) -> (r: Vec<String>)
    ensures
        strs_view(r@) == object_row(*item, strs_view(labels@)),
{
    let ghost lv = strs_view(labels@);
    let empty: Vec<JsonEntry> = Vec::new();
    let es: &Vec<JsonEntry> = match item {
        JsonValue::Object(es, _) => es,
        _ => &empty,
    };
    assert(es@ == match *item {
        JsonValue::Object(es, _) => es@,
        _ => Seq::<JsonEntry>::empty(),
    });
    let mut row: Vec<String> = Vec::new();
    let mut j: usize = 0;
    while j < labels.len()
        invariant
            j <= labels@.len(),
            lv == strs_view(labels@),
            strs_view(row@) == object_row(*item, lv).take(j as int),
            es@ == match *item {
                JsonValue::Object(es, _) => es@,
                _ => Seq::<JsonEntry>::empty(),
            },
        decreases labels.len() - j,
    {
        let cell = match find_member(es, &labels[j]) {
            Some(v) => json_value_to_cell(v),
            None => String::new(),
        };
        let ghost before = strs_view(row@);
        row.push(cell);
        assert(strs_view(row@) =~= before.push(cell@));
        assert(strs_view(row@) =~= object_row(*item, lv).take(j as int + 1));
        j += 1;
    }
    assert(object_row(*item, lv).take(labels@.len() as int) =~= object_row(*item, lv));
    row
}

fn array_row_of(item: &JsonValue) -> (r: Vec<String>)
    ensures
        strs_view(r@) == array_row(*item),
{
    match item {
        JsonValue::Array(vs, _) => {
            let mut row: Vec<String> = Vec::new();
            let mut j: usize = 0;
            while j < vs.len()
                invariant
                    j <= vs@.len(),
                    strs_view(row@) == vs@.take(j as int).map_values(|v: JsonValue| cell_text(v)),
                decreases vs.len() - j,
            {
                let cell = json_value_to_cell(&vs[j]);
                let ghost before = strs_view(row@);
                row.push(cell);
                assert(strs_view(row@) =~= before.push(cell@));
                assert(vs@.take(j as int + 1).map_values(|v: JsonValue| cell_text(v)) =~= vs@.take(
                    j as int,
                ).map_values(|v: JsonValue| cell_text(v)).push(cell_text(vs@[j as int])));
                assert(strs_view(row@) =~= vs@.take(j as int + 1).map_values(
                    |v: JsonValue| cell_text(v),
                ));
                j += 1;
            }
            assert(vs@.take(vs@.len() as int) =~= vs@);
            row
        },
        _ => Vec::new(),
    }
}

/// The table of a parsed JSON text: an array of objects becomes a table
/// with the keys as columns, in order of first appearance, and a header;
/// an array of arrays of one length becomes a table with `col N` columns
/// and no header. Anything else has no table, and the result says why.
pub fn normalize_json_table(
    file: String,
    file_size: u64,
    encoding: SourceEncoding,
    parsed: Result<JsonValue, String>,
) -> (r: Result<TableSourceData, String>)
    ensures
        table_result_view(r) == json_table_spec(file@, file_size, encoding, parsed_view(parsed)),
{
    let items = match parsed {
        Err(e) => {
            let mut m = "parse failed: ".to_string();
            m.append(e.as_str());
            return Err(m);
        },
        Ok(JsonValue::Array(items, _)) => items,
        Ok(_) => {
            return Err("root must be array<object> or array<array>".to_string());
        },
    };
    if items.len() == 0 {
        return Err("root array is empty".to_string());
    }
    let mut all_objects = true;
    let mut all_arrays = true;
    let mut i: usize = 0;
    while i < items.len()
        invariant
            i <= items@.len(),
            all_objects == forall|j: int| 0 <= j < i ==> is_object(#[trigger] items@[j]),
            all_arrays == forall|j: int| 0 <= j < i ==> is_array(#[trigger] items@[j]),
        decreases items.len() - i,
    {
        match &items[i] {
            JsonValue::Object(_, _) => {
                all_arrays = false;
            },
            JsonValue::Array(_, _) => {
                all_objects = false;
            },
            _ => {
                all_objects = false;
                all_arrays = false;
            },
        }
        i += 1;
    }
    if all_objects {
        let labels = collect_keys(&items);
        if labels.len() == 0 {
            return Err("array<object> has no keys".to_string());
        }
        let ghost lv = strs_view(labels@);
        let mut rows: Vec<Vec<String>> = Vec::new();
        let mut k: usize = 0;
        while k < items.len()
            invariant
                k <= items@.len(),
                lv == strs_view(labels@),
                rows_view(rows@) == items@.take(k as int).map_values(
                    |v: JsonValue| object_row(v, lv),
                ),
            decreases items.len() - k,
        {
            let row = object_row_of(&items[k], &labels);
            let ghost before = rows_view(rows@);
            rows.push(row);
            assert(rows_view(rows@) =~= before.push(strs_view(row@)));
            assert(items@.take(k as int + 1).map_values(|v: JsonValue| object_row(v, lv))
                =~= items@.take(k as int).map_values(|v: JsonValue| object_row(v, lv)).push(
                object_row(items@[k as int], lv),
            ));
            assert(rows_view(rows@) =~= items@.take(k as int + 1).map_values(
                |v: JsonValue| object_row(v, lv),
            ));
            k += 1;
        }
        assert(items@.take(items@.len() as int) =~= items@);
        let total_rows = rows.len();
        return Ok(
            TableSourceData {
                file,
                file_size,
                source_kind: SourceKind::JsonText,
                encoding,
                header_mode: HeaderMode::Present,
                suggested_header: true,
                header_row: Some(clone_strings(&labels)),
                column_labels: labels,
                rows,
                total_rows,
                delimiter: None,
                json_shape: Some(JsonTableShape::ArrayOfObjects),
                json_diagnostic: Some(
                    "object keys are used as columns; nested values are stringified".to_string(),
                ),
            },
        );
    }
    if all_arrays {
        let ghost rv = items@.map_values(|v: JsonValue| array_row(v));
        let mut rows: Vec<Vec<String>> = Vec::new();
        let mut k: usize = 0;
        while k < items.len()
            invariant
                k <= items@.len(),
                rv == items@.map_values(|v: JsonValue| array_row(v)),
                rows_view(rows@) == rv.take(k as int),
            decreases items.len() - k,
        {
            let row = array_row_of(&items[k]);
            let ghost before = rows_view(rows@);
            rows.push(row);
            assert(rows_view(rows@) =~= before.push(strs_view(row@)));
            assert(rv.take(k as int + 1) =~= rv.take(k as int).push(rv[k as int]));
            assert(rows_view(rows@) =~= rv.take(k as int + 1));
            k += 1;
        }
        assert(rv.take(items@.len() as int) =~= rv);
        let column_count = rows[0].len();
        if column_count == 0 {
            return Err("array<array> rows are empty".to_string());
        }
        let mut k: usize = 0;
        while k < rows.len() && rows[k].len() == column_count
            invariant
                k <= rows@.len(),
                rows_view(rows@) == rv,
                column_count == rv[0].len(),
                forall|j: int| 0 <= j < k ==> (#[trigger] rv[j]).len() == column_count,
            decreases rows.len() - k,
        {
            assert(rv[k as int] == strs_view(rows@[k as int]@));
            k += 1;
        }
        if k < rows.len() {
            assert(rv[k as int] == strs_view(rows@[k as int]@));
            assert(rv[k as int].len() != rv[0].len());
            return Err("array<array> column counts are irregular".to_string());
        }
        let total_rows = rows.len();
        return Ok(
            TableSourceData {
                file,
                file_size,
                source_kind: SourceKind::JsonText,
                encoding,
                header_mode: HeaderMode::Absent,
                suggested_header: false,
                header_row: None,
                column_labels: build_column_labels(None, column_count),
                rows,
                total_rows,
                delimiter: None,
                json_shape: Some(JsonTableShape::ArrayOfArrays),
                json_diagnostic: Some(
                    "array indices are used as columns; nested values are stringified".to_string(),
                ),
            },
        );
    }
    Err("root array is heterogeneous and stays preview-only".to_string())
}

} // verus!
