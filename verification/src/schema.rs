//! The program schema handed to the model, narrowed to the input: every
//! operation that reads an existing field may name only the input's own
//! fields.

use vstd::prelude::*;
use crate::json::{Json, JsonValue};
use crate::json_ops::find_member;
use crate::repair::{find_key, items_json, lemma_array_json, lemma_object_json, members_json, upsert};
use crate::text::{chars_of, same_chars};
use crate::transform::{copy_value, row_get, row_insert};

verus! {

/// JSON Schema for a whole transform program: every operation is a tagged
/// union on `"op"`.
pub const PROGRAM_SCHEMA: &'static str = "{
  \"type\": \"object\",
  \"properties\": {
    \"ops\": {
      \"type\": \"array\",
      \"minItems\": 1,
      \"maxItems\": 32,
      \"items\": {
        \"oneOf\": [
          {
            \"type\": \"object\",
            \"properties\": {
              \"op\": { \"type\": \"string\", \"enum\": [\"select_fields\"] },
              \"fields\": { \"type\": \"array\", \"items\": { \"type\": \"string\" }, \"minItems\": 1 }
            },
            \"required\": [\"op\", \"fields\"],
            \"additionalProperties\": false
          },
          {
            \"type\": \"object\",
            \"properties\": {
              \"op\": { \"type\": \"string\", \"enum\": [\"drop_fields\"] },
              \"fields\": { \"type\": \"array\", \"items\": { \"type\": \"string\" }, \"minItems\": 1 }
            },
            \"required\": [\"op\", \"fields\"],
            \"additionalProperties\": false
          },
          {
            \"type\": \"object\",
            \"properties\": {
              \"op\": { \"type\": \"string\", \"enum\": [\"rename_field\"] },
              \"from\": { \"type\": \"string\" },
              \"to\": { \"type\": \"string\" }
            },
            \"required\": [\"op\", \"from\", \"to\"],
            \"additionalProperties\": false
          },
          {
            \"type\": \"object\",
            \"properties\": {
              \"op\": { \"type\": \"string\", \"enum\": [\"set_field\"] },
              \"field\": { \"type\": \"string\" },
              \"value\": {}
            },
            \"required\": [\"op\", \"field\", \"value\"],
            \"additionalProperties\": false
          },
          {
            \"type\": \"object\",
            \"properties\": {
              \"op\": { \"type\": \"string\", \"enum\": [\"filter\"] },
              \"field\": { \"type\": \"string\" },
              \"predicate\": {
                \"type\": \"string\",
                \"enum\": [\"eq\", \"ne\", \"gt\", \"lt\", \"ge\", \"le\", \"contains\", \"exists\", \"not_exists\"]
              },
              \"value\": {}
            },
            \"required\": [\"op\", \"field\", \"predicate\"],
            \"additionalProperties\": false
          },
          {
            \"type\": \"object\",
            \"properties\": {
              \"op\": { \"type\": \"string\", \"enum\": [\"map_field\"] },
              \"field\": { \"type\": \"string\" },
              \"transform\": {
                \"type\": \"string\",
                \"enum\": [\"lowercase\", \"uppercase\", \"trim\", \"to_string\", \"to_number\"]
              }
            },
            \"required\": [\"op\", \"field\", \"transform\"],
            \"additionalProperties\": false
          },
          {
            \"type\": \"object\",
            \"properties\": {
              \"op\": { \"type\": \"string\", \"enum\": [\"sort_by\"] },
              \"field\": { \"type\": \"string\" },
              \"order\": { \"type\": \"string\", \"enum\": [\"asc\", \"desc\"] }
            },
            \"required\": [\"op\", \"field\", \"order\"],
            \"additionalProperties\": false
          },
          {
            \"type\": \"object\",
            \"properties\": {
              \"op\": { \"type\": \"string\", \"enum\": [\"limit\"] },
              \"n\": { \"type\": \"integer\", \"minimum\": 0 }
            },
            \"required\": [\"op\", \"n\"],
            \"additionalProperties\": false
          },
          {
            \"type\": \"object\",
            \"properties\": {
              \"op\": { \"type\": \"string\", \"enum\": [\"reverse\"] }
            },
            \"required\": [\"op\"],
            \"additionalProperties\": false
          }
        ]
      }
    }
  },
  \"required\": [\"ops\"],
  \"additionalProperties\": false
}";

// ---------------------------------------------------------------------------
// Paths into a value
// ---------------------------------------------------------------------------

/// `value[k]`: the value of member `k` of an object; null when there is none.
pub open spec fn index_key(j: Json, k: Seq<char>) -> Json {
    match j {
        Json::Object(es) => {
            let i = find_key(es, k, 0);
            if 0 <= i < es.len() {
                es[i].1
            } else {
                Json::Null
            }
        },
        _ => Json::Null,
    }
}

/// `value[k1][k2]...` read along path `p`.
pub open spec fn at_path(j: Json, p: Seq<Seq<char>>) -> Json
    decreases p.len(),
{
    if p.len() == 0 {
        j
    } else {
        at_path(index_key(j, p[0]), p.drop_first())
    }
}

/// Whether `value[k1][k2]...` can be written along path `p`: each value
/// passed on the way is an object or null.
pub open spec fn writable(j: Json, p: Seq<Seq<char>>) -> bool
    decreases p.len(),
{
    p.len() == 0 || ((j is Object || j is Null) && writable(index_key(j, p[0]), p.drop_first()))
}

/// `j` with the value at path `p` set to `x`: a null on the way becomes an
/// object, a missing member is added at the end, an existing one replaced
/// in place.
pub open spec fn put(j: Json, p: Seq<Seq<char>>, x: Json) -> Json
    decreases p.len(),
{
    if p.len() == 0 {
        x
    } else {
        let es = match j {
            Json::Object(es) => es,
            _ => Seq::empty(),
        };
        Json::Object(upsert(es, p[0], put(index_key(j, p[0]), p.drop_first(), x)))
    }
}

/// The characters of each of `v`.
pub open spec fn path_view(v: Seq<Vec<char>>) -> Seq<Seq<char>> {
    v.map_values(|k: Vec<char>| k@)
}

/// The value at path `p[from..]`, borrowed; `None` where it is null
/// because a member on the way is missing or not in an object.
fn at_path_exec<'a>(j: &'a JsonValue, p: &Vec<Vec<char>>, from: usize) -> (r: Option<&'a JsonValue>)
    requires
        from <= p@.len(),
    ensures
        match r {
            Some(x) => x.json() == at_path(j.json(), path_view(p@).skip(from as int)),
            None => at_path(j.json(), path_view(p@).skip(from as int)) == Json::Null,
        },
    decreases p@.len() - from,
{
    if from == p.len() {
        assert(path_view(p@).skip(from as int) =~= Seq::<Seq<char>>::empty());
        return Some(j);
    }
    let ghost rest = path_view(p@).skip(from as int);
    assert(rest[0] == p@[from as int]@);
    assert(rest.drop_first() =~= path_view(p@).skip(from + 1));
    match j {
        JsonValue::Object(es) => {
            proof {
                lemma_object_json(*es);
            }
            match find_member(es, &p[from]) {
                Some(i) => at_path_exec(&es[i].1, p, from + 1),
                None => {
                    proof {
                        lemma_null_path(path_view(p@).skip(from + 1));
                    }
                    None
                },
            }
        },
        _ => {
            proof {
                lemma_null_path(path_view(p@).skip(from + 1));
            }
            None
        },
    }
}

proof fn lemma_null_path(p: Seq<Seq<char>>)
    ensures
        at_path(Json::Null, p) == Json::Null,
    decreases p.len(),
{
    if p.len() > 0 {
        lemma_null_path(p.drop_first());
    }
}

/// `j` with the value at path `p[from..]` set to `x` (see [`put`]).
fn put_exec(j: JsonValue, p: &Vec<Vec<char>>, from: usize, x: JsonValue) -> (r: JsonValue)
    requires
        from <= p@.len(),
        writable(j.json(), path_view(p@).skip(from as int)),
    ensures
        r.json() == put(j.json(), path_view(p@).skip(from as int), x.json()),
    decreases p@.len() - from,
{
    if from == p.len() {
        assert(path_view(p@).skip(from as int) =~= Seq::<Seq<char>>::empty());
        return x;
    }
    let ghost rest = path_view(p@).skip(from as int);
    let ghost jj = j.json();
    assert(rest[0] == p@[from as int]@);
    assert(rest.drop_first() =~= path_view(p@).skip(from + 1));
    let mut es: Vec<(String, JsonValue)> = match j {
        JsonValue::Object(es) => {
            proof {
                lemma_object_json(es);
            }
            es
        },
        _ => {
            let none: Vec<(String, JsonValue)> = Vec::new();
            assert(members_json(none@) =~= Seq::<(Seq<char>, Json)>::empty());
            none
        },
    };
    assert(members_json(es@) == match jj {
        Json::Object(m) => m,
        _ => Seq::empty(),
    });
    let child = match row_get(&es, &p[from]) {
        Some(v) => copy_value(v),
        None => JsonValue::Null,
    };
    proof {
        assert(child.json() == index_key(jj, rest[0]));
    }
    let new = put_exec(child, p, from + 1, x);
    row_insert(&mut es, &p[from], new);
    proof {
        lemma_object_json(es);
    }
    JsonValue::Object(es)
}

// ---------------------------------------------------------------------------
// Narrowing the schema to the input's fields
// ---------------------------------------------------------------------------

/// Where a schema keeps its branches, one per operation.
pub open spec fn branches_path() -> Seq<Seq<char>> {
    seq!["properties"@, "ops"@, "items"@, "oneOf"@]
}

/// The operation a branch describes: the first entry of the `enum` of its
/// `op` property, when that is a string; empty otherwise.
pub open spec fn branch_op(b: Json) -> Seq<char> {
    match at_path(b, seq!["properties"@, "op"@, "enum"@]) {
        Json::Array(xs) => if xs.len() > 0 {
            match xs[0] {
                Json::Str(s) => s,
                _ => Seq::empty(),
            }
        } else {
            Seq::empty()
        },
        _ => Seq::empty(),
    }
}

/// Where a branch for operation `op` names an existing field, if it does:
/// the items of `fields` for `select_fields` and `drop_fields`, `from` for
/// `rename_field`, `field` for `filter`, `map_field` and `sort_by`.
/// (`set_field` and `rename_field`'s `to` may name a new field.)
pub open spec fn read_field_path(op: Seq<char>) -> Option<Seq<Seq<char>>> {
    if op == "select_fields"@ || op == "drop_fields"@ {
        Some(seq!["properties"@, "fields"@, "items"@, "enum"@])
    } else if op == "rename_field"@ {
        Some(seq!["properties"@, "from"@, "enum"@])
    } else if op == "filter"@ || op == "map_field"@ || op == "sort_by"@ {
        Some(seq!["properties"@, "field"@, "enum"@])
    } else {
        None
    }
}

/// Branch `b` with its field reference, if it has one, limited to `e`.
pub open spec fn narrowed_branch(b: Json, e: Json) -> Json {
    match read_field_path(branch_op(b)) {
        Some(p) => put(b, p, e),
        None => b,
    }
}

/// Whether the field reference of branch `b`, if it has one, can be
/// written.
pub open spec fn branch_writable(b: Json) -> bool {
    match read_field_path(branch_op(b)) {
        Some(p) => writable(b, p),
        None => true,
    }
}

/// Whether the field reference of each of the branches `bs` can be
/// written.
pub open spec fn branches_writable(bs: Seq<Json>) -> bool {
    forall|i: int| 0 <= i < bs.len() ==> branch_writable(#[trigger] bs[i])
}

/// Whether a schema can be narrowed: its branch list, and each branch's
/// field reference, can be written.
pub open spec fn schema_writable(schema: Json) -> bool {
    &&& writable(schema, branches_path())
    &&& match at_path(schema, branches_path()) {
        Json::Array(bs) => branches_writable(bs),
        _ => true,
    }
}

/// The enum of field names.
pub open spec fn names_enum(names: Seq<Seq<char>>) -> Json {
    Json::Array(names.map_values(|n: Seq<char>| Json::Str(n)))
}

/// `schema` with every existing-field reference limited to `names`; with no
/// names, `schema` itself. (Reaching the branch list makes the objects on the
/// way, as writing does.)
pub open spec fn schema_with_fields(schema: Json, names: Seq<Seq<char>>) -> Json {
    if names.len() == 0 {
        schema
    } else {
        match at_path(schema, branches_path()) {
            Json::Array(bs) => put(
                schema,
                branches_path(),
                Json::Array(bs.map_values(|b: Json| narrowed_branch(b, names_enum(names)))),
            ),
            other => put(schema, branches_path(), other),
        }
    }
}

/// The path of `keys`.
fn path_of(keys: Vec<&str>) -> (p: Vec<Vec<char>>)
    ensures
        path_view(p@) == keys@.map_values(|k: &str| k@),
{
    let mut p: Vec<Vec<char>> = Vec::new();
    let mut i: usize = 0;
    while i < keys.len()
        invariant
            i <= keys@.len(),
            p@.len() == i,
            path_view(p@) == keys@.map_values(|k: &str| k@).take(i as int),
        decreases keys@.len() - i,
    {
        let c = chars_of(keys[i]);
        let ghost before = p@;
        p.push(c);
        assert(p@ == before.push(c));
        assert forall|t: int| 0 <= t < i + 1 implies #[trigger] path_view(p@)[t] == keys@.map_values(|k: &str| k@).take(i + 1)[t] by {
            if t < i {
                assert(p@[t] == before[t]);
            }
        }
        assert(path_view(p@) =~= keys@.map_values(|k: &str| k@).take(i + 1));
        i = i + 1;
    }
    assert(keys@.map_values(|k: &str| k@).take(i as int) =~= keys@.map_values(|k: &str| k@));
    p
}

/// The operation branch `b` describes (see [`branch_op`]).
fn branch_op_exec(b: &JsonValue) -> (r: Vec<char>)
    ensures
        r@ == branch_op(b.json()),
{
    let p = path_of(vec!["properties", "op", "enum"]);
    assert(path_view(p@).skip(0) =~= seq!["properties"@, "op"@, "enum"@]);
    match at_path_exec(b, &p, 0) {
        Some(JsonValue::Array(xs)) => {
            proof {
                lemma_array_json(*xs);
            }
            if xs.len() > 0 {
                match &xs[0] {
                    JsonValue::String(s) => chars_of(s.as_str()),
                    _ => Vec::new(),
                }
            } else {
                Vec::new()
            }
        },
        _ => Vec::new(),
    }
}

/// Where branch `b` names an existing field, if it does (see
/// [`read_field_path`]).
fn read_field_path_exec(b: &JsonValue) -> (r: Option<Vec<Vec<char>>>)
    ensures
        match read_field_path(branch_op(b.json())) {
            Some(p) => r matches Some(q) && path_view(q@) == p,
            None => r is None,
        },
{
    let op = branch_op_exec(b);
    if same_chars(&op, &chars_of("select_fields")) || same_chars(&op, &chars_of("drop_fields")) {
        let p = path_of(vec!["properties", "fields", "items", "enum"]);
        assert(path_view(p@) =~= seq!["properties"@, "fields"@, "items"@, "enum"@]);
        Some(p)
    } else if same_chars(&op, &chars_of("rename_field")) {
        let p = path_of(vec!["properties", "from", "enum"]);
        assert(path_view(p@) =~= seq!["properties"@, "from"@, "enum"@]);
        Some(p)
    } else if same_chars(&op, &chars_of("filter")) || same_chars(&op, &chars_of("map_field")) || same_chars(
        &op,
        &chars_of("sort_by"),
    ) {
        let p = path_of(vec!["properties", "field", "enum"]);
        assert(path_view(p@) =~= seq!["properties"@, "field"@, "enum"@]);
        Some(p)
    } else {
        None
    }
}

/// Whether `j` can be written along path `p[from..]` (see [`writable`]).
fn writable_exec(j: &JsonValue, p: &Vec<Vec<char>>, from: usize) -> (r: bool)
    requires
        from <= p@.len(),
    ensures
        r == writable(j.json(), path_view(p@).skip(from as int)),
    decreases p@.len() - from,
{
    if from == p.len() {
        assert(path_view(p@).skip(from as int) =~= Seq::<Seq<char>>::empty());
        return true;
    }
    let ghost rest = path_view(p@).skip(from as int);
    assert(rest[0] == p@[from as int]@);
    assert(rest.drop_first() =~= path_view(p@).skip(from + 1));
    match j {
        JsonValue::Object(es) => {
            proof {
                lemma_object_json(*es);
            }
            match row_get(es, &p[from]) {
                Some(v) => writable_exec(v, p, from + 1),
                None => {
                    proof {
                        lemma_null_writable(path_view(p@).skip(from + 1));
                    }
                    true
                },
            }
        },
        JsonValue::Null => {
            proof {
                lemma_null_writable(path_view(p@).skip(from + 1));
            }
            true
        },
        _ => false,
    }
}

proof fn lemma_null_writable(p: Seq<Seq<char>>)
    ensures
        writable(Json::Null, p),
    decreases p.len(),
{
    if p.len() > 0 {
        lemma_null_writable(p.drop_first());
    }
}

/// Whether `schema` can be narrowed to the input's fields (see
/// [`schema_writable`]).
pub fn schema_accepts_fields(schema: &JsonValue) -> (r: bool)
    ensures
        r == schema_writable(schema.json()),
{
    let p = path_of(vec!["properties", "ops", "items", "oneOf"]);
    assert(path_view(p@).skip(0) =~= branches_path());
    if !writable_exec(schema, &p, 0) {
        return false;
    }
    match at_path_exec(schema, &p, 0) {
        Some(JsonValue::Array(bs)) => {
            proof {
                lemma_array_json(*bs);
            }
            let ghost js = items_json(bs@);
            let mut i: usize = 0;
            while i < bs.len()
                invariant
                    i <= bs@.len(),
                    js == items_json(bs@),
                    at_path(schema.json(), branches_path()) == Json::Array(js),
                    writable(schema.json(), branches_path()),
                    forall|t: int| 0 <= t < i ==> branch_writable(#[trigger] js[t]),
                decreases bs@.len() - i,
            {
                assert(js[i as int] == bs@[i as int].json());
                let ok = match read_field_path_exec(&bs[i]) {
                    Some(q) => {
                        assert(path_view(q@).skip(0) =~= path_view(q@));
                        writable_exec(&bs[i], &q, 0)
                    },
                    None => true,
                };
                assert(ok == branch_writable(js[i as int]));
                if !ok {
                    proof {
                        let a = at_path(schema.json(), branches_path());
                        assert(a == Json::Array(js));
                        assert(!branch_writable(js[i as int]));
                        assert(!branches_writable(js));
                    }
                    return false;
                }
                i = i + 1;
            }
            true
        },
        _ => true,
    }
}

/// The program schema `schema` with every reference to an existing field
/// (in `select_fields`, `drop_fields`, `rename_field`'s `from`, `filter`,
/// `map_field` and `sort_by`) limited to `field_names`, so that a program
/// naming any other field cannot be written. `set_field` and
/// `rename_field`'s `to` stay open: they may add a field. With no field
/// names, the schema is returned unchanged.
pub fn program_schema_with_fields(schema: JsonValue, field_names: &Vec<String>) -> (r: JsonValue)
    requires
        schema_writable(schema.json()),
    ensures
        r.json() == schema_with_fields(schema.json(), field_names@.map_values(|s: String| s@)),
{
    let ghost names = field_names@.map_values(|s: String| s@);
    if field_names.len() == 0 {
        return schema;
    }
    let mut items: Vec<JsonValue> = Vec::new();
    let mut k: usize = 0;
    while k < field_names.len()
        invariant
            k <= field_names@.len(),
            items@.len() == k,
            names == field_names@.map_values(|s: String| s@),
            items_json(items@) == names.take(k as int).map_values(|n: Seq<char>| Json::Str(n)),
        decreases field_names@.len() - k,
    {
        let name = field_names[k].clone();
        assert(name@ == names[k as int]);
        let ghost before = items@;
        items.push(JsonValue::String(name));
        assert(items@ == before.push(JsonValue::String(name)));
        assert forall|t: int| 0 <= t < k + 1 implies #[trigger] items_json(items@)[t] == names.take(k + 1).map_values(|n: Seq<char>| Json::Str(n))[t] by {
            if t < k {
                assert(items@[t] == before[t]);
                assert(items_json(before)[t] == names.take(k as int).map_values(|n: Seq<char>| Json::Str(n))[t]);
            } else {
                assert(items@[t] == JsonValue::String(name));
            }
        }
        assert(items_json(items@) =~= names.take(k + 1).map_values(|n: Seq<char>| Json::Str(n)));
        k = k + 1;
    }
    assert(names.take(k as int) =~= names);
    let e = JsonValue::Array(items);
    proof {
        lemma_array_json(items);
    }
    let p = path_of(vec!["properties", "ops", "items", "oneOf"]);
    assert(path_view(p@).skip(0) =~= branches_path());
    let target = match at_path_exec(&schema, &p, 0) {
        Some(JsonValue::Array(bs)) => {
            proof {
                lemma_array_json(*bs);
            }
            let ghost js = items_json(bs@);
            assert(branches_writable(js));
            let mut out: Vec<JsonValue> = Vec::new();
            let mut i: usize = 0;
            assert(items_json(out@) =~= js.take(0).map_values(|b: Json| narrowed_branch(b, names_enum(names))));
            while i < bs.len()
                invariant
                    i <= bs@.len(),
                    out@.len() == i,
                    js == items_json(bs@),
                    schema_writable(schema.json()),
                    at_path(schema.json(), branches_path()) == Json::Array(js),
                    forall|t: int| 0 <= t < js.len() ==> branch_writable(#[trigger] js[t]),
                    e.json() == names_enum(names),
                    items_json(out@) == js.take(i as int).map_values(|b: Json| narrowed_branch(b, names_enum(names))),
                decreases bs@.len() - i,
            {
                assert(js[i as int] == bs@[i as int].json());
                assert(branch_writable(js[i as int]));
                let b = copy_value(&bs[i]);
                let nb = match read_field_path_exec(&bs[i]) {
                    Some(q) => {
                        assert(path_view(q@).skip(0) =~= path_view(q@));
                        put_exec(b, &q, 0, copy_value(&e))
                    },
                    None => b,
                };
                assert(nb.json() == narrowed_branch(js[i as int], names_enum(names)));
                let ghost before = out@;
                out.push(nb);
                assert(out@ == before.push(nb));
                assert forall|t: int| 0 <= t < i + 1 implies #[trigger] items_json(out@)[t] == js.take(i + 1).map_values(|b: Json| narrowed_branch(b, names_enum(names)))[t] by {
                    if t < i {
                        assert(out@[t] == before[t]);
                        assert(items_json(before)[t] == js.take(i as int).map_values(|b: Json| narrowed_branch(b, names_enum(names)))[t]);
                    } else {
                        assert(out@[t] == nb);
                    }
                }
                assert(items_json(out@) =~= js.take(i + 1).map_values(|b: Json| narrowed_branch(b, names_enum(names))));
                i = i + 1;
            }
            assert(js.take(i as int) =~= js);
            proof {
                lemma_array_json(out);
            }
            JsonValue::Array(out)
        },
        Some(other) => copy_value(other),
        None => JsonValue::Null,
    };
    put_exec(schema, &p, 0, target)
}

} // verus!
