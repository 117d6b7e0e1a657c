use vstd::prelude::*;
use crate::execute::{NestedQueryResult, SimpleQueryResult};
use crate::json::{keys_of, Json, JsonV};

verus! {

broadcast use vstd::std_specs::vec::group_vec_axioms;

/// The shape of a JSON value. An array or object shape without contents
/// admits any elements or members.
pub enum SchemaNode {
    Null,
    Bool,
    Number,
    String,
    Array(Option<Box<SchemaNode>>),
    /// Required members: each name with the shape of its value.
    Object(Option<Vec<(String, SchemaNode)>>),
    Nullable(Box<SchemaNode>),
}

/// The mathematical value of a shape; object members as names and shapes.
pub enum SchemaV {
    Null,
    Bool,
    Number,
    String,
    AnyArray,
    Array(Box<SchemaV>),
    AnyObject,
    Object(Seq<Seq<char>>, Seq<SchemaV>),
    Nullable(Box<SchemaV>),
}

impl View for SchemaNode {
    type V = SchemaV;

    open spec fn view(&self) -> SchemaV
        decreases self,
    {
        match self {
            SchemaNode::Null => SchemaV::Null,
            SchemaNode::Bool => SchemaV::Bool,
            SchemaNode::Number => SchemaV::Number,
            SchemaNode::String => SchemaV::String,
            SchemaNode::Array(None) => SchemaV::AnyArray,
            SchemaNode::Array(Some(e)) => SchemaV::Array(Box::new((**e).view())),
            SchemaNode::Object(None) => SchemaV::AnyObject,
            SchemaNode::Object(Some(v)) => SchemaV::Object(
                Seq::new(v.len() as nat, |i: int| v[i].0@),
                Seq::new(v.len() as nat, |i: int| if 0 <= i < v.len() { v[i].1.view() } else { SchemaV::Null }),
            ),
            SchemaNode::Nullable(t) => SchemaV::Nullable(Box::new((**t).view())),
        }
    }
}

impl SchemaNode {
    /// The member names of every object shape are distinct, at every depth.
    pub open spec fn wf(&self) -> bool
        decreases self,
    {
        match self {
            SchemaNode::Array(Some(e)) => (**e).wf(),
            SchemaNode::Object(Some(v)) => {
                &&& forall|i: int, j: int| 0 <= i < j < v.len() ==> v[i].0@ != v[j].0@
                &&& forall|i: int| 0 <= i < v.len() ==> (#[trigger] v[i]).1.wf()
            },
            SchemaNode::Nullable(t) => (**t).wf(),
            _ => true,
        }
    }
}

/// Whether two shapes agree: equal, a nullable shape against null, or two
/// arrays (two objects) one of which leaves its contents open.
pub open spec fn shapes_agree(a: SchemaV, b: SchemaV) -> bool {
    if a == b {
        true
    } else {
        match (a, b) {
            (SchemaV::Nullable(_), SchemaV::Null) => true,
            (SchemaV::Null, SchemaV::Nullable(_)) => true,
            (SchemaV::AnyArray, SchemaV::Array(_)) => true,
            (SchemaV::Array(_), SchemaV::AnyArray) => true,
            (SchemaV::AnyObject, SchemaV::Object(_, _)) => true,
            (SchemaV::Object(_, _), SchemaV::AnyObject) => true,
            _ => false,
        }
    }
}

/// The position of the first member named `key`, if any.
pub open spec fn key_index(keys: Seq<Seq<char>>, key: Seq<char>) -> Option<int> {
    if exists|i: int| 0 <= i < keys.len() && keys[i] == key {
        Some(choose|i: int| 0 <= i < keys.len() && keys[i] == key && forall|j: int| 0 <= j < i ==> keys[j] != key)
    } else {
        None
    }
}

/// Whether a value has a shape.
pub open spec fn fits(s: SchemaV, v: JsonV) -> bool
    decreases s,
{
    match s {
        SchemaV::Null => v is Null,
        SchemaV::Bool => v is Bool,
        SchemaV::Number => v is Num,
        SchemaV::String => v is Str,
        SchemaV::AnyArray => v is Array,
        SchemaV::Array(e) => match v {
            JsonV::Array(items) => forall|i: int| 0 <= i < items.len() ==> fits(*e, #[trigger] items[i]),
            _ => false,
        },
        SchemaV::AnyObject => v is Object,
        SchemaV::Object(names, shapes) => match v {
            JsonV::Object(keys, vals) => forall|i: int| 0 <= i < names.len() && i < shapes.len() ==> {
                &&& key_index(keys, #[trigger] names[i]) is Some
                &&& fits(shapes[i], vals[key_index(keys, names[i])->Some_0])
            },
            _ => false,
        },
        SchemaV::Nullable(t) => v is Null || fits(*t, v),
    }
}

/// Whether two shapes are equal.
pub fn schema_eq(a: &SchemaNode, b: &SchemaNode) -> (r: bool)
    ensures
        r == (a@ == b@),
    decreases a,
{
    match (a, b) {
        (SchemaNode::Null, SchemaNode::Null) => true,
        (SchemaNode::Bool, SchemaNode::Bool) => true,
        (SchemaNode::Number, SchemaNode::Number) => true,
        (SchemaNode::String, SchemaNode::String) => true,
        (SchemaNode::Array(None), SchemaNode::Array(None)) => true,
        (SchemaNode::Array(Some(x)), SchemaNode::Array(Some(y))) => {
            let r = schema_eq(x, y);
            proof {
                if !r {
                    assert(a@->Array_0 != b@->Array_0);
                }
            }
            r
        },
        (SchemaNode::Object(None), SchemaNode::Object(None)) => true,
        (SchemaNode::Object(Some(v)), SchemaNode::Object(Some(w))) => {
            let ghost av = (a@->Object_0, a@->Object_1);
            let ghost bv = (b@->Object_0, b@->Object_1);
            if v.len() != w.len() {
                proof {
                    assert(av.0.len() != bv.0.len());
                }
                return false;
            }
            let mut i: usize = 0;
            while i < v.len()
                invariant
                    i <= v.len(),
                    v.len() == w.len(),
                    *a == SchemaNode::Object(Some(*v)),
                    *b == SchemaNode::Object(Some(*w)),
                    av == (a@->Object_0, a@->Object_1),
                    bv == (b@->Object_0, b@->Object_1),
                    av.0.len() == v.len() && av.1.len() == v.len(),
                    bv.0.len() == w.len() && bv.1.len() == w.len(),
                    forall|k: int| 0 <= k < i ==> av.0[k] == bv.0[k] && av.1[k] == bv.1[k],
                decreases v.len() - i,
            {
                proof {
                    assert(decreases_to!(*a => (*a)->Object_0));
                    assert(decreases_to!(*v => v[i as int]));
                }
                if v[i].0 != w[i].0 {
                    proof {
                        assert(av.0[i as int] != bv.0[i as int]);
                    }
                    return false;
                }
                let same = schema_eq(&v[i].1, &w[i].1);
                proof {
                    assert(av.1[i as int] == v@[i as int].1@);
                    assert(bv.1[i as int] == w@[i as int].1@);
                }
                if !same {
                    return false;
                }
                i = i + 1;
            }
            proof {
                assert(av.0 =~= bv.0);
                assert(av.1 =~= bv.1);
            }
            true
        },
        (SchemaNode::Nullable(x), SchemaNode::Nullable(y)) => {
            let r = schema_eq(x, y);
            proof {
                if !r {
                    assert(a@->Nullable_0 != b@->Nullable_0);
                }
            }
            r
        },
        _ => false,
    }
}

impl SchemaNode {
    /// Whether this shape agrees with another.
    pub fn validate_schema(&self, other: &SchemaNode) -> (r: bool)
        ensures
            r == shapes_agree(self@, other@),
    {
        if schema_eq(self, other) {
            return true;
        }
        match (self, other) {
            (SchemaNode::Nullable(_), SchemaNode::Null) => true,
            (SchemaNode::Null, SchemaNode::Nullable(_)) => true,
            (SchemaNode::Array(o1), SchemaNode::Array(o2)) => o1.is_none() || o2.is_none(),
            (SchemaNode::Object(o1), SchemaNode::Object(o2)) => o1.is_none() || o2.is_none(),
            _ => false,
        }
    }

    /// The open shape of a value's kind.
    pub fn from(value: &Json) -> (r: SchemaNode)
        ensures
            fits(r@, value@),
            r.wf(),
            value is Array ==> r@ == SchemaV::AnyArray,
            value is Object ==> r@ == SchemaV::AnyObject,
    {
        match value {
            Json::Null => SchemaNode::Null,
            Json::Bool(_) => SchemaNode::Bool,
            Json::Number(_) => SchemaNode::Number,
            Json::Str(_) => SchemaNode::String,
            Json::Array(_) => SchemaNode::Array(None),
            Json::Object(_) => SchemaNode::Object(None),
        }
    }

    /// Whether a value has this shape.
    pub fn validate_json(&self, json_value: &Json) -> (r: bool)
        ensures
            r == fits(self@, json_value@),
        decreases self,
    {
        match self {
            SchemaNode::Null => matches!(json_value, Json::Null),
            SchemaNode::Bool => matches!(json_value, Json::Bool(_)),
            SchemaNode::Number => matches!(json_value, Json::Number(_)),
            SchemaNode::String => matches!(json_value, Json::Str(_)),
            SchemaNode::Array(None) => matches!(json_value, Json::Array(_)),
            SchemaNode::Array(Some(e)) => match json_value {
                Json::Array(items) => {
                    let ghost iv = json_value@->Array_0;
                    let mut i: usize = 0;
                    while i < items.len()
                        invariant
                            i <= items.len(),
                            *json_value == Json::Array(*items),
                            iv == json_value@->Array_0,
                            *self == SchemaNode::Array(Some(*e)),
                            iv.len() == items.len(),
                            forall|k: int| 0 <= k < i ==> fits((**e)@, #[trigger] iv[k]),
                        decreases items.len() - i,
                    {
                        proof {
                            assert(decreases_to!(*self => (*self)->Array_0));
                            assert(decreases_to!((*self)->Array_0 => (*self)->Array_0->Some_0));
                            assert(iv[i as int] == items@[i as int]@);
                        }
                        if !e.validate_json(&items[i]) {
                            return false;
                        }
                        i = i + 1;
                    }
                    true
                },
                _ => false,
            },
            SchemaNode::Object(None) => matches!(json_value, Json::Object(_)),
            SchemaNode::Object(Some(fields)) => match json_value {
                Json::Object(members) => {
                    let ghost sv = (self@->Object_0, self@->Object_1);
                    let ghost keys = json_value@->Object_0;
                    let ghost vals = json_value@->Object_1;
                    let mut i: usize = 0;
                    while i < fields.len()
                        invariant
                            i <= fields.len(),
                            *self == SchemaNode::Object(Some(*fields)),
                            *json_value == Json::Object(*members),
                            sv == (self@->Object_0, self@->Object_1),
                            keys == json_value@->Object_0,
                            vals == json_value@->Object_1,
                            keys == keys_of(*members),
                            vals.len() == members.len(),
                            sv.0.len() == fields.len() && sv.1.len() == fields.len(),
                            forall|k: int| 0 <= k < i ==> {
                                &&& key_index(keys, #[trigger] sv.0[k]) is Some
                                &&& fits(sv.1[k], vals[key_index(keys, sv.0[k])->Some_0])
                            },
                        decreases fields.len() - i,
                    {
                        proof {
                            assert(decreases_to!(*self => (*self)->Object_0));
                            assert(decreases_to!((*self)->Object_0 => (*self)->Object_0->Some_0));
                            assert(decreases_to!(*fields => fields[i as int]));
                        }
                        let found = find_member(members, &fields[i].0);
                        proof {
                            assert(sv.0[i as int] == fields@[i as int].0@);
                            assert(sv.1[i as int] == fields@[i as int].1@);
                        }
                        match found {
                            None => return false,
                            Some(j) => {
                                proof {
                                    assert(vals[j as int] == members@[j as int].1@);
                                    assert(key_index(keys, sv.0[i as int]) == Some(j as int));
                                }
                                let ok = fields[i].1.validate_json(&members[j].1);
                                proof {
                                    assert(ok == fits(sv.1[i as int], vals[key_index(keys, sv.0[i as int])->Some_0]));
                                }
                                if !ok {
                                    return false;
                                }
                            },
                        }
                        i = i + 1;
                    }
                    true
                },
                _ => false,
            },
            SchemaNode::Nullable(t) => {
                if matches!(json_value, Json::Null) {
                    true
                } else {
                    t.validate_json(json_value)
                }
            },
        }
    }
}

/// The position of the first member of an object named `key`.
fn find_member(members: &Vec<(String, Json)>, key: &String) -> (r: Option<usize>)
    ensures
        r matches Some(j) ==> j < members.len() && key_index(keys_of(*members), key@) == Some(j as int),
        r is None ==> key_index(keys_of(*members), key@) is None,
{
    let ghost keys = keys_of(*members);
    let mut i: usize = 0;
    while i < members.len()
        invariant
            i <= members.len(),
            keys == keys_of(*members),
            forall|j: int| 0 <= j < i ==> keys[j] != key@,
        decreases members.len() - i,
    {
        if members[i].0 == *key {
            proof {
                let c = key_index(keys, key@)->Some_0;
                assert(keys[i as int] == key@);
                if c < i {
                    assert(keys[c] != key@);
                }
                if c > i {
                    assert(keys[i as int] != key@);
                }
            }
            return Some(i);
        }
        i = i + 1;
    }
    None
}

/// Whether each value has the shape at its position, and there are as many of each.
pub open spec fn all_fit(schema: Seq<SchemaV>, values: Seq<JsonV>) -> bool {
    &&& schema.len() == values.len()
    &&& forall|i: int| 0 <= i < schema.len() ==> fits(#[trigger] schema[i], values[i])
}

pub open spec fn schema_view(schema: Vec<SchemaNode>) -> Seq<SchemaV> {
    schema@.map_values(|s: SchemaNode| s@)
}

/// The values of a `SELECT` result.
pub open spec fn result_values(output: SimpleQueryResult) -> Seq<JsonV> {
    output@.result.map_values(|p: (Seq<char>, JsonV)| p.1)
}

/// The open shape of each value's kind.
pub fn output_to_schema(output: &Vec<Json>) -> (r: Vec<SchemaNode>)
    ensures
        r.len() == output.len(),
        all_fit(schema_view(r), output@.map_values(|j: Json| j@)),
        forall|i: int| 0 <= i < r.len() ==> (#[trigger] r@[i]).wf(),
{
    let mut r: Vec<SchemaNode> = Vec::new();
    let mut i: usize = 0;
    while i < output.len()
        invariant
            i <= output.len(),
            r.len() == i,
            forall|k: int| 0 <= k < i ==> fits((#[trigger] r@[k])@, output@[k]@) && r@[k].wf(),
        decreases output.len() - i,
    {
        r.push(SchemaNode::from(&output[i]));
        i = i + 1;
    }
    r
}

/// Whether each value has the shape at its position.
pub fn validate_schema(schema: &Vec<SchemaNode>, output: &Vec<Json>) -> (r: bool)
    ensures
        r == all_fit(schema_view(*schema), output@.map_values(|j: Json| j@)),
{
    if schema.len() != output.len() {
        return false;
    }
    let mut i: usize = 0;
    while i < schema.len()
        invariant
            i <= schema.len(),
            schema.len() == output.len(),
            forall|k: int| 0 <= k < i ==> fits((#[trigger] schema@[k])@, output@[k]@),
        decreases schema.len() - i,
    {
        if !schema[i].validate_json(&output[i]) {
            proof {
                assert(!fits(schema_view(*schema)[i as int], output@.map_values(|j: Json| j@)[i as int]));
            }
            return false;
        }
        i = i + 1;
    }
    proof {
        let sv = schema_view(*schema);
        let ov = output@.map_values(|j: Json| j@);
        assert forall|k: int| 0 <= k < sv.len() implies fits(#[trigger] sv[k], ov[k]) by {
            assert(fits(schema@[k]@, output@[k]@));
        }
    }
    true
}

/// Whether the values of a `SELECT` result have the shapes, position by position.
pub fn validate_simple_query_result(schema: &Vec<SchemaNode>, output: &SimpleQueryResult) -> (r: bool)
    ensures
        r == all_fit(schema_view(*schema), result_values(*output)),
{
    let mut values: Vec<Json> = Vec::new();
    let mut i: usize = 0;
    while i < output.result.len()
        invariant
            i <= output.result.len(),
            values.len() == i,
            forall|k: int| 0 <= k < i ==> (#[trigger] values@[k])@ == output.result@[k].1@,
        decreases output.result.len() - i,
    {
        values.push(output.result[i].1.copy());
        i = i + 1;
    }
    proof {
        assert(values@.map_values(|j: Json| j@) =~= result_values(*output));
    }
    validate_schema(schema, &values)
}

/// For each row of a `FOREACH` result: whether it is a result whose values
/// have the shapes; a failed row does not.
pub fn validate_nested_query_result(schema: &Vec<SchemaNode>, output: &NestedQueryResult) -> (r: Vec<bool>)
    ensures
        r.len() == output.result.len(),
        forall|i: int| 0 <= i < r.len() ==> #[trigger] r@[i] == match output.result@[i] {
            Ok(row) => all_fit(schema_view(*schema), result_values(row)),
            Err(_) => false,
        },
{
    let mut r: Vec<bool> = Vec::new();
    let mut i: usize = 0;
    while i < output.result.len()
        invariant
            i <= output.result.len(),
            r.len() == i,
            forall|k: int| 0 <= k < i ==> #[trigger] r@[k] == match output.result@[k] {
                Ok(row) => all_fit(schema_view(*schema), result_values(row)),
                Err(_) => false,
            },
        decreases output.result.len() - i,
    {
        let ok = match &output.result[i] {
            Ok(row) => validate_simple_query_result(schema, row),
            Err(_) => false,
        };
        r.push(ok);
        i = i + 1;
    }
    r
}

} // verus!
