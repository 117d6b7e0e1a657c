use vstd::prelude::*;
use crate::error::QueryError;

verus! {

broadcast use vstd::std_specs::vec::group_vec_axioms;

/// A JSON number as the evaluator sees it. Non-negative integers are `PosInt`,
/// negative ones `NegInt`; a number with a fraction or an exponent is kept as
/// its decimal text in `Float`.
pub enum JsonNumber {
    PosInt(u64),
    NegInt(i64),
    Float(String),
}

/// A JSON document. Object members keep their order.
pub enum Json {
    Null,
    Bool(bool),
    Number(JsonNumber),
    Str(String),
    Array(Vec<Json>),
    Object(Vec<(String, Json)>),
}

/// The mathematical value of a JSON number.
pub enum NumV {
    Int(int),
    Float(Seq<char>),
}

/// The mathematical value of a JSON document; an object is its keys and its values.
pub enum JsonV {
    Null,
    Bool(bool),
    Num(NumV),
    Str(Seq<char>),
    Array(Seq<JsonV>),
    Object(Seq<Seq<char>>, Seq<JsonV>),
}

impl View for JsonNumber {
    type V = NumV;

    open spec fn view(&self) -> NumV {
        match self {
            JsonNumber::PosInt(n) => NumV::Int(*n as int),
            JsonNumber::NegInt(n) => NumV::Int(*n as int),
            JsonNumber::Float(s) => NumV::Float(s@),
        }
    }
}

/// The member names of an object, in order.
pub open spec fn keys_of(v: Vec<(String, Json)>) -> Seq<Seq<char>> {
    Seq::new(v.len() as nat, |i: int| v[i].0@)
}

impl View for Json {
    type V = JsonV;

    open spec fn view(&self) -> JsonV
        decreases self,
    {
        match self {
            Json::Null => JsonV::Null,
            Json::Bool(b) => JsonV::Bool(*b),
            Json::Number(n) => JsonV::Num(n@),
            Json::Str(s) => JsonV::Str(s@),
            Json::Array(v) => JsonV::Array(
                Seq::new(v.len() as nat, |i: int| if 0 <= i < v.len() { v[i].view() } else { JsonV::Null }),
            ),
            Json::Object(v) => JsonV::Object(
                keys_of(*v),
                Seq::new(v.len() as nat, |i: int| if 0 <= i < v.len() { v[i].1.view() } else { JsonV::Null }),
            ),
        }
    }
}

/// The first member of an object with the given key, from `i` on.
pub open spec fn member_from(keys: Seq<Seq<char>>, vals: Seq<JsonV>, key: Seq<char>, i: int) -> JsonV
    decreases keys.len() - i,
{
    if i < 0 || i >= keys.len() {
        JsonV::Null
    } else if keys[i] == key {
        vals[i]
    } else {
        member_from(keys, vals, key, i + 1)
    }
}

/// `v[key]`: the member of an object, or null for a missing key or a value
/// that is not an object.
pub open spec fn member(v: JsonV, key: Seq<char>) -> JsonV {
    match v {
        JsonV::Object(keys, vals) => member_from(keys, vals, key, 0),
        _ => JsonV::Null,
    }
}

/// Descends through `path`, one key at a time, from `v[path[0]]` on.
pub open spec fn descend(v: JsonV, path: Seq<Seq<char>>) -> JsonV
    decreases path.len(),
{
    if path.len() == 0 {
        v
    } else {
        descend(member(v, path[0]), path.drop_first())
    }
}

/// An integer as a JSON number, when one can hold it.
pub open spec fn int_value(v: int) -> Result<JsonV, QueryError> {
    if i64::MIN <= v <= u64::MAX {
        Ok(JsonV::Num(NumV::Int(v)))
    } else {
        Err(QueryError::NumericOverflow)
    }
}

/// Division that rounds toward zero.
pub open spec fn trunc_div(a: int, b: int) -> int {
    let q = vstd::math::abs(a) / vstd::math::abs(b);
    if (a >= 0) == (b > 0) { q as int } else { -q }
}

impl JsonNumber {
    pub open spec fn is_int(&self) -> bool {
        !(self is Float)
    }

    pub fn is_int_exec(&self) -> (r: bool)
        ensures
            r == self.is_int(),
    {
        !matches!(self, JsonNumber::Float(_))
    }

    /// Builds the number for an integer in the range of JSON integers.
    pub fn from_int(v: i128) -> (r: JsonNumber)
        requires
            i64::MIN <= v <= u64::MAX,
        ensures
            r@ == NumV::Int(v as int),
    {
        if v >= 0 {
            JsonNumber::PosInt(v as u64)
        } else {
            JsonNumber::NegInt(v as i64)
        }
    }

    pub fn copy(&self) -> (r: JsonNumber)
        ensures
            r@ == self@,
    {
        match self {
            JsonNumber::PosInt(n) => JsonNumber::PosInt(*n),
            JsonNumber::NegInt(n) => JsonNumber::NegInt(*n),
            JsonNumber::Float(s) => JsonNumber::Float(s.clone()),
        }
    }

    /// The value of an integer number.
    pub fn int_of(&self) -> (r: i128)
        requires
            self.is_int(),
        ensures
            self@ == NumV::Int(r as int),
    {
        match self {
            JsonNumber::PosInt(n) => *n as i128,
            JsonNumber::NegInt(n) => *n as i128,
            JsonNumber::Float(_) => 0,
        }
    }
}

impl Json {
    /// A deep copy.
    pub fn copy(&self) -> (r: Json)
        ensures
            r@ == self@,
        decreases self,
    {
        match self {
            Json::Null => Json::Null,
            Json::Bool(b) => Json::Bool(*b),
            Json::Number(n) => Json::Number(n.copy()),
            Json::Str(s) => Json::Str(s.clone()),
            Json::Array(v) => {
                let mut out: Vec<Json> = Vec::new();
                let mut i: usize = 0;
                while i < v.len()
                    invariant
                        i <= v.len(),
                        *self == Json::Array(*v),
                        out.len() == i,
                        forall|k: int| 0 <= k < i ==> (#[trigger] out[k])@ == v[k]@,
                    decreases v.len() - i,
                {
                    proof {
                        assert(decreases_to!(*self => (*self)->Array_0));
                        assert(decreases_to!(*v => v[i as int]));
                    }
                    out.push(v[i].copy());
                    i = i + 1;
                }
                let r = Json::Array(out);
                assert(r@ == self@) by {
                    assert(r@->Array_0 =~= self@->Array_0);
                }
                r
            },
            Json::Object(v) => {
                let mut out: Vec<(String, Json)> = Vec::new();
                let mut i: usize = 0;
                while i < v.len()
                    invariant
                        i <= v.len(),
                        *self == Json::Object(*v),
                        out.len() == i,
                        forall|k: int| 0 <= k < i ==> (#[trigger] out[k]).0@ == v[k].0@ && out[k].1@ == v[k].1@,
                    decreases v.len() - i,
                {
                    proof {
                        assert(decreases_to!(*self => (*self)->Object_0));
                        assert(decreases_to!(*v => v[i as int]));
                        assert(decreases_to!(v[i as int] => v[i as int].1));
                    }
                    out.push((v[i].0.clone(), v[i].1.copy()));
                    i = i + 1;
                }
                let r = Json::Object(out);
                assert(r@ == self@) by {
                    assert(r@->Object_0 =~= self@->Object_0);
                    assert(r@->Object_1 =~= self@->Object_1);
                }
                r
            },
        }
    }

    /// `self[key]`: a copy of the first member named `key`, or null.
    pub fn get_member(&self, key: &String) -> (r: Json)
        ensures
            r@ == member(self@, key@),
    {
        match self {
            Json::Object(v) => {
                let ghost keys = self@->Object_0;
                let ghost vals = self@->Object_1;
                let mut i: usize = 0;
                while i < v.len()
                    invariant
                        i <= v.len(),
                        *self == Json::Object(*v),
                        keys == self@->Object_0,
                        vals == self@->Object_1,
                        member(self@, key@) == member_from(keys, vals, key@, i as int),
                    decreases v.len() - i,
                {
                    if v[i].0 == *key {
                        return v[i].1.copy();
                    }
                    i = i + 1;
                }
                Json::Null
            },
            _ => Json::Null,
        }
    }

    /// Reads `self[path[0]][path[1]]...`.
    pub fn descend_path(&self, path: &Vec<String>) -> (r: Json)
        ensures
            r@ == descend(self@, path@.map_values(|s: String| s@)),
    {
        let mut cur = self.copy();
        let mut i: usize = 0;
        let ghost p = path@.map_values(|s: String| s@);
        assert(p.subrange(0, p.len() as int) =~= p);
        while i < path.len()
            invariant
                i <= path.len(),
                p == path@.map_values(|s: String| s@),
                descend(self@, p) == descend(cur@, p.subrange(i as int, p.len() as int)),
            decreases path.len() - i,
        {
            proof {
                let rest = p.subrange(i as int, p.len() as int);
                assert(rest.drop_first() =~= p.subrange(i + 1, p.len() as int));
                assert(rest[0] == path[i as int]@);
            }
            cur = cur.get_member(&path[i]);
            i = i + 1;
        }
        proof {
            assert(p.subrange(i as int, p.len() as int) =~= Seq::<Seq<char>>::empty());
        }
        cur
    }
}

} // verus!
