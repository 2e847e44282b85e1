//! JSON values and the filling of GraphQL introspection types that the
//! explorer shows for an application.
use vstd::prelude::*;
use vstd::string::StringExecFns;

verus! {

broadcast use vstd::std_specs::vec::axiom_vec_index_decreases;

/// A JSON value; a number is kept as its text, an object as its fields in
/// order (no name twice).
#[derive(Debug)]
pub enum Json {
    Null,
    Bool(bool),
    Number(String),
    String(String),
    Array(Vec<Json>),
    Object(Vec<(String, Json)>),
}

/// What a JSON value holds, over sequences.
pub enum JsonValue {
    Null,
    Bool(bool),
    Number(Seq<char>),
    Str(Seq<char>),
    Array(Seq<JsonValue>),
    /// The names of the fields and their values, in order.
    Object(Seq<Seq<char>>, Seq<JsonValue>),
}

/// The fields of an object, as pairs of a name and a value.
pub open spec fn fields_of(names: Seq<Seq<char>>, values: Seq<JsonValue>) -> Seq<(Seq<char>, JsonValue)> {
    Seq::new(names.len(), |i: int| (names[i], values[i]))
}

/// The object with the fields `o`.
pub open spec fn object(o: Seq<(Seq<char>, JsonValue)>) -> JsonValue {
    JsonValue::Object(Seq::new(o.len(), |i: int| o[i].0), Seq::new(o.len(), |i: int| o[i].1))
}

/// The fields of an object value, as pairs (none for other values).
pub open spec fn fields(v: JsonValue) -> Seq<(Seq<char>, JsonValue)> {
    match v {
        JsonValue::Object(names, values) => fields_of(names, values),
        _ => Seq::empty(),
    }
}

/// An object is given back by its fields.
pub proof fn lemma_object_fields(o: Seq<(Seq<char>, JsonValue)>)
    ensures
        fields(object(o)) == o,
        object(o) is Object,
{
    assert(fields(object(o)) =~= o);
}

impl View for Json {
    type V = JsonValue;

    open spec fn view(&self) -> JsonValue
        decreases self,
    {
        match self {
            Json::Null => JsonValue::Null,
            Json::Bool(b) => JsonValue::Bool(*b),
            Json::Number(n) => JsonValue::Number(n@),
            Json::String(s) => JsonValue::Str(s@),
            Json::Array(a) => JsonValue::Array(
                Seq::new(
                    a@.len(),
                    |i: int|
                        if 0 <= i < a@.len() {
                            a[i].view()
                        } else {
                            JsonValue::Null
                        },
                ),
            ),
            Json::Object(o) => JsonValue::Object(
                Seq::new(o@.len(), |i: int| o@[i].0@),
                Seq::new(
                    o@.len(),
                    |i: int|
                        if 0 <= i < o@.len() {
                            o[i].1.view()
                        } else {
                            JsonValue::Null
                        },
                ),
            ),
        }
    }
}

/// The view of an array or an object, by its elements or fields.
pub proof fn lemma_view(j: Json)
    ensures
        match j {
            Json::Array(a) => j@ == JsonValue::Array(json_views(a@)),
            Json::Object(o) => j@ == object(field_views(o@)),
            _ => true,
        },
{
    match j {
        Json::Array(a) => {
            if let JsonValue::Array(x) = j@ {
                assert(x =~= json_views(a@));
            }
        },
        Json::Object(o) => {
            if let JsonValue::Object(names, values) = j@ {
                let x = object(field_views(o@));
                assert(names =~= x->Object_0);
                assert(values =~= x->Object_1);
            }
        },
        _ => {},
    }
}

/// A list of JSON values, as values.
pub open spec fn json_views(s: Seq<Json>) -> Seq<JsonValue> {
    Seq::new(s.len(), |i: int| s[i]@)
}

/// A list of fields, as values.
pub open spec fn field_views(s: Seq<(String, Json)>) -> Seq<(Seq<char>, JsonValue)> {
    Seq::new(s.len(), |i: int| (s[i].0@, s[i].1@))
}

/// The value of the first field named `k` (null if there is none), as
/// `value[k]` gives it.
pub open spec fn field(o: Seq<(Seq<char>, JsonValue)>, k: Seq<char>) -> JsonValue
    decreases o.len(),
{
    if o.len() == 0 {
        JsonValue::Null
    } else if o[0].0 == k {
        o[0].1
    } else {
        field(o.drop_first(), k)
    }
}

/// `v[k]`: the field `k` of an object, else null.
pub open spec fn index(v: JsonValue, k: Seq<char>) -> JsonValue {
    match v {
        JsonValue::Object(names, values) => field(fields_of(names, values), k),
        _ => JsonValue::Null,
    }
}

/// The fields with `k` set to `v`: in place if there is such a field, else
/// at the end.
pub open spec fn insert_field(o: Seq<(Seq<char>, JsonValue)>, k: Seq<char>, v: JsonValue) -> Seq<(Seq<char>, JsonValue)>
    decreases o.len(),
{
    if o.len() == 0 {
        seq![(k, v)]
    } else if o[0].0 == k {
        o.update(0, (k, v))
    } else {
        seq![o[0]] + insert_field(o.drop_first(), k, v)
    }
}

/// The text of a string value.
pub open spec fn as_str(v: JsonValue) -> Option<Seq<char>> {
    match v {
        JsonValue::Str(s) => Some(s),
        _ => None,
    }
}

/// The first type whose `name` is the string `name`.
pub open spec fn find_named(types: Seq<JsonValue>, name: Seq<char>) -> Option<JsonValue>
    decreases types.len(),
{
    if types.len() == 0 {
        None
    } else if index(types[0], "name"@) == JsonValue::Str(name) {
        Some(types[0])
    } else {
        find_named(types.drop_first(), name)
    }
}

/// The definition that filling uses for a name is the first type of the
/// list whose `name` field is that text, and there is none exactly when no
/// type has that name.
pub proof fn law_find_named(types: Seq<JsonValue>, name: Seq<char>)
    ensures
        find_named(types, name) is None <==> forall|i: int| 0 <= i < types.len() ==> #[trigger] index(types[i], "name"@)
            != JsonValue::Str(name),
        find_named(types, name) matches Some(d) ==> exists|i: int|
            0 <= i < types.len() && types[i] == d && index(d, "name"@) == JsonValue::Str(name) && forall|j: int|
                0 <= j < i ==> #[trigger] index(types[j], "name"@) != JsonValue::Str(name),
    decreases types.len(),
{
    if types.len() > 0 {
        let rest = types.drop_first();
        law_find_named(rest, name);
        if index(types[0], "name"@) == JsonValue::Str(name) {
            assert(0 <= 0 < types.len() && types[0] == types[0]);
        } else {
            assert forall|i: int| 1 <= i < types.len() implies types[i] == rest[i - 1] by {}
            if let Some(d) = find_named(rest, name) {
                let k = choose|k: int|
                    0 <= k < rest.len() && rest[k] == d && index(d, "name"@) == JsonValue::Str(name) && forall|j: int|
                        0 <= j < k ==> #[trigger] index(rest[j], "name"@) != JsonValue::Str(name);
                assert forall|j: int| 0 <= j < k + 1 implies #[trigger] index(types[j], "name"@) != JsonValue::Str(
                    name,
                ) by {
                    if j > 0 {
                        assert(types[j] == rest[j - 1]);
                    }
                }
                assert(types[k + 1] == d);
            } else {
                assert forall|i: int| 0 <= i < types.len() implies #[trigger] index(types[i], "name"@)
                    != JsonValue::Str(name) by {
                    if i > 0 {
                        assert(types[i] == rest[i - 1]);
                    }
                }
            }
        }
    }
}

/// The first type whose `name` equals `name`, and its `fields`.
pub open spec fn entrypoints_spec(types: Seq<JsonValue>, name: JsonValue) -> Option<JsonValue>
    decreases types.len(),
{
    if types.len() == 0 {
        None
    } else if index(types[0], "name"@) == name {
        Some(index(types[0], "fields"@))
    } else {
        entrypoints_spec(types.drop_first(), name)
    }
}

/// Fills each value of a list, with at most `fuel` nested fillings.
pub open spec fn fill_all(a: Seq<JsonValue>, types: Seq<JsonValue>, fuel: nat) -> Option<Seq<JsonValue>>
    decreases fuel, 1nat, a.len(),
{
    if a.len() == 0 {
        Some(Seq::empty())
    } else {
        match fill_all(a.drop_last(), types, fuel) {
            None => None,
            Some(r) => match fill_spec(a.last(), types, fuel) {
                None => None,
                Some(v) => Some(r.push(v)),
            },
        }
    }
}

/// Fills the definitions named `name` into the list `list` (`fields`,
/// `inputFields` or `enumValues`) of an object.
pub open spec fn fill_list(
    o: Seq<(Seq<char>, JsonValue)>,
    types: Seq<JsonValue>,
    name: Seq<char>,
    list: Seq<char>,
    fuel: nat,
) -> Option<Seq<(Seq<char>, JsonValue)>>
    decreases fuel, 2nat, 0nat,
{
    match find_named(types, name) {
        None => Some(o),
        Some(def) => match index(def, list) {
            JsonValue::Array(fs) => match fill_all(fs, types, fuel) {
                None => None,
                Some(v) => Some(insert_field(o, list, JsonValue::Array(v))),
            },
            _ => None,
        },
    }
}

/// Fills a GraphQL introspection element with the definitions of the types
/// it names, as deep as `fuel` allows (`None` when that is not enough, or a
/// definition lacks its list of fields).
pub open spec fn fill_spec(e: JsonValue, types: Seq<JsonValue>, fuel: nat) -> Option<JsonValue>
    decreases fuel, 0nat, 0nat,
{
    if fuel == 0 {
        None
    } else {
        let f = (fuel - 1) as nat;
        match e {
            JsonValue::Array(a) => match fill_all(a, types, f) {
                None => None,
                Some(v) => Some(JsonValue::Array(v)),
            },
            JsonValue::Object(names, values) => {
                let o = fields_of(names, values);
                let name = as_str(field(o, "name"@));
                let kind = as_str(field(o, "kind"@));
                let of_type = field(o, "ofType"@);
                let first = if kind == Some("OBJECT"@) && name is Some {
                    fill_list(o, types, name->0, "fields"@, f)
                } else if kind == Some("INPUT_OBJECT"@) && name is Some {
                    fill_list(o, types, name->0, "inputFields"@, f)
                } else if kind == Some("ENUM"@) && name is Some {
                    fill_list(o, types, name->0, "enumValues"@, f)
                } else if (kind == Some("LIST"@) || kind == Some("NON_NULL"@)) && name is Some && of_type
                    == JsonValue::Null {
                    match find_named(types, name->0) {
                        None => Some(o),
                        Some(def) => match fill_spec(def, types, f) {
                            None => None,
                            Some(v) => Some(insert_field(o, "ofType"@, v)),
                        },
                    }
                } else {
                    Some(o)
                };
                match (first, fill_spec(of_type, types, f), fill_spec(field(o, "type"@), types, f), fill_spec(
                    field(o, "args"@),
                    types,
                    f,
                )) {
                    (Some(o1), Some(a), Some(b), Some(c)) => {
                        let o2 = insert_field(insert_field(insert_field(o1, "ofType"@, a), "type"@, b), "args"@, c);
                        let o3 = if kind == Some("LIST"@) {
                            insert_field(o2, "_input"@, JsonValue::Array(Seq::empty()))
                        } else {
                            o2
                        };
                        let o4 = if kind == Some("SCALAR"@) || kind == Some("ENUM"@) || kind == Some("OBJECT"@) {
                            insert_field(o3, "_include"@, JsonValue::Bool(true))
                        } else {
                            o3
                        };
                        Some(object(o4))
                    },
                    _ => None,
                }
            },
            _ => Some(e),
        }
    }
}

/// Filling `e` ends without a missing list of fields.
pub open spec fn fill_terminates(e: JsonValue, types: Seq<JsonValue>) -> bool {
    exists|fuel: nat| fuel <= u64::MAX && #[trigger] fill_spec(e, types, fuel) is Some
}

/// The filled element (when filling ends).
pub open spec fn fill_type_spec(e: JsonValue, types: Seq<JsonValue>) -> JsonValue {
    fill_spec(e, types, choose|fuel: nat| #[trigger] fill_spec(e, types, fuel) is Some)->0
}

/// More fuel fills to the same result.
pub proof fn lemma_fill_mono(e: JsonValue, types: Seq<JsonValue>, f1: nat, f2: nat)
    requires
        f1 <= f2,
        fill_spec(e, types, f1) is Some,
    ensures
        fill_spec(e, types, f2) == fill_spec(e, types, f1),
    decreases f1, 0nat, 0nat,
{
    let g1 = (f1 - 1) as nat;
    let g2 = (f2 - 1) as nat;
    match e {
        JsonValue::Array(a) => {
            lemma_fill_all_mono(a, types, g1, g2);
        },
        JsonValue::Object(names, values) => {
            let o = fields_of(names, values);
            let name = as_str(field(o, "name"@));
            let kind = as_str(field(o, "kind"@));
            let of_type = field(o, "ofType"@);
            if kind == Some("OBJECT"@) && name is Some {
                lemma_fill_list_mono(o, types, name->0, "fields"@, g1, g2);
            } else if kind == Some("INPUT_OBJECT"@) && name is Some {
                lemma_fill_list_mono(o, types, name->0, "inputFields"@, g1, g2);
            } else if kind == Some("ENUM"@) && name is Some {
                lemma_fill_list_mono(o, types, name->0, "enumValues"@, g1, g2);
            } else if (kind == Some("LIST"@) || kind == Some("NON_NULL"@)) && name is Some && of_type
                == JsonValue::Null {
                if let Some(def) = find_named(types, name->0) {
                    lemma_fill_mono(def, types, g1, g2);
                }
            }
            lemma_fill_mono(of_type, types, g1, g2);
            lemma_fill_mono(field(o, "type"@), types, g1, g2);
            lemma_fill_mono(field(o, "args"@), types, g1, g2);
        },
        _ => {},
    }
}

/// More fuel fills a list to the same result.
pub proof fn lemma_fill_all_mono(a: Seq<JsonValue>, types: Seq<JsonValue>, f1: nat, f2: nat)
    requires
        f1 <= f2,
        fill_all(a, types, f1) is Some,
    ensures
        fill_all(a, types, f2) == fill_all(a, types, f1),
    decreases f1, 1nat, a.len(),
{
    if a.len() > 0 {
        lemma_fill_all_mono(a.drop_last(), types, f1, f2);
        lemma_fill_mono(a.last(), types, f1, f2);
    }
}

/// More fuel fills the list of a definition to the same result.
pub proof fn lemma_fill_list_mono(
    o: Seq<(Seq<char>, JsonValue)>,
    types: Seq<JsonValue>,
    name: Seq<char>,
    list: Seq<char>,
    f1: nat,
    f2: nat,
)
    requires
        f1 <= f2,
        fill_list(o, types, name, list, f1) is Some,
    ensures
        fill_list(o, types, name, list, f2) == fill_list(o, types, name, list, f1),
    decreases f1, 2nat, 0nat,
{
    if let Some(def) = find_named(types, name) {
        if let JsonValue::Array(fs) = index(def, list) {
            lemma_fill_all_mono(fs, types, f1, f2);
        }
    }
}

pub proof fn lemma_fill_all(a: Seq<JsonValue>, types: Seq<JsonValue>, fuel: nat)
    requires
        fill_all(a, types, fuel) is Some,
    ensures
        fill_all(a, types, fuel)->0.len() == a.len(),
        forall|i: int|
            0 <= i < a.len() ==> #[trigger] fill_spec(a[i], types, fuel) == Some(fill_all(a, types, fuel)->0[i]),
    decreases a.len(),
{
    if a.len() > 0 {
        lemma_fill_all(a.drop_last(), types, fuel);
        assert forall|i: int| 0 <= i < a.len() implies #[trigger] fill_spec(a[i], types, fuel) == Some(
            fill_all(a, types, fuel)->0[i],
        ) by {
            if i < a.len() - 1 {
                assert(a.drop_last()[i] == a[i]);
            }
        }
    }
}

pub proof fn lemma_fill_all_intro(a: Seq<JsonValue>, types: Seq<JsonValue>, fuel: nat, v: Seq<JsonValue>)
    requires
        v.len() == a.len(),
        forall|i: int| 0 <= i < a.len() ==> #[trigger] fill_spec(a[i], types, fuel) == Some(v[i]),
    ensures
        fill_all(a, types, fuel) == Some(v),
    decreases a.len(),
{
    if a.len() > 0 {
        assert forall|i: int| 0 <= i < a.len() - 1 implies #[trigger] fill_spec(a.drop_last()[i], types, fuel)
            == Some(v.drop_last()[i]) by {
            assert(a.drop_last()[i] == a[i]);
        }
        lemma_fill_all_intro(a.drop_last(), types, fuel, v.drop_last());
        assert(fill_spec(a[a.len() - 1], types, fuel) == Some(v[a.len() - 1]));
        assert(v.drop_last().push(v.last()) =~= v);
    } else {
        assert(v =~= Seq::<JsonValue>::empty());
    }
}

/// Reading a field after setting it gives the value set, and the other
/// fields are read as before.
pub proof fn law_set_then_get(o: Seq<(Seq<char>, JsonValue)>, k: Seq<char>, v: JsonValue, other: Seq<char>)
    ensures
        field(insert_field(o, k, v), k) == v,
        other != k ==> field(insert_field(o, k, v), other) == field(o, other),
    decreases o.len(),
{
    let r = insert_field(o, k, v);
    if o.len() == 0 {
        assert(r == seq![(k, v)]);
        assert(r.drop_first() =~= Seq::<(Seq<char>, JsonValue)>::empty());
        if other != k {
            assert(field(r, other) == field(r.drop_first(), other));
        }
    } else if o[0].0 == k {
        assert(r == o.update(0, (k, v)));
        assert(r.drop_first() =~= o.drop_first());
        if other != k {
            assert(field(r, other) == field(r.drop_first(), other));
        }
    } else {
        law_set_then_get(o.drop_first(), k, v, other);
        assert(r == seq![o[0]] + insert_field(o.drop_first(), k, v));
        assert(r[0] == o[0]);
        assert(r.drop_first() =~= insert_field(o.drop_first(), k, v));
    }
}

pub proof fn lemma_field_first(o: Seq<(Seq<char>, JsonValue)>, k: Seq<char>, i: int)
    requires
        0 <= i < o.len(),
        o[i].0 == k,
        forall|j: int| 0 <= j < i ==> (#[trigger] o[j]).0 != k,
    ensures
        field(o, k) == o[i].1,
        insert_field(o, k, JsonValue::Null) == insert_field(o, k, JsonValue::Null),
        forall|v: JsonValue| #[trigger] insert_field(o, k, v) == o.update(i, (k, v)),
    decreases i,
{
    if i > 0 {
        let d = o.drop_first();
        assert forall|j: int| 0 <= j < i - 1 implies (#[trigger] d[j]).0 != k by {
            assert(d[j] == o[j + 1]);
        }
        lemma_field_first(d, k, i - 1);
        assert forall|v: JsonValue| #[trigger] insert_field(o, k, v) == o.update(i, (k, v)) by {
            assert(insert_field(d, k, v) == d.update(i - 1, (k, v)));
            assert(seq![o[0]] + d.update(i - 1, (k, v)) =~= o.update(i, (k, v)));
        }
    }
}

pub proof fn lemma_field_none(o: Seq<(Seq<char>, JsonValue)>, k: Seq<char>)
    requires
        forall|j: int| 0 <= j < o.len() ==> (#[trigger] o[j]).0 != k,
    ensures
        field(o, k) == JsonValue::Null,
        forall|v: JsonValue| #[trigger] insert_field(o, k, v) == o.push((k, v)),
    decreases o.len(),
{
    if o.len() > 0 {
        let d = o.drop_first();
        assert forall|j: int| 0 <= j < d.len() implies (#[trigger] d[j]).0 != k by {
            assert(d[j] == o[j + 1]);
        }
        lemma_field_none(d, k);
        assert forall|v: JsonValue| #[trigger] insert_field(o, k, v) == o.push((k, v)) by {
            assert(insert_field(d, k, v) == d.push((k, v)));
            assert(seq![o[0]] + d.push((k, v)) =~= o.push((k, v)));
        }
    } else {
        assert forall|v: JsonValue| #[trigger] insert_field(o, k, v) == o.push((k, v)) by {
            assert(seq![(k, v)] =~= o.push((k, v)));
        }
    }
}

impl Json {
    /// A copy of the value.
    pub fn duplicate(&self) -> (r: Json)
        ensures
            r@ == self@,
        decreases self,
    {
        match self {
            Json::Null => Json::Null,
            Json::Bool(b) => Json::Bool(*b),
            Json::Number(n) => Json::Number(n.clone()),
            Json::String(s) => Json::String(s.clone()),
            Json::Array(a) => {
                let mut r: Vec<Json> = Vec::new();
                let mut i: usize = 0;
                while i < a.len()
                    invariant
                        *self == Json::Array(*a),
                        i <= a@.len(),
                        r@.len() == i,
                        forall|j: int| 0 <= j < i ==> #[trigger] r@[j]@ == a@[j]@,
                    decreases a@.len() - i,
                {
                    proof {
                        let ghost sv = *self;
                        let ghost av = *a;
                        assert(sv == Json::Array(av));
                        assert(decreases_to!(sv => sv->Array_0));
                        assert(decreases_to!(sv => av));
                        assert(decreases_to!(av => av[i as int]));
                    }
                    r.push(a[i].duplicate());
                    i += 1;
                }
                let out = Json::Array(r);
                proof {
                    lemma_view(out);
                    lemma_view(*self);
                    assert(json_views(r@) =~= json_views(a@));
                }
                out
            },
            Json::Object(o) => {
                let mut r: Vec<(String, Json)> = Vec::new();
                let mut i: usize = 0;
                while i < o.len()
                    invariant
                        *self == Json::Object(*o),
                        i <= o@.len(),
                        r@.len() == i,
                        forall|j: int| 0 <= j < i ==> #[trigger] r@[j].0@ == o@[j].0@ && r@[j].1@ == o@[j].1@,
                    decreases o@.len() - i,
                {
                    proof {
                        let ghost sv = *self;
                        let ghost ov = *o;
                        assert(sv == Json::Object(ov));
                        assert(decreases_to!(sv => sv->Object_0));
                        assert(decreases_to!(sv => ov));
                        assert(decreases_to!(ov => ov[i as int]));
                        assert(decreases_to!(ov[i as int] => ov[i as int].1));
                    }
                    let name = o[i].0.clone();
                    let value = o[i].1.duplicate();
                    r.push((name, value));
                    i += 1;
                }
                assert(field_views(r@) =~= field_views(o@));
                let out = Json::Object(r);
                proof {
                    lemma_view(out);
                    lemma_view(*self);
                }
                out
            },
        }
    }

    /// Whether two values are equal.
    pub fn equals(&self, other: &Json) -> (r: bool)
        ensures
            r == (self@ == other@),
        decreases self,
    {
        match (self, other) {
            (Json::Null, Json::Null) => true,
            (Json::Bool(a), Json::Bool(b)) => *a == *b,
            (Json::Number(a), Json::Number(b)) => *a == *b,
            (Json::String(a), Json::String(b)) => *a == *b,
            (Json::Array(a), Json::Array(b)) => {
                proof {
                    lemma_view(*self);
                    lemma_view(*other);
                }
                if a.len() != b.len() {
                    assert(json_views(a@).len() != json_views(b@).len());
                    return false;
                }
                let mut i: usize = 0;
                while i < a.len()
                    invariant
                        *self == Json::Array(*a),
                        self@ == JsonValue::Array(json_views(a@)),
                        other@ == JsonValue::Array(json_views(b@)),
                        a@.len() == b@.len(),
                        i <= a@.len(),
                        forall|j: int| 0 <= j < i ==> #[trigger] a@[j]@ == b@[j]@,
                    decreases a@.len() - i,
                {
                    proof {
                        assert(decreases_to!(a => a[i as int]));
                    }
                    if !a[i].equals(&b[i]) {
                        assert(json_views(a@)[i as int] != json_views(b@)[i as int]);
                        return false;
                    }
                    i += 1;
                }
                assert(json_views(a@) =~= json_views(b@));
                true
            },
            (Json::Object(a), Json::Object(b)) => {
                proof {
                    lemma_view(*self);
                    lemma_view(*other);
                }
                if a.len() != b.len() {
                    proof {
                        lemma_object_fields(field_views(a@));
                        lemma_object_fields(field_views(b@));
                    }
                    return false;
                }
                let mut i: usize = 0;
                while i < a.len()
                    invariant
                        *self == Json::Object(*a),
                        self@ == object(field_views(a@)),
                        other@ == object(field_views(b@)),
                        a@.len() == b@.len(),
                        i <= a@.len(),
                        forall|j: int| 0 <= j < i ==> (#[trigger] field_views(a@)[j]) == field_views(b@)[j],
                    decreases a@.len() - i,
                {
                    proof {
                        let ghost sv = *self;
                        let ghost av = *a;
                        assert(decreases_to!(sv => av));
                        assert(decreases_to!(av => av[i as int]));
                        assert(decreases_to!(av[i as int] => av[i as int].1));
                    }
                    let same_name = a[i].0 == b[i].0;
                    if !same_name {
                        proof {
                            lemma_object_fields(field_views(a@));
                            lemma_object_fields(field_views(b@));
                            assert(field_views(a@)[i as int] != field_views(b@)[i as int]);
                        }
                        return false;
                    }
                    let same_value = a[i].1.equals(&b[i].1);
                    if !same_value {
                        proof {
                            lemma_object_fields(field_views(a@));
                            lemma_object_fields(field_views(b@));
                            assert(field_views(a@)[i as int] != field_views(b@)[i as int]);
                        }
                        return false;
                    }
                    i += 1;
                }
                assert(field_views(a@) =~= field_views(b@));
                true
            },
            _ => false,
        }
    }

    /// Whether the value is the string `s`.
    pub fn is_str(&self, s: &str) -> (r: bool)
        ensures
            r == (self@ == JsonValue::Str(s@)),
    {
        match self {
            Json::String(t) => *t == String::from_str(s),
            _ => false,
        }
    }
}

/// A copy of a list of fields.
pub fn copy_fields(o: &Vec<(String, Json)>) -> (r: Vec<(String, Json)>)
    ensures
        field_views(r@) == field_views(o@),
{
    let mut r: Vec<(String, Json)> = Vec::new();
    let mut i: usize = 0;
    while i < o.len()
        invariant
            i <= o@.len(),
            r@.len() == i,
            forall|j: int| 0 <= j < i ==> #[trigger] r@[j].0@ == o@[j].0@ && r@[j].1@ == o@[j].1@,
        decreases o@.len() - i,
    {
        r.push((o[i].0.clone(), o[i].1.duplicate()));
        i += 1;
    }
    assert(field_views(r@) =~= field_views(o@));
    r
}

/// The position of the first field named `k`.
fn field_position(o: &Vec<(String, Json)>, k: &str) -> (r: Option<usize>)
    ensures
        match r {
            Some(i) => i < o@.len() && o@[i as int].0@ == k@ && forall|j: int|
                0 <= j < i ==> (#[trigger] o@[j]).0@ != k@,
            None => forall|j: int| 0 <= j < o@.len() ==> (#[trigger] o@[j]).0@ != k@,
        },
{
    let key = String::from_str(k);
    let mut i: usize = 0;
    while i < o.len()
        invariant
            i <= o@.len(),
            key@ == k@,
            forall|j: int| 0 <= j < i ==> (#[trigger] o@[j]).0@ != k@,
        decreases o@.len() - i,
    {
        if o[i].0 == key {
            return Some(i);
        }
        i += 1;
    }
    None
}

/// The value of the field `k` of the fields `o`, if there is one (`o[k]`,
/// null when `None`).
pub fn get_field<'a>(o: &'a Vec<(String, Json)>, k: &str) -> (r: Option<&'a Json>)
    ensures
        match r {
            Some(v) => field(field_views(o@), k@) == v@,
            None => field(field_views(o@), k@) == JsonValue::Null,
        },
{
    match field_position(o, k) {
        Some(i) => {
            proof {
                let fv = field_views(o@);
                assert forall|j: int| 0 <= j < i implies (#[trigger] fv[j]).0 != k@ by {
                    assert(fv[j].0 == o@[j].0@);
                }
                lemma_field_first(fv, k@, i as int);
            }
            Some(&o[i].1)
        },
        None => {
            proof {
                let fv = field_views(o@);
                assert forall|j: int| 0 <= j < fv.len() implies (#[trigger] fv[j]).0 != k@ by {
                    assert(fv[j].0 == o@[j].0@);
                }
                lemma_field_none(fv, k@);
            }
            None
        },
    }
}

/// Sets the field `k` to `v`, in place if there is such a field, else at the
/// end.
pub fn set_field(o: &mut Vec<(String, Json)>, k: &str, v: Json)
    ensures
        field_views(final(o)@) == insert_field(field_views(old(o)@), k@, v@),
{
    let ghost fv = field_views(o@);
    let ghost vv = v@;
    proof {
        assert forall|j: int| 0 <= j < fv.len() implies (#[trigger] fv[j]).0 == o@[j].0@ by {}
    }
    match field_position(o, k) {
        Some(i) => {
            proof {
                assert forall|j: int| 0 <= j < i implies (#[trigger] fv[j]).0 != k@ by {
                    assert(fv[j].0 == o@[j].0@);
                }
                lemma_field_first(fv, k@, i as int);
            }
            o.set(i, (String::from_str(k), v));
            assert(field_views(o@) =~= fv.update(i as int, (k@, vv)));
        },
        None => {
            proof {
                assert forall|j: int| 0 <= j < fv.len() implies (#[trigger] fv[j]).0 != k@ by {
                    assert(fv[j].0 == o@[j].0@);
                }
                lemma_field_none(fv, k@);
            }
            o.push((String::from_str(k), v));
            assert(field_views(o@) =~= fv.push((k@, vv)));
        },
    }
}

/// The first type whose `name` is the string `name`.
fn find_type<'a>(types: &'a Vec<Json>, name: &str) -> (r: Option<&'a Json>)
    ensures
        match r {
            Some(t) => find_named(json_views(types@), name@) == Some(t@),
            None => find_named(json_views(types@), name@) is None,
        },
{
    let ghost tv = json_views(types@);
    let mut i: usize = 0;
    assert(tv.subrange(0, tv.len() as int) =~= tv);
    while i < types.len()
        invariant
            i <= types@.len(),
            tv == json_views(types@),
            find_named(tv, name@) == find_named(tv.subrange(i as int, tv.len() as int), name@),
        decreases types@.len() - i,
    {
        let ghost rest = tv.subrange(i as int, tv.len() as int);
        assert(rest[0] == types@[i as int]@);
        assert(rest.drop_first() =~= tv.subrange(i + 1, tv.len() as int));
        let matched = match &types[i] {
            Json::Object(o) => {
                let nm = get_field(o, "name");
                proof {
                    lemma_view(types[i as int]);
                    lemma_object_fields(field_views(o@));
                }
                match nm {
                    Some(n) => n.is_str(name),
                    None => false,
                }
            },
            _ => false,
        };
        if matched {
            return Some(&types[i]);
        }
        i += 1;
    }
    None
}

/// The `fields` of the first type whose `name` equals `name`, if any.
pub fn list_entrypoints(types: &Vec<Json>, name: &Json) -> (r: Option<Json>)
    ensures
        match r {
            Some(v) => entrypoints_spec(json_views(types@), name@) == Some(v@),
            None => entrypoints_spec(json_views(types@), name@) is None,
        },
{
    let ghost tv = json_views(types@);
    let mut i: usize = 0;
    assert(tv.subrange(0, tv.len() as int) =~= tv);
    while i < types.len()
        invariant
            i <= types@.len(),
            tv == json_views(types@),
            entrypoints_spec(tv, name@) == entrypoints_spec(tv.subrange(i as int, tv.len() as int), name@),
        decreases types@.len() - i,
    {
        let ghost rest = tv.subrange(i as int, tv.len() as int);
        assert(rest[0] == types@[i as int]@);
        assert(rest.drop_first() =~= tv.subrange(i + 1, tv.len() as int));
        match &types[i] {
            Json::Object(o) => {
                proof {
                    lemma_view(types[i as int]);
                    lemma_object_fields(field_views(o@));
                }
                let nm = get_field(o, "name");
                let same = match nm {
                    Some(n) => n.equals(name),
                    None => Json::Null.equals(name),
                };
                if same {
                    return match get_field(o, "fields") {
                        Some(f) => Some(f.duplicate()),
                        None => Some(Json::Null),
                    };
                }
            },
            _ => {
                if Json::Null.equals(name) {
                    return Some(Json::Null);
                }
            },
        }
        i += 1;
    }
    None
}

} // verus!

verus! {

/// The text of the field `k` of the fields `o`, if it is a string.
fn text_field<'a>(o: &'a Vec<(String, Json)>, k: &str) -> (r: Option<&'a String>)
    ensures
        match r {
            Some(s) => as_str(field(field_views(o@), k@)) == Some(s@),
            None => as_str(field(field_views(o@), k@)) is None,
        },
{
    match get_field(o, k) {
        Some(Json::String(s)) => Some(s),
        _ => None,
    }
}

/// Whether `s` is the text `lit`.
fn text_is(s: Option<&String>, lit: &str) -> (r: bool)
    ensures
        r == (match s {
            Some(x) => x@ == lit@,
            None => false,
        }),
{
    match s {
        Some(x) => *x == String::from_str(lit),
        None => false,
    }
}

/// Fills each element of `a`, or `None` if one of them cannot be filled
/// within `fuel`.
fn fill_vec(a: &Vec<Json>, types: &Vec<Json>, fuel: u64) -> (r: Option<Vec<Json>>)
    ensures
        match r {
            Some(v) => fill_all(json_views(a@), json_views(types@), fuel as nat) == Some(json_views(v@)),
            None => fill_all(json_views(a@), json_views(types@), fuel as nat) is None,
        },
    decreases fuel, 1nat,
{
    let ghost tv = json_views(types@);
    let ghost av = json_views(a@);
    let mut r: Vec<Json> = Vec::new();
    let mut i: usize = 0;
    while i < a.len()
        invariant
            i <= a@.len(),
            r@.len() == i,
            tv == json_views(types@),
            av == json_views(a@),
            forall|j: int| 0 <= j < i ==> #[trigger] fill_spec(av[j], tv, fuel as nat) == Some(r@[j]@),
        decreases a@.len() - i,
    {
        match fill_rec(&a[i], types, fuel) {
            Some(v) => {
                r.push(v);
            },
            None => {
                proof {
                    if fill_all(av, tv, fuel as nat) is Some {
                        lemma_fill_all(av, tv, fuel as nat);
                        assert(fill_spec(av[i as int], tv, fuel as nat) is Some);
                    }
                }
                return None;
            },
        }
        i += 1;
    }
    proof {
        assert forall|j: int| 0 <= j < av.len() implies #[trigger] fill_spec(av[j], tv, fuel as nat) == Some(
            json_views(r@)[j],
        ) by {}
        lemma_fill_all_intro(av, tv, fuel as nat, json_views(r@));
    }
    Some(r)
}

/// Fills the list `list` of the fields `object` from the definition named
/// `name`; `false` (leaving `object` as it may be) if that cannot be done
/// within `fuel`.
fn fill_list_in(object: &mut Vec<(String, Json)>, types: &Vec<Json>, name: &str, list: &str, fuel: u64) -> (r:
    bool)
    ensures
        r == fill_list(field_views(old(object)@), json_views(types@), name@, list@, fuel as nat) is Some,
        r ==> field_views(final(object)@) == fill_list(
            field_views(old(object)@),
            json_views(types@),
            name@,
            list@,
            fuel as nat,
        )->0,
    decreases fuel, 2nat,
{
    match find_type(types, name) {
        None => true,
        Some(def) => {
            let d = match def {
                Json::Object(d) => d,
                _ => {
                    return false;
                },
            };
            proof {
                lemma_view(*def);
                lemma_object_fields(field_views(d@));
            }
            let listed = get_field(d, list);
            let fs = match listed {
                Some(Json::Array(fs)) => fs,
                _ => {
                    proof {
                        if let Some(x) = listed {
                            lemma_view(*x);
                        }
                    }
                    return false;
                },
            };
            proof {
                lemma_view(Json::Array(*fs));
            }
            match fill_vec(fs, types, fuel) {
                None => false,
                Some(v) => {
                    let filled = Json::Array(v);
                    proof {
                        lemma_view(filled);
                    }
                    set_field(object, list, filled);
                    true
                },
            }
        },
    }
}

/// Fills `e` with at most `fuel` nested fillings (`None` when that is not
/// enough, or a definition lacks its list).
fn fill_rec(e: &Json, types: &Vec<Json>, fuel: u64) -> (r: Option<Json>)
    ensures
        match r {
            Some(v) => fill_spec(e@, json_views(types@), fuel as nat) == Some(v@),
            None => fill_spec(e@, json_views(types@), fuel as nat) is None,
        },
    decreases fuel, 0nat,
{
    if fuel == 0 {
        return None;
    }
    let f = fuel - 1;
    match e {
        Json::Array(a) => {
            proof {
                lemma_view(*e);
            }
            match fill_vec(a, types, f) {
                None => None,
                Some(v) => {
                    let out = Json::Array(v);
                    proof {
                        lemma_view(out);
                    }
                    Some(out)
                },
            }
        },
        Json::Object(o) => {
            let ghost ov = field_views(o@);
            proof {
                lemma_view(*e);
                lemma_object_fields(ov);
            }
            let mut object = copy_fields(o);
            let name = text_field(o, "name");
            let kind = text_field(o, "kind");
            let null = Json::Null;
            let of_type = match get_field(o, "ofType") {
                Some(v) => v,
                None => &null,
            };
            let first = if text_is(kind, "OBJECT") && name.is_some() {
                fill_list_in(&mut object, types, name.unwrap().as_str(), "fields", f)
            } else if text_is(kind, "INPUT_OBJECT") && name.is_some() {
                fill_list_in(&mut object, types, name.unwrap().as_str(), "inputFields", f)
            } else if text_is(kind, "ENUM") && name.is_some() {
                fill_list_in(&mut object, types, name.unwrap().as_str(), "enumValues", f)
            } else if (text_is(kind, "LIST") || text_is(kind, "NON_NULL")) && name.is_some() && matches!(
                of_type,
                Json::Null
            ) {
                match find_type(types, name.unwrap().as_str()) {
                    None => true,
                    Some(def) => match fill_rec(def, types, f) {
                        None => false,
                        Some(v) => {
                            set_field(&mut object, "ofType", v);
                            true
                        },
                    },
                }
            } else {
                true
            };
            if !first {
                return None;
            }
            let filled_of_type = match fill_rec(of_type, types, f) {
                Some(v) => v,
                None => {
                    return None;
                },
            };
            let ty = match get_field(o, "type") {
                Some(v) => v,
                None => &null,
            };
            let filled_type = match fill_rec(ty, types, f) {
                Some(v) => v,
                None => {
                    return None;
                },
            };
            let args = match get_field(o, "args") {
                Some(v) => v,
                None => &null,
            };
            let filled_args = match fill_rec(args, types, f) {
                Some(v) => v,
                None => {
                    return None;
                },
            };
            set_field(&mut object, "ofType", filled_of_type);
            set_field(&mut object, "type", filled_type);
            set_field(&mut object, "args", filled_args);
            if text_is(kind, "LIST") {
                let empty = Json::Array(Vec::new());
                proof {
                    lemma_view(empty);
                    assert(json_views(empty->Array_0@) =~= Seq::<JsonValue>::empty());
                }
                set_field(&mut object, "_input", empty);
            }
            if text_is(kind, "SCALAR") || text_is(kind, "ENUM") || text_is(kind, "OBJECT") {
                set_field(&mut object, "_include", Json::Bool(true));
            }
            let out = Json::Object(object);
            proof {
                lemma_view(out);
            }
            Some(out)
        },
        _ => Some(e.duplicate()),
    }
}

/// When filling ends, the most fuel that a `u64` holds is enough, and
/// fills to the filled element.
pub proof fn lemma_fill_at_max(e: JsonValue, types: Seq<JsonValue>)
    requires
        fill_terminates(e, types),
    ensures
        fill_spec(e, types, u64::MAX as nat) == Some(fill_type_spec(e, types)),
{
    let w = choose|fuel: nat| fuel <= u64::MAX && #[trigger] fill_spec(e, types, fuel) is Some;
    let c = choose|fuel: nat| #[trigger] fill_spec(e, types, fuel) is Some;
    lemma_fill_mono(e, types, w, u64::MAX as nat);
    if c <= u64::MAX {
        lemma_fill_mono(e, types, c, u64::MAX as nat);
    } else {
        lemma_fill_mono(e, types, u64::MAX as nat, c);
    }
}

/// Any fuel that fills `e` fills it to the filled element.
proof fn lemma_fill_type_at(e: JsonValue, types: Seq<JsonValue>, f: nat)
    requires
        fill_spec(e, types, f) is Some,
    ensures
        fill_spec(e, types, f) == Some(fill_type_spec(e, types)),
{
    let c = choose|fuel: nat| #[trigger] fill_spec(e, types, fuel) is Some;
    if c <= f {
        lemma_fill_mono(e, types, c, f);
    } else {
        lemma_fill_mono(e, types, f, c);
    }
}

/// Filling the elements of a list with some fuel fills each of them with
/// that fuel, in order.
proof fn lemma_fill_all_each(a: Seq<JsonValue>, types: Seq<JsonValue>, f: nat)
    requires
        fill_all(a, types, f) is Some,
    ensures
        fill_all(a, types, f)->0.len() == a.len(),
        forall|i: int| 0 <= i < a.len() ==> #[trigger] fill_spec(a[i], types, f) == Some(fill_all(a, types, f)->0[i]),
    decreases a.len(),
{
    if a.len() > 0 {
        let d = a.drop_last();
        lemma_fill_all_each(d, types, f);
        assert forall|i: int| 0 <= i < a.len() implies #[trigger] fill_spec(a[i], types, f) == Some(
            fill_all(a, types, f)->0[i],
        ) by {
            if i < a.len() - 1 {
                assert(a[i] == d[i]);
            }
        }
    }
}

/// Filling a list fills each of its elements, in order; filling a value
/// that is neither a list nor an object gives it back.
pub proof fn law_fill_lists_and_scalars(e: JsonValue, types: Seq<JsonValue>)
    requires
        fill_terminates(e, types),
    ensures
        !(e is Array) && !(e is Object) ==> fill_type_spec(e, types) == e,
        e matches JsonValue::Array(a) ==> (forall|i: int| 0 <= i < a.len() ==> #[trigger] fill_terminates(a[i], types))
            && fill_type_spec(e, types) == JsonValue::Array(Seq::new(a.len(), |i: int| fill_type_spec(a[i], types))),
{
    let w = choose|fuel: nat| fuel <= u64::MAX && #[trigger] fill_spec(e, types, fuel) is Some;
    lemma_fill_type_at(e, types, w);
    if let JsonValue::Array(a) = e {
        let g = (w - 1) as nat;
        lemma_fill_all_each(a, types, g);
        let v = fill_all(a, types, g)->0;
        assert forall|i: int| 0 <= i < a.len() implies #[trigger] fill_terminates(a[i], types) by {
            assert(fill_spec(a[i], types, g) is Some);
        }
        assert forall|i: int| 0 <= i < a.len() implies fill_type_spec(a[i], types) == #[trigger] v[i] by {
            lemma_fill_type_at(a[i], types, g);
        }
        assert(v =~= Seq::new(a.len(), |i: int| fill_type_spec(a[i], types)));
    }
}

/// Setting a field leaves every other field as it was.
proof fn lemma_set_others(o: Seq<(Seq<char>, JsonValue)>, k: Seq<char>, v: JsonValue)
    ensures
        field(insert_field(o, k, v), k) == v,
        forall|other: Seq<char>| other != k ==> #[trigger] field(insert_field(o, k, v), other) == field(o, other),
{
    law_set_then_get(o, k, v, k);
    assert forall|other: Seq<char>| other != k implies #[trigger] field(insert_field(o, k, v), other) == field(
        o,
        other,
    ) by {
        law_set_then_get(o, k, v, other);
    }
}

/// Filling a list of an object sets that list to the filled list of the
/// definition named, when there is one, and leaves every other field.
proof fn lemma_fill_list_fields(
    o: Seq<(Seq<char>, JsonValue)>,
    types: Seq<JsonValue>,
    name: Seq<char>,
    list: Seq<char>,
    f: nat,
)
    requires
        fill_list(o, types, name, list, f) is Some,
    ensures
        ({
            let o1 = fill_list(o, types, name, list, f)->0;
            &&& forall|k: Seq<char>| k != list ==> #[trigger] field(o1, k) == field(o, k)
            &&& find_named(types, name) is None ==> o1 == o
            &&& find_named(types, name) matches Some(def) ==> index(def, list) is Array && fill_all(
                index(def, list)->Array_0,
                types,
                f,
            ) is Some && field(o1, list) == JsonValue::Array(fill_all(index(def, list)->Array_0, types, f)->0)
        }),
{
    if let Some(def) = find_named(types, name) {
        let fs = index(def, list)->Array_0;
        lemma_set_others(o, list, JsonValue::Array(fill_all(fs, types, f)->0));
    }
}

/// The list that filling an object of kind `kind` fills from its
/// definition: `fields` for an object, `inputFields` for an input object,
/// `enumValues` for an enumeration.
pub open spec fn filled_list_of(kind: Option<Seq<char>>) -> Option<Seq<char>> {
    if kind == Some("OBJECT"@) {
        Some("fields"@)
    } else if kind == Some("INPUT_OBJECT"@) {
        Some("inputFields"@)
    } else if kind == Some("ENUM"@) {
        Some("enumValues"@)
    } else {
        None
    }
}

/// The names of the fields and kinds that filling reads and writes differ
/// from each other: by their length or their first character.
proof fn lemma_fill_names()
    ensures
        "kind"@.len() == 4 && "kind"@[0] == 'k',
        "name"@.len() == 4 && "name"@[0] == 'n',
        "ofType"@.len() == 6 && "ofType"@[0] == 'o',
        "type"@.len() == 4 && "type"@[0] == 't',
        "args"@.len() == 4 && "args"@[0] == 'a',
        "_input"@.len() == 6 && "_input"@[0] == '_',
        "_include"@.len() == 8 && "_include"@[0] == '_',
        "fields"@.len() == 6 && "fields"@[0] == 'f',
        "inputFields"@.len() == 11 && "inputFields"@[0] == 'i',
        "enumValues"@.len() == 10 && "enumValues"@[0] == 'e',
        "OBJECT"@.len() == 6 && "OBJECT"@[0] == 'O',
        "INPUT_OBJECT"@.len() == 12 && "INPUT_OBJECT"@[0] == 'I',
        "ENUM"@.len() == 4 && "ENUM"@[0] == 'E',
        "SCALAR"@.len() == 6 && "SCALAR"@[0] == 'S',
        "LIST"@.len() == 4 && "LIST"@[0] == 'L',
        "NON_NULL"@.len() == 8 && "NON_NULL"@[0] == 'N',
{
    reveal_strlit("kind");
    reveal_strlit("name");
    reveal_strlit("ofType");
    reveal_strlit("type");
    reveal_strlit("args");
    reveal_strlit("_input");
    reveal_strlit("_include");
    reveal_strlit("fields");
    reveal_strlit("inputFields");
    reveal_strlit("enumValues");
    reveal_strlit("OBJECT");
    reveal_strlit("INPUT_OBJECT");
    reveal_strlit("ENUM");
    reveal_strlit("SCALAR");
    reveal_strlit("LIST");
    reveal_strlit("NON_NULL");
}

/// The last steps of filling an object: `ofType`, `type` and `args` set,
/// `_input` for a list, `_include` for the kinds shown.
spec fn finish_object(
    o1: Seq<(Seq<char>, JsonValue)>,
    kind: Option<Seq<char>>,
    a: JsonValue,
    b: JsonValue,
    c: JsonValue,
) -> Seq<(Seq<char>, JsonValue)> {
    let o2 = insert_field(insert_field(insert_field(o1, "ofType"@, a), "type"@, b), "args"@, c);
    let o3 = if kind == Some("LIST"@) {
        insert_field(o2, "_input"@, JsonValue::Array(Seq::empty()))
    } else {
        o2
    };
    if kind == Some("SCALAR"@) || kind == Some("ENUM"@) || kind == Some("OBJECT"@) {
        insert_field(o3, "_include"@, JsonValue::Bool(true))
    } else {
        o3
    }
}

proof fn lemma_finish_object(
    o1: Seq<(Seq<char>, JsonValue)>,
    kind: Option<Seq<char>>,
    a: JsonValue,
    b: JsonValue,
    c: JsonValue,
)
    ensures
        ({
            let o4 = finish_object(o1, kind, a, b, c);
            let marked = kind == Some("SCALAR"@) || kind == Some("ENUM"@) || kind == Some("OBJECT"@);
            &&& field(o4, "ofType"@) == a
            &&& field(o4, "type"@) == b
            &&& field(o4, "args"@) == c
            &&& kind == Some("LIST"@) ==> field(o4, "_input"@) == JsonValue::Array(Seq::empty())
            &&& kind != Some("LIST"@) ==> field(o4, "_input"@) == field(o1, "_input"@)
            &&& marked ==> field(o4, "_include"@) == JsonValue::Bool(true)
            &&& !marked ==> field(o4, "_include"@) == field(o1, "_include"@)
            &&& forall|k: Seq<char>|
                k != "ofType"@ && k != "type"@ && k != "args"@ && k != "_input"@ && k != "_include"@
                    ==> #[trigger] field(o4, k) == field(o1, k)
        }),
{
    lemma_fill_names();
    let o2a = insert_field(o1, "ofType"@, a);
    let o2b = insert_field(o2a, "type"@, b);
    let o2 = insert_field(o2b, "args"@, c);
    lemma_set_others(o1, "ofType"@, a);
    lemma_set_others(o2a, "type"@, b);
    lemma_set_others(o2b, "args"@, c);
    let o3 = if kind == Some("LIST"@) {
        insert_field(o2, "_input"@, JsonValue::Array(Seq::empty()))
    } else {
        o2
    };
    lemma_set_others(o2, "_input"@, JsonValue::Array(Seq::empty()));
    lemma_set_others(o3, "_include"@, JsonValue::Bool(true));
    assert("type"@ != "ofType"@);
    assert("args"@ != "ofType"@ && "args"@ != "type"@);
    assert("_input"@ != "ofType"@ && "_input"@ != "type"@ && "_input"@ != "args"@);
    assert("_include"@ != "ofType"@ && "_include"@ != "type"@ && "_include"@ != "args"@ && "_include"@ != "_input"@);
}

/// What filling an object element does to its fields. Kinds `SCALAR`,
/// `ENUM` and `OBJECT` get `_include` set to true, and `LIST` gets an empty
/// `_input`; other kinds keep those fields as they were. `ofType`, `type`
/// and `args` become their own fillings. The list that the kind names
/// (`fields`, `inputFields` or `enumValues`) becomes the filling, element by
/// element, of that list in the definition of the element's name, when
/// there is one, and is kept otherwise. No other field changes.
pub proof fn law_fill_object(e: JsonValue, types: Seq<JsonValue>, fuel: nat)
    requires
        e is Object,
        fill_spec(e, types, fuel) is Some,
    ensures
        ({
            let r = fill_spec(e, types, fuel)->0;
            let kind = as_str(index(e, "kind"@));
            let name = as_str(index(e, "name"@));
            let f = (fuel - 1) as nat;
            let marked = kind == Some("SCALAR"@) || kind == Some("ENUM"@) || kind == Some("OBJECT"@);
            &&& r is Object
            &&& marked ==> index(r, "_include"@) == JsonValue::Bool(true)
            &&& !marked ==> index(r, "_include"@) == index(e, "_include"@)
            &&& kind == Some("LIST"@) ==> index(r, "_input"@) == JsonValue::Array(Seq::empty())
            &&& kind != Some("LIST"@) ==> index(r, "_input"@) == index(e, "_input"@)
            &&& fill_spec(index(e, "ofType"@), types, f) == Some(index(r, "ofType"@))
            &&& fill_spec(index(e, "type"@), types, f) == Some(index(r, "type"@))
            &&& fill_spec(index(e, "args"@), types, f) == Some(index(r, "args"@))
            &&& (filled_list_of(kind) matches Some(list) ==> (if name is Some && find_named(types, name->0) is Some {
                let fs = index(find_named(types, name->0)->0, list);
                &&& fs is Array
                &&& index(r, list) is Array
                &&& index(r, list)->Array_0.len() == fs->Array_0.len()
                &&& forall|i: int|
                    0 <= i < fs->Array_0.len() ==> #[trigger] fill_spec(fs->Array_0[i], types, f) == Some(
                        index(r, list)->Array_0[i],
                    )
            } else {
                index(r, list) == index(e, list)
            }))
            &&& forall|k: Seq<char>|
                k != "ofType"@ && k != "type"@ && k != "args"@ && k != "_input"@ && k != "_include"@ && k
                    != "fields"@ && k != "inputFields"@ && k != "enumValues"@ ==> #[trigger] index(r, k) == index(
                    e,
                    k,
                )
        }),
{
    lemma_fill_names();
    let f = (fuel - 1) as nat;
    let o = fields(e);
    assert(forall|k: Seq<char>| #[trigger] index(e, k) == field(o, k));
    let name = as_str(field(o, "name"@));
    let kind = as_str(field(o, "kind"@));
    let of_type = field(o, "ofType"@);
    let first = if kind == Some("OBJECT"@) && name is Some {
        fill_list(o, types, name->0, "fields"@, f)
    } else if kind == Some("INPUT_OBJECT"@) && name is Some {
        fill_list(o, types, name->0, "inputFields"@, f)
    } else if kind == Some("ENUM"@) && name is Some {
        fill_list(o, types, name->0, "enumValues"@, f)
    } else if (kind == Some("LIST"@) || kind == Some("NON_NULL"@)) && name is Some && of_type == JsonValue::Null {
        match find_named(types, name->0) {
            None => Some(o),
            Some(def) => match fill_spec(def, types, f) {
                None => None,
                Some(v) => Some(insert_field(o, "ofType"@, v)),
            },
        }
    } else {
        Some(o)
    };
    let o1 = first->0;
    let a = fill_spec(of_type, types, f)->0;
    let b = fill_spec(field(o, "type"@), types, f)->0;
    let c = fill_spec(field(o, "args"@), types, f)->0;
    assert(fill_spec(e, types, fuel) == Some(object(finish_object(o1, kind, a, b, c))));
    if kind == Some("OBJECT"@) && name is Some {
        lemma_fill_list_fields(o, types, name->0, "fields"@, f);
    } else if kind == Some("INPUT_OBJECT"@) && name is Some {
        lemma_fill_list_fields(o, types, name->0, "inputFields"@, f);
    } else if kind == Some("ENUM"@) && name is Some {
        lemma_fill_list_fields(o, types, name->0, "enumValues"@, f);
    } else if (kind == Some("LIST"@) || kind == Some("NON_NULL"@)) && name is Some && of_type == JsonValue::Null {
        if let Some(def) = find_named(types, name->0) {
            lemma_set_others(o, "ofType"@, fill_spec(def, types, f)->0);
        }
    }
    assert(forall|k: Seq<char>|
        k != "ofType"@ && k != "fields"@ && k != "inputFields"@ && k != "enumValues"@ ==> #[trigger] field(o1, k)
            == field(o, k));
    let o4 = finish_object(o1, kind, a, b, c);
    lemma_finish_object(o1, kind, a, b, c);
    lemma_object_fields(o4);
    let r = object(o4);
    assert(forall|k: Seq<char>| #[trigger] index(r, k) == field(o4, k));
    if let Some(list) = filled_list_of(kind) {
        if name is Some && find_named(types, name->0) is Some {
            lemma_fill_all_each(index(find_named(types, name->0)->0, list)->Array_0, types, f);
        }
    }
}

/// Fills a GraphQL introspection element with at most `fuel` nested
/// fillings: `None` when that is not enough, or when a definition lacks its
/// list of fields, input fields or values.
pub fn fill_type_within(e: &Json, types: &Vec<Json>, fuel: u64) -> (r: Option<Json>)
    ensures
        match r {
            Some(v) => fill_spec(e@, json_views(types@), fuel as nat) == Some(v@),
            None => fill_spec(e@, json_views(types@), fuel as nat) is None,
        },
{
    fill_rec(e, types, fuel)
}

/// Fills a GraphQL introspection element (a field, a type reference, a
/// list of them) with the definitions, out of `types`, of the types that it
/// names: the fields of objects, input objects and enumerations, the type
/// of lists and non-null types.
pub fn fill_type(e: &Json, types: &Vec<Json>) -> (r: Json)
    requires
        fill_terminates(e@, json_views(types@)),
    ensures
        r@ == fill_type_spec(e@, json_views(types@)),
{
    proof {
        lemma_fill_at_max(e@, json_views(types@));
    }
    match fill_rec(e, types, u64::MAX) {
        Some(v) => v,
        None => {
            proof {
                assert(false);
            }
            Json::Null
        },
    }
}

} // verus!

verus! {

/// The `__schema` part of an introspection answer.
pub open spec fn schema_of(answer: JsonValue) -> JsonValue {
    index(index(answer, "data"@), "__schema"@)
}

/// The types of an introspection answer, when they form a list.
pub open spec fn schema_types(answer: JsonValue) -> Option<Seq<JsonValue>> {
    match index(schema_of(answer), "types"@) {
        JsonValue::Array(ts) => Some(ts),
        _ => None,
    }
}

/// The entry points (before filling) under the root type `root`
/// (`queryType`, `mutationType` or `subscriptionType`) of an introspection
/// answer: the fields of the type that the root names, else an empty list.
pub open spec fn entry_list(answer: JsonValue, types: Seq<JsonValue>, root: Seq<char>) -> JsonValue {
    match entrypoints_spec(types, index(index(schema_of(answer), root), "name"@)) {
        Some(l) => l,
        None => JsonValue::Array(Seq::empty()),
    }
}

/// `v[k]`, when it is not null.
fn member<'a>(v: &'a Json, k: &str) -> (r: Option<&'a Json>)
    ensures
        match r {
            Some(x) => index(v@, k@) == x@,
            None => index(v@, k@) == JsonValue::Null,
        },
{
    match v {
        Json::Object(o) => {
            proof {
                lemma_view(*v);
                lemma_object_fields(field_views(o@));
            }
            get_field(o, k)
        },
        _ => None,
    }
}

/// `v[k]`, where `v` may be absent (null).
fn member_of<'a>(v: Option<&'a Json>, k: &str) -> (r: Option<&'a Json>)
    ensures
        match r {
            Some(x) => index(
                match v {
                    Some(y) => y@,
                    None => JsonValue::Null,
                },
                k@,
            ) == x@,
            None => index(
                match v {
                    Some(y) => y@,
                    None => JsonValue::Null,
                },
                k@,
            ) == JsonValue::Null,
        },
{
    match v {
        Some(x) => member(x, k),
        None => None,
    }
}

/// The entry points under the root type `root`, filled (`None` when the
/// filling does not end within the largest fuel).
fn filled_entries(schema: Option<&Json>, types: &Vec<Json>, root: &str) -> (r: Option<Json>)
    ensures
        match r {
            Some(v) => fill_spec(
                match entrypoints_spec(
                    json_views(types@),
                    index(
                        index(
                            match schema {
                                Some(s) => s@,
                                None => JsonValue::Null,
                            },
                            root@,
                        ),
                        "name"@,
                    ),
                ) {
                    Some(l) => l,
                    None => JsonValue::Array(Seq::empty()),
                },
                json_views(types@),
                u64::MAX as nat,
            ) == Some(v@),
            None => fill_spec(
                match entrypoints_spec(
                    json_views(types@),
                    index(
                        index(
                            match schema {
                                Some(s) => s@,
                                None => JsonValue::Null,
                            },
                            root@,
                        ),
                        "name"@,
                    ),
                ) {
                    Some(l) => l,
                    None => JsonValue::Array(Seq::empty()),
                },
                json_views(types@),
                u64::MAX as nat,
            ) is None,
        },
{
    let null = Json::Null;
    let name = match member_of(member_of(schema, root), "name") {
        Some(n) => n,
        None => &null,
    };
    let list = match list_entrypoints(types, name) {
        Some(l) => l,
        None => {
            let empty = Json::Array(Vec::new());
            proof {
                lemma_view(empty);
                assert(json_views(empty->Array_0@) =~= Seq::<JsonValue>::empty());
            }
            empty
        },
    };
    fill_type_within(&list, types, u64::MAX)
}

/// What filling the entry points under `root` gives, with the largest fuel.
pub open spec fn entries_filled(answer: JsonValue, root: Seq<char>) -> Option<JsonValue> {
    fill_spec(entry_list(answer, schema_types(answer)->0, root), schema_types(answer)->0, u64::MAX as nat)
}

/// Filling the entry points under each root type ends.
pub open spec fn application_terminates(answer: JsonValue) -> bool {
    &&& fill_terminates(entry_list(answer, schema_types(answer)->0, "queryType"@), schema_types(answer)->0)
    &&& fill_terminates(entry_list(answer, schema_types(answer)->0, "mutationType"@), schema_types(answer)->0)
    &&& fill_terminates(entry_list(answer, schema_types(answer)->0, "subscriptionType"@), schema_types(answer)->0)
}

/// The filled entry points under `root`.
pub open spec fn entries_spec(answer: JsonValue, root: Seq<char>) -> JsonValue {
    fill_type_spec(entry_list(answer, schema_types(answer)->0, root), schema_types(answer)->0)
}

/// The queries, mutations and subscriptions that an application offers,
/// out of the introspection answer of its GraphQL service: the fields of
/// each root type, filled with the definitions of the types they name (an
/// empty list where the root type is absent); `None` when one of the
/// fillings does not end.
pub fn application_entrypoints(answer: &Json) -> (r: Option<(Json, Json, Json)>)
    requires
        schema_types(answer@) is Some,
    ensures
        match r {
            Some((q, m, s)) => entries_filled(answer@, "queryType"@) == Some(q@) && entries_filled(
                answer@,
                "mutationType"@,
            ) == Some(m@) && entries_filled(answer@, "subscriptionType"@) == Some(s@),
            None => entries_filled(answer@, "queryType"@) is None || entries_filled(answer@, "mutationType"@) is None
                || entries_filled(answer@, "subscriptionType"@) is None,
        },
        application_terminates(answer@) ==> (r matches Some((q, m, s)) && q@ == entries_spec(answer@, "queryType"@)
            && m@ == entries_spec(answer@, "mutationType"@) && s@ == entries_spec(answer@, "subscriptionType"@)),
{
    let ghost ts = schema_types(answer@)->0;
    proof {
        if fill_terminates(entry_list(answer@, ts, "queryType"@), ts) {
            lemma_fill_at_max(entry_list(answer@, ts, "queryType"@), ts);
        }
        if fill_terminates(entry_list(answer@, ts, "mutationType"@), ts) {
            lemma_fill_at_max(entry_list(answer@, ts, "mutationType"@), ts);
        }
        if fill_terminates(entry_list(answer@, ts, "subscriptionType"@), ts) {
            lemma_fill_at_max(entry_list(answer@, ts, "subscriptionType"@), ts);
        }
    }
    let schema = member_of(member(answer, "data"), "__schema");
    let types = match member_of(schema, "types") {
        Some(Json::Array(ts)) => ts,
        _ => {
            proof {
                assert(false);
            }
            return None;
        },
    };
    proof {
        lemma_view(Json::Array(*types));
    }
    let queries = match filled_entries(schema, types, "queryType") {
        Some(q) => q,
        None => {
            return None;
        },
    };
    let mutations = match filled_entries(schema, types, "mutationType") {
        Some(m) => m,
        None => {
            return None;
        },
    };
    let subscriptions = match filled_entries(schema, types, "subscriptionType") {
        Some(s) => s,
        None => {
            return None;
        },
    };
    Some((queries, mutations, subscriptions))
}

} // verus!
