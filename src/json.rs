use vstd::prelude::*;

verus! {

/// A JSON value as the store holds it. A number keeps the decimal text it
/// was written with, so that no precision is lost on the way through.
#[derive(Debug, PartialEq, Eq)]
pub enum Json {
    Null,
    Bool(bool),
    Number(String),
    Str(String),
    Array(Vec<Json>),
    Object(Vec<(String, Json)>),
}

/// The mathematical model of a JSON value.
pub enum JValue {
    Null,
    Bool(bool),
    Number(Seq<char>),
    Str(Seq<char>),
    Array(Seq<JValue>),
    Object(Seq<(Seq<char>, JValue)>),
}

pub open spec fn model_of(j: Json) -> JValue
    decreases j,
{
    match j {
        Json::Null => JValue::Null,
        Json::Bool(b) => JValue::Bool(b),
        Json::Number(t) => JValue::Number(t@),
        Json::Str(s) => JValue::Str(s@),
        Json::Array(a) => JValue::Array(model_of_items(a@)),
        Json::Object(o) => JValue::Object(model_of_entries(o@)),
    }
}

pub open spec fn model_of_items(s: Seq<Json>) -> Seq<JValue>
    decreases s,
{
    if s.len() == 0 {
        Seq::empty()
    } else {
        model_of_items(s.subrange(0, s.len() - 1)).push(model_of(s[s.len() - 1]))
    }
}

pub open spec fn model_of_entries(s: Seq<(String, Json)>) -> Seq<(Seq<char>, JValue)>
    decreases s,
{
    if s.len() == 0 {
        Seq::empty()
    } else {
        model_of_entries(s.subrange(0, s.len() - 1)).push(
            (s[s.len() - 1].0@, model_of(s[s.len() - 1].1)),
        )
    }
}

impl View for Json {
    type V = JValue;

    open spec fn view(&self) -> JValue {
        model_of(*self)
    }
}

pub proof fn lemma_model_of_items(s: Seq<Json>)
    ensures
        model_of_items(s).len() == s.len(),
        forall|i: int| 0 <= i < s.len() ==> #[trigger] model_of_items(s)[i] == model_of(s[i]),
    decreases s.len(),
{
    if s.len() > 0 {
        lemma_model_of_items(s.subrange(0, s.len() - 1));
    }
}

pub proof fn lemma_model_of_items_append(a: Seq<Json>, b: Seq<Json>)
    requires
        a.len() <= b.len(),
        forall|i: int| 0 <= i < a.len() ==> b[i] == a[i],
    ensures
        model_of_items(b) == model_of_items(a) + model_of_items(b.subrange(a.len() as int, b.len() as int)),
{
    let tail = b.subrange(a.len() as int, b.len() as int);
    lemma_model_of_items(a);
    lemma_model_of_items(b);
    lemma_model_of_items(tail);
    assert(model_of_items(b) =~= model_of_items(a) + model_of_items(tail));
}

pub proof fn lemma_model_of_entries(s: Seq<(String, Json)>)
    ensures
        model_of_entries(s).len() == s.len(),
        forall|i: int|
            0 <= i < s.len() ==> #[trigger] model_of_entries(s)[i] == (s[i].0@, model_of(s[i].1)),
    decreases s.len(),
{
    if s.len() > 0 {
        lemma_model_of_entries(s.subrange(0, s.len() - 1));
    }
}

impl Json {
    /// A deep copy whose model equals the original's.
    pub fn copy(&self) -> (r: Json)
        ensures
            r@ == self@,
        decreases self,
    {
        match self {
            Json::Null => Json::Null,
            Json::Bool(b) => Json::Bool(*b),
            Json::Number(t) => Json::Number(t.clone()),
            Json::Str(s) => Json::Str(s.clone()),
            Json::Array(a) => {
                let mut out: Vec<Json> = Vec::new();
                let mut i: usize = 0;
                while i < a.len()
                    invariant
                        i <= a.len(),
                        *self == Json::Array(*a),
                        out@.len() == i,
                        forall|k: int| 0 <= k < i ==> #[trigger] model_of(out@[k]) == model_of(a@[k]),
                    decreases a.len() - i,
                {
                    proof {
                        vstd::std_specs::vec::axiom_vec_index_decreases(*a, i as int);
                        assert(decreases_to!(*self => self->Array_0));
                        assert(decreases_to!(*self => a[i as int]));
                    }
                    let c = a[i].copy();
                    out.push(c);
                    i += 1;
                }
                proof {
                    lemma_model_of_items(out@);
                    lemma_model_of_items(a@);
                    assert(model_of_items(out@) =~= model_of_items(a@));
                }
                Json::Array(out)
            },
            Json::Object(o) => {
                let mut out: Vec<(String, Json)> = Vec::new();
                let mut i: usize = 0;
                while i < o.len()
                    invariant
                        i <= o.len(),
                        *self == Json::Object(*o),
                        out@.len() == i,
                        forall|k: int|
                            0 <= k < i ==> #[trigger] out@[k].0@ == o@[k].0@ && model_of(out@[k].1)
                                == model_of(o@[k].1),
                    decreases o.len() - i,
                {
                    proof {
                        vstd::std_specs::vec::axiom_vec_index_decreases(*o, i as int);
                        assert(decreases_to!(*self => self->Object_0));
                        assert(decreases_to!(*self => o[i as int]));
                        assert(decreases_to!(o[i as int] => o[i as int].1));
                    }
                    let c = o[i].1.copy();
                    out.push((o[i].0.clone(), c));
                    i += 1;
                }
                proof {
                    lemma_model_of_entries(out@);
                    lemma_model_of_entries(o@);
                    assert(model_of_entries(out@) =~= model_of_entries(o@));
                }
                Json::Object(out)
            },
        }
    }
}

} // verus!
