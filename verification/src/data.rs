use vstd::prelude::*;

verus! {

/// A semi-structured data tree: the result of decoding a YAML or JSON
/// document.  Mapping keys are expected to be stored lower-cased; lookups
/// lower-case the queried name, so matching is case-insensitive.  A number
/// is carried as the text the decoder printed for it; a number that is not
/// finite is represented by the sentinel text `.nan`.
#[derive(Debug)]
pub enum Value {
    Null,
    String(String),
    Boolean(bool),
    Number(String),
    Sequence(Vec<Value>),
    Mapping(Vec<(String, Value)>),
}

/// Mathematical model of a `Value`: the same tree over `Seq<char>` and `Seq`.
pub enum SpecValue {
    Null,
    Str(Seq<char>),
    Bool(bool),
    Num(Seq<char>),
    List(Seq<SpecValue>),
    Dict(Seq<(Seq<char>, SpecValue)>),
}

/// How many immediate children a node has (sequence items or mapping entries).
pub open spec fn child_count(v: Value) -> nat {
    match v {
        Value::Sequence(items) => items@.len(),
        Value::Mapping(entries) => entries@.len(),
        _ => 0,
    }
}

/// The i-th immediate child of a container node.
pub open spec fn child_at(v: Value, i: int) -> Value {
    match v {
        Value::Sequence(items) => items@[i],
        Value::Mapping(entries) => entries@[i].1,
        _ => arbitrary(),
    }
}

/// The model of a value.
pub open spec fn sv(v: Value) -> SpecValue
    decreases v, 1int, 0int,
{
    match v {
        Value::Null => SpecValue::Null,
        Value::String(s) => SpecValue::Str(s@),
        Value::Boolean(b) => SpecValue::Bool(b),
        Value::Number(n) => SpecValue::Num(n@),
        Value::Sequence(_) => SpecValue::List(sv_items(v, 0)),
        Value::Mapping(_) => SpecValue::Dict(sv_entries(v, 0)),
    }
}

/// Models of the items of a sequence node, from index `i` on.
pub open spec fn sv_items(v: Value, i: int) -> Seq<SpecValue>
    decreases v, 0int, child_count(v) - i,
{
    if v is Sequence && 0 <= i < child_count(v) {
        seq![sv(child_at(v, i))] + sv_items(v, i + 1)
    } else {
        Seq::empty()
    }
}

/// Models of the entries of a mapping node, from index `i` on.
pub open spec fn sv_entries(v: Value, i: int) -> Seq<(Seq<char>, SpecValue)>
    decreases v, 0int, child_count(v) - i,
{
    if v is Mapping && 0 <= i < child_count(v) {
        match v {
            Value::Mapping(entries) => seq![(entries@[i].0@, sv(child_at(v, i)))] + sv_entries(
                v,
                i + 1,
            ),
            _ => Seq::empty(),
        }
    } else {
        Seq::empty()
    }
}

impl View for Value {
    type V = SpecValue;

    open spec fn view(&self) -> SpecValue {
        sv(*self)
    }
}

/// The models of a sequence of values.
pub open spec fn vmodel(s: Seq<Value>) -> Seq<SpecValue> {
    s.map_values(|x: Value| sv(x))
}

/// The models of a sequence of mapping entries.
pub open spec fn emodel(s: Seq<(String, Value)>) -> Seq<(Seq<char>, SpecValue)> {
    s.map_values(|e: (String, Value)| (e.0@, sv(e.1)))
}

/// Pointwise characterization of `sv_items`.
pub proof fn lemma_sv_items_index(v: Value, i: int)
    requires
        v is Sequence,
        0 <= i <= child_count(v),
    ensures
        sv_items(v, i).len() == child_count(v) - i,
        forall|j: int|
            0 <= j < child_count(v) - i ==> #[trigger] sv_items(v, i)[j] == sv(
                child_at(v, i + j),
            ),
    decreases child_count(v) - i,
{
    if i < child_count(v) {
        lemma_sv_items_index(v, i + 1);
    }
}

/// Pointwise characterization of `sv_entries`.
pub proof fn lemma_sv_entries_index(v: Value, i: int)
    requires
        v is Mapping,
        0 <= i <= child_count(v),
    ensures
        sv_entries(v, i).len() == child_count(v) - i,
        forall|j: int|
            0 <= j < child_count(v) - i ==> #[trigger] sv_entries(v, i)[j] == (
                v->Mapping_0@[i + j].0@,
                sv(child_at(v, i + j)),
            ),
    decreases child_count(v) - i,
{
    if i < child_count(v) {
        lemma_sv_entries_index(v, i + 1);
    }
}

/// The model of a container node is the model of its children.
pub proof fn lemma_sv_unfold(v: Value)
    ensures
        v is Sequence ==> sv(v) == SpecValue::List(vmodel(v->Sequence_0@)),
        v is Mapping ==> sv(v) == SpecValue::Dict(emodel(v->Mapping_0@)),
{
    if v is Sequence {
        lemma_sv_items_index(v, 0);
        assert(sv_items(v, 0) =~= vmodel(v->Sequence_0@));
    }
    if v is Mapping {
        lemma_sv_entries_index(v, 0);
        assert(sv_entries(v, 0) =~= emodel(v->Mapping_0@));
    }
}

/// `vmodel` commutes with `push`.
pub proof fn lemma_vmodel_push(s: Seq<Value>, x: Value)
    ensures
        vmodel(s.push(x)) == vmodel(s).push(sv(x)),
{
    assert(vmodel(s.push(x)) =~= vmodel(s).push(sv(x)));
}

/// `emodel` commutes with `push`.
pub proof fn lemma_emodel_push(s: Seq<(String, Value)>, x: (String, Value))
    ensures
        emodel(s.push(x)) == emodel(s).push((x.0@, sv(x.1))),
{
    assert(emodel(s.push(x)) =~= emodel(s).push((x.0@, sv(x.1))));
}

/// Deep copy of a value, equal to the original in the model.
#[verifier::loop_isolation(false)]
fn clone_value(v: &Value) -> (r: Value)
    ensures
        sv(r) == sv(*v),
    decreases *v,
{
    match v {
        Value::Null => Value::Null,
        Value::String(s) => Value::String(s.clone()),
        Value::Boolean(b) => Value::Boolean(*b),
        Value::Number(n) => Value::Number(n.clone()),
        Value::Sequence(items) => {
            let mut out: Vec<Value> = Vec::new();
            let n = items.len();
            let mut i: usize = 0;
            while i < n
                invariant
                    i <= n,
                    n == items@.len(),
                    vmodel(out@) == vmodel(items@.take(i as int)),
                decreases n - i,
            {
                proof {
                    assert(items@[i as int] == v->Sequence_0@[i as int]);
                    assert(decreases_to!(*v => v->Sequence_0@[i as int]));
                }
                let ghost prev = out@;
                let c = clone_value(&items[i]);
                out.push(c);
                proof {
                    lemma_vmodel_push(prev, c);
                    lemma_vmodel_push(items@.take(i as int), items@[i as int]);
                    assert(items@.take(i + 1) =~= items@.take(i as int).push(items@[i as int]));
                }
                i = i + 1;
            }
            proof {
                assert(items@.take(n as int) =~= items@);
                lemma_sv_unfold(*v);
                lemma_sv_unfold(Value::Sequence(out));
            }
            Value::Sequence(out)
        },
        Value::Mapping(entries) => {
            let mut out: Vec<(String, Value)> = Vec::new();
            let n = entries.len();
            let mut i: usize = 0;
            while i < n
                invariant
                    i <= n,
                    n == entries@.len(),
                    emodel(out@) == emodel(entries@.take(i as int)),
                decreases n - i,
            {
                proof {
                    assert(entries@[i as int].1 == v->Mapping_0@[i as int].1);
                    assert(decreases_to!(*v => v->Mapping_0@[i as int].1));
                }
                let ghost prev = out@;
                let k = entries[i].0.clone();
                let c = clone_value(&entries[i].1);
                out.push((k, c));
                proof {
                    lemma_emodel_push(prev, (k, c));
                    lemma_emodel_push(entries@.take(i as int), entries@[i as int]);
                    assert(entries@.take(i + 1) =~= entries@.take(i as int).push(
                        entries@[i as int],
                    ));
                }
                i = i + 1;
            }
            proof {
                assert(entries@.take(n as int) =~= entries@);
                lemma_sv_unfold(*v);
                lemma_sv_unfold(Value::Mapping(out));
            }
            Value::Mapping(out)
        },
    }
}

impl Clone for Value {
    fn clone(&self) -> (r: Self)
        ensures
            r@ == self@,
    {
        clone_value(self)
    }
}

impl Value {
    /// `Some` exactly when this value is the null value.
    pub fn as_none(&self) -> (r: Option<()>)
        ensures
            r is Some <==> self@ is Null,
    {
        match self {
            Value::Null => Some(()),
            _ => None,
        }
    }

    /// The string inside a string value.
    pub fn as_str(&self) -> (r: Option<&str>)
        ensures
            match r {
                Some(s) => self@ is Str && s@ == self@->Str_0,
                None => !(self@ is Str),
            },
    {
        match self {
            Value::String(s) => Some(s.as_str()),
            _ => None,
        }
    }

    /// Takes the string out of a string value.
    pub fn to_string(self) -> (r: Option<String>)
        ensures
            match r {
                Some(s) => self@ is Str && s@ == self@->Str_0,
                None => !(self@ is Str),
            },
    {
        match self {
            Value::String(s) => Some(s),
            _ => None,
        }
    }

    /// The flag inside a boolean value.
    pub fn as_boolean(&self) -> (r: Option<bool>)
        ensures
            match r {
                Some(b) => self@ is Bool && b == self@->Bool_0,
                None => !(self@ is Bool),
            },
    {
        match self {
            Value::Boolean(b) => Some(*b),
            _ => None,
        }
    }

    /// The decoder's text for a number value.
    pub fn as_number(&self) -> (r: Option<&String>)
        ensures
            match r {
                Some(n) => self@ is Num && n@ == self@->Num_0,
                None => !(self@ is Num),
            },
    {
        match self {
            Value::Number(n) => Some(n),
            _ => None,
        }
    }

    /// The items of a sequence value.
    pub fn as_sequence(&self) -> (r: Option<&Vec<Value>>)
        ensures
            match r {
                Some(items) => self@ is List && vmodel(items@) == self@->List_0,
                None => !(self@ is List),
            },
    {
        proof {
            lemma_sv_unfold(*self);
        }
        match self {
            Value::Sequence(items) => Some(items),
            _ => None,
        }
    }

    /// The entries of a mapping value.
    pub fn as_mapping(&self) -> (r: Option<&Vec<(String, Value)>>)
        ensures
            match r {
                Some(entries) => self@ is Dict && emodel(entries@) == self@->Dict_0,
                None => !(self@ is Dict),
            },
    {
        proof {
            lemma_sv_unfold(*self);
        }
        match self {
            Value::Mapping(entries) => Some(entries),
            _ => None,
        }
    }

    /// Takes the entries out of a mapping value.
    pub fn to_mapping(self) -> (r: Option<Vec<(String, Value)>>)
        ensures
            match r {
                Some(entries) => self@ is Dict && emodel(entries@) == self@->Dict_0,
                None => !(self@ is Dict),
            },
    {
        proof {
            lemma_sv_unfold(self);
        }
        match self {
            Value::Mapping(entries) => Some(entries),
            _ => None,
        }
    }
}

} // verus!
