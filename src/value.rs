//! Structured values: a recursive tagged union of JSON-like data.
use vstd::prelude::*;

verus! {

/// A JSON-like datum.
#[derive(Debug)]
pub enum Value {
    /// A number, held as the bit pattern of a 64-bit IEEE-754 float.
    Number(u64),
    Text(String),
    Bool(bool),
    Null,
    Undefined,
    Array(Vec<Value>),
    Object(Fields),
}

/// A field mapping: each string key at most once, each with a value.
/// The order in which fields are held carries no meaning.
#[derive(Debug)]
pub struct Fields {
    entries: Vec<(String, Value)>,
}

/// No key occurs twice in `s`.
pub open spec fn keys_unique(s: Seq<(String, Value)>) -> bool {
    forall|i: int, j: int|
        0 <= i < s.len() && 0 <= j < s.len() && i != j ==> #[trigger] s[i].0@ != #[trigger] s[j].0@
}

/// The value stored under `key` in the entries `s`, if any.
pub open spec fn field(s: Seq<(String, Value)>, key: Seq<char>) -> Option<Value> {
    if exists|i: int| 0 <= i < s.len() && #[trigger] s[i].0@ == key {
        Some(s[choose|i: int| 0 <= i < s.len() && #[trigger] s[i].0@ == key].1)
    } else {
        None
    }
}

/// The name of the field that holds a node's identifier.
pub open spec fn id_key() -> Seq<char> {
    seq!['i', 'd']
}

/// The identifier of a field mapping: the string under `id_key()`, if there is one.
pub open spec fn id_of(f: Fields) -> Option<Seq<char>> {
    match field(f@, id_key()) {
        Some(Value::Text(s)) => Some(s@),
        _ => None,
    }
}

impl View for Fields {
    type V = Seq<(String, Value)>;

    closed spec fn view(&self) -> Seq<(String, Value)> {
        self.entries@
    }
}

/// Structural equality: deep and value-based; the fields of a mapping are
/// compared by key, whatever order they are held in.
pub closed spec fn same_value(a: Value, b: Value) -> bool
    decreases a,
{
    match a {
        Value::Number(x) => b is Number && b->Number_0 == x,
        Value::Text(x) => b is Text && b->Text_0@ == x@,
        Value::Bool(x) => b is Bool && b->Bool_0 == x,
        Value::Null => b is Null,
        Value::Undefined => b is Undefined,
        Value::Array(x) => b is Array && {
            let y = b->Array_0@;
            &&& x@.len() == y.len()
            &&& forall|i: int| 0 <= i < x@.len() ==> same_value(#[trigger] x@[i], y[i])
        },
        Value::Object(x) => b is Object && {
            let y = b->Object_0.entries@;
            &&& x.entries@.len() == y.len()
            &&& forall|i: int|
                0 <= i < x.entries@.len() ==> {
                    let other = field(y, (#[trigger] x.entries@[i]).0@);
                    other is Some && same_value(x.entries@[i].1, other->Some_0)
                }
        },
    }
}

/// Structural equality of two field mappings.
pub open spec fn same_fields(a: Fields, b: Fields) -> bool {
    same_value(Value::Object(a), Value::Object(b))
}

impl Fields {
    #[verifier::type_invariant]
    spec fn inv(self) -> bool {
        keys_unique(self.entries@)
    }

    /// An empty mapping.
    pub fn new() -> (r: Fields)
        ensures
            r@.len() == 0,
    {
        Fields { entries: Vec::new() }
    }

    /// The number of fields.
    pub fn len(&self) -> (r: usize)
        ensures
            r == self@.len(),
    {
        self.entries.len()
    }

    /// Where `key` stands among the entries, if it does.
    fn position(&self, key: &String) -> (r: Option<usize>)
        ensures
            match r {
                Some(i) => i < self@.len() && self@[i as int].0@ == key@,
                None => forall|i: int| 0 <= i < self@.len() ==> #[trigger] self@[i].0@ != key@,
            },
    {
        let mut i: usize = 0;
        while i < self.entries.len()
            invariant
                i <= self.entries@.len(),
                forall|k: int| 0 <= k < i ==> #[trigger] self.entries@[k].0@ != key@,
            decreases self.entries@.len() - i,
        {
            if self.entries[i].0 == *key {
                return Some(i);
            }
            i = i + 1;
        }
        None
    }

    /// The value under `key`, if any.
    pub fn get(&self, key: &String) -> (r: Option<&Value>)
        ensures
            match r {
                Some(v) => field(self@, key@) == Some(*v),
                None => field(self@, key@) is None,
            },
    {
        proof {
            use_type_invariant(self);
        }
        match self.position(key) {
            Some(i) => {
                proof {
                    let c = choose|j: int| 0 <= j < self@.len() && #[trigger] self@[j].0@ == key@;
                    assert(self@[i as int].0@ == key@);
                    assert(c == i as int);
                }
                Some(&self.entries[i].1)
            },
            None => None,
        }
    }

    /// The key and value of the entry at `i`.
    pub fn entry(&self, i: usize) -> (r: (&String, &Value))
        requires
            i < self@.len(),
        ensures
            *r.0 == self@[i as int].0,
            *r.1 == self@[i as int].1,
    {
        (&self.entries[i].0, &self.entries[i].1)
    }
}


/// In entries with distinct keys, the field under the key at `i` is the value at `i`.
proof fn lemma_field_at(s: Seq<(String, Value)>, i: int)
    requires
        keys_unique(s),
        0 <= i < s.len(),
    ensures
        field(s, s[i].0@) == Some(s[i].1),
{
    let c = choose|j: int| 0 <= j < s.len() && #[trigger] s[j].0@ == s[i].0@;
    assert(s[c].0@ == s[i].0@);
}

impl Fields {
    /// Sets the field `key` to `value`: it replaces the value under `key` if
    /// there is one, and adds the field otherwise.
    pub fn insert(&mut self, key: String, value: Value)
        ensures
            field(final(self)@, key@) == Some(value),
            forall|k: Seq<char>| k != key@ ==> field(final(self)@, k) == field(old(self)@, k),
            final(self)@.len() == old(self)@.len() + if field(old(self)@, key@) is Some {
                0int
            } else {
                1int
            },
    {
        proof {
            use_type_invariant(&*self);
        }
        let ghost k0 = key@;
        let ghost s0 = self.entries@;
        let pos = self.position(&key);
        let mut entries = Vec::new();
        std::mem::swap(&mut entries, &mut self.entries);
        let ghost at: int;
        match pos {
            Some(i) => {
                entries.set(i, (key, value));
                proof {
                    at = i as int;
                    assert(s0[at].0@ == k0);
                }
            },
            None => {
                entries.push((key, value));
                proof {
                    at = s0.len() as int;
                }
            },
        }
        proof {
            let s1 = entries@;
            assert(s1[at].0@ == k0);
            assert(forall|j: int| 0 <= j < s1.len() && j != at ==> s1[j] == s0[j]);
            assert(keys_unique(s1));
            lemma_field_at(s1, at);
            assert forall|k: Seq<char>| k != k0 implies field(s1, k) == field(s0, k) by {
                if exists|j: int| 0 <= j < s0.len() && #[trigger] s0[j].0@ == k {
                    let j = choose|j: int| 0 <= j < s0.len() && #[trigger] s0[j].0@ == k;
                    lemma_field_at(s0, j);
                    lemma_field_at(s1, j);
                } else {
                    assert forall|j: int| 0 <= j < s1.len() implies #[trigger] s1[j].0@ != k by {
                        if j != at {
                            assert(s0[j].0@ != k);
                        }
                    }
                }
            }
        }
        *self = Fields { entries };
    }

    /// A deep copy.
    pub fn duplicate(&self) -> (r: Fields)
        ensures
            same_fields(r, *self),
            id_of(r) == id_of(*self),
        decreases self,
    {
        proof {
            use_type_invariant(self);
        }
        let mut out: Vec<(String, Value)> = Vec::new();
        let mut i: usize = 0;
        while i < self.entries.len()
            invariant
                i <= self.entries@.len(),
                out@.len() == i,
                forall|k: int|
                    0 <= k < i ==> (#[trigger] out@[k]).0 == self.entries@[k].0 && same_value(
                        out@[k].1,
                        self.entries@[k].1,
                    ),
            decreases self.entries@.len() - i,
        {
            let key = self.entries[i].0.clone();
            let value = self.entries[i].1.duplicate();
            out.push((key, value));
            i = i + 1;
        }
        proof {
            assert(keys_unique(out@));
        }
        let r = Fields { entries: out };
        proof {
            let x = r.entries@;
            let y = self.entries@;
            assert forall|i: int| 0 <= i < x.len() implies {
                let other = field(y, (#[trigger] x[i]).0@);
                other is Some && same_value(x[i].1, other->Some_0)
            } by {
                lemma_field_at(y, i);
            }
            if exists|i: int| 0 <= i < y.len() && #[trigger] y[i].0@ == id_key() {
                let i = choose|i: int| 0 <= i < y.len() && #[trigger] y[i].0@ == id_key();
                lemma_field_at(x, i);
                lemma_field_at(y, i);
            } else {
                assert forall|i: int| 0 <= i < x.len() implies #[trigger] x[i].0@ != id_key() by {
                    assert(y[i].0@ != id_key());
                }
            }
        }
        r
    }

    /// Whether the two mappings are structurally equal.
    pub fn same_as(&self, other: &Fields) -> (r: bool)
        ensures
            r == same_fields(*self, *other),
        decreases self,
    {
        proof {
            use_type_invariant(self);
            use_type_invariant(other);
        }
        let x = &self.entries;
        if x.len() != other.entries.len() {
            return false;
        }
        let mut i: usize = 0;
        while i < x.len()
            invariant
                i <= x@.len(),
                x@ == self.entries@,
                x@.len() == other.entries@.len(),
                keys_unique(other.entries@),
                forall|k: int|
                    0 <= k < i ==> {
                        let o = field(other.entries@, (#[trigger] x@[k]).0@);
                        o is Some && same_value(x@[k].1, o->Some_0)
                    },
            decreases x@.len() - i,
        {
            match other.position(&x[i].0) {
                Some(j) => {
                    proof {
                        lemma_field_at(other.entries@, j as int);
                    }
                    if !x[i].1.same_as(&other.entries[j].1) {
                        return false;
                    }
                },
                None => {
                    proof {
                        assert forall|j: int| 0 <= j < other.entries@.len() implies #[trigger] other.entries@[j].0@
                            != x@[i as int].0@ by {
                            assert(other@[j].0@ != x@[i as int].0@);
                        }
                    }
                    return false;
                },
            }
            i = i + 1;
        }
        true
    }
}

impl Value {
    /// A deep copy.
    pub fn duplicate(&self) -> (r: Value)
        ensures
            same_value(r, *self),
        decreases self,
    {
        match self {
            Value::Number(x) => Value::Number(*x),
            Value::Text(s) => Value::Text(s.clone()),
            Value::Bool(b) => Value::Bool(*b),
            Value::Null => Value::Null,
            Value::Undefined => Value::Undefined,
            Value::Array(v) => {
                let mut out: Vec<Value> = Vec::new();
                let mut i: usize = 0;
                while i < v.len()
                    invariant
                        *self == Value::Array(*v),
                        i <= v@.len(),
                        out@.len() == i,
                        forall|k: int| 0 <= k < i ==> same_value(#[trigger] out@[k], v@[k]),
                    decreases v@.len() - i,
                {
                    proof {
                        vstd::std_specs::vec::axiom_vec_index_decreases(*v, i as int);
                        assert((*self)->Array_0 == *v);
                        assert(decreases_to!(*self => (*self)->Array_0));
                        assert(decreases_to!(*self => v[i as int]));
                    }
                    out.push(v[i].duplicate());
                    i = i + 1;
                }
                Value::Array(out)
            },
            Value::Object(f) => Value::Object(f.duplicate()),
        }
    }

    /// Whether the two values are structurally equal.
    pub fn same_as(&self, other: &Value) -> (r: bool)
        ensures
            r == same_value(*self, *other),
        decreases self,
    {
        match (self, other) {
            (Value::Number(x), Value::Number(y)) => *x == *y,
            (Value::Text(x), Value::Text(y)) => *x == *y,
            (Value::Bool(x), Value::Bool(y)) => *x == *y,
            (Value::Null, Value::Null) => true,
            (Value::Undefined, Value::Undefined) => true,
            (Value::Array(x), Value::Array(y)) => {
                if x.len() != y.len() {
                    return false;
                }
                let mut i: usize = 0;
                while i < x.len()
                    invariant
                        *self == Value::Array(*x),
                        *other == Value::Array(*y),
                        i <= x@.len(),
                        x@.len() == y@.len(),
                        forall|k: int| 0 <= k < i ==> same_value(#[trigger] x@[k], y@[k]),
                    decreases x@.len() - i,
                {
                    proof {
                        vstd::std_specs::vec::axiom_vec_index_decreases(*x, i as int);
                        assert((*self)->Array_0 == *x);
                        assert(decreases_to!(*self => (*self)->Array_0));
                    }
                    if !x[i].same_as(&y[i]) {
                        return false;
                    }
                    i = i + 1;
                }
                true
            },
            (Value::Object(x), Value::Object(y)) => x.same_as(y),
            _ => false,
        }
    }
}

} // verus!
