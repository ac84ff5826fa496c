use vstd::prelude::*;

verus! {

/// An NBT value. Floating-point payloads are carried as their IEEE-754 bit
/// patterns: nothing in this library computes with them.
#[derive(Debug)]
pub enum Value {
    Byte(i8),
    Short(i16),
    Int(i32),
    Long(i64),
    Float(u32),
    Double(u64),
    ByteArray(Vec<i8>),
    Str(String),
    List(List),
    Compound(Compound),
    IntArray(Vec<i32>),
    LongArray(Vec<i64>),
}

/// A homogeneous NBT list.
#[derive(Debug)]
pub enum List {
    End,
    Byte(Vec<i8>),
    Short(Vec<i16>),
    Int(Vec<i32>),
    Long(Vec<i64>),
    Float(Vec<u32>),
    Double(Vec<u64>),
    ByteArray(Vec<Vec<i8>>),
    Str(Vec<String>),
    List(Vec<List>),
    Compound(Vec<Compound>),
    IntArray(Vec<Vec<i32>>),
    LongArray(Vec<Vec<i64>>),
}

/// An NBT compound: named values in insertion order.
#[derive(Debug)]
pub struct Compound {
    entries: Vec<(String, Value)>,
}

impl Compound {
    /// The entries, in order.
    pub closed spec fn entries(self) -> Seq<(String, Value)> {
        self.entries@
    }

    /// `i` is the first position whose name is `key`.
    pub open spec fn first_at(self, i: int, key: Seq<char>) -> bool {
        &&& 0 <= i < self.entries().len()
        &&& self.entries()[i].0@ == key
        &&& forall|j: int| 0 <= j < i ==> (#[trigger] self.entries()[j]).0@ != key
    }

    pub open spec fn has(self, key: Seq<char>) -> bool {
        exists|i: int| self.first_at(i, key)
    }

    /// The value named `key`, if any.
    pub open spec fn lookup(self, key: Seq<char>) -> Option<Value> {
        if self.has(key) {
            Some(self.entries()[choose|i: int| self.first_at(i, key)].1)
        } else {
            None
        }
    }

    pub proof fn lemma_first_at_unique(self, i: int, j: int, key: Seq<char>)
        requires
            self.first_at(i, key),
            self.first_at(j, key),
        ensures
            i == j,
    {
        if i < j {
            assert(self.entries()[i].0@ != key);
        } else if j < i {
            assert(self.entries()[j].0@ != key);
        }
    }

    /// An empty compound.
    pub fn new() -> (r: Compound)
        ensures
            r.entries() == Seq::<(String, Value)>::empty(),
    {
        Compound { entries: Vec::new() }
    }

    /// The number of entries.
    pub fn len(&self) -> (r: usize)
        ensures
            r == self.entries().len(),
    {
        self.entries.len()
    }

    /// Whether the compound has no entries.
    pub fn is_empty(&self) -> (r: bool)
        ensures
            r == (self.entries().len() == 0),
    {
        self.entries.len() == 0
    }

    /// The `i`-th entry.
    pub fn entry(&self, i: usize) -> (r: (&String, &Value))
        requires
            i < self.entries().len(),
        ensures
            *r.0 == self.entries()[i as int].0,
            *r.1 == self.entries()[i as int].1,
    {
        let e = &self.entries[i];
        (&e.0, &e.1)
    }

    /// The position of the first entry named `key`.
    fn position(&self, key: &str) -> (r: Option<usize>)
        ensures
            match r {
                Some(i) => self.first_at(i as int, key@),
                None => forall|j: int|
                    0 <= j < self.entries().len() ==> (#[trigger] self.entries()[j]).0@ != key@,
            },
    {
        let k = key.to_owned();
        let mut i: usize = 0;
        while i < self.entries.len()
            invariant
                i <= self.entries@.len(),
                k@ == key@,
                forall|j: int| 0 <= j < i ==> (#[trigger] self.entries@[j]).0@ != key@,
            decreases self.entries@.len() - i,
        {
            if self.entries[i].0 == k {
                return Some(i);
            }
            i = i + 1;
        }
        None
    }

    /// The value named `key`, if any.
    pub fn get(&self, key: &str) -> (r: Option<&Value>)
        ensures
            match r {
                Some(v) => self.lookup(key@) == Some(*v),
                None => self.lookup(key@).is_none(),
            },
    {
        match self.position(key) {
            Some(i) => {
                proof {
                    let c = choose|j: int| self.first_at(j, key@);
                    self.lemma_first_at_unique(i as int, c, key@);
                }
                Some(&self.entries[i].1)
            },
            None => None,
        }
    }

    /// Sets the value named `key`, replacing it in place where the name is
    /// already present, and appending a new entry otherwise.
    pub fn insert(&mut self, key: String, value: Value)
        ensures
            old(self).has(key@) ==> final(self).entries() == old(self).entries().update(
                choose|i: int| old(self).first_at(i, key@),
                (old(self).entries()[choose|i: int| old(self).first_at(i, key@)].0, value),
            ),
            !old(self).has(key@) ==> final(self).entries() == old(self).entries().push((key, value)),
    {
        match self.position(key.as_str()) {
            Some(i) => {
                proof {
                    let c = choose|j: int| self.first_at(j, key@);
                    self.lemma_first_at_unique(i as int, c, key@);
                }
                let mut entry = self.entries.remove(i);
                entry.1 = value;
                self.entries.insert(i, entry);
            },
            None => {
                self.entries.push((key, value));
            },
        }
    }
}

impl Value {
    /// The value as an `i32`, for any integer tag whose value fits.
    ///
    /// `Float` and `Double` tags give `None`: their payloads are carried as bit
    /// patterns and this library does no floating-point arithmetic, so which
    /// integer a float tag would stand for is left to the code that decoded it.
    pub open spec fn int_value(self) -> Option<i32> {
        match self {
            Value::Byte(v) => Some(v as i32),
            Value::Short(v) => Some(v as i32),
            Value::Int(v) => Some(v),
            Value::Long(v) => if i32::MIN <= v <= i32::MAX {
                Some(v as i32)
            } else {
                None
            },
            _ => None,
        }
    }

    /// The value as an `i32`, for any integer tag whose value fits; `None` for
    /// float tags and every other kind.
    pub fn as_i32(&self) -> (r: Option<i32>)
        ensures
            r == self.int_value(),
    {
        match self {
            Value::Byte(v) => Some(*v as i32),
            Value::Short(v) => Some(*v as i32),
            Value::Int(v) => Some(*v),
            Value::Long(v) => if i32::MIN as i64 <= *v && *v <= i32::MAX as i64 {
                Some(*v as i32)
            } else {
                None
            },
            _ => None,
        }
    }

    /// Structural equality, comparing arrays and strings by content.
    pub open spec fn deep_eq(self, other: Value) -> bool
        decreases self,
    {
        match self {
            Value::Byte(a) => other == Value::Byte(a),
            Value::Short(a) => other == Value::Short(a),
            Value::Int(a) => other == Value::Int(a),
            Value::Long(a) => other == Value::Long(a),
            Value::Float(a) => other == Value::Float(a),
            Value::Double(a) => other == Value::Double(a),
            Value::ByteArray(a) => other matches Value::ByteArray(b) && a@ == b@,
            Value::Str(a) => other matches Value::Str(b) && a@ == b@,
            Value::List(a) => other matches Value::List(b) && a.deep_eq(b),
            Value::Compound(a) => other matches Value::Compound(b) && a.deep_eq(b),
            Value::IntArray(a) => other matches Value::IntArray(b) && a@ == b@,
            Value::LongArray(a) => other matches Value::LongArray(b) && a@ == b@,
        }
    }

    /// A copy of this value, equal to it in every part.
    pub fn duplicate(&self) -> (r: Value)
        ensures
            r.deep_eq(*self),
        decreases self,
    {
        match self {
            Value::Byte(a) => Value::Byte(*a),
            Value::Short(a) => Value::Short(*a),
            Value::Int(a) => Value::Int(*a),
            Value::Long(a) => Value::Long(*a),
            Value::Float(a) => Value::Float(*a),
            Value::Double(a) => Value::Double(*a),
            Value::ByteArray(a) => Value::ByteArray(a.clone()),
            Value::Str(a) => Value::Str(a.clone()),
            Value::List(a) => Value::List(a.duplicate()),
            Value::Compound(a) => Value::Compound(a.duplicate()),
            Value::IntArray(a) => Value::IntArray(a.clone()),
            Value::LongArray(a) => Value::LongArray(a.clone()),
        }
    }
}

impl List {
    /// The number of elements.
    pub open spec fn count(self) -> nat {
        match self {
            List::End => 0,
            List::Byte(a) => a@.len(),
            List::Short(a) => a@.len(),
            List::Int(a) => a@.len(),
            List::Long(a) => a@.len(),
            List::Float(a) => a@.len(),
            List::Double(a) => a@.len(),
            List::ByteArray(a) => a@.len(),
            List::Str(a) => a@.len(),
            List::List(a) => a@.len(),
            List::Compound(a) => a@.len(),
            List::IntArray(a) => a@.len(),
            List::LongArray(a) => a@.len(),
        }
    }

    /// The number of elements.
    pub fn len(&self) -> (r: usize)
        ensures
            r == self.count(),
    {
        match self {
            List::End => 0,
            List::Byte(a) => a.len(),
            List::Short(a) => a.len(),
            List::Int(a) => a.len(),
            List::Long(a) => a.len(),
            List::Float(a) => a.len(),
            List::Double(a) => a.len(),
            List::ByteArray(a) => a.len(),
            List::Str(a) => a.len(),
            List::List(a) => a.len(),
            List::Compound(a) => a.len(),
            List::IntArray(a) => a.len(),
            List::LongArray(a) => a.len(),
        }
    }

    /// Whether the list has no elements.
    pub fn is_empty(&self) -> (r: bool)
        ensures
            r == (self.count() == 0),
    {
        self.len() == 0
    }

    /// Structural equality, comparing arrays and strings by content.
    pub open spec fn deep_eq(self, other: List) -> bool
        decreases self,
    {
        match self {
            List::End => other == List::End,
            List::Byte(a) => other matches List::Byte(b) && a@ == b@,
            List::Short(a) => other matches List::Short(b) && a@ == b@,
            List::Int(a) => other matches List::Int(b) && a@ == b@,
            List::Long(a) => other matches List::Long(b) && a@ == b@,
            List::Float(a) => other matches List::Float(b) && a@ == b@,
            List::Double(a) => other matches List::Double(b) && a@ == b@,
            List::ByteArray(a) => other matches List::ByteArray(b) && a@.len() == b@.len()
                && forall|i: int| 0 <= i < a@.len() ==> (#[trigger] a@[i])@ == b@[i]@,
            List::Str(a) => other matches List::Str(b) && a@.len() == b@.len()
                && forall|i: int| 0 <= i < a@.len() ==> (#[trigger] a@[i])@ == b@[i]@,
            List::List(a) => other matches List::List(b) && a@.len() == b@.len()
                && forall|i: int| 0 <= i < a@.len() ==> (#[trigger] a@[i]).deep_eq(b@[i]),
            List::Compound(a) => other matches List::Compound(b) && a@.len() == b@.len()
                && forall|i: int| 0 <= i < a@.len() ==> (#[trigger] a@[i]).deep_eq(b@[i]),
            List::IntArray(a) => other matches List::IntArray(b) && a@.len() == b@.len()
                && forall|i: int| 0 <= i < a@.len() ==> (#[trigger] a@[i])@ == b@[i]@,
            List::LongArray(a) => other matches List::LongArray(b) && a@.len() == b@.len()
                && forall|i: int| 0 <= i < a@.len() ==> (#[trigger] a@[i])@ == b@[i]@,
        }
    }

    /// A copy of this list, equal to it in every part.
    pub fn duplicate(&self) -> (r: List)
        ensures
            r.deep_eq(*self),
        decreases self,
    {
        match self {
            List::End => List::End,
            List::Byte(a) => List::Byte(a.clone()),
            List::Short(a) => List::Short(a.clone()),
            List::Int(a) => List::Int(a.clone()),
            List::Long(a) => List::Long(a.clone()),
            List::Float(a) => List::Float(a.clone()),
            List::Double(a) => List::Double(a.clone()),
            List::ByteArray(a) => {
                let mut out: Vec<Vec<i8>> = Vec::new();
                let mut i: usize = 0;
                while i < a.len()
                    invariant
                        i <= a@.len(),
                        out@.len() == i,
                        forall|j: int| 0 <= j < i ==> (#[trigger] out@[j])@ == a@[j]@,
                    decreases a@.len() - i,
                {
                    out.push(a[i].clone());
                    i = i + 1;
                }
                List::ByteArray(out)
            },
            List::Str(a) => {
                let mut out: Vec<String> = Vec::new();
                let mut i: usize = 0;
                while i < a.len()
                    invariant
                        i <= a@.len(),
                        out@.len() == i,
                        forall|j: int| 0 <= j < i ==> (#[trigger] out@[j])@ == a@[j]@,
                    decreases a@.len() - i,
                {
                    out.push(a[i].clone());
                    i = i + 1;
                }
                List::Str(out)
            },
            List::List(a) => {
                let mut out: Vec<List> = Vec::new();
                let mut i: usize = 0;
                while i < a.len()
                    invariant
                        i <= a@.len(),
                        out@.len() == i,
                        forall|j: int| 0 <= j < i ==> (#[trigger] out@[j]).deep_eq(a@[j]),
                        *self == List::List(*a),
                    decreases a@.len() - i,
                {
                    assert(decreases_to!(*self => self->List_0));
                    assert(decreases_to!(*a => a@));
                    assert(decreases_to!(a@ => a@[i as int]));
                    out.push(a[i].duplicate());
                    i = i + 1;
                }
                List::List(out)
            },
            List::Compound(a) => {
                let mut out: Vec<Compound> = Vec::new();
                let mut i: usize = 0;
                while i < a.len()
                    invariant
                        i <= a@.len(),
                        out@.len() == i,
                        forall|j: int| 0 <= j < i ==> (#[trigger] out@[j]).deep_eq(a@[j]),
                        *self == List::Compound(*a),
                    decreases a@.len() - i,
                {
                    assert(decreases_to!(*self => self->Compound_0));
                    assert(decreases_to!(*a => a@));
                    assert(decreases_to!(a@ => a@[i as int]));
                    out.push(a[i].duplicate());
                    i = i + 1;
                }
                List::Compound(out)
            },
            List::IntArray(a) => {
                let mut out: Vec<Vec<i32>> = Vec::new();
                let mut i: usize = 0;
                while i < a.len()
                    invariant
                        i <= a@.len(),
                        out@.len() == i,
                        forall|j: int| 0 <= j < i ==> (#[trigger] out@[j])@ == a@[j]@,
                    decreases a@.len() - i,
                {
                    out.push(a[i].clone());
                    i = i + 1;
                }
                List::IntArray(out)
            },
            List::LongArray(a) => {
                let mut out: Vec<Vec<i64>> = Vec::new();
                let mut i: usize = 0;
                while i < a.len()
                    invariant
                        i <= a@.len(),
                        out@.len() == i,
                        forall|j: int| 0 <= j < i ==> (#[trigger] out@[j])@ == a@[j]@,
                    decreases a@.len() - i,
                {
                    out.push(a[i].clone());
                    i = i + 1;
                }
                List::LongArray(out)
            },
        }
    }
}

impl Compound {
    /// Structural equality: the same names, in the same order, with equal values.
    pub open spec fn deep_eq(self, other: Compound) -> bool
        decreases self,
    {
        &&& self.entries().len() == other.entries().len()
        &&& forall|i: int|
            0 <= i < self.entries().len() ==> (#[trigger] self.entries()[i]).0@ == other.entries()[i].0@
                && self.entries()[i].1.deep_eq(other.entries()[i].1)
    }

    /// A copy of this compound, equal to it in every part.
    pub fn duplicate(&self) -> (r: Compound)
        ensures
            r.deep_eq(*self),
        decreases self,
    {
        let mut out: Vec<(String, Value)> = Vec::new();
        let mut i: usize = 0;
        while i < self.entries.len()
            invariant
                i <= self.entries@.len(),
                out@.len() == i,
                forall|j: int| 0 <= j < i ==> (#[trigger] out@[j]).0@ == self.entries@[j].0@
                    && out@[j].1.deep_eq(self.entries@[j].1),
            decreases self.entries@.len() - i,
        {
            let e = &self.entries[i];
            assert(decreases_to!(*self => self.entries@[i as int].1));
            let v = e.1.duplicate();
            out.push((e.0.clone(), v));
            i = i + 1;
        }
        Compound { entries: out }
    }
}

} // verus!
