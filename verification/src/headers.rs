//! Header fields: names with values, each name at most once, in the order of first appearance.
use crate::text::str_eq;
use vstd::prelude::*;

verus! {

/// Header fields as mathematical data: name and value, in order.
pub type Fields = Seq<(Seq<char>, Seq<char>)>;

/// No name occurs twice.
pub open spec fn unique_names(fields: Fields) -> bool {
    forall|i: int, j: int| 0 <= i < j < fields.len() ==> (#[trigger] fields[i]).0 != (#[trigger] fields[j]).0
}

/// The field at position `i` bears this name.
pub open spec fn named_at(fields: Fields, name: Seq<char>, i: int) -> bool {
    0 <= i < fields.len() && fields[i].0 == name
}

pub open spec fn has_field(fields: Fields, name: Seq<char>) -> bool {
    exists|i: int| named_at(fields, name, i)
}

/// The value that goes with a name.
pub open spec fn lookup(fields: Fields, name: Seq<char>) -> Option<Seq<char>> {
    if has_field(fields, name) {
        Some(fields[choose|i: int| named_at(fields, name, i)].1)
    } else {
        None
    }
}

/// The fields with a name set to a value: replaced where it stands, or added at the end.
pub open spec fn put(fields: Fields, name: Seq<char>, value: Seq<char>) -> Fields {
    if has_field(fields, name) {
        fields.update(choose|i: int| named_at(fields, name, i), (name, value))
    } else {
        fields.push((name, value))
    }
}

/// With unique names, a name's position is the only one.
pub proof fn lemma_named(fields: Fields, name: Seq<char>, i: int)
    requires
        unique_names(fields),
        named_at(fields, name, i),
    ensures
        has_field(fields, name),
        lookup(fields, name) == Some(fields[i].1),
        i == choose|k: int| named_at(fields, name, k),
{
    let k = choose|k: int| named_at(fields, name, k);
    assert(named_at(fields, name, k));
    if k < i {
        assert(fields[k].0 != fields[i].0);
    } else if i < k {
        assert(fields[i].0 != fields[k].0);
    }
}

/// Setting a field keeps names unique, gives the new value under its name, and changes no other.
pub proof fn law_put(fields: Fields, name: Seq<char>, value: Seq<char>)
    requires
        unique_names(fields),
    ensures
        unique_names(put(fields, name, value)),
        lookup(put(fields, name, value), name) == Some(value),
        forall|other: Seq<char>|
            other != name ==> #[trigger] lookup(put(fields, name, value), other) == lookup(fields, other),
{
    let after = put(fields, name, value);
    let at = if has_field(fields, name) {
        choose|i: int| named_at(fields, name, i)
    } else {
        fields.len() as int
    };
    assert(has_field(fields, name) ==> named_at(fields, name, at));
    assert(after[at] == (name, value));
    assert forall|i: int, j: int| 0 <= i < j < after.len() implies (#[trigger] after[i]).0 != (
    #[trigger] after[j]).0 by {
        if has_field(fields, name) {
            assert(fields[i].0 != fields[j].0);
            assert(after[i].0 == fields[i].0 && after[j].0 == fields[j].0);
        } else if j == at {
            if fields[i].0 == name {
                assert(named_at(fields, name, i));
            }
        } else {
            assert(fields[i].0 != fields[j].0);
        }
    }
    assert(named_at(after, name, at));
    lemma_named(after, name, at);
    assert forall|other: Seq<char>| other != name implies #[trigger] lookup(after, other) == lookup(
        fields,
        other,
    ) by {
        if has_field(fields, other) {
            let k = choose|k: int| named_at(fields, other, k);
            assert(named_at(fields, other, k));
            assert(k != at);
            assert(named_at(after, other, k));
            lemma_named(after, other, k);
        } else if has_field(after, other) {
            let k = choose|k: int| named_at(after, other, k);
            assert(named_at(after, other, k));
            assert(k != at);
            assert(named_at(fields, other, k));
        }
    }
}

/// The header fields of a message.
pub struct Headers {
    entries: Vec<(String, String)>,
}

impl View for Headers {
    type V = Fields;

    closed spec fn view(&self) -> Fields {
        Seq::new(self.entries@.len(), |i: int| (self.entries@[i].0@, self.entries@[i].1@))
    }
}

impl Headers {
    /// No name occurs twice.
    pub open spec fn wf(&self) -> bool {
        unique_names(self@)
    }

    pub fn new() -> (headers: Self)
        ensures
            headers@ == Seq::<(Seq<char>, Seq<char>)>::empty(),
            headers.wf(),
    {
        let headers = Headers { entries: Vec::new() };
        assert(headers@ =~= Seq::<(Seq<char>, Seq<char>)>::empty());
        headers
    }

    pub fn len(&self) -> (n: usize)
        ensures
            n == self@.len(),
    {
        self.entries.len()
    }

    /// The field at a position.
    pub fn entry(&self, i: usize) -> (field: (&str, &str))
        requires
            i < self@.len(),
        ensures
            (field.0@, field.1@) == self@[i as int],
    {
        let e = &self.entries[i];
        (e.0.as_str(), e.1.as_str())
    }

    fn position(&self, name: &str) -> (at: Option<usize>)
        requires
            self.wf(),
        ensures
            match at {
                Some(i) => named_at(self@, name@, i as int),
                None => !has_field(self@, name@),
            },
    {
        let n: usize = self.entries.len();
        let mut i: usize = 0;
        while i < n
            invariant
                n == self@.len(),
                i <= n,
                forall|j: int| 0 <= j < i ==> !#[trigger] named_at(self@, name@, j),
            decreases n - i,
        {
            let (key, _) = self.entry(i);
            if str_eq(key, name) {
                return Some(i);
            }
            i += 1;
        }
        None
    }

    /// The value that goes with a name.
    pub fn get(&self, name: &str) -> (value: Option<&str>)
        requires
            self.wf(),
        ensures
            match value {
                Some(v) => lookup(self@, name@) == Some(v@),
                None => lookup(self@, name@) is None,
            },
    {
        match self.position(name) {
            Some(i) => {
                proof {
                    lemma_named(self@, name@, i as int);
                }
                let (_, value) = self.entry(i);
                Some(value)
            },
            None => None,
        }
    }

    /// Sets a field.
    pub fn insert(&mut self, name: String, value: String)
        requires
            old(self).wf(),
        ensures
            final(self)@ == put(old(self)@, name@, value@),
            final(self).wf(),
    {
        proof {
            law_put(self@, name@, value@);
        }
        let ghost before = self@;
        let ghost key = name@;
        let ghost val = value@;
        match self.position(name.as_str()) {
            Some(i) => {
                proof {
                    lemma_named(self@, name@, i as int);
                }
                self.entries.set(i, (name, value));
            },
            None => {
                self.entries.push((name, value));
            },
        }
        assert(self@ =~= put(before, key, val));
    }
}

impl Clone for Headers {
    fn clone(&self) -> (copy: Self)
        ensures
            copy@ == self@,
    {
        let n: usize = self.entries.len();
        let mut entries: Vec<(String, String)> = Vec::new();
        let mut i: usize = 0;
        while i < n
            invariant
                n == self.entries@.len(),
                i <= n,
                entries@.len() == i,
                forall|j: int| 0 <= j < i ==> #[trigger] entries@[j] == self.entries@[j],
            decreases n - i,
        {
            let e = &self.entries[i];
            entries.push((e.0.clone(), e.1.clone()));
            i += 1;
        }
        let copy = Headers { entries };
        assert(copy@ =~= self@);
        copy
    }
}

} // verus!
