//! Header sets: ordered name/value pairs whose names compare
//! case-insensitively, with duplicate names kept in insertion order.

use vstd::prelude::*;

verus! {

/// ASCII lower-casing of one byte.
pub open spec fn lower(b: u8) -> u8 {
    if 65 <= b <= 90 {
        (b + 32) as u8
    } else {
        b
    }
}

/// Case-insensitive equality of header names.
pub open spec fn name_matches(a: Seq<u8>, b: Seq<u8>) -> bool {
    a.len() == b.len() && forall|i: int| 0 <= i < a.len() ==> lower(a[i]) == lower(b[i])
}

/// The mathematical view of a header set: the ordered name/value pairs.
pub type FieldsView = Seq<(Seq<u8>, Seq<u8>)>;

/// Whether some field's name matches `name`.
pub open spec fn has_name(hs: FieldsView, name: Seq<u8>) -> bool {
    exists|i: int| 0 <= i < hs.len() && name_matches(hs[i].0, name)
}

/// The value of the last field whose name matches `name`: where one logical
/// header occurs several times, the value declared last is authoritative.
pub open spec fn last_value(hs: FieldsView, name: Seq<u8>) -> Option<Seq<u8>>
    decreases hs.len(),
{
    if hs.len() == 0 {
        None
    } else if name_matches(hs.last().0, name) {
        Some(hs.last().1)
    } else {
        last_value(hs.drop_last(), name)
    }
}

/// A name has a last value exactly when it occurs at all.
pub proof fn lemma_last_value_has(hs: FieldsView, name: Seq<u8>)
    ensures
        last_value(hs, name) is Some <==> has_name(hs, name),
    decreases hs.len(),
{
    if hs.len() > 0 {
        lemma_last_value_has(hs.drop_last(), name);
        if name_matches(hs.last().0, name) {
            assert(hs[hs.len() - 1].0 == hs.last().0);
        } else {
            if has_name(hs.drop_last(), name) {
                let i = choose|i: int|
                    0 <= i < hs.drop_last().len() && name_matches(hs.drop_last()[i].0, name);
                assert(hs[i] == hs.drop_last()[i]);
            }
            if has_name(hs, name) {
                let i = choose|i: int| 0 <= i < hs.len() && name_matches(hs[i].0, name);
                assert(i < hs.len() - 1);
                assert(hs.drop_last()[i] == hs[i]);
            }
        }
    }
}

/// One header field: a name and a value.
pub struct HeaderField {
    pub name: Vec<u8>,
    pub value: Vec<u8>,
}

impl View for HeaderField {
    type V = (Seq<u8>, Seq<u8>);

    open spec fn view(&self) -> (Seq<u8>, Seq<u8>) {
        (self.name@, self.value@)
    }
}

/// An ordered header set.
pub struct HeaderSet {
    pub fields: Vec<HeaderField>,
}

impl View for HeaderSet {
    type V = FieldsView;

    open spec fn view(&self) -> FieldsView {
        self.fields@.map_values(|f: HeaderField| f@)
    }
}

impl HeaderSet {
    /// An empty header set.
    pub fn new() -> (r: Self)
        ensures
            r@ == Seq::<(Seq<u8>, Seq<u8>)>::empty(),
    {
        let r = HeaderSet { fields: Vec::new() };
        proof {
            assert(r@ =~= Seq::<(Seq<u8>, Seq<u8>)>::empty());
        }
        r
    }

    /// How many fields the set holds.
    pub fn len(&self) -> (r: usize)
        ensures
            r == self@.len(),
    {
        self.fields.len()
    }

    /// The field at `i`, as borrowed name and value.
    pub fn get(&self, i: usize) -> (r: (&Vec<u8>, &Vec<u8>))
        requires
            i < self@.len(),
        ensures
            r.0@ == self@[i as int].0,
            r.1@ == self@[i as int].1,
    {
        (&self.fields[i].name, &self.fields[i].value)
    }

    /// Append a field, after any present one of the same name.
    pub fn push(&mut self, name: Vec<u8>, value: Vec<u8>)
        ensures
            final(self)@ == old(self)@.push((name@, value@)),
    {
        let ghost before = self@;
        self.fields.push(HeaderField { name, value });
        proof {
            assert(self@ =~= before.push((name@, value@)));
        }
    }

    /// The value of the last field whose name matches, if any.
    pub fn last_of(&self, name: &Vec<u8>) -> (r: Option<&Vec<u8>>)
        ensures
            match r {
                Some(v) => last_value(self@, name@) == Some(v@),
                None => last_value(self@, name@) == None::<Seq<u8>> && !has_name(self@, name@),
            },
    {
        let ghost hs = self@;
        proof {
            assert(hs.take(hs.len() as int) =~= hs);
        }
        let mut i: usize = self.fields.len();
        while i > 0
            invariant
                i <= hs.len(),
                hs == self@,
                last_value(hs, name@) == last_value(hs.take(i as int), name@),
                forall|j: int| i <= j < hs.len() ==> !name_matches(#[trigger] hs[j].0, name@),
            decreases i,
        {
            i = i - 1;
            let ghost w = hs.take(i + 1);
            proof {
                assert(w.last() == hs[i as int]);
                assert(w.drop_last() =~= hs.take(i as int));
            }
            if names_equal(&self.fields[i].name, name) {
                return Some(&self.fields[i].value);
            }
        }
        proof {
            assert(hs.take(0) =~= Seq::<(Seq<u8>, Seq<u8>)>::empty());
            if has_name(hs, name@) {
                let k = choose|k: int| 0 <= k < hs.len() && name_matches(hs[k].0, name@);
                assert(!name_matches(hs[k].0, name@));
            }
        }
        None
    }

    /// Whether any field's name matches.
    pub fn contains_name(&self, name: &Vec<u8>) -> (r: bool)
        ensures
            r == has_name(self@, name@),
    {
        proof {
            lemma_last_value_has(self@, name@);
        }
        match self.last_of(name) {
            Some(_) => true,
            None => false,
        }
    }
}

/// Case-insensitive equality of two names.
pub fn names_equal(a: &Vec<u8>, b: &Vec<u8>) -> (r: bool)
    ensures
        r == name_matches(a@, b@),
{
    if a.len() != b.len() {
        return false;
    }
    let mut i: usize = 0;
    while i < a.len()
        invariant
            i <= a.len(),
            a@.len() == b@.len(),
            forall|j: int| 0 <= j < i ==> lower(#[trigger] a@[j]) == lower(b@[j]),
        decreases a.len() - i,
    {
        let mut x = a[i];
        let mut y = b[i];
        if 65 <= x && x <= 90 {
            x = x + 32;
        }
        if 65 <= y && y <= 90 {
            y = y + 32;
        }
        if x != y {
            proof {
                assert(lower(a@[i as int]) != lower(b@[i as int]));
            }
            return false;
        }
        i = i + 1;
    }
    true
}

} // verus!
