//! Assignments of boolean values to variable names.

use vstd::prelude::*;
use crate::formula::{chars_of, text_matches};

verus! {

/// The map that binds `names[i]` to `values[i]`; a later name wins over an
/// earlier equal one.
pub open spec fn bind(names: Seq<Seq<char>>, values: Seq<bool>) -> Map<Seq<char>, bool>
    decreases names.len(),
{
    if names.len() == 0 || values.len() == 0 {
        Map::empty()
    } else {
        bind(names.drop_last(), values.drop_last()).insert(names.last(), values.last())
    }
}

/// With distinct names, `bind` holds exactly the names, each with its value.
pub proof fn lemma_bind(names: Seq<Seq<char>>, values: Seq<bool>)
    requires
        names.len() == values.len(),
        names.no_duplicates(),
    ensures
        forall|k: Seq<char>| #[trigger] bind(names, values).contains_key(k) <==> names.contains(k),
        forall|i: int| 0 <= i < names.len() ==> #[trigger] bind(names, values)[names[i]] == values[i],
    decreases names.len(),
{
    if names.len() > 0 {
        let n0 = names.drop_last();
        let v0 = values.drop_last();
        assert forall|a: int, b: int| 0 <= a < b < n0.len() implies n0[a] != n0[b] by {
            assert(names[a] != names[b]);
        }
        lemma_bind(n0, v0);
        assert(bind(names, values) == bind(n0, v0).insert(names.last(), values.last()));
        assert forall|k: Seq<char>| #[trigger] bind(names, values).contains_key(k) <==> names.contains(k) by {
            if names.contains(k) && k != names.last() {
                let i = choose|i: int| 0 <= i < names.len() && names[i] == k;
                assert(n0[i] == k);
            }
            if n0.contains(k) {
                let i = choose|i: int| 0 <= i < n0.len() && n0[i] == k;
                assert(names[i] == k);
            }
            if k == names.last() {
                assert(names[names.len() - 1] == k);
            }
        }
        assert forall|i: int| 0 <= i < names.len() implies #[trigger] bind(names, values)[names[i]] == values[i] by {
            if i < names.len() - 1 {
                assert(names[i] != names.last());
                assert(n0[i] == names[i]);
            }
        }
    }
}

/// A value for each of a set of distinct variable names, in the order in
/// which the names were first bound.
pub struct Assignment {
    names: Vec<String>,
    values: Vec<bool>,
}

impl View for Assignment {
    type V = Map<Seq<char>, bool>;

    open spec fn view(&self) -> Map<Seq<char>, bool> {
        bind(self.name_seq(), self.value_seq())
    }
}

impl Assignment {
    /// The bound names, in order.
    pub closed spec fn name_seq(&self) -> Seq<Seq<char>> {
        self.names@.map_values(|n: String| n@)
    }

    /// The values of the bound names, in the same order.
    pub closed spec fn value_seq(&self) -> Seq<bool> {
        self.values@
    }

    /// One value per name, and no name twice.
    pub open spec fn wf(&self) -> bool {
        &&& self.name_seq().len() == self.value_seq().len()
        &&& self.name_seq().no_duplicates()
    }

    /// The empty assignment.
    pub fn new() -> (r: Self)
        ensures
            r.wf(),
            r@ == Map::<Seq<char>, bool>::empty(),
            r.name_seq().len() == 0,
    {
        let r = Assignment { names: Vec::new(), values: Vec::new() };
        assert(r.name_seq() =~= Seq::<Seq<char>>::empty());
        r
    }

    /// The index of the name that reads as `chars[lo..hi]`, if bound.
    fn position(&self, chars: &Vec<char>, lo: usize, hi: usize) -> (r: Option<usize>)
        requires
            self.wf(),
            lo <= hi <= chars.len(),
        ensures
            match r {
                Some(i) => i < self.name_seq().len() && self.name_seq()[i as int]
                    == chars@.subrange(lo as int, hi as int),
                None => !self.name_seq().contains(chars@.subrange(lo as int, hi as int)),
            },
    {
        let ghost key = chars@.subrange(lo as int, hi as int);
        let mut i: usize = 0;
        while i < self.names.len()
            invariant
                self.wf(),
                lo <= hi <= chars.len(),
                key == chars@.subrange(lo as int, hi as int),
                i <= self.names.len(),
                forall|j: int| 0 <= j < i ==> self.name_seq()[j] != key,
            decreases self.names.len() - i,
        {
            if text_matches(self.names[i].as_str(), chars, lo, hi) {
                return Some(i);
            }
            i = i + 1;
        }
        None
    }

    /// The value bound to the name `chars[lo..hi]`, if any.
    pub(crate) fn lookup(&self, chars: &Vec<char>, lo: usize, hi: usize) -> (r: Option<bool>)
        requires
            self.wf(),
            lo <= hi <= chars.len(),
        ensures
            r == (if self@.contains_key(chars@.subrange(lo as int, hi as int)) {
                Some(self@[chars@.subrange(lo as int, hi as int)])
            } else {
                None
            }),
    {
        proof {
            lemma_bind(self.name_seq(), self.value_seq());
        }
        match self.position(chars, lo, hi) {
            Some(i) => Some(self.values[i]),
            None => None,
        }
    }

    /// The value bound to `name`, if any.
    pub fn get(&self, name: &str) -> (r: Option<bool>)
        requires
            self.wf(),
        ensures
            r == (if self@.contains_key(name@) {
                Some(self@[name@])
            } else {
                None
            }),
    {
        let chars = chars_of(name);
        proof {
            assert(chars@.subrange(0, chars@.len() as int) =~= name@);
        }
        self.lookup(&chars, 0, chars.len())
    }

    /// Binds `name` to `value`: a new name goes last, a bound one keeps its
    /// place and takes the new value.
    pub fn insert(&mut self, name: &str, value: bool)
        requires
            old(self).wf(),
        ensures
            final(self).wf(),
            final(self)@ == old(self)@.insert(name@, value),
    {
        let chars = chars_of(name);
        proof {
            assert(chars@.subrange(0, chars@.len() as int) =~= name@);
            lemma_bind(self.name_seq(), self.value_seq());
        }
        let ghost before = self@;
        match self.position(&chars, 0, chars.len()) {
            Some(i) => {
                self.values.set(i, value);
                proof {
                    lemma_bind(self.name_seq(), self.value_seq());
                    assert forall|k: Seq<char>| #[trigger] self@.contains_key(k) <==> before.insert(name@, value).contains_key(k) by {
                        if k == name@ {
                            assert(self.name_seq()[i as int] == k);
                        }
                    }
                    assert forall|k: Seq<char>| #[trigger] self@.contains_key(k) implies self@[k] == before.insert(name@, value)[k] by {
                        let j = choose|j: int| 0 <= j < self.name_seq().len() && self.name_seq()[j] == k;
                        if j != i {
                            assert(self.name_seq()[j] != self.name_seq()[i as int]);
                        }
                    }
                    assert(self@ =~= before.insert(name@, value));
                }
            },
            None => {
                let ghost old_names = self.name_seq();
                self.names.push(name.to_owned());
                self.values.push(value);
                proof {
                    assert(self.name_seq() =~= old_names.push(name@));
                    assert(self.name_seq().drop_last() =~= old_names);
                    assert(self.value_seq().drop_last() =~= old(self).value_seq());
                    assert forall|a: int, b: int| 0 <= a < b < self.name_seq().len() implies self.name_seq()[a] != self.name_seq()[b] by {
                        if b == old_names.len() {
                            assert(old_names.contains(old_names[a]));
                        }
                    }
                }
            },
        }
    }

    /// Binds `names[i]` to `values[i]` for each `i`.
    pub(crate) fn from_parts(names: &Vec<String>, values: &Vec<bool>) -> (r: Self)
        requires
            names.len() == values.len(),
            names@.map_values(|n: String| n@).no_duplicates(),
        ensures
            r.wf(),
            r.name_seq() == names@.map_values(|n: String| n@),
            r.value_seq() == values@,
    {
        let mut r = Assignment { names: Vec::new(), values: Vec::new() };
        let mut i: usize = 0;
        while i < names.len()
            invariant
                i <= names.len() == values.len(),
                r.names@.len() == i,
                r.values@ == values@.subrange(0, i as int),
                forall|j: int| 0 <= j < i ==> r.names@[j] == names@[j],
            decreases names.len() - i,
        {
            r.names.push(names[i].clone());
            r.values.push(values[i]);
            i = i + 1;
        }
        assert(r.names@ =~= names@);
        assert(r.values@ =~= values@);
        r
    }

    /// The number of bound names.
    pub fn len(&self) -> (r: usize)
        requires
            self.wf(),
        ensures
            r == self.name_seq().len(),
    {
        self.names.len()
    }

    /// The `i`-th bound name.
    pub fn name(&self, i: usize) -> (r: String)
        requires
            self.wf(),
            i < self.name_seq().len(),
        ensures
            r@ == self.name_seq()[i as int],
    {
        self.names[i].clone()
    }

    /// The value of the `i`-th bound name.
    pub fn value(&self, i: usize) -> (r: bool)
        requires
            self.wf(),
            i < self.name_seq().len(),
        ensures
            r == self.value_seq()[i as int],
            r == self@[self.name_seq()[i as int]],
    {
        proof {
            lemma_bind(self.name_seq(), self.value_seq());
        }
        self.values[i]
    }
}

} // verus!
