//! Variable bindings.

use vstd::prelude::*;

verus! {

/// The table of variable bindings: each name is bound to the value last
/// assigned to it.
pub struct Environment {
    names: Vec<String>,
    values: Vec<i32>,
    bindings: Ghost<Map<Seq<char>, i32>>,
}

impl View for Environment {
    type V = Map<Seq<char>, i32>;

    closed spec fn view(&self) -> Map<Seq<char>, i32> {
        self.bindings@
    }
}

impl Environment {
    spec fn keys(&self) -> Seq<Seq<char>> {
        self.names@.map_values(|n: String| n@)
    }

    pub closed spec fn wf(&self) -> bool {
        &&& self.names.len() == self.values.len()
        &&& forall|i: int|
            0 <= i < self.names.len() ==> #[trigger] self.bindings@.contains_key(self.names@[i]@)
                && self.bindings@[self.names@[i]@] == self.values@[i]
        &&& forall|k: Seq<char>| #[trigger]
            self.bindings@.contains_key(k) ==> exists|i: int|
                0 <= i < self.names.len() && #[trigger] self.names@[i]@ == k
        &&& forall|i: int, j: int|
            0 <= i < j < self.names.len() ==> self.names@[i]@ != self.names@[j]@
    }

    pub fn new() -> (r: Environment)
        ensures
            r.wf(),
            r@ == Map::<Seq<char>, i32>::empty(),
    {
        Environment { names: Vec::new(), values: Vec::new(), bindings: Ghost(Map::empty()) }
    }

    /// The index under which `name` is stored, if it is bound.
    fn find(&self, name: &String) -> (r: Option<usize>)
        requires
            self.wf(),
        ensures
            match r {
                Some(i) => i < self.names.len() && self.names@[i as int]@ == name@,
                None => !self@.contains_key(name@),
            },
    {
        let mut i: usize = 0;
        while i < self.names.len()
            invariant
                self.wf(),
                i <= self.names.len(),
                forall|j: int| 0 <= j < i ==> self.names@[j]@ != name@,
            decreases self.names.len() - i,
        {
            if self.names[i] == *name {
                return Some(i);
            }
            i = i + 1;
        }
        None
    }

    /// The value bound to `name`, if any.
    pub fn lookup(&self, name: &String) -> (r: Option<i32>)
        requires
            self.wf(),
        ensures
            r == (if self@.contains_key(name@) {
                Some(self@[name@])
            } else {
                None
            }),
    {
        match self.find(name) {
            Some(i) => Some(self.values[i]),
            None => None,
        }
    }

    /// The value bound to `name`, if any.
    pub fn get(&self, name: &str) -> (r: Option<i32>)
        requires
            self.wf(),
        ensures
            r == (if self@.contains_key(name@) {
                Some(self@[name@])
            } else {
                None
            }),
    {
        let key = name.to_owned();
        self.lookup(&key)
    }

    /// Binds `name` to `value`, replacing any earlier binding of it.
    pub fn set(&mut self, name: String, value: i32)
        requires
            old(self).wf(),
        ensures
            final(self).wf(),
            final(self)@ == old(self)@.insert(name@, value),
    {
        let ghost updated = self.bindings@.insert(name@, value);
        let ghost key = name@;
        let found = self.find(&name);
        match found {
            Some(i) => {
                self.values.set(i, value);
            },
            None => {
                self.names.push(name);
                self.values.push(value);
            },
        }
        self.bindings = Ghost(updated);
        assert forall|k: Seq<char>| #[trigger] self.bindings@.contains_key(k) implies exists|i: int|
            0 <= i < self.names.len() && #[trigger] self.names@[i]@ == k by {
            if k != key {
                assert(old(self).bindings@.contains_key(k));
                let i = choose|i: int| 0 <= i < old(self).names.len() && #[trigger] old(self).names@[i]@ == k;
                assert(self.names@[i]@ == k);
            } else {
                match found {
                    Some(i) => assert(self.names@[i as int]@ == k),
                    None => assert(self.names@[self.names.len() - 1]@ == k),
                }
            }
        }
    }

    proof fn lemma_len(&self)
        requires
            self.wf(),
        ensures
            self.names.len() == self@.len(),
    {
        {
            let keys = self.keys();
            assert(keys.no_duplicates());
            assert forall|k: Seq<char>| self@.contains_key(k) <==> keys.to_set().contains(k) by {
                if self@.contains_key(k) {
                    let i = choose|i: int| 0 <= i < self.names.len() && #[trigger] self.names@[i]@ == k;
                    assert(keys[i] == k);
                }
                if keys.to_set().contains(k) {
                    let i = choose|i: int| 0 <= i < keys.len() && keys[i] == k;
                    assert(self.names@[i]@ == k);
                }
            }
            assert(self@.dom() =~= keys.to_set());
            keys.unique_seq_to_set();
        }
    }

    /// The number of bound names.
    pub fn len(&self) -> (r: usize)
        requires
            self.wf(),
        ensures
            r == self@.len(),
    {
        proof {
            self.lemma_len();
        }
        self.names.len()
    }

    /// Every binding, as a name and its value, each name once.
    pub fn entries(&self) -> (r: Vec<(String, i32)>)
        requires
            self.wf(),
        ensures
            r@.len() == self@.len(),
            forall|i: int|
                0 <= i < r@.len() ==> #[trigger] self@.contains_key(r@[i].0@) && self@[r@[i].0@]
                    == r@[i].1,
            forall|i: int, j: int| 0 <= i < j < r@.len() ==> r@[i].0@ != r@[j].0@,
    {
        proof {
            self.lemma_len();
        }
        let mut out: Vec<(String, i32)> = Vec::new();
        let mut i: usize = 0;
        while i < self.names.len()
            invariant
                self.wf(),
                i <= self.names.len(),
                out.len() == i,
                forall|j: int|
                    0 <= j < i ==> #[trigger] self@.contains_key(out@[j].0@) && self@[out@[j].0@]
                        == out@[j].1,
                forall|j: int| 0 <= j < i ==> out@[j].0@ == #[trigger] self.names@[j]@,
            decreases self.names.len() - i,
        {
            out.push((self.names[i].clone(), self.values[i]));
            i = i + 1;
        }
        assert(out@.len() == self@.len());
        assert forall|i: int, j: int| 0 <= i < j < out@.len() implies out@[i].0@ != out@[j].0@ by {
            assert(out@[i].0@ == self.names@[i]@);
            assert(out@[j].0@ == self.names@[j]@);
        }
        out
    }
}

} // verus!
