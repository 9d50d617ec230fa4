//! A map from text to text: the table that the name and platform parsers fill, one
//! entry per key, a later insertion of a key replacing the earlier one.
use vstd::prelude::*;

use crate::text::{chars_eq, chars_of, string_from_chars, views};

verus! {

pub struct TextMap {
    keys: Vec<Vec<char>>,
    values: Vec<Vec<char>>,
}

/// Whether `k` is among the keys.
pub open spec fn has_key(keys: Seq<Seq<char>>, k: Seq<char>) -> bool {
    exists|i: int| 0 <= i < keys.len() && keys[i] == k
}

/// The position of the key `k`.
pub open spec fn key_position(keys: Seq<Seq<char>>, k: Seq<char>) -> int {
    choose|i: int| 0 <= i < keys.len() && keys[i] == k
}

impl View for TextMap {
    type V = Map<Seq<char>, Seq<char>>;

    closed spec fn view(&self) -> Map<Seq<char>, Seq<char>> {
        Map::new(
            |k: Seq<char>| has_key(views(self.keys@), k),
            |k: Seq<char>| self.values@[key_position(views(self.keys@), k)]@,
        )
    }
}

impl TextMap {
    /// The keys are distinct and each has its value.
    pub closed spec fn wf(&self) -> bool {
        &&& self.keys.len() == self.values.len()
        &&& views(self.keys@).no_duplicates()
    }

    pub fn new() -> (m: TextMap)
        ensures
            m.wf(),
            m@ == Map::<Seq<char>, Seq<char>>::empty(),
    {
        let m = TextMap { keys: Vec::new(), values: Vec::new() };
        assert(m@ =~= Map::<Seq<char>, Seq<char>>::empty());
        m
    }

    /// The position of the key `k`, if it is there.
    fn find(&self, k: &Vec<char>) -> (r: Option<usize>)
        requires
            self.wf(),
        ensures
            match r {
                Some(i) => i < self.keys.len() && self.keys@[i as int]@ == k@,
                None => !has_key(views(self.keys@), k@),
            },
    {
        let mut i: usize = 0;
        while i < self.keys.len()
            invariant
                i <= self.keys.len(),
                forall|j: int| 0 <= j < i ==> self.keys@[j]@ != k@,
            decreases self.keys.len() - i,
        {
            if chars_eq(&self.keys[i], k) {
                return Some(i);
            }
            i = i + 1;
        }
        None
    }

    /// Sets the value of `k` to `v`, replacing any earlier value.
    pub fn insert(&mut self, k: Vec<char>, v: Vec<char>)
        requires
            old(self).wf(),
        ensures
            final(self).wf(),
            final(self)@ == old(self)@.insert(k@, v@),
    {
        let ghost old_keys = views(self.keys@);
        match self.find(&k) {
            Some(i) => {
                self.values.set(i, v);
                assert(views(self.keys@) == old_keys);
                assert forall|j: int|
                    0 <= j < old_keys.len() && old_keys[j] == k@ implies j == i by {
                    assert(old_keys[i as int] == k@);
                }
                assert(self@ =~= old(self)@.insert(k@, v@)) by {
                    assert forall|key: Seq<char>| #[trigger] has_key(old_keys, key) implies self.values@[key_position(
                        old_keys,
                        key,
                    )]@ == (if key == k@ {
                        v@
                    } else {
                        old(self).values@[key_position(old_keys, key)]@
                    }) by {
                        let p = key_position(old_keys, key);
                        assert(0 <= p < old_keys.len() && old_keys[p] == key);
                    }
                    assert(has_key(old_keys, k@)) by {
                        assert(old_keys[i as int] == k@);
                    }
                }
            },
            None => {
                self.keys.push(k);
                self.values.push(v);
                let ghost new_keys = views(self.keys@);
                assert(new_keys =~= old_keys.push(k@));
                assert(self@ =~= old(self)@.insert(k@, v@)) by {
                    assert(has_key(new_keys, k@)) by {
                        assert(new_keys[old_keys.len() as int] == k@);
                    }
                    assert forall|key: Seq<char>|
                        has_key(new_keys, key) <==> (has_key(old_keys, key) || key == k@) by {
                        if has_key(new_keys, key) {
                            let p = choose|p: int| 0 <= p < new_keys.len() && new_keys[p] == key;
                            if p < old_keys.len() {
                                assert(old_keys[p] == key);
                            }
                        }
                        if has_key(old_keys, key) {
                            let p = choose|p: int| 0 <= p < old_keys.len() && old_keys[p] == key;
                            assert(new_keys[p] == key);
                        }
                        if key == k@ {
                            assert(new_keys[old_keys.len() as int] == key);
                        }
                    }
                    assert forall|key: Seq<char>| #[trigger] has_key(new_keys, key) implies self.values@[key_position(
                        new_keys,
                        key,
                    )]@ == (if key == k@ {
                        v@
                    } else {
                        old(self).values@[key_position(old_keys, key)]@
                    }) by {
                        let p = key_position(new_keys, key);
                        assert(0 <= p < new_keys.len() && new_keys[p] == key);
                        if key == k@ {
                            assert(p == old_keys.len());
                        } else {
                            let q = key_position(old_keys, key);
                            assert(has_key(old_keys, key));
                            assert(0 <= q < old_keys.len() && old_keys[q] == key);
                            assert(new_keys[q] == key);
                        }
                    }
                }
            },
        }
    }

    /// The value of the key `k`, if it is there.
    pub fn get_chars(&self, k: &Vec<char>) -> (r: Option<Vec<char>>)
        requires
            self.wf(),
        ensures
            match r {
                Some(v) => self@.contains_key(k@) && v@ == self@[k@],
                None => !self@.contains_key(k@),
            },
    {
        match self.find(k) {
            Some(i) => {
                proof {
                    let keys = views(self.keys@);
                    assert(keys[i as int] == k@);
                    let p = key_position(keys, k@);
                    assert(0 <= p < keys.len() && keys[p] == k@);
                    assert(p == i);
                }
                let mut out: Vec<char> = Vec::new();
                let mut j: usize = 0;
                while j < self.values[i].len()
                    invariant
                        i < self.values.len(),
                        j <= self.values@[i as int].len(),
                        out@ == self.values@[i as int]@.take(j as int),
                    decreases self.values@[i as int].len() - j,
                {
                    out.push(self.values[i][j]);
                    j = j + 1;
                }
                assert(out@ =~= self.values@[i as int]@);
                Some(out)
            },
            None => None,
        }
    }

    /// The value of the key `key`, if it is there.
    pub fn get(&self, key: &str) -> (r: Option<String>)
        requires
            self.wf(),
        ensures
            match r {
                Some(v) => self@.contains_key(key@) && v@ == self@[key@],
                None => !self@.contains_key(key@),
            },
    {
        let k = chars_of(key);
        match self.get_chars(&k) {
            Some(v) => Some(string_from_chars(v)),
            None => None,
        }
    }

    /// The number of entries.
    pub fn len(&self) -> (n: usize)
        requires
            self.wf(),
        ensures
            n == self@.dom().len(),
    {
        proof {
            self.lemma_dom_len();
        }
        self.keys.len()
    }

    proof fn lemma_dom_len(&self)
        requires
            self.wf(),
        ensures
            self@.dom().len() == self.keys.len(),
    {
        let keys = views(self.keys@);
        assert(self@.dom() =~= keys.to_set()) by {
            assert forall|k: Seq<char>| self@.dom().contains(k) <==> keys.to_set().contains(k) by {
                if keys.to_set().contains(k) {
                    let p = choose|p: int| 0 <= p < keys.len() && keys[p] == k;
                    assert(has_key(keys, k));
                }
            }
        }
        keys.unique_seq_to_set();
    }
}

} // verus!
