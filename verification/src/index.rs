//! A list of texts without repetitions that finds them fast.

use crate::text::{letters, same_text};
use std::collections::HashMap;
use vstd::prelude::*;

verus! {

/// The number by which texts are kept apart.
pub const SPREAD: u64 = 72057594037927931;

/// A number for a text.
pub open spec fn code(s: Seq<char>) -> int
    decreases s.len(),
{
    if s.len() == 0 {
        7
    } else {
        (code(s.drop_last()) * 31 + s.last() as u32) % SPREAD as int
    }
}

fn code_of(s: &str) -> (h: u64)
    ensures
        h == code(s@),
{
    let v = letters(s);
    let mut h: u64 = 7;
    let mut i: usize = 0;
    assert(v@.take(0) =~= Seq::empty());
    while i < v.len()
        invariant
            i <= v.len(),
            h < SPREAD,
            h == code(v@.take(i as int)),
        decreases v.len() - i,
    {
        assert(v@.take(i + 1).drop_last() =~= v@.take(i as int));
        h = (h * 31 + v[i] as u32 as u64) % SPREAD;
        i += 1;
    }
    assert(v@.take(i as int) =~= v@);
    h
}

/// A list of texts without repetitions.
pub struct Index {
    pub keys: Vec<String>,
    pub places: HashMap<u64, Vec<usize>>,
}

impl View for Index {
    type V = Seq<Seq<char>>;

    open spec fn view(&self) -> Seq<Seq<char>> {
        crate::locale::texts(self.keys@)
    }
}

impl Index {
    /// Every text is found by its number.
    pub open spec fn wf(&self) -> bool {
        &&& forall|i: int|
            0 <= i < self.keys@.len() ==> {
                let h = code((#[trigger] self.keys@[i])@) as u64;
                self.places@.contains_key(h) && self.places@[h]@.contains(i as usize)
            }
        &&& forall|h: u64, k: int|
            self.places@.contains_key(h) && 0 <= k < self.places@[h]@.len()
                ==> (#[trigger] self.places@[h]@[k]) < self.keys@.len()
        &&& self@.no_duplicates()
    }

    pub fn new() -> (r: Self)
        ensures
            r.wf(),
            r@.len() == 0,
    {
        broadcast use vstd::std_specs::hash::group_hash_axioms;

        Index { keys: Vec::new(), places: HashMap::new() }
    }

    /// Finds a text.
    pub fn find(&self, key: &str) -> (r: Option<usize>)
        requires
            self.wf(),
        ensures
            match r {
                Some(i) => i < self@.len() && self@[i as int] == key@,
                None => !self@.contains(key@),
            },
    {
        broadcast use vstd::std_specs::hash::group_hash_axioms;

        let h = code_of(key);
        match self.places.get(&h) {
            None => {
                proof {
                    if self@.contains(key@) {
                        let i = choose|i: int| 0 <= i < self@.len() && self@[i] == key@;
                        assert(self.keys@[i]@ == key@);
                    }
                }
                None
            },
            Some(list) => {
                let mut k: usize = 0;
                while k < list.len()
                    invariant
                        k <= list.len(),
                        self.wf(),
                        self.places@.contains_key(h),
                        self.places@[h] == *list,
                        forall|j: int| 0 <= j < k ==> self.keys@[(#[trigger] list@[j]) as int]@ != key@,
                    decreases list.len() - k,
                {
                    let i: usize = list[k];
                    assert(self.places@[h]@[k as int] < self.keys@.len());
                    if same_text(self.keys[i].as_str(), key) {
                        return Some(i);
                    }
                    k += 1;
                }
                proof {
                    if self@.contains(key@) {
                        let i = choose|i: int| 0 <= i < self@.len() && self@[i] == key@;
                        assert(self.keys@[i]@ == key@);
                        assert(i < self.keys.len());
                        assert(list@.contains(i as usize));
                        let j = choose|j: int| 0 <= j < list@.len() && list@[j] == i as usize;
                        assert(self.keys@[list@[j] as int]@ != key@);
                    }
                }
                None
            },
        }
    }

    /// Adds a text.
    pub fn push(&mut self, key: String)
        requires
            old(self).wf(),
            !old(self)@.contains(key@),
        ensures
            final(self).wf(),
            final(self)@ == old(self)@.push(key@),
    {
        broadcast use vstd::std_specs::hash::group_hash_axioms;

        let h = code_of(key.as_str());
        let at: usize = self.keys.len();
        let ghost (keys0, places0) = (self.keys@, self.places@);
        let mut list: Vec<usize> = match self.places.remove(&h) {
            Some(list) => list,
            None => Vec::new(),
        };
        let ghost before = list@;
        list.push(at);
        self.places.insert(h, list);
        self.keys.push(key);
        proof {
            assert(self@ =~= old(self)@.push(key@));
            assert(list@[before.len() as int] == at);
            assert forall|i: int| 0 <= i < self.keys@.len() implies ({
                let g = code((#[trigger] self.keys@[i])@) as u64;
                self.places@.contains_key(g) && self.places@[g]@.contains(i as usize)
            }) by {
                let g = code(self.keys@[i]@) as u64;
                if i < keys0.len() {
                    assert(self.keys@[i] == keys0[i]);
                    assert(places0[g]@.contains(i as usize));
                    if g == h {
                        let j = choose|j: int| 0 <= j < before.len() && before[j] == i as usize;
                        assert(list@[j] == i as usize);
                    }
                }
            }
            assert forall|g: u64, k: int|
                self.places@.contains_key(g) && 0 <= k < self.places@[g]@.len() implies (
            #[trigger] self.places@[g]@[k]) < self.keys@.len() by {
                if g == h {
                    if k < before.len() {
                        assert(places0.contains_key(h));
                        assert(places0[h]@[k] < keys0.len());
                    }
                } else {
                    assert(places0[g]@[k] < keys0.len());
                }
            }
            assert(self@.no_duplicates()) by {
                assert forall|i: int, j: int| 0 <= i < self@.len() && 0 <= j < self@.len() && i != j implies self@[i]
                    != self@[j] by {
                    if i < keys0.len() && j < keys0.len() {
                        assert(old(self)@[i] == self@[i] && old(self)@[j] == self@[j]);
                    } else if i < keys0.len() {
                        assert(old(self)@[i] == self@[i]);
                        assert(old(self)@.contains(self@[i]));
                    } else {
                        assert(old(self)@[j] == self@[j]);
                        assert(old(self)@.contains(self@[j]));
                    }
                }
            }
        }
    }
}

}
