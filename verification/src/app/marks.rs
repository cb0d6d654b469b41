//! The set of names marked for a batch action.

use vstd::prelude::*;
use crate::text::views_of;

verus! {

/// A set of names, each held once.
pub struct NameSet {
    items: Vec<String>,
}

impl View for NameSet {
    type V = Set<Seq<char>>;

    closed spec fn view(&self) -> Set<Seq<char>> {
        views_of(self.items@).to_set()
    }
}

proof fn lemma_views_index(v: Seq<String>, i: int)
    requires
        0 <= i < v.len(),
    ensures
        views_of(v)[i] == v[i]@,
        views_of(v).len() == v.len(),
{
}

impl NameSet {
    /// No name is held twice.
    pub closed spec fn wf(&self) -> bool {
        views_of(self.items@).no_duplicates()
    }

    /// The empty set.
    pub fn new() -> (s: NameSet)
        ensures
            s.wf(),
            s@ == Set::<Seq<char>>::empty(),
    {
        let s = NameSet { items: Vec::new() };
        assert(views_of(s.items@) =~= Seq::<Seq<char>>::empty());
        assert(s@ =~= Set::<Seq<char>>::empty());
        s
    }

    /// The position of `name` among the held names.
    fn find(&self, name: &String) -> (r: Option<usize>)
        ensures
            r is None <==> !self@.contains(name@),
            r matches Some(i) ==> i < self.items@.len() && self.items@[i as int]@ == name@,
    {
        let mut i: usize = 0;
        while i < self.items.len()
            invariant
                i <= self.items@.len(),
                forall|j: int| 0 <= j < i ==> #[trigger] self.items@[j]@ != name@,
            decreases self.items@.len() - i,
        {
            if self.items[i] == *name {
                proof {
                    lemma_views_index(self.items@, i as int);
                }
                return Some(i);
            }
            i = i + 1;
        }
        proof {
            if self@.contains(name@) {
                let j = choose|j: int|
                    0 <= j < views_of(self.items@).len() && views_of(self.items@)[j] == name@;
                lemma_views_index(self.items@, j);
            }
        }
        None
    }

    /// Whether `name` is held.
    pub fn contains(&self, name: &String) -> (b: bool)
        ensures
            b == self@.contains(name@),
    {
        self.find(name).is_some()
    }

    /// Whether no name is held.
    pub fn is_empty(&self) -> (b: bool)
        ensures
            b == (self@ == Set::<Seq<char>>::empty()),
    {
        if self.items.len() == 0 {
            assert(views_of(self.items@) =~= Seq::<Seq<char>>::empty());
            assert(self@ =~= Set::<Seq<char>>::empty());
            true
        } else {
            proof {
                lemma_views_index(self.items@, 0);
                assert(self@.contains(self.items@[0]@));
            }
            false
        }
    }

    /// Adds `name`.
    pub fn insert(&mut self, name: String)
        requires
            old(self).wf(),
        ensures
            final(self).wf(),
            final(self)@ == old(self)@.insert(name@),
    {
        if self.contains(&name) {
            assert(self@.insert(name@) =~= self@);
        } else {
            let ghost before = views_of(self.items@);
            self.items.push(name);
            proof {
                assert(views_of(self.items@) =~= before.push(name@));
                Seq::<Seq<char>>::lemma_to_set_insert_commutes(before, name@);
                assert(before + seq![name@] =~= before.push(name@));
                assert forall|i: int, j: int|
                    0 <= i < j < views_of(self.items@).len() implies views_of(self.items@)[i]
                    != views_of(self.items@)[j] by {
                    if j == before.len() {
                        assert(before.contains(before[i]));
                    }
                }
            }
        }
    }

    /// Removes `name`.
    pub fn remove(&mut self, name: &String)
        requires
            old(self).wf(),
        ensures
            final(self).wf(),
            final(self)@ == old(self)@.remove(name@),
    {
        match self.find(name) {
            None => {
                assert(self@.remove(name@) =~= self@);
            },
            Some(i) => {
                let ghost before = views_of(self.items@);
                proof {
                    lemma_views_index(self.items@, i as int);
                    assert(before[i as int] == name@);
                }
                self.items.remove(i);
                proof {
                    let after = views_of(self.items@);
                    assert(after =~= before.remove(i as int));
                    assert forall|a: int, b: int|
                        0 <= a < b < after.len() implies after[a] != after[b] by {
                        if a < i {
                            if b < i {
                            } else {
                                assert(after[b] == before[b + 1]);
                            }
                        } else {
                            assert(after[a] == before[a + 1]);
                            assert(after[b] == before[b + 1]);
                        }
                    }
                    assert forall|k: Seq<char>| after.to_set().contains(k) <==> before.to_set().remove(
                        name@,
                    ).contains(k) by {
                        if after.contains(k) {
                            let a = choose|a: int| 0 <= a < after.len() && after[a] == k;
                            if a < i {
                                assert(before[a] == k);
                                assert(before[a] != before[i as int]);
                            } else {
                                assert(before[a + 1] == k);
                                assert(before[a + 1] != before[i as int]);
                            }
                        }
                        if before.contains(k) && k != name@ {
                            let a = choose|a: int| 0 <= a < before.len() && before[a] == k;
                            if a < i {
                                assert(after[a] == k);
                            } else {
                                assert(a != i);
                                assert(after[a - 1] == k);
                            }
                        }
                    }
                    assert(after.to_set() =~= before.to_set().remove(name@));
                }
            },
        }
    }

    /// Removes every name.
    pub fn clear(&mut self)
        ensures
            final(self).wf(),
            final(self)@ == Set::<Seq<char>>::empty(),
    {
        self.items = Vec::new();
        assert(views_of(self.items@) =~= Seq::<Seq<char>>::empty());
        assert(self@ =~= Set::<Seq<char>>::empty());
    }

    /// Removes every name and hands them out, each once, in no particular
    /// order.
    pub fn drain(&mut self) -> (names: Vec<String>)
        requires
            old(self).wf(),
        ensures
            final(self).wf(),
            final(self)@ == Set::<Seq<char>>::empty(),
            views_of(names@).to_set() == old(self)@,
            views_of(names@).no_duplicates(),
    {
        let mut names: Vec<String> = Vec::new();
        std::mem::swap(&mut names, &mut self.items);
        assert(views_of(self.items@) =~= Seq::<Seq<char>>::empty());
        assert(self@ =~= Set::<Seq<char>>::empty());
        names
    }
}

} // verus!
