//! A set of names, kept in the order in which they were first added.

use crate::text::strs;
use vstd::prelude::*;

verus! {

/// A set of names. No name occurs twice.
#[derive(Debug)]
pub struct NameSet {
    names: Vec<String>,
}

/// The names with one more, unless it is among them already.
pub open spec fn add_name(names: Seq<Seq<char>>, name: Seq<char>) -> Seq<Seq<char>> {
    if names.contains(name) {
        names
    } else {
        names.push(name)
    }
}

/// The names with all of `more` added, in order.
pub open spec fn add_names(names: Seq<Seq<char>>, more: Seq<Seq<char>>) -> Seq<Seq<char>>
    decreases more.len(),
{
    if more.len() == 0 {
        names
    } else {
        add_name(add_names(names, more.drop_last()), more.last())
    }
}

impl View for NameSet {
    type V = Seq<Seq<char>>;

    closed spec fn view(&self) -> Seq<Seq<char>> {
        strs(self.names@)
    }
}

impl NameSet {
    /// Whether no name occurs twice.
    pub open spec fn wf(&self) -> bool {
        self@.no_duplicates()
    }

    /// The empty set.
    pub fn new() -> (r: Self)
        ensures
            r@ == Seq::<Seq<char>>::empty(),
            r.wf(),
    {
        let r = NameSet { names: Vec::new() };
        assert(r@ =~= Seq::<Seq<char>>::empty());
        r
    }

    /// Whether `name` is in the set.
    pub fn contains(&self, name: &str) -> (r: bool)
        ensures
            r == self@.contains(name@),
    {
        let want = name.to_owned();
        for i in 0..self.names.len()
            invariant
                want@ == name@,
                forall|k: int| 0 <= k < i ==> #[trigger] self@[k] != name@,
        {
            assert(self@[i as int] == self.names@[i as int]@);
            if self.names[i] == want {
                return true;
            }
        }
        false
    }

    /// Whether the set holds no name.
    pub fn is_empty(&self) -> (r: bool)
        ensures
            r == (self@.len() == 0),
    {
        self.names.len() == 0
    }

    /// How many names the set holds.
    pub fn len(&self) -> (n: usize)
        ensures
            n == self@.len(),
    {
        self.names.len()
    }

    /// The name that was added as the `i`-th.
    pub fn get(&self, i: usize) -> (r: &String)
        requires
            i < self@.len(),
        ensures
            r@ == self@[i as int],
    {
        &self.names[i]
    }

    /// Adds `name` to the set.
    pub fn insert(&mut self, name: String)
        requires
            old(self).wf(),
        ensures
            final(self)@ == add_name(old(self)@, name@),
            final(self).wf(),
    {
        if !self.contains(name.as_str()) {
            let ghost before = self@;
            self.names.push(name);
            assert(self@ =~= before.push(name@));
        }
    }
}

/// A name is in the set after it was added, and no other name comes in.
pub proof fn law_added_names_are_in(names: Seq<Seq<char>>, more: Seq<Seq<char>>, name: Seq<char>)
    ensures
        add_names(names, more).contains(name) <==> names.contains(name) || more.contains(name),
    decreases more.len(),
{
    if more.len() > 0 {
        let init = more.drop_last();
        let mid = add_names(names, init);
        law_added_names_are_in(names, init, name);
        assert(more.contains(name) <==> init.contains(name) || more.last() == name) by {
            if more.contains(name) {
                let i = choose|i: int| 0 <= i < more.len() && more[i] == name;
                if i < more.len() - 1 {
                    assert(init[i] == name);
                }
            }
            if init.contains(name) {
                let i = choose|i: int| 0 <= i < init.len() && init[i] == name;
                assert(more[i] == name);
            }
        }
        assert(mid.push(more.last()).contains(name) <==> mid.contains(name) || more.last()
            == name) by {
            let m = mid.push(more.last());
            if m.contains(name) {
                let i = choose|i: int| 0 <= i < m.len() && m[i] == name;
                if i < mid.len() {
                    assert(mid[i] == name);
                }
            }
            if mid.contains(name) {
                let i = choose|i: int| 0 <= i < mid.len() && mid[i] == name;
                assert(m[i] == name);
            }
            assert(m[mid.len() as int] == more.last());
        }
    }
}

} // verus!
