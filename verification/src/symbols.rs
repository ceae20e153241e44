//! Sets of names, kept in the order in which the names were first added.

use vstd::prelude::*;

verus! {

/// `names` with `name` added at the end, unless it is there already.
pub open spec fn with_name(names: Seq<Seq<char>>, name: Seq<char>) -> Seq<Seq<char>> {
    if names.contains(name) {
        names
    } else {
        names.push(name)
    }
}

/// Adding a name loses none, and the added name is there afterwards.
pub proof fn lemma_with_name_keeps(names: Seq<Seq<char>>, name: Seq<char>)
    ensures
        with_name(names, name).contains(name),
        forall|other: Seq<char>| names.contains(other) ==> with_name(names, name).contains(other),
{
    let added = with_name(names, name);
    if !names.contains(name) {
        assert(added[names.len() as int] == name);
        assert forall|other: Seq<char>| names.contains(other) implies added.contains(other) by {
            let i = choose|i: int| 0 <= i < names.len() && names[i] == other;
            assert(added[i] == other);
        }
    }
}

/// Adding a name keeps the names distinct.
pub proof fn lemma_with_name_distinct(names: Seq<Seq<char>>, name: Seq<char>)
    requires
        names.no_duplicates(),
    ensures
        with_name(names, name).no_duplicates(),
{
}

/// A set of names. Its view lists the names in the order in which they were
/// first added; no name occurs twice.
#[derive(Debug)]
pub struct NameSet {
    names: Vec<String>,
}

impl View for NameSet {
    type V = Seq<Seq<char>>;

    closed spec fn view(&self) -> Seq<Seq<char>> {
        self.names.deep_view()
    }
}

impl NameSet {
    #[verifier::type_invariant]
    spec fn distinct(self) -> bool {
        self.names.deep_view().no_duplicates()
    }

    /// The empty set.
    pub fn new() -> (set: NameSet)
        ensures
            set@ == Seq::<Seq<char>>::empty(),
    {
        let set = NameSet { names: Vec::new() };
        assert(set.names.deep_view() =~= Seq::<Seq<char>>::empty());
        set
    }

    /// Whether `name` is in the set.
    pub fn contains(&self, name: &str) -> (found: bool)
        ensures
            found == self@.contains(name@),
    {
        let mut i: usize = 0;
        while i < self.names.len()
            invariant
                i <= self.names.len(),
                forall|j: int| 0 <= j < i ==> self.names.deep_view()[j] != name@,
            decreases self.names.len() - i,
        {
            if self.names[i].as_str().eq(name) {
                assert(self.names.deep_view()[i as int] == name@);
                return true;
            }
            i += 1;
        }
        false
    }

    /// Adds `name` to the set; `true` when it was not there before.
    pub fn insert(&mut self, name: String) -> (added: bool)
        ensures
            final(self)@ == with_name(old(self)@, name@),
            added == !old(self)@.contains(name@),
    {
        proof {
            use_type_invariant(&*self);
        }
        if self.contains(name.as_str()) {
            false
        } else {
            proof {
                lemma_with_name_distinct(old(self)@, name@);
            }
            let mut names: Vec<String> = Vec::new();
            assert(names.deep_view() =~= Seq::<Seq<char>>::empty());
            std::mem::swap(&mut names, &mut self.names);
            let ghost before = names.deep_view();
            names.push(name);
            assert(names.deep_view() =~= before.push(name@));
            std::mem::swap(&mut names, &mut self.names);
            true
        }
    }

    /// How many names the set holds.
    pub fn len(&self) -> (n: usize)
        ensures
            n == self@.len(),
    {
        self.names.len()
    }

    /// The names, in the order in which they were first added.
    pub fn names(&self) -> (names: &Vec<String>)
        ensures
            names.deep_view() == self@,
            self@.no_duplicates(),
    {
        proof {
            use_type_invariant(self);
        }
        &self.names
    }
}

} // verus!
