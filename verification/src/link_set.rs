//! The result set: locations, each held once.

use vstd::hash_set::StringHashSet;
use vstd::prelude::*;

verus! {

/// A set of strings that remembers the order in which they arrived.
///
/// Its view is the mathematical set of the strings it holds. Two strings are
/// the same member when they are equal character by character.
pub struct LinkSet {
    /// The members, in order of arrival.
    items: Vec<String>,
    /// The members again, for a quick answer to whether one is there.
    seen: StringHashSet,
}

impl View for LinkSet {
    type V = Set<Seq<char>>;

    closed spec fn view(&self) -> Set<Seq<char>> {
        self.seen@
    }
}

impl LinkSet {
    #[verifier::type_invariant]
    spec fn holds_each_member_once(&self) -> bool {
        &&& self.items.deep_view().no_duplicates()
        &&& self.items.deep_view().to_set() == self.seen@
    }

    /// The empty set.
    pub fn new() -> (links: LinkSet)
        ensures
            links@ == Set::<Seq<char>>::empty(),
    {
        let items: Vec<String> = Vec::new();
        assert(items.deep_view().to_set() =~= Set::<Seq<char>>::empty());
        LinkSet { items, seen: StringHashSet::new() }
    }

    /// The number of members.
    pub fn len(&self) -> (count: usize)
        ensures
            self@.finite(),
            count == self@.len(),
    {
        proof {
            use_type_invariant(self);
            self.items.deep_view().unique_seq_to_set();
        }
        self.items.len()
    }

    /// Whether the set has no member.
    pub fn is_empty(&self) -> (empty: bool)
        ensures
            empty == (self@ == Set::<Seq<char>>::empty()),
    {
        proof {
            use_type_invariant(self);
            if self.items.len() > 0 {
                assert(self.items.deep_view().to_set().contains(self.items.deep_view()[0]));
            } else {
                assert(self.items.deep_view().to_set() =~= Set::<Seq<char>>::empty());
            }
        }
        self.items.len() == 0
    }

    /// Whether `link` is a member.
    pub fn contains(&self, link: &str) -> (found: bool)
        ensures
            found == self@.contains(link@),
    {
        self.seen.contains(link)
    }

    /// Adds `link` to the set, and says whether it was new.
    pub fn insert(&mut self, link: String) -> (added: bool)
        ensures
            final(self)@ == old(self)@.insert(link@),
            added == !old(self)@.contains(link@),
    {
        proof {
            use_type_invariant(&*self);
        }
        if self.seen.contains(link.as_str()) {
            false
        } else {
            // Both halves change together: the set is taken apart, grown, and
            // put back whole.
            let mut grown = LinkSet::new();
            std::mem::swap(self, &mut grown);
            let LinkSet { mut items, mut seen } = grown;
            let ghost before = items.deep_view();
            seen.insert(link.clone());
            items.push(link);
            proof {
                assert(items.deep_view() =~= before.push(link@));
                before.lemma_push_to_set_commute(link@);
            }
            *self = LinkSet { items, seen };
            true
        }
    }

    /// The members, in the order in which they were first added.
    pub fn into_vec(self) -> (items: Vec<String>)
        ensures
            items.deep_view().no_duplicates(),
            items.deep_view().to_set() == self@,
    {
        proof {
            use_type_invariant(&self);
        }
        self.items
    }
}

} // verus!
