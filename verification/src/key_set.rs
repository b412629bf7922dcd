//! A set of texts that can be listed.
use vstd::hash_set::StringHashSet;
use vstd::prelude::*;

verus! {

/// The texts of a list of strings.
pub open spec fn texts(strings: Seq<String>) -> Seq<Seq<char>> {
    strings.map_values(|s: String| s@)
}

/// The texts of a list are those of its strings, one by one.
pub proof fn texts_are_of_the_strings(strings: Seq<String>, i: int)
    ensures
        texts(strings).len() == strings.len(),
        0 <= i < strings.len() ==> texts(strings)[i] == strings[i]@,
{
}

/// A set of strings: an index to test membership, and a list of the members in
/// no promised order.
pub struct KeySet {
    index: StringHashSet,
    listed: Vec<String>,
}

impl View for KeySet {
    type V = Set<Seq<char>>;

    closed spec fn view(&self) -> Set<Seq<char>> {
        self.index@
    }
}

impl KeySet {
    /// Each member is listed exactly once.
    pub closed spec fn wf(&self) -> bool {
        &&& texts(self.listed@).no_duplicates()
        &&& texts(self.listed@).to_set() == self.index@
    }

    /// The empty set.
    pub fn new() -> (keys: KeySet)
        ensures
            keys.wf(),
            keys@ == Set::<Seq<char>>::empty(),
    {
        let keys = KeySet { index: StringHashSet::new(), listed: Vec::new() };
        assert(texts(keys.listed@).to_set() =~= Set::empty());
        keys
    }

    /// Adds a member.
    pub fn insert(&mut self, key: String)
        requires
            old(self).wf(),
        ensures
            final(self).wf(),
            final(self)@ == old(self)@.insert(key@),
    {
        let copy: String = key.clone();
        if self.index.insert(copy) {
            self.listed.push(key);
            let ghost before = texts(old(self).listed@);
            let ghost after = texts(self.listed@);
            assert(after =~= before.push(key@));
            assert(!before.contains(key@)) by {
                assert(!before.to_set().contains(key@));
            }
            assert(after.to_set() =~= before.to_set().insert(key@)) by {
                assert(after.last() == key@);
                assert forall|t: Seq<char>| before.contains(t) implies after.contains(t) by {
                    let i = before.index_of(t);
                    assert(after[i] == t);
                }
            }
        } else {
            assert(old(self)@.insert(key@) =~= old(self)@);
        }
    }

    /// Takes a member out, if it is there.
    pub fn remove(&mut self, key: &String)
        requires
            old(self).wf(),
        ensures
            final(self).wf(),
            final(self)@ == old(self)@.remove(key@),
    {
        let ghost before = texts(self.listed@);
        if self.index.remove(key.as_str()) {
            assert(before.to_set().contains(key@));
            let mut i: usize = 0;
            while self.listed[i] != *key
                invariant
                    i < self.listed.len(),
                    before == texts(self.listed@),
                    self.listed@ == old(self).listed@,
                    self.index@ == old(self).index@.remove(key@),
                    before.contains(key@),
                    forall|j: int| 0 <= j < i ==> #[trigger] before[j] != key@,
                decreases self.listed@.len() - i,
            {
                assert(before[i as int] != key@);
                let ghost at = before.index_of(key@);
                assert(before[at] == key@);
                i = i + 1;
            }
            self.listed.remove(i);
            let ghost after = texts(self.listed@);
            assert(before[i as int] == key@);
            assert(after =~= before.remove(i as int));
            assert(after.to_set() =~= before.to_set().remove(key@)) by {
                assert forall|t: Seq<char>| after.contains(t) implies before.contains(t) && t
                    != key@ by {
                    let j = after.index_of(t);
                    assert(before[if j < i { j } else { j + 1 }] == t);
                }
                assert forall|t: Seq<char>| before.contains(t) && t != key@ implies after.contains(
                    t,
                ) by {
                    let j = before.index_of(t);
                    assert(after[if j < i { j } else { j - 1 }] == t);
                }
            }
        } else {
            assert(old(self)@.remove(key@) =~= old(self)@);
        }
    }

    /// Whether `key` is a member.
    pub fn contains(&self, key: &str) -> (present: bool)
        ensures
            present == self@.contains(key@),
    {
        self.index.contains(key)
    }

    /// The members, each once.
    pub fn to_vec(&self) -> (members: Vec<String>)
        requires
            self.wf(),
        ensures
            texts(members@).no_duplicates(),
            texts(members@).to_set() == self@,
    {
        let members: Vec<String> = self.listed.clone();
        assert(texts(members@) =~= texts(self.listed@));
        members
    }
}

} // verus!
