//! Texts kept by name.

use crate::text::same;
use vstd::prelude::*;

verus! {

/// Texts by name. A later text under a name replaces the earlier one.
#[derive(Debug, Clone)]
pub struct TextMap {
    entries: Vec<(String, String)>,
}

/// The map that a list of names and texts makes, from the first to the last.
pub open spec fn map_of(s: Seq<(String, String)>) -> Map<Seq<char>, Seq<char>>
    decreases s.len(),
{
    if s.len() == 0 {
        Map::empty()
    } else {
        map_of(s.drop_last()).insert(s.last().0@, s.last().1@)
    }
}

impl View for TextMap {
    type V = Map<Seq<char>, Seq<char>>;

    closed spec fn view(&self) -> Map<Seq<char>, Seq<char>> {
        map_of(self.entries@)
    }
}

impl Default for TextMap {
    fn default() -> (r: Self)
        ensures
            r@ == Map::<Seq<char>, Seq<char>>::empty(),
    {
        TextMap::new()
    }
}

impl TextMap {
    /// No texts.
    pub fn new() -> (r: Self)
        ensures
            r@ == Map::<Seq<char>, Seq<char>>::empty(),
    {
        TextMap { entries: Vec::new() }
    }

    /// Sets the text under a name.
    pub fn insert(&mut self, key: String, value: String)
        ensures
            final(self)@ == old(self)@.insert(key@, value@),
    {
        self.remove(key.as_str());
        let ghost before = self.entries@;
        self.entries.push((key, value));
        assert(self.entries@.drop_last() =~= before);
        assert(self@ =~= old(self)@.insert(key@, value@));
    }

    /// Removes the text under a name.
    pub fn remove(&mut self, key: &str)
        ensures
            final(self)@ == old(self)@.remove(key@),
    {
        let mut entries: Vec<(String, String)> = Vec::new();
        std::mem::swap(&mut entries, &mut self.entries);
        let ghost all = entries@;
        let mut kept: Vec<(String, String)> = Vec::new();
        assert(map_of(kept@) =~= map_of(all.take(0)).remove(key@));
        for e in it: entries
            invariant
                it.seq() == all,
                map_of(kept@) == map_of(all.take(it.index() as int)).remove(key@),
        {
            let ghost i = it.index() as int;
            let ghost before = kept@;
            assert(all.take(i + 1).drop_last() =~= all.take(i));
            if same(e.0.as_str(), key) {
                assert(map_of(kept@) =~= map_of(all.take(i + 1)).remove(key@));
            } else {
                kept.push(e);
                assert(kept@.drop_last() =~= before);
                assert(map_of(kept@) =~= map_of(all.take(i + 1)).remove(key@));
            }
        }
        assert(all.take(all.len() as int) =~= all);
        self.entries = kept;
    }

    /// The text under a name.
    pub fn get(&self, key: &str) -> (r: Option<&String>)
        ensures
            match r {
                Some(v) => self@.contains_key(key@) && self@[key@] == v@,
                None => !self@.contains_key(key@),
            },
    {
        let ghost all = self.entries@;
        let mut n: usize = self.entries.len();
        assert(all.take(n as int) =~= all);
        while n > 0
            invariant
                all == self.entries@,
                n <= all.len(),
                map_of(all).contains_key(key@) <==> map_of(all.take(n as int)).contains_key(key@),
                map_of(all).contains_key(key@) ==> map_of(all)[key@] == map_of(
                    all.take(n as int),
                )[key@],
            decreases n,
        {
            assert(all.take(n as int).drop_last() =~= all.take(n - 1));
            if same(self.entries[n - 1].0.as_str(), key) {
                return Some(&self.entries[n - 1].1);
            }
            n = n - 1;
        }
        None
    }

    /// Whether there is a text under a name.
    pub fn contains_key(&self, key: &str) -> (r: bool)
        ensures
            r == self@.contains_key(key@),
    {
        self.get(key).is_some()
    }

    /// The names and texts, in the order in which they were last set.
    pub fn entries(&self) -> (r: &Vec<(String, String)>)
        ensures
            map_of(r@) == self@,
    {
        &self.entries
    }
}

} // verus!
