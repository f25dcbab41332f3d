//! Maps from texts.

use crate::bytes::same_text;
use vstd::prelude::*;

verus! {

/// A map from texts to values. A later entry for a text takes the place of an
/// earlier one.
pub struct TextMap<V> {
    pub entries: Vec<(String, V)>,
}

/// The map that entries make up, the later ones before the earlier ones.
pub open spec fn entries_map<V>(entries: Seq<(String, V)>) -> Map<Seq<char>, V>
    decreases entries.len(),
{
    if entries.len() == 0 {
        Map::empty()
    } else {
        entries_map(entries.drop_last()).insert(entries.last().0@, entries.last().1)
    }
}

impl<V> View for TextMap<V> {
    type V = Map<Seq<char>, V>;

    open spec fn view(&self) -> Map<Seq<char>, V> {
        entries_map(self.entries@)
    }
}

impl<V> TextMap<V> {
    /// The empty map.
    pub fn new() -> (r: TextMap<V>)
        ensures
            r@ == Map::<Seq<char>, V>::empty(),
    {
        TextMap { entries: Vec::new() }
    }

    /// Maps a text to a value.
    pub fn insert(&mut self, key: String, value: V)
        ensures
            final(self)@ == old(self)@.insert(key@, value),
    {
        self.entries.push((key, value));
        assert(self.entries@.drop_last() =~= old(self).entries@);
    }

    /// The value of a text.
    pub fn get(&self, key: &String) -> (r: Option<&V>)
        ensures
            r is Some <==> self@.contains_key(key@),
            r matches Some(v) ==> *v == self@[key@],
    {
        let ghost all = self.entries@;
        let mut i: usize = self.entries.len();
        assert(all.take(i as int) =~= all);
        while i > 0
            invariant
                i <= self.entries@.len(),
                all == self.entries@,
                entries_map(all.take(i as int)).contains_key(key@) <==> self@.contains_key(key@),
                self@.contains_key(key@) ==> entries_map(all.take(i as int))[key@] == self@[key@],
            decreases i,
        {
            assert(all.take(i as int).last() == all[i - 1]);
            assert(all.take(i as int).drop_last() =~= all.take(i - 1));
            i = i - 1;
            if same_text(self.entries[i].0.as_str(), key.as_str()) {
                return Some(&self.entries[i].1);
            }
        }
        None
    }
}

} // verus!
