//! The keys that are currently held, each with the raw event that pressed it,
//! and the key that went down most recently.

use vstd::prelude::*;
use crate::text::{chars_of, is_word, lower, lower_chars, string_of};

verus! {

/// The identifier of a key from the key value of a raw key event: a space is
/// the space bar, any other value is lower-cased. This is the identifier the
/// parser gives the same text written in a combination.
pub open spec fn key_identifier(key: Seq<char>) -> Seq<char> {
    if key == seq![' '] {
        "spacebar"@
    } else {
        lower(key)
    }
}

/// The identifier of the key whose raw event carries the key value `key`.
pub fn clean_key(key: &str) -> (r: String)
    ensures
        r@ == key_identifier(key@),
{
    let cs = chars_of(key);
    if is_word(&cs, " ") {
        proof { reveal_strlit(" "); }
        assert(cs@ =~= seq![' ']);
        "spacebar".to_string()
    } else {
        proof {
            reveal_strlit(" ");
            if key@ == seq![' '] {
                assert(key@ =~= " "@);
            }
        }
        string_of(&lower_chars(&cs))
    }
}

/// The identifiers of a list of entries, in order.
pub open spec fn entry_keys<E>(entries: Seq<(String, E)>) -> Seq<Seq<char>> {
    entries.map_values(|e: (String, E)| e.0@)
}

/// The map from identifier to event that a list of entries holds; a later
/// entry overrides an earlier one.
pub open spec fn entry_map<E>(entries: Seq<(String, E)>) -> Map<Seq<char>, E>
    decreases entries.len(),
{
    if entries.len() == 0 {
        Map::empty()
    } else {
        entry_map(entries.drop_last()).insert(entries.last().0@, entries.last().1)
    }
}

proof fn lemma_entry_map_dom<E>(entries: Seq<(String, E)>)
    ensures
        entry_map(entries).dom() == entry_keys(entries).to_set(),
    decreases entries.len(),
{
    if entries.len() > 0 {
        lemma_entry_map_dom(entries.drop_last());
        let ks = entry_keys(entries);
        assert(entry_keys(entries.drop_last()) =~= ks.drop_last());
        assert forall|k: Seq<char>| entry_map(entries).dom().contains(k) <==> ks.to_set().contains(k) by {
            if ks.drop_last().contains(k) {
                let j = choose|j: int| 0 <= j < ks.drop_last().len() && ks.drop_last()[j] == k;
                assert(ks[j] == k);
            }
            if ks.contains(k) && k != ks.last() {
                let j = choose|j: int| 0 <= j < ks.len() && ks[j] == k;
                assert(ks.drop_last()[j] == k);
            }
            assert(ks[ks.len() - 1] == entries.last().0@);
        }
        assert(entry_map(entries).dom() =~= ks.to_set());
    }
}

proof fn lemma_entry_map_remove<E>(entries: Seq<(String, E)>, i: int)
    requires
        0 <= i < entries.len(),
        entry_keys(entries).no_duplicates(),
    ensures
        entry_map(entries.remove(i)) == entry_map(entries).remove(entries[i].0@),
        entry_keys(entries.remove(i)) == entry_keys(entries).remove(i),
    decreases entries.len(),
{
    let k = entries[i].0@;
    let n = entries.len();
    assert(entry_keys(entries.remove(i)) =~= entry_keys(entries).remove(i));
    assert(entry_keys(entries.drop_last()) =~= entry_keys(entries).drop_last());
    if i == n - 1 {
        assert(entries.remove(i) =~= entries.drop_last());
        lemma_entry_map_dom(entries.drop_last());
        assert(!entry_keys(entries.drop_last()).contains(k)) by {
            if entry_keys(entries.drop_last()).contains(k) {
                let j = choose|j: int| 0 <= j < n - 1 && entry_keys(entries.drop_last())[j] == k;
                assert(entry_keys(entries)[j] == entry_keys(entries)[n - 1]);
            }
        }
        assert(entry_map(entries.remove(i)) =~= entry_map(entries).remove(k));
    } else {
        let d = entries.drop_last();
        assert(entry_keys(d).no_duplicates());
        lemma_entry_map_remove(d, i);
        assert(entries.remove(i).drop_last() =~= d.remove(i));
        assert(entries.remove(i).last() == entries.last());
        assert(entry_keys(entries)[n - 1] != entry_keys(entries)[i]);
        assert(entry_map(entries.remove(i)) =~= entry_map(entries).remove(k));
    }
}

proof fn lemma_entry_map_value<E>(entries: Seq<(String, E)>, i: int)
    requires
        0 <= i < entries.len(),
        !entry_keys(entries.remove(i)).contains(entries[i].0@),
    ensures
        entry_map(entries).contains_key(entries[i].0@),
        entry_map(entries)[entries[i].0@] == entries[i].1,
    decreases entries.len(),
{
    let n = entries.len();
    let k = entries[i].0@;
    if i < n - 1 {
        let d = entries.drop_last();
        assert(d.remove(i) =~= entries.remove(i).drop_last());
        assert(entry_keys(d.remove(i)) =~= entry_keys(entries.remove(i)).drop_last());
        assert(entry_keys(d.remove(i)).contains(k) ==> entry_keys(entries.remove(i)).contains(k)) by {
            if entry_keys(d.remove(i)).contains(k) {
                let j = choose|j: int| 0 <= j < entry_keys(d.remove(i)).len() && entry_keys(d.remove(i))[j] == k;
                assert(entry_keys(entries.remove(i))[j] == k);
            }
        }
        lemma_entry_map_value(d, i);
        assert(entry_keys(entries.remove(i))[n - 2] == entries.last().0@);
    }
}

/// The keys that are held, and the key pressed last while it is still held.
pub struct KeyPresses<E> {
    entries: Vec<(String, E)>,
    last_key: Option<String>,
}

impl<E> KeyPresses<E> {
    /// The held keys with the event that pressed each.
    pub closed spec fn key_map(&self) -> Map<Seq<char>, E> {
        entry_map(self.entries@)
    }

    /// The identifiers of the held keys.
    pub open spec fn pressed(&self) -> Set<Seq<char>> {
        self.key_map().dom()
    }

    /// The key that went down most recently, while it is held.
    pub closed spec fn last(&self) -> Option<Seq<char>> {
        match self.last_key {
            Some(k) => Some(k@),
            None => None,
        }
    }

    /// Each key is held once, and the last key is a held key.
    pub closed spec fn wf(&self) -> bool {
        &&& entry_keys(self.entries@).no_duplicates()
        &&& (self.last() matches Some(k) ==> self.pressed().contains(k))
    }

    /// No key held.
    pub fn new() -> (r: Self)
        ensures
            r.wf(),
            r.key_map() == Map::<Seq<char>, E>::empty(),
            r.last() == None::<Seq<char>>,
    {
        KeyPresses { entries: Vec::new(), last_key: None }
    }

    fn find(&self, key: &String) -> (r: Option<usize>)
        ensures
            match r {
                Some(i) => i < self.entries@.len() && self.entries@[i as int].0@ == key@,
                None => !entry_keys(self.entries@).contains(key@),
            },
    {
        let mut i: usize = 0;
        while i < self.entries.len()
            invariant
                i <= self.entries.len(),
                forall|j: int| 0 <= j < i ==> self.entries@[j].0@ != key@,
            decreases self.entries.len() - i,
        {
            if self.entries[i].0.eq(key) {
                return Some(i);
            }
            i = i + 1;
        }
        proof {
            if entry_keys(self.entries@).contains(key@) {
                let j = choose|j: int| 0 <= j < self.entries@.len() && entry_keys(self.entries@)[j] == key@;
                assert(self.entries@[j].0@ == key@);
            }
        }
        None
    }

    /// Whether the key is held.
    pub fn is_pressed(&self, key: &String) -> (r: bool)
        requires
            self.wf(),
        ensures
            r == self.pressed().contains(key@),
    {
        proof { lemma_entry_map_dom(self.entries@); }
        match self.find(key) {
            Some(i) => {
                assert(entry_keys(self.entries@)[i as int] == key@);
                true
            },
            None => false,
        }
    }

    /// The event that pressed the key, while it is held.
    pub fn event(&self, key: &String) -> (r: Option<&E>)
        requires
            self.wf(),
        ensures
            match r {
                Some(e) => self.key_map().contains_key(key@) && *e == self.key_map()[key@],
                None => !self.key_map().contains_key(key@),
            },
    {
        proof { lemma_entry_map_dom(self.entries@); }
        match self.find(key) {
            Some(i) => {
                proof {
                    let s = self.entries@;
                    lemma_entry_map_remove(s, i as int);
                    lemma_entry_map_dom(s.remove(i as int));
                    let ks = entry_keys(s.remove(i as int));
                    assert(!ks.contains(key@)) by {
                        if ks.contains(key@) {
                            let j = choose|j: int| 0 <= j < ks.len() && ks[j] == key@;
                            if j < i {
                                assert(entry_keys(s)[j] == entry_keys(s)[i as int]);
                            } else {
                                assert(entry_keys(s)[j + 1] == entry_keys(s)[i as int]);
                            }
                        }
                    }
                    lemma_entry_map_value(s, i as int);
                }
                Some(&self.entries[i].1)
            },
            None => None,
        }
    }

    /// The identifier of the key pressed last, while it is held.
    pub fn last_key(&self) -> (r: Option<String>)
        ensures
            match r {
                Some(k) => self.last() == Some(k@),
                None => self.last() == None::<Seq<char>>,
            },
    {
        match &self.last_key {
            Some(k) => Some(k.clone()),
            None => None,
        }
    }

    /// The identifiers of the held keys, each once.
    pub fn pressed_keys(&self) -> (r: Vec<String>)
        requires
            self.wf(),
        ensures
            r@.map_values(|k: String| k@).to_set() == self.pressed(),
            r@.map_values(|k: String| k@).no_duplicates(),
    {
        let mut r: Vec<String> = Vec::new();
        let mut i: usize = 0;
        while i < self.entries.len()
            invariant
                i <= self.entries.len(),
                r@.map_values(|k: String| k@) == entry_keys(self.entries@).subrange(0, i as int),
            decreases self.entries.len() - i,
        {
            let ghost before = r@;
            let k = self.entries[i].0.clone();
            assert(k@ == entry_keys(self.entries@)[i as int]);
            r.push(k);
            assert(r@ =~= before.push(k));
            assert(r@.map_values(|k: String| k@) =~= before.map_values(|k: String| k@).push(k@));
            assert(r@.map_values(|k: String| k@) =~= entry_keys(self.entries@).subrange(0, i as int + 1));
            i = i + 1;
        }
        proof {
            assert(entry_keys(self.entries@).subrange(0, i as int) =~= entry_keys(self.entries@));
            lemma_entry_map_dom(self.entries@);
        }
        r
    }

    /// A key went down: it is held with this event, and it is the last key.
    /// A key that was already held keeps being held, with the new event.
    pub fn key_down(&mut self, key: String, event: E)
        requires
            old(self).wf(),
        ensures
            final(self).wf(),
            final(self).key_map() == old(self).key_map().insert(key@, event),
            final(self).last() == Some(key@),
    {
        proof { lemma_entry_map_dom(self.entries@); }
        match self.find(&key) {
            Some(i) => {
                proof { lemma_entry_map_remove(self.entries@, i as int); }
                self.entries.remove(i);
            },
            None => {},
        }
        let ghost before = self.entries@;
        proof {
            lemma_entry_map_dom(before);
            assert(!entry_keys(before).contains(key@)) by {
                if entry_keys(before).contains(key@) {
                    assert(entry_map(before).dom().contains(key@));
                }
            }
        }
        let last = key.clone();
        self.entries.push((key, event));
        self.last_key = Some(last);
        proof {
            let s = self.entries@;
            assert(s.drop_last() =~= before);
            assert(entry_keys(s) =~= entry_keys(before).push(key@));
            assert(self.key_map() =~= old(self).key_map().insert(key@, event));
            lemma_entry_map_dom(s);
            assert(entry_keys(s)[s.len() - 1] == key@);
        }
    }

    /// A key went up: it is no longer held, and if it was the last key there
    /// is no last key any more.
    pub fn key_up(&mut self, key: &String)
        requires
            old(self).wf(),
        ensures
            final(self).wf(),
            final(self).key_map() == old(self).key_map().remove(key@),
            final(self).last() == (if old(self).last() == Some(key@) { None } else { old(self).last() }),
    {
        proof { lemma_entry_map_dom(self.entries@); }
        match self.find(key) {
            Some(i) => {
                proof { lemma_entry_map_remove(self.entries@, i as int); }
                self.entries.remove(i);
            },
            None => {
                proof {
                    assert(self.key_map() =~= old(self).key_map().remove(key@));
                }
            },
        }
        let clear = match &self.last_key {
            Some(k) => k.eq(key),
            None => false,
        };
        if clear {
            self.last_key = None;
        }
        proof { lemma_entry_map_dom(self.entries@); }
    }

    /// Forgets every key, as after the surface lost focus.
    pub fn clear(&mut self)
        ensures
            final(self).wf(),
            final(self).key_map() == Map::<Seq<char>, E>::empty(),
            final(self).last() == None::<Seq<char>>,
    {
        self.entries = Vec::new();
        self.last_key = None;
    }
}

} // verus!
