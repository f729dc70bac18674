//! The named arguments that a resolution hands to a command.

use vstd::prelude::*;
use vstd::string::*;

use crate::argument::{Argument, ArgumentValue, ChannelId, RoleId, UserId};
use crate::text::str_eq;

verus! {

/// No two entries carry the same name.
pub open spec fn distinct_names(entries: Seq<(String, Argument)>) -> bool {
    forall|i: int, j: int|
        0 <= i < j < entries.len() ==> (#[trigger] entries[i]).0@ != (#[trigger] entries[j]).0@
}

/// Whether some entry carries the name `name`.
pub open spec fn has_name(entries: Seq<(String, Argument)>, name: Seq<char>) -> bool {
    exists|i: int| 0 <= i < entries.len() && (#[trigger] entries[i]).0@ == name
}

/// The mapping from names to values that a list of entries stands for.
pub open spec fn entries_map(entries: Seq<(String, Argument)>) -> Map<Seq<char>, ArgumentValue> {
    Map::new(
        |name: Seq<char>| has_name(entries, name),
        |name: Seq<char>|
            entries[choose|i: int| 0 <= i < entries.len() && (#[trigger] entries[i]).0@ == name].1@,
    )
}

/// Where names are distinct, each entry is what the mapping holds under its name.
pub proof fn lemma_entry_in_map(entries: Seq<(String, Argument)>, i: int)
    requires
        distinct_names(entries),
        0 <= i < entries.len(),
    ensures
        entries_map(entries).contains_key(entries[i].0@),
        entries_map(entries)[entries[i].0@] == entries[i].1@,
{
    let name = entries[i].0@;
    let j = choose|j: int| 0 <= j < entries.len() && (#[trigger] entries[j]).0@ == name;
    assert(j == i);
}

/// Adding an entry under a new name adds that name to the mapping.
pub proof fn lemma_push_entry(entries: Seq<(String, Argument)>, entry: (String, Argument))
    requires
        distinct_names(entries),
        !has_name(entries, entry.0@),
    ensures
        distinct_names(entries.push(entry)),
        entries_map(entries.push(entry)) == entries_map(entries).insert(entry.0@, entry.1@),
{
    let after = entries.push(entry);
    assert(distinct_names(after)) by {
        assert forall|i: int, j: int| 0 <= i < j < after.len() implies (#[trigger] after[i]).0@ != (
        #[trigger] after[j]).0@ by {
            if j == entries.len() {
                assert(entries[i].0@ != entry.0@);
            } else {
                assert(entries[i].0@ != entries[j].0@);
            }
        }
    }
    let goal = entries_map(entries).insert(entry.0@, entry.1@);
    assert forall|name: Seq<char>| entries_map(after).contains_key(name) == goal.contains_key(
        name,
    ) by {
        if has_name(after, name) {
            let i = choose|i: int| 0 <= i < after.len() && (#[trigger] after[i]).0@ == name;
            if i < entries.len() {
                assert(entries[i].0@ == name);
            }
        }
        if has_name(entries, name) {
            let i = choose|i: int| 0 <= i < entries.len() && (#[trigger] entries[i]).0@ == name;
            assert(after[i].0@ == name);
        }
        if name == entry.0@ {
            assert(after[entries.len() as int].0@ == name);
        }
    }
    assert forall|name: Seq<char>| entries_map(after).contains_key(name) implies entries_map(
        after,
    )[name] == goal[name] by {
        let i = choose|i: int| 0 <= i < after.len() && (#[trigger] after[i]).0@ == name;
        lemma_entry_in_map(after, i);
        if i < entries.len() {
            assert(entries[i].0@ == name);
            lemma_entry_in_map(entries, i);
        }
    }
    assert(entries_map(after) =~= goal);
}

/// Replacing the value of an entry replaces what the mapping holds under its name.
pub proof fn lemma_update_entry(
    entries: Seq<(String, Argument)>,
    i: int,
    entry: (String, Argument),
)
    requires
        distinct_names(entries),
        0 <= i < entries.len(),
        entries[i].0@ == entry.0@,
    ensures
        distinct_names(entries.update(i, entry)),
        entries_map(entries.update(i, entry)) == entries_map(entries).insert(entry.0@, entry.1@),
{
    let after = entries.update(i, entry);
    assert(distinct_names(after)) by {
        assert forall|a: int, b: int| 0 <= a < b < after.len() implies (#[trigger] after[a]).0@ != (
        #[trigger] after[b]).0@ by {
            assert(entries[a].0@ != entries[b].0@);
        }
    }
    let goal = entries_map(entries).insert(entry.0@, entry.1@);
    assert forall|name: Seq<char>| entries_map(after).contains_key(name) == goal.contains_key(
        name,
    ) by {
        if has_name(after, name) {
            let k = choose|k: int| 0 <= k < after.len() && (#[trigger] after[k]).0@ == name;
            assert(entries[k].0@ == name);
        }
        if has_name(entries, name) {
            let k = choose|k: int| 0 <= k < entries.len() && (#[trigger] entries[k]).0@ == name;
            assert(after[k].0@ == name);
        }
        if name == entry.0@ {
            assert(after[i].0@ == name);
        }
    }
    assert forall|name: Seq<char>| entries_map(after).contains_key(name) implies entries_map(
        after,
    )[name] == goal[name] by {
        let k = choose|k: int| 0 <= k < after.len() && (#[trigger] after[k]).0@ == name;
        lemma_entry_in_map(after, k);
        if k != i {
            assert(entries[k].0@ == name);
            lemma_entry_in_map(entries, k);
        }
    }
    assert(entries_map(after) =~= goal);
}

/// Where names are distinct, the mapping holds as many names as there are entries.
pub proof fn lemma_entries_map_len(entries: Seq<(String, Argument)>)
    requires
        distinct_names(entries),
    ensures
        entries_map(entries).dom().finite(),
        entries_map(entries).dom().len() == entries.len(),
    decreases entries.len(),
{
    if entries.len() == 0 {
        assert(entries_map(entries).dom() =~= Set::<Seq<char>>::empty());
    } else {
        let front = entries.drop_last();
        let last = entries.last();
        assert(distinct_names(front)) by {
            assert forall|i: int, j: int| 0 <= i < j < front.len() implies (#[trigger] front[i]).0@
                != (#[trigger] front[j]).0@ by {
                assert(entries[i].0@ != entries[j].0@);
            }
        }
        assert(!has_name(front, last.0@)) by {
            if has_name(front, last.0@) {
                let i = choose|i: int| 0 <= i < front.len() && (#[trigger] front[i]).0@ == last.0@;
                assert(entries[i].0@ != entries[entries.len() - 1].0@);
            }
        }
        lemma_entries_map_len(front);
        lemma_push_entry(front, last);
        assert(front.push(last) =~= entries);
        assert(!entries_map(front).dom().contains(last.0@));
    }
}

/// The arguments of one invocation, each under the name of the leaf that
/// accepted it. No name occurs twice.
#[derive(Debug)]
pub struct ArgumentMap {
    entries: Vec<(String, Argument)>,
}

impl View for ArgumentMap {
    type V = Map<Seq<char>, ArgumentValue>;

    closed spec fn view(&self) -> Map<Seq<char>, ArgumentValue> {
        entries_map(self.entries@)
    }
}

impl ArgumentMap {
    #[verifier::type_invariant]
    spec fn well_formed(self) -> bool {
        distinct_names(self.entries@)
    }

    /// A map that holds nothing.
    pub fn new() -> (map: ArgumentMap)
        ensures
            map@ == Map::<Seq<char>, ArgumentValue>::empty(),
    {
        let map = ArgumentMap { entries: Vec::new() };
        assert(map@ =~= Map::<Seq<char>, ArgumentValue>::empty());
        map
    }

    /// Puts `value` under `key`, in place of what was there.
    pub fn insert(&mut self, key: String, value: Argument)
        ensures
            final(self)@ == old(self)@.insert(key@, value@),
    {
        proof {
            use_type_invariant(&*self);
        }
        let mut entries: Vec<(String, Argument)> = Vec::new();
        core::mem::swap(&mut self.entries, &mut entries);
        let mut i: usize = 0;
        let mut found: bool = false;
        while i < entries.len() && !found
            invariant
                i <= entries.len(),
                entries@ == old(self).entries@,
                distinct_names(entries@),
                found ==> i < entries.len() && entries@[i as int].0@ == key@,
                forall|k: int| 0 <= k < i ==> (#[trigger] entries@[k]).0@ != key@,
            decreases entries.len() - i + if found { 0int } else { 1int },
        {
            if str_eq(entries[i].0.as_str(), key.as_str()) {
                found = true;
            } else {
                i = i + 1;
            }
        }
        if found {
            proof {
                lemma_update_entry(entries@, i as int, (key, value));
            }
            entries.set(i, (key, value));
        } else {
            proof {
                lemma_push_entry(entries@, (key, value));
            }
            entries.push((key, value));
        }
        core::mem::swap(&mut self.entries, &mut entries);
    }

    /// The value under `key`, if there is one.
    pub fn get(&self, key: &str) -> (found: Option<&Argument>)
        ensures
            match found {
                Some(value) => self@.contains_key(key@) && self@[key@] == value@,
                None => !self@.contains_key(key@),
            },
    {
        proof {
            use_type_invariant(self);
        }
        let mut i: usize = 0;
        while i < self.entries.len()
            invariant
                i <= self.entries.len(),
                distinct_names(self.entries@),
                forall|k: int| 0 <= k < i ==> (#[trigger] self.entries@[k]).0@ != key@,
            decreases self.entries.len() - i,
        {
            if str_eq(self.entries[i].0.as_str(), key) {
                proof {
                    lemma_entry_in_map(self.entries@, i as int);
                }
                return Some(&self.entries[i].1);
            }
            i = i + 1;
        }
        None
    }

    /// Whether the map holds nothing.
    pub fn is_empty(&self) -> (empty: bool)
        ensures
            empty == (self@ == Map::<Seq<char>, ArgumentValue>::empty()),
    {
        let empty = self.entries.len() == 0;
        proof {
            if empty {
                assert(self@ =~= Map::<Seq<char>, ArgumentValue>::empty());
            } else {
                assert(self.entries@[0].0@ == self.entries@[0].0@);
                assert(self@.contains_key(self.entries@[0].0@));
            }
        }
        empty
    }

    /// The number of names the map holds.
    pub fn len(&self) -> (len: usize)
        ensures
            self@.dom().finite(),
            len == self@.len(),
    {
        proof {
            use_type_invariant(self);
            lemma_entries_map_len(self.entries@);
        }
        self.entries.len()
    }

    /// Gets an argument
    pub fn get_arg(&self, key: &str) -> (found: Option<&Argument>)
        ensures
            match found {
                Some(value) => self@.contains_key(key@) && self@[key@] == value@,
                None => !self@.contains_key(key@),
            },
    {
        self.get(key)
    }

    /// Gets the value of a String argument
    pub fn get_str_arg(&self, key: &str) -> (found: Option<&String>)
        ensures
            match found {
                Some(s) => self@.contains_key(key@) && self@[key@] == ArgumentValue::Text(s@),
                None => !(self@.contains_key(key@) && self@[key@] is Text),
            },
    {
        match self.get(key) {
            Some(Argument::String(s)) => Some(s),
            _ => None,
        }
    }

    /// Gets the value of a Integer argument
    pub fn get_int_arg(&self, key: &str) -> (found: Option<&i32>)
        ensures
            match found {
                Some(i) => self@.contains_key(key@) && self@[key@] == ArgumentValue::Integer(*i),
                None => !(self@.contains_key(key@) && self@[key@] is Integer),
            },
    {
        match self.get(key) {
            Some(Argument::Integer(i)) => Some(i),
            _ => None,
        }
    }

    /// Gets the value of a Boolean argument
    pub fn get_bool_arg(&self, key: &str) -> (found: Option<&bool>)
        ensures
            match found {
                Some(b) => self@.contains_key(key@) && self@[key@] == ArgumentValue::Boolean(*b),
                None => !(self@.contains_key(key@) && self@[key@] is Boolean),
            },
    {
        match self.get(key) {
            Some(Argument::Boolean(b)) => Some(b),
            _ => None,
        }
    }

    /// Gets the value of a User argument
    pub fn get_user_arg(&self, key: &str) -> (found: Option<&UserId>)
        ensures
            match found {
                Some(u) => self@.contains_key(key@) && self@[key@] == ArgumentValue::User(u.0),
                None => !(self@.contains_key(key@) && self@[key@] is User),
            },
    {
        match self.get(key) {
            Some(Argument::User(u)) => Some(u),
            _ => None,
        }
    }

    /// Gets the value of a Channel argument
    pub fn get_channel_arg(&self, key: &str) -> (found: Option<&ChannelId>)
        ensures
            match found {
                Some(c) => self@.contains_key(key@) && self@[key@] == ArgumentValue::Channel(c.0),
                None => !(self@.contains_key(key@) && self@[key@] is Channel),
            },
    {
        match self.get(key) {
            Some(Argument::Channel(c)) => Some(c),
            _ => None,
        }
    }

    /// Gets the value of a Role argument
    pub fn get_role_arg(&self, key: &str) -> (found: Option<&RoleId>)
        ensures
            match found {
                Some(r) => self@.contains_key(key@) && self@[key@] == ArgumentValue::Role(r.0),
                None => !(self@.contains_key(key@) && self@[key@] is Role),
            },
    {
        match self.get(key) {
            Some(Argument::Role(r)) => Some(r),
            _ => None,
        }
    }

    /// The entries of the map, each name once.
    pub fn entries(&self) -> (entries: &Vec<(String, Argument)>)
        ensures
            distinct_names(entries@),
            self@ == entries_map(entries@),
    {
        proof {
            use_type_invariant(self);
        }
        &self.entries
    }
}

} // verus!
