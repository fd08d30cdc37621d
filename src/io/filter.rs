//! Filters: which element types, ids and tags a caller wants, and the
//! blob-level pushdown that follows from them.

use vstd::prelude::*;
use crate::blocks::string_table::StringTable;

verus! {

/// Tag conditions: each key must be present, with the given value where
/// one is given. Keys are unique.
#[derive(Debug, Clone, PartialEq, Eq)]
pub struct TagFilters {
    entries: Vec<(String, Option<String>)>,
}

/// A key's required value, as characters.
pub open spec fn value_view(v: Option<String>) -> Option<Seq<char>> {
    match v {
        Some(s) => Some(s@),
        None => None,
    }
}

impl TagFilters {
    /// The conditions, in insertion order.
    pub closed spec fn conditions(&self) -> Seq<(Seq<char>, Option<Seq<char>>)> {
        self.entries@.map_values(|e: (String, Option<String>)| (e.0@, value_view(e.1)))
    }

    /// Keys are unique.
    pub open spec fn wf(&self) -> bool {
        forall|i: int, j: int|
            0 <= i < j < self.conditions().len() ==> self.conditions()[i].0
                != self.conditions()[j].0
    }

    /// No condition.
    pub fn new() -> (r: TagFilters)
        ensures
            r.wf(),
            r.conditions().len() == 0,
    {
        let r = TagFilters { entries: Vec::new() };
        assert(r.conditions().len() == 0);
        r
    }

    /// Number of conditions.
    pub fn len(&self) -> (r: usize)
        ensures
            r == self.conditions().len(),
    {
        self.entries.len()
    }

    /// True when there is no condition.
    pub fn is_empty(&self) -> (r: bool)
        ensures
            r == (self.conditions().len() == 0),
    {
        self.entries.len() == 0
    }

    /// Position of `key`, if present.
    fn position(&self, key: &String) -> (r: Option<usize>)
        ensures
            match r {
                Some(i) => i < self.conditions().len() && self.conditions()[i as int].0 == key@,
                None => forall|i: int|
                    0 <= i < self.conditions().len() ==> self.conditions()[i].0 != key@,
            },
    {
        let mut i: usize = 0;
        while i < self.entries.len()
            invariant
                i <= self.entries@.len(),
                self.conditions().len() == self.entries@.len(),
                forall|j: int| 0 <= j < i ==> self.conditions()[j].0 != key@,
            decreases self.entries@.len() - i,
        {
            if self.entries[i].0 == *key {
                return Some(i);
            }
            i = i + 1;
        }
        None
    }

    /// The condition on `key`: `Some(&None)` for any value, `Some(&Some(v))`
    /// for value `v`, `None` when `key` is unconstrained.
    pub fn get(&self, key: &str) -> (r: Option<&Option<String>>)
        ensures
            r is None <==> forall|i: int|
                0 <= i < self.conditions().len() ==> self.conditions()[i].0 != key@,
            r matches Some(v) ==> exists|i: int|
                0 <= i < self.conditions().len() && self.conditions()[i] == (key@, value_view(*v)),
    {
        let k = key.to_owned();
        match self.position(&k) {
            Some(i) => Some(&self.entries[i].1),
            None => None,
        }
    }

    /// Sets the condition on `key`, replacing an earlier one in place.
    pub fn insert(&mut self, key: String, value: Option<String>)
        requires
            old(self).wf(),
            old(self).conditions().len() < usize::MAX,
        ensures
            final(self).wf(),
            (exists|i: int|
                0 <= i < old(self).conditions().len() && old(self).conditions()[i].0 == key@
                    && final(self).conditions() == old(self).conditions().update(
                    i,
                    (key@, value_view(value)),
                )) || ((forall|i: int|
                0 <= i < old(self).conditions().len() ==> old(self).conditions()[i].0 != key@)
                && final(self).conditions() == old(self).conditions().push(
                (key@, value_view(value)),
            )),
    {
        let ghost old_c = self.conditions();
        let ghost kv = key@;
        let ghost vv = value_view(value);
        match self.position(&key) {
            Some(i) => {
                self.entries.set(i, (key, value));
                assert(self.conditions() =~= old_c.update(i as int, (kv, vv)));
            },
            None => {
                self.entries.push((key, value));
                assert(self.conditions() =~= old_c.push((kv, vv)));
            },
        }
    }
}

/// Some tag of the element has key `k`, and value `v` where one is given,
/// as resolved in the table.
pub open spec fn has_tag(
    table: Seq<Seq<char>>,
    keys: Seq<u32>,
    vals: Seq<u32>,
    k: Seq<char>,
    v: Option<Seq<char>>,
) -> bool {
    exists|j: int|
        0 <= j < keys.len() && j < vals.len() && keys[j] < table.len() && vals[j] < table.len()
            && #[trigger] table[keys[j] as int] == k && (v matches Some(x) ==> table[vals[j] as int]
            == x)
}

/// The element's tags meet every condition.
pub open spec fn tags_pass(
    table: Seq<Seq<char>>,
    keys: Seq<u32>,
    vals: Seq<u32>,
    conds: Seq<(Seq<char>, Option<Seq<char>>)>,
) -> bool {
    forall|c: int| 0 <= c < conds.len() ==> has_tag(table, keys, vals, #[trigger] conds[c].0, conds[c].1)
}

/// Looks for a tag with key `k` (and value `v`, if given).
fn find_tag(table: &StringTable, keys: &Vec<u32>, vals: &Vec<u32>, k: &String, v: &Option<String>) -> (r: bool)
    ensures
        r == has_tag(table.strings(), keys@, vals@, k@, value_view(*v)),
{
    let n = table.s.len();
    let mut j: usize = 0;
    while j < keys.len()
        invariant
            n == table.s@.len(),
            table.strings().len() == n,
            j <= keys@.len(),
            forall|i: int| 0 <= i < j ==> !(i < vals@.len() && keys@[i] < n && vals@[i] < n
                && #[trigger] table.strings()[keys@[i] as int] == k@
                && (value_view(*v) matches Some(x) ==> table.strings()[vals@[i] as int] == x)),
        decreases keys@.len() - j,
    {
        if j < vals.len() && (keys[j] as usize) < n && (vals[j] as usize) < n {
            let key_str = &table.s[keys[j] as usize];
            assert(table.strings()[keys@[j as int] as int] == key_str@);
            if *key_str == *k {
                let ok = match v {
                    None => true,
                    Some(want) => {
                        let val_str = &table.s[vals[j] as usize];
                        assert(table.strings()[vals@[j as int] as int] == val_str@);
                        *val_str == *want
                    },
                };
                if ok {
                    return true;
                }
            }
        }
        j = j + 1;
    }
    false
}

impl TagFilters {
    /// True when the tags, resolved in `table`, meet every condition.
    pub fn passes(&self, table: &StringTable, keys: &Vec<u32>, vals: &Vec<u32>) -> (r: bool)
        ensures
            r == tags_pass(table.strings(), keys@, vals@, self.conditions()),
    {
        let mut c: usize = 0;
        while c < self.entries.len()
            invariant
                c <= self.entries@.len(),
                self.conditions().len() == self.entries@.len(),
                forall|i: int| 0 <= i < c ==> has_tag(table.strings(), keys@, vals@, #[trigger] self.conditions()[i].0, self.conditions()[i].1),
            decreases self.entries@.len() - c,
        {
            let (k, v) = &self.entries[c];
            assert(self.conditions()[c as int] == (k@, value_view(*v)));
            if !find_tag(table, keys, vals, k, v) {
                assert(!has_tag(table.strings(), keys@, vals@, self.conditions()[c as int].0, self.conditions()[c as int].1));
                return false;
            }
            c = c + 1;
        }
        true
    }
}

} // verus!
