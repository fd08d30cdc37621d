use vstd::prelude::*;

verus! {

/// A block's string table: index 0 always holds the empty string, and
/// elements refer to the other entries by index.
#[derive(Debug, Clone, PartialEq, Eq)]
pub struct StringTable {
    /// The strings, in table order.
    pub s: Vec<String>,
}

impl StringTable {
    /// The strings of the table, as character sequences.
    pub open spec fn strings(&self) -> Seq<Seq<char>> {
        self.s@.map_values(|x: String| x@)
    }

    /// Well-formed: the reserved entry 0 is present and empty.
    pub open spec fn wf(&self) -> bool {
        &&& self.s@.len() >= 1
        &&& self.s@[0]@ == Seq::<char>::empty()
    }

    /// Creates a table that holds only the reserved empty string.
    pub fn new() -> (r: StringTable)
        ensures
            r.wf(),
            r.s@.len() == 1,
    {
        let mut s: Vec<String> = Vec::new();
        s.push(String::new());
        StringTable { s }
    }

    /// Appends a string and returns its index.
    pub fn add_string(&mut self, string: String) -> (r: usize)
        requires
            old(self).s@.len() < usize::MAX,
        ensures
            final(self).s@ == old(self).s@.push(string),
            r == old(self).s@.len(),
            old(self).wf() ==> final(self).wf(),
    {
        self.s.push(string);
        self.s.len() - 1
    }

    /// The string at `index`, or `None` past the end.
    pub fn get_string(&self, index: usize) -> (r: Option<&str>)
        ensures
            index < self.s@.len() <==> r.is_some(),
            r.is_some() ==> r.unwrap()@ == self.s@[index as int]@,
    {
        if index < self.s.len() {
            Some(self.s[index].as_str())
        } else {
            None
        }
    }

    /// The string at `index`, or the empty string for index 0 and past the end.
    pub fn get_string_or_empty(&self, index: usize) -> (r: &str)
        ensures
            (index == 0 || index >= self.s@.len()) ==> r@ == Seq::<char>::empty(),
            (0 < index < self.s@.len()) ==> r@ == self.s@[index as int]@,
    {
        if index == 0 || index >= self.s.len() {
            proof {
                reveal_strlit("");
            }
            ""
        } else {
            self.s[index].as_str()
        }
    }

    /// Number of entries, the reserved one included.
    pub fn len(&self) -> (r: usize)
        ensures
            r == self.s@.len(),
    {
        self.s.len()
    }

    /// True when the table holds nothing but the reserved entry.
    pub fn is_empty(&self) -> (r: bool)
        ensures
            r == (self.s@.len() <= 1),
    {
        self.s.len() <= 1
    }
}

impl Default for StringTable {
    fn default() -> (r: StringTable)
        ensures
            r.wf(),
            r.s@.len() == 1,
    {
        StringTable::new()
    }
}

/// Lookups are total on `[0, len)`, and index 0 gives the empty string.
pub proof fn lemma_lookup_total(t: StringTable, i: int)
    requires
        t.wf(),
        0 <= i < t.s@.len(),
    ensures
        t.strings().len() == t.s@.len(),
        t.strings()[i] == t.s@[i]@,
        t.strings()[0] == Seq::<char>::empty(),
{
}

} // verus!
