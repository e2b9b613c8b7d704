//! Tables from names to values.
use vstd::prelude::*;

verus! {

/// An entry of a table.
#[derive(Debug)]
pub struct Entry<V> {
    pub key: String,
    pub value: V,
}

/// A table from names to values. A later entry of a name hides an earlier one.
#[derive(Debug)]
pub struct Table<V> {
    entries: Vec<Entry<V>>,
}

/// The table that a sequence of entries makes.
pub open spec fn map_of<V>(s: Seq<Entry<V>>) -> Map<Seq<char>, V>
    decreases s.len(),
{
    if s.len() == 0 {
        Map::empty()
    } else {
        map_of(s.drop_last()).insert(s.last().key@, s.last().value)
    }
}

impl<V> View for Table<V> {
    type V = Map<Seq<char>, V>;

    closed spec fn view(&self) -> Map<Seq<char>, V> {
        map_of(self.entries@)
    }
}

/// What comes behind an entry and has other names does not hide it.
proof fn lemma_not_hidden<V>(s: Seq<Entry<V>>, n: int, key: Seq<char>)
    requires
        0 <= n <= s.len(),
        forall|j: int| n <= j < s.len() ==> (#[trigger] s[j]).key@ != key,
    ensures
        map_of(s).dom().contains(key) == map_of(s.take(n)).dom().contains(key),
        map_of(s).dom().contains(key) ==> map_of(s)[key] == map_of(s.take(n))[key],
    decreases s.len(),
{
    if n == s.len() {
        assert(s.take(n) =~= s);
    } else {
        assert(s.drop_last().take(n) =~= s.take(n));
        assert forall|j: int| n <= j < s.drop_last().len() implies (
        #[trigger] s.drop_last()[j]).key@ != key by {
            assert(s.drop_last()[j] == s[j]);
        }
        lemma_not_hidden(s.drop_last(), n, key);
        assert(s[s.len() - 1].key@ != key);
    }
}

impl<V> Table<V> {
    /// Makes an empty table.
    pub fn new() -> (r: Table<V>)
        ensures
            r@ == Map::<Seq<char>, V>::empty(),
    {
        Table { entries: Vec::new() }
    }

    /// Gives `key` the value `value`.
    pub fn insert(&mut self, key: String, value: V)
        ensures
            final(self)@ == old(self)@.insert(key@, value),
    {
        let ghost before = self.entries@;
        self.entries.push(Entry { key, value });
        assert(self.entries@.drop_last() =~= before);
    }

    /// The value of `key`, where it has one.
    pub fn get(&self, key: &str) -> (r: Option<&V>)
        ensures
            r == (if self@.dom().contains(key@) {
                Some(&self@[key@])
            } else {
                None
            }),
    {
        let wanted: String = key.to_owned();
        let mut i: usize = self.entries.len();
        while i > 0
            invariant
                i <= self.entries@.len(),
                wanted@ == key@,
                forall|j: int|
                    i <= j < self.entries@.len() ==> (#[trigger] self.entries@[j]).key@ != key@,
            decreases i,
        {
            i = i - 1;
            if self.entries[i].key == wanted {
                proof {
                    let s = self.entries@;
                    lemma_not_hidden(s, i + 1, key@);
                    assert(s.take(i + 1).drop_last() =~= s.take(i as int));
                    assert(s.take(i + 1).last() == s[i as int]);
                }
                return Some(&self.entries[i].value);
            }
        }
        proof {
            lemma_not_hidden(self.entries@, 0, key@);
            assert(self.entries@.take(0) =~= Seq::empty());
        }
        None
    }
}

} // verus!
