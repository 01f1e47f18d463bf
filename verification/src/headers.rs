//! A map from header names to header values: the last value inserted under a
//! name is the one that the name gives.
use vstd::prelude::*;

verus! {

/// Header names and their values, in the order of insertion.
#[derive(Debug)]
pub struct HeaderMap {
    entries: Vec<(String, String)>,
}

/// The map that a list of insertions builds: later entries replace earlier
/// ones under the same name.
pub open spec fn map_of(e: Seq<(String, String)>) -> Map<Seq<char>, Seq<char>>
    decreases e.len(),
{
    if e.len() == 0 {
        Map::empty()
    } else {
        map_of(e.drop_last()).insert(e.last().0@, e.last().1@)
    }
}

proof fn lemma_map_of_tail(e: Seq<(String, String)>, i: int, k: Seq<char>)
    requires
        0 <= i <= e.len(),
        forall|j: int| i <= j < e.len() ==> (#[trigger] e[j]).0@ != k,
    ensures
        map_of(e).contains_key(k) == map_of(e.take(i)).contains_key(k),
        map_of(e).contains_key(k) ==> map_of(e)[k] == map_of(e.take(i))[k],
    decreases e.len() - i,
{
    if i < e.len() {
        assert(e.drop_last().take(i) =~= e.take(i));
        assert forall|j: int| i <= j < e.drop_last().len() implies (
        #[trigger] e.drop_last()[j]).0@ != k by {
            assert(e.drop_last()[j] == e[j]);
        }
        lemma_map_of_tail(e.drop_last(), i, k);
        assert(e.last() == e[e.len() - 1]);
    } else {
        assert(e.take(i) =~= e);
    }
}

impl View for HeaderMap {
    type V = Map<Seq<char>, Seq<char>>;

    closed spec fn view(&self) -> Map<Seq<char>, Seq<char>> {
        map_of(self.entries@)
    }
}

impl HeaderMap {
    /// A map with no headers.
    pub fn new() -> (m: HeaderMap)
        ensures
            m@ == Map::<Seq<char>, Seq<char>>::empty(),
    {
        HeaderMap { entries: Vec::new() }
    }

    /// Sets the value of the header `name` to `value`.
    pub fn insert(&mut self, name: String, value: String)
        ensures
            final(self)@ == old(self)@.insert(name@, value@),
    {
        let ghost before = self.entries@;
        self.entries.push((name, value));
        assert(self.entries@.drop_last() =~= before);
    }

    /// The value of the header `name`, if the map holds one.
    pub fn get(&self, name: &str) -> (r: Option<&String>)
        ensures
            r matches Some(v) ==> self@.contains_key(name@) && self@[name@] == v@,
            r is None ==> !self@.contains_key(name@),
    {
        let key = String::from_str(name);
        let mut i = self.entries.len();
        while i > 0
            invariant
                i <= self.entries@.len(),
                key@ == name@,
                forall|j: int| i <= j < self.entries@.len() ==> (#[trigger] self.entries@[j]).0@
                    != name@,
            decreases i,
        {
            if self.entries[i - 1].0 == key {
                proof {
                    let e = self.entries@;
                    lemma_map_of_tail(e, i as int, name@);
                    let t = e.take(i as int);
                    assert(t.last() == e[i - 1]);
                }
                return Some(&self.entries[i - 1].1);
            }
            i = i - 1;
        }
        proof {
            lemma_map_of_tail(self.entries@, 0, name@);
            assert(self.entries@.take(0).len() == 0);
        }
        None
    }
}

/// A value read back under the name it was just inserted under is the value
/// inserted; every other name keeps what it gave before.
pub proof fn law_insert_then_get(m: HeaderMap, k: Seq<char>, v: Seq<char>, other: Seq<char>)
    requires
        other != k,
    ensures
        m@.insert(k, v).contains_key(k),
        m@.insert(k, v)[k] == v,
        m@.insert(k, v).contains_key(other) == m@.contains_key(other),
        m@.contains_key(other) ==> m@.insert(k, v)[other] == m@[other],
{
}

} // verus!
