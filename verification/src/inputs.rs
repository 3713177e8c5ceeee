//! Externally supplied inputs: the active define set and the import table.
//!
//! Each is replaced wholesale by the input store; neither is mutated in
//! place by queries.

use crate::util_types::str_eq;
use vstd::prelude::*;

verus! {

/// Set of active shader defines. Only membership is ever consulted, never an
/// enumeration order, so the abstraction is a mathematical set of names.
pub struct DefineSet {
    names: Vec<String>,
}

impl View for DefineSet {
    type V = Set<Seq<char>>;

    closed spec fn view(&self) -> Set<Seq<char>> {
        Set::new(
            |n: Seq<char>|
                exists|i: int| 0 <= i < self.names@.len() && #[trigger] self.names@[i]@ == n,
        )
    }
}

impl DefineSet {
    pub fn new() -> (r: Self)
        ensures
            r@ == Set::<Seq<char>>::empty(),
    {
        let r = DefineSet { names: Vec::new() };
        proof {
            assert(r@ =~= Set::<Seq<char>>::empty());
        }
        r
    }

    /// Activate one define. Activating a name twice is the same as once.
    pub fn insert(&mut self, name: String)
        ensures
            final(self)@ == old(self)@.insert(name@),
    {
        let ghost pre = self@;
        let ghost n = name@;
        self.names.push(name);
        proof {
            assert forall|x: Seq<char>| self@.contains(x) implies pre.insert(n).contains(
                x,
            ) by {
                let i = choose|i: int|
                    0 <= i < self.names@.len() && #[trigger] self.names@[i]@ == x;
                if i < self.names@.len() - 1 {
                    assert(old(self).names@[i]@ == x);
                }
            }
            assert forall|x: Seq<char>| pre.insert(n).contains(x) implies self@.contains(
                x,
            ) by {
                if pre.contains(x) {
                    let i = choose|i: int|
                        0 <= i < old(self).names@.len() && #[trigger] old(self).names@[i]@ == x;
                    assert(self.names@[i]@ == x);
                } else {
                    assert(self.names@[self.names@.len() - 1]@ == x);
                }
            }
            assert(self@ =~= pre.insert(n));
        }
    }

    /// Membership test: is `name` an active define?
    pub fn contains(&self, name: &str) -> (r: bool)
        ensures
            r == self@.contains(name@),
    {
        let mut i: usize = 0;
        while i < self.names.len()
            invariant
                i <= self.names@.len(),
                forall|m: int| 0 <= m < i ==> #[trigger] self.names@[m]@ != name@,
            decreases self.names@.len() - i,
        {
            if str_eq(self.names[i].as_str(), name) {
                proof {
                    assert(self.names@[i as int]@ == name@);
                }
                return true;
            }
            i += 1;
        }
        proof {
            assert(!self@.contains(name@));
        }
        false
    }
}

/// First-match association of import keys to substitute text: the map that a
/// sequence of `(key, value)` entries denotes, earlier entries shadowing
/// later ones.
pub open spec fn table_map(s: Seq<(Seq<char>, Seq<char>)>) -> Map<Seq<char>, Seq<char>>
    decreases s.len(),
{
    if s.len() == 0 {
        Map::empty()
    } else {
        table_map(s.drop_first()).insert(s[0].0, s[0].1)
    }
}

/// Table of named imports: import key to substitute source text.
pub struct ImportTable {
    entries: Vec<(String, String)>,
}

impl ImportTable {
    /// The entry sequence, abstracted to text values.
    pub closed spec fn entry_views(&self) -> Seq<(Seq<char>, Seq<char>)> {
        Seq::new(self.entries@.len(), |i: int| (self.entries@[i].0@, self.entries@[i].1@))
    }
}

impl View for ImportTable {
    type V = Map<Seq<char>, Seq<char>>;

    closed spec fn view(&self) -> Map<Seq<char>, Seq<char>> {
        table_map(self.entry_views())
    }
}

proof fn lemma_table_map_first(s: Seq<(Seq<char>, Seq<char>)>, k: Seq<char>, j: int)
    requires
        0 <= j < s.len(),
        s[j].0 == k,
        forall|m: int| 0 <= m < j ==> (#[trigger] s[m]).0 != k,
    ensures
        table_map(s).contains_key(k),
        table_map(s)[k] == s[j].1,
    decreases s.len(),
{
    if j == 0 {
    } else {
        assert forall|m: int| 0 <= m < j - 1 implies (#[trigger] s.drop_first()[m]).0 != k by {
            assert(s.drop_first()[m] == s[m + 1]);
        }
        assert(s.drop_first()[j - 1] == s[j]);
        lemma_table_map_first(s.drop_first(), k, j - 1);
        assert(s[0].0 != k);
    }
}

proof fn lemma_table_map_absent(s: Seq<(Seq<char>, Seq<char>)>, k: Seq<char>)
    requires
        forall|m: int| 0 <= m < s.len() ==> (#[trigger] s[m]).0 != k,
    ensures
        !table_map(s).contains_key(k),
    decreases s.len(),
{
    if s.len() > 0 {
        assert forall|m: int| 0 <= m < s.drop_first().len() implies (#[trigger] s.drop_first()[m]).0
            != k by {
            assert(s.drop_first()[m] == s[m + 1]);
        }
        lemma_table_map_absent(s.drop_first(), k);
    }
}

impl ImportTable {
    pub fn new() -> (r: Self)
        ensures
            r@ == Map::<Seq<char>, Seq<char>>::empty(),
    {
        let r = ImportTable { entries: Vec::new() };
        proof {
            assert(r.entry_views() =~= Seq::<(Seq<char>, Seq<char>)>::empty());
        }
        r
    }

    /// Bind `key` to `value`, replacing any earlier binding of the same key.
    pub fn insert(&mut self, key: String, value: String)
        ensures
            final(self)@ == old(self)@.insert(key@, value@),
    {
        let ghost k = key@;
        let ghost v = value@;
        self.entries.insert(0, (key, value));
        proof {
            assert(self.entry_views().drop_first() =~= old(self).entry_views());
            assert(self.entry_views()[0] == (k, v));
            assert(self@ == table_map(self.entry_views().drop_first()).insert(k, v));
        }
    }

    /// Look the key up; `None` exactly when the key is absent.
    pub fn get(&self, key: &str) -> (r: Option<&String>)
        ensures
            match r {
                Some(v) => self@.contains_key(key@) && v@ == self@[key@],
                None => !self@.contains_key(key@),
            },
    {
        let mut i: usize = 0;
        while i < self.entries.len()
            invariant
                i <= self.entries@.len(),
                forall|m: int| 0 <= m < i ==> (#[trigger] self.entry_views()[m]).0 != key@,
            decreases self.entries@.len() - i,
        {
            if str_eq(self.entries[i].0.as_str(), key) {
                proof {
                    assert(self.entry_views()[i as int].0 == key@);
                    lemma_table_map_first(self.entry_views(), key@, i as int);
                }
                return Some(&self.entries[i].1);
            }
            proof {
                assert(self.entry_views()[i as int].0 != key@);
            }
            i += 1;
        }
        proof {
            lemma_table_map_absent(self.entry_views(), key@);
        }
        None
    }

    /// Membership test for an import key.
    pub fn contains_key(&self, key: &str) -> (r: bool)
        ensures
            r == self@.contains_key(key@),
    {
        match self.get(key) {
            Some(_) => true,
            None => false,
        }
    }
}

} // verus!
