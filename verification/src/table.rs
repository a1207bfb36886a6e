//! The name table: a mapping from identifier text to stored values, modelled
//! as a `Map<Seq<char>, Val>`.  Store overwrites, Load reads; the table is
//! created empty and lives for the whole run.  It is kept as an association
//! list with pairwise distinct keys.

use vstd::prelude::*;
use crate::value::V;
use crate::value::Val;

verus! {

pub struct NameTable {
    entries: Vec<(String, V)>,
}

/// The map described by an association list, later entries winning.
pub open spec fn table_model(s: Seq<(String, V)>) -> Map<Seq<char>, Val>
    decreases s,
{
    if s.len() == 0 {
        Map::empty()
    } else {
        table_model(s.drop_last()).insert(s.last().0@, s.last().1.model())
    }
}

impl View for NameTable {
    type V = Map<Seq<char>, Val>;

    closed spec fn view(&self) -> Map<Seq<char>, Val> {
        table_model(self.entries@)
    }
}

/// Pairwise distinct keys.
pub open spec fn keys_distinct(s: Seq<(String, V)>) -> bool {
    forall|i: int, j: int| 0 <= i < j < s.len() ==> (#[trigger] s[i]).0@ != (#[trigger] s[j]).0@
}

/// What `table_model` holds of a distinct-keyed list: its domain is the set
/// of key texts, and each key maps to its entry's value.
proof fn lemma_table_model_entries(s: Seq<(String, V)>)
    requires
        keys_distinct(s),
    ensures
        forall|k: Seq<char>|
            #[trigger] table_model(s).contains_key(k) <==> exists|i: int|
                0 <= i < s.len() && (#[trigger] s[i]).0@ == k,
        forall|i: int|
            0 <= i < s.len() ==> table_model(s).contains_key((#[trigger] s[i]).0@)
                && table_model(s)[s[i].0@] == s[i].1.model(),
    decreases s,
{
    if s.len() > 0 {
        let t = s.drop_last();
        assert(keys_distinct(t));
        lemma_table_model_entries(t);
        assert forall|i: int| 0 <= i < s.len() implies table_model(s).contains_key(
            (#[trigger] s[i]).0@,
        ) && table_model(s)[s[i].0@] == s[i].1.model() by {
            if i < s.len() - 1 {
                assert(t[i] == s[i]);
                assert(s[i].0@ != s.last().0@);
            }
        }
        assert forall|k: Seq<char>| #[trigger] table_model(s).contains_key(k) implies exists|i: int|
            0 <= i < s.len() && (#[trigger] s[i]).0@ == k by {
            if k != s.last().0@ {
                let i = choose|i: int| 0 <= i < t.len() && (#[trigger] t[i]).0@ == k;
                assert(s[i].0@ == k);
            } else {
                assert(s[s.len() - 1].0@ == k);
            }
        }
    }
}

/// Replacing the one entry that carries `name` rewrites the described map
/// with `insert`.
proof fn lemma_insert_overwrite(s0: Seq<(String, V)>, s1: Seq<(String, V)>, i: int, name: String, v: V)
    requires
        keys_distinct(s0),
        0 <= i < s0.len(),
        s1 == s0.update(i, (name, v)),
        s0[i].0@ == name@,
    ensures
        keys_distinct(s1),
        table_model(s1) == table_model(s0).insert(name@, v.model()),
{
    assert(s1.len() == s0.len());
    assert(forall|j: int| 0 <= j < s1.len() ==> (#[trigger] s1[j]).0@ == s0[j].0@);
    assert(keys_distinct(s1));
    lemma_table_model_entries(s0);
    lemma_table_model_entries(s1);
    let goal = table_model(s0).insert(name@, v.model());
    assert forall|k: Seq<char>| #[trigger] table_model(s1).contains_key(k) implies
        goal.contains_key(k) by {
        if k != name@ {
            let j = choose|j: int| 0 <= j < s1.len() && (#[trigger] s1[j]).0@ == k;
            assert(s0[j].0@ == k);
        }
    }
    assert forall|k: Seq<char>| #[trigger] goal.contains_key(k) implies
        table_model(s1).contains_key(k) by {
        if k == name@ {
            assert(s1[i].0@ == k);
        } else {
            let j = choose|j: int| 0 <= j < s0.len() && (#[trigger] s0[j]).0@ == k;
            assert(s1[j].0@ == k);
        }
    }
    assert forall|k: Seq<char>| #[trigger] table_model(s1).contains_key(k) implies table_model(
        s1,
    )[k] == goal[k] by {
        if k == name@ {
            assert(s1[i] == (name, v));
            assert(table_model(s1)[s1[i].0@] == s1[i].1.model());
        } else {
            let j = choose|j: int| 0 <= j < s1.len() && (#[trigger] s1[j]).0@ == k;
            assert(s1[j] == s0[j]) by {
                if j == i {
                    assert(s1[j].0@ == name@);
                }
            }
            assert(table_model(s1)[s1[j].0@] == s1[j].1.model());
            assert(table_model(s0)[s0[j].0@] == s0[j].1.model());
        }
    }
    assert(table_model(s1) =~= goal);
}

impl NameTable {
    /// Distinct keys; every operation preserves this.
    pub closed spec fn wf(&self) -> bool {
        keys_distinct(self.entries@)
    }

    /// An empty table.
    pub fn new() -> (t: NameTable)
        ensures
            t.wf(),
            t@ == Map::<Seq<char>, Val>::empty(),
    {
        NameTable { entries: Vec::new() }
    }

    /// Looks a name up; `Some` exactly when the name is bound.
    pub fn get(&self, name: &String) -> (r: Option<&V>)
        requires
            self.wf(),
        ensures
            match r {
                Some(v) => self@.contains_key(name@) && v.model() == self@[name@],
                None => !self@.contains_key(name@),
            },
    {
        proof {
            lemma_table_model_entries(self.entries@);
        }
        let n = self.entries.len();
        let mut i: usize = 0;
        while i < n
            invariant
                n == self.entries@.len(),
                i <= n,
                self.wf(),
                forall|j: int| 0 <= j < i ==> (#[trigger] self.entries@[j]).0@ != name@,
                forall|k: int|
                    0 <= k < n ==> table_model(self.entries@).contains_key(
                        (#[trigger] self.entries@[k]).0@,
                    ) && table_model(self.entries@)[self.entries@[k].0@]
                        == self.entries@[k].1.model(),
                forall|k: Seq<char>|
                    #[trigger] table_model(self.entries@).contains_key(k) <==> exists|j: int|
                        0 <= j < n && (#[trigger] self.entries@[j]).0@ == k,
            decreases n - i,
        {
            if self.entries[i].0.eq(name) {
                return Some(&self.entries[i].1);
            }
            i = i + 1;
        }
        None
    }

    /// Binds `name` to `v`, overwriting any earlier binding.
    pub fn insert(&mut self, name: String, v: V)
        requires
            old(self).wf(),
        ensures
            final(self).wf(),
            final(self)@ == old(self)@.insert(name@, v@),
    {
        let ghost s0 = self.entries@;
        let n = self.entries.len();
        let mut i: usize = 0;
        while i < n
            invariant
                n == self.entries@.len(),
                i <= n,
                self.entries@ == s0,
                old(self).entries@ == s0,
                keys_distinct(s0),
                forall|j: int| 0 <= j < i ==> (#[trigger] self.entries@[j]).0@ != name@,
            decreases n - i,
        {
            if self.entries[i].0.eq(&name) {
                self.entries.set(i, (name, v));
                proof {
                    lemma_insert_overwrite(s0, self.entries@, i as int, name, v);
                }
                return ;
            }
            i = i + 1;
        }
        self.entries.push((name, v));
        proof {
            let s1 = self.entries@;
            assert(s1.drop_last() =~= s0);
            assert(s1.last() == (name, v));
            assert(keys_distinct(s1)) by {
                assert forall|a: int, b: int| 0 <= a < b < s1.len() implies (
                #[trigger] s1[a]).0@ != (#[trigger] s1[b]).0@ by {
                    if b < s1.len() - 1 {
                        assert(s0[a].0@ != s0[b].0@);
                    } else {
                        assert(s1[a] == s0[a]);
                    }
                }
            }
        }
    }
}

} // verus!
