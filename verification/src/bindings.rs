//! The table of variable bindings: one flat namespace from names to values.

use vstd::prelude::*;

verus! {

/// A table that binds names to values, both text. A name is bound at most
/// once: binding it again overwrites its value.
#[derive(Debug)]
pub struct Bindings {
    entries: Vec<(String, String)>,
}

/// The table that a list of bindings amounts to, a later binding of a name
/// overwriting an earlier one.
pub open spec fn table_of(entries: Seq<(String, String)>) -> Map<Seq<char>, Seq<char>>
    decreases entries.len(),
{
    if entries.len() == 0 {
        Map::empty()
    } else {
        table_of(entries.drop_last()).insert(entries.last().0@, entries.last().1@)
    }
}

/// Whether no name occurs twice in a list of bindings.
pub open spec fn distinct_names(entries: Seq<(String, String)>) -> bool {
    forall|i: int, j: int|
        0 <= i < j < entries.len() ==> (#[trigger] entries[i]).0@ != (#[trigger] entries[j]).0@
}

/// Whether a list of bindings binds `name`.
pub open spec fn binds(entries: Seq<(String, String)>, name: Seq<char>) -> bool {
    exists|i: int| 0 <= i < entries.len() && (#[trigger] entries[i]).0@ == name
}

/// The table of a list binds exactly the names in the list, and where no name
/// occurs twice, each to the value beside it.
pub proof fn lemma_table_of(entries: Seq<(String, String)>)
    ensures
        forall|name: Seq<char>|
            #![trigger table_of(entries).dom().contains(name)]
            #![trigger binds(entries, name)]
            table_of(entries).dom().contains(name) <==> binds(entries, name),
        distinct_names(entries) ==> forall|i: int|
            0 <= i < entries.len() ==> table_of(entries)[(#[trigger] entries[i]).0@]
                == entries[i].1@,
    decreases entries.len(),
{
    if entries.len() > 0 {
        let before = entries.drop_last();
        let last = entries.last();
        lemma_table_of(before);
        assert forall|name: Seq<char>|
            #![trigger table_of(entries).dom().contains(name)]
            #![trigger binds(entries, name)]
            table_of(entries).dom().contains(name) <==> binds(entries, name) by {
            if binds(entries, name) {
                let i = choose|i: int| 0 <= i < entries.len() && (#[trigger] entries[i]).0@ == name;
                if i < before.len() {
                    assert(before[i] == entries[i]);
                    assert(binds(before, name));
                    assert(table_of(before).dom().contains(name));
                }
            }
            if table_of(entries).dom().contains(name) {
                if name == last.0@ {
                    assert(entries[entries.len() - 1].0@ == name);
                } else {
                    assert(table_of(before).dom().contains(name));
                    assert(binds(before, name));
                    let i = choose|i: int| 0 <= i < before.len() && (#[trigger] before[i]).0@ == name;
                    assert(entries[i] == before[i]);
                }
            }
        }
        if distinct_names(entries) {
            assert forall|i: int, j: int| 0 <= i < j < before.len() implies (#[trigger] before[i]).0@
                != (#[trigger] before[j]).0@ by {
                assert(before[i] == entries[i]);
                assert(before[j] == entries[j]);
            }
            assert forall|i: int| 0 <= i < entries.len() implies table_of(entries)[(
            #[trigger] entries[i]).0@] == entries[i].1@ by {
                if i < before.len() {
                    assert(before[i] == entries[i]);
                    assert(entries[i].0@ != entries[entries.len() - 1].0@);
                }
            }
        }
    }
}

impl View for Bindings {
    type V = Map<Seq<char>, Seq<char>>;

    /// The table as a map from each bound name to its value.
    closed spec fn view(&self) -> Map<Seq<char>, Seq<char>> {
        table_of(self.entries@)
    }
}

impl Bindings {
    /// Whether the table is well formed: it holds no name twice. Every table
    /// that this module hands out is.
    pub closed spec fn wf(&self) -> bool {
        distinct_names(self.entries@)
    }

    /// The empty table.
    pub fn new() -> (r: Bindings)
        ensures
            r.wf(),
            r@ == Map::<Seq<char>, Seq<char>>::empty(),
    {
        Bindings { entries: Vec::new() }
    }

    /// Where `name` stands in the list, if it is bound.
    fn position(&self, name: &String) -> (r: Option<usize>)
        ensures
            match r {
                Some(i) => i < self.entries@.len() && self.entries@[i as int].0@ == name@,
                None => !binds(self.entries@, name@),
            },
    {
        let mut i: usize = 0;
        while i < self.entries.len()
            invariant
                i <= self.entries@.len(),
                forall|k: int| 0 <= k < i ==> (#[trigger] self.entries@[k]).0@ != name@,
            decreases self.entries@.len() - i,
        {
            if self.entries[i].0 == *name {
                return Some(i);
            }
            i = i + 1;
        }
        None
    }

    /// The value bound to `name`, if any.
    pub fn get(&self, name: &String) -> (r: Option<&String>)
        requires
            self.wf(),
        ensures
            match r {
                Some(value) => self@.dom().contains(name@) && value@ == self@[name@],
                None => !self@.dom().contains(name@),
            },
    {
        proof {
            lemma_table_of(self.entries@);
        }
        match self.position(name) {
            Some(i) => Some(&self.entries[i].1),
            None => None,
        }
    }

    /// Binds `name` to `value`, overwriting what was bound to it.
    pub fn insert(&mut self, name: String, value: String)
        requires
            old(self).wf(),
        ensures
            final(self).wf(),
            final(self)@ == old(self)@.insert(name@, value@),
    {
        proof {
            lemma_table_of(self.entries@);
        }
        let ghost before = self.entries@;
        match self.position(&name) {
            Some(i) => {
                self.entries.set(i, (name, value));
                proof {
                    let after = self.entries@;
                    assert forall|a: int, b: int| 0 <= a < b < after.len() implies (
                    #[trigger] after[a]).0@ != (#[trigger] after[b]).0@ by {
                        assert(after[a].0@ == before[a].0@);
                        assert(after[b].0@ == before[b].0@);
                    }
                    lemma_table_of(after);
                    assert forall|k: Seq<char>| binds(after, k) == binds(before, k) by {
                        if binds(after, k) {
                            let a = choose|a: int|
                                0 <= a < after.len() && (#[trigger] after[a]).0@ == k;
                            assert(before[a].0@ == k);
                        }
                        if binds(before, k) {
                            let a = choose|a: int|
                                0 <= a < before.len() && (#[trigger] before[a]).0@ == k;
                            assert(after[a].0@ == k);
                        }
                    }
                    assert(binds(before, name@));
                    assert forall|k: Seq<char>| #[trigger]
                        table_of(after).dom().contains(k) implies table_of(after)[k]
                        == table_of(before).insert(name@, value@)[k] by {
                        assert(binds(after, k));
                        let a = choose|a: int|
                            0 <= a < after.len() && (#[trigger] after[a]).0@ == k;
                        if a != i {
                            assert(after[a] == before[a]);
                        }
                    }
                    assert(table_of(after) =~= table_of(before).insert(name@, value@));
                }
            },
            None => {
                self.entries.push((name, value));
                proof {
                    let after = self.entries@;
                    assert(after.drop_last() =~= before);
                    assert forall|a: int, b: int| 0 <= a < b < after.len() implies (
                    #[trigger] after[a]).0@ != (#[trigger] after[b]).0@ by {
                        assert(after[a] == before[a]);
                        if b < before.len() {
                            assert(after[b] == before[b]);
                        }
                    }
                }
            },
        }
    }

    /// Binds in this table every name that `other` binds, to the value it has
    /// there. What this table alone binds stays.
    pub fn merge(&mut self, other: &Bindings)
        requires
            old(self).wf(),
        ensures
            final(self).wf(),
            final(self)@ == old(self)@.union_prefer_right(other@),
    {
        let ghost start = self@;
        let mut i: usize = 0;
        assert(start.union_prefer_right(table_of(other.entries@.take(0))) =~= start);
        while i < other.entries.len()
            invariant
                i <= other.entries@.len(),
                self.wf(),
                self@ == start.union_prefer_right(table_of(other.entries@.take(i as int))),
            decreases other.entries@.len() - i,
        {
            let name = other.entries[i].0.clone();
            let value = other.entries[i].1.clone();
            proof {
                let taken = other.entries@.take(i + 1);
                assert(taken.drop_last() =~= other.entries@.take(i as int));
                assert(taken.last() == other.entries@[i as int]);
                assert(start.union_prefer_right(table_of(taken)) =~= start.union_prefer_right(
                    table_of(taken.drop_last()),
                ).insert(name@, value@));
            }
            self.insert(name, value);
            i = i + 1;
        }
        assert(other.entries@.take(i as int) =~= other.entries@);
    }

    /// A table with the same bindings.
    pub fn duplicate(&self) -> (r: Bindings)
        ensures
            r.wf(),
            r@ == self@,
    {
        let mut r = Bindings::new();
        r.merge(self);
        assert(r@ =~= self@);
        r
    }

    /// Every binding of the table, once, as a name and its value.
    pub fn to_vec(&self) -> (r: Vec<(String, String)>)
        requires
            self.wf(),
        ensures
            distinct_names(r@),
            table_of(r@) == self@,
    {
        let mut r: Vec<(String, String)> = Vec::new();
        let mut i: usize = 0;
        while i < self.entries.len()
            invariant
                i <= self.entries@.len(),
                r@.len() == i,
                forall|k: int|
                    0 <= k < i ==> (#[trigger] r@[k]).0@ == self.entries@[k].0@ && r@[k].1@
                        == self.entries@[k].1@,
            decreases self.entries@.len() - i,
        {
            r.push((self.entries[i].0.clone(), self.entries[i].1.clone()));
            i = i + 1;
        }
        proof {
            lemma_table_of_same(r@, self.entries@);
        }
        r
    }
}

/// Two lists with the same names and values, place by place, amount to the
/// same table.
proof fn lemma_table_of_same(a: Seq<(String, String)>, b: Seq<(String, String)>)
    requires
        a.len() == b.len(),
        forall|k: int|
            0 <= k < a.len() ==> (#[trigger] a[k]).0@ == b[k].0@ && a[k].1@ == b[k].1@,
    ensures
        table_of(a) == table_of(b),
        distinct_names(b) ==> distinct_names(a),
    decreases a.len(),
{
    if a.len() > 0 {
        assert forall|k: int| 0 <= k < a.drop_last().len() implies (#[trigger] a.drop_last()[k]).0@
            == b.drop_last()[k].0@ && a.drop_last()[k].1@ == b.drop_last()[k].1@ by {
            assert(a.drop_last()[k] == a[k]);
        }
        lemma_table_of_same(a.drop_last(), b.drop_last());
        assert(a[a.len() - 1].0@ == b[a.len() - 1].0@);
    }
    if distinct_names(b) {
        assert forall|i: int, j: int| 0 <= i < j < a.len() implies (#[trigger] a[i]).0@ != (
        #[trigger] a[j]).0@ by {
            assert(b[i].0@ != b[j].0@);
        }
    }
}

} // verus!
