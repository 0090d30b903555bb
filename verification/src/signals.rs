use vstd::prelude::*;

verus! {

/// The mapping described by two parallel columns of names and values:
/// an entry shadows any earlier entry with the same name, as repeated
/// insertion into a map would.
pub open spec fn column_map(names: Seq<String>, values: Seq<usize>) -> Map<Seq<char>, usize>
    decreases names.len(),
{
    if names.len() == 0 || names.len() != values.len() {
        Map::empty()
    } else {
        column_map(names.drop_last(), values.drop_last()).insert(names.last()@, values.last())
    }
}

/// A table of named signal values, standing in for a name-to-value
/// mapping. Its abstract view is a `Map` from character sequences to
/// values; the entries additionally keep their insertion order, which
/// `name_at`/`value_at` expose.
pub struct SignalStore {
    pub names: Vec<String>,
    pub values: Vec<usize>,
}

impl View for SignalStore {
    type V = Map<Seq<char>, usize>;

    open spec fn view(&self) -> Map<Seq<char>, usize> {
        column_map(self.names@, self.values@)
    }
}

proof fn lemma_column_dom(names: Seq<String>, values: Seq<usize>)
    requires
        names.len() == values.len(),
    ensures
        forall|k: Seq<char>|
            #[trigger] column_map(names, values).contains_key(k) <==> (exists|i: int|
                0 <= i < names.len() && names[i]@ == k),
    decreases names.len(),
{
    if names.len() > 0 {
        lemma_column_dom(names.drop_last(), values.drop_last());
        assert forall|k: Seq<char>| #[trigger]
            column_map(names, values).contains_key(k) implies (exists|i: int|
            0 <= i < names.len() && names[i]@ == k) by {
            if k == names.last()@ {
                assert(names[names.len() - 1]@ == k);
            } else {
                assert(column_map(names.drop_last(), values.drop_last()).contains_key(k));
                let i = choose|i: int|
                    0 <= i < names.drop_last().len() && names.drop_last()[i]@ == k;
                assert(names.drop_last()[i] == names[i]);
                assert(names[i]@ == k);
            }
        }
        assert forall|k: Seq<char>| (exists|i: int|
            0 <= i < names.len() && names[i]@ == k) implies #[trigger] column_map(
            names,
            values,
        ).contains_key(k) by {
            let i = choose|i: int| 0 <= i < names.len() && names[i]@ == k;
            if i < names.len() - 1 {
                assert(names.drop_last()[i] == names[i]);
                assert(names.drop_last()[i]@ == k);
                assert(column_map(names.drop_last(), values.drop_last()).contains_key(k));
            } else {
                assert(k == names.last()@);
            }
        }
    }
}

proof fn lemma_column_get(names: Seq<String>, values: Seq<usize>, i: int)
    requires
        names.len() == values.len(),
        0 <= i < names.len(),
        forall|j: int| i < j < names.len() ==> names[j]@ != names[i]@,
    ensures
        column_map(names, values).contains_key(names[i]@),
        column_map(names, values)[names[i]@] == values[i],
    decreases names.len(),
{
    if i == names.len() - 1 {
    } else {
        assert(names.drop_last()[i] == names[i]);
        lemma_column_get(names.drop_last(), values.drop_last(), i);
    }
}

proof fn lemma_column_update(names: Seq<String>, values: Seq<usize>, i: int, v: usize)
    requires
        names.len() == values.len(),
        0 <= i < names.len(),
        forall|p: int, q: int| 0 <= p < q < names.len() ==> names[p]@ != names[q]@,
    ensures
        column_map(names, values.update(i, v)) == column_map(names, values).insert(names[i]@, v),
    decreases names.len(),
{
    let lhs = column_map(names, values.update(i, v));
    let rhs = column_map(names, values).insert(names[i]@, v);
    if i == names.len() - 1 {
        assert(values.update(i, v).drop_last() =~= values.drop_last());
        assert(lhs =~= rhs);
    } else {
        assert(values.update(i, v).drop_last() =~= values.drop_last().update(i, v));
        assert(names.drop_last()[i] == names[i]);
        lemma_column_update(names.drop_last(), values.drop_last(), i, v);
        assert(names[i]@ != names.last()@);
        assert(lhs =~= rhs);
    }
}

/// One step of walking the columns from front to back: taking one more
/// entry inserts that entry into the mapping taken so far.
proof fn lemma_column_take_step(names: Seq<String>, values: Seq<usize>, i: int)
    requires
        names.len() == values.len(),
        0 <= i < names.len(),
    ensures
        column_map(names.take(i + 1), values.take(i + 1)) == column_map(
            names.take(i),
            values.take(i),
        ).insert(names[i]@, values[i]),
{
    assert(names.take(i + 1).drop_last() =~= names.take(i));
    assert(values.take(i + 1).drop_last() =~= values.take(i));
    assert(names.take(i + 1).last() == names[i]);
    assert(values.take(i + 1).last() == values[i]);
}

impl SignalStore {
    /// Every name has a value and the names are pairwise distinct.
    pub open spec fn wf(&self) -> bool {
        &&& self.names@.len() == self.values@.len()
        &&& forall|i: int, j: int|
            0 <= i < j < self.names@.len() ==> self.names@[i]@ != self.names@[j]@
    }

    pub fn new() -> (s: SignalStore)
        ensures
            s.wf(),
            s@ == Map::<Seq<char>, usize>::empty(),
            s.names@.len() == 0,
    {
        SignalStore { names: Vec::new(), values: Vec::new() }
    }

    /// How many signals the table holds.
    pub fn len(&self) -> (n: usize)
        ensures
            n == self.names@.len(),
    {
        self.names.len()
    }

    pub fn name_at(&self, i: usize) -> (r: &String)
        requires
            i < self.names@.len(),
        ensures
            r == self.names@[i as int],
    {
        &self.names[i]
    }

    pub fn value_at(&self, i: usize) -> (r: usize)
        requires
            self.wf(),
            i < self.names@.len(),
        ensures
            r == self.values@[i as int],
    {
        self.values[i]
    }

    /// The index of a name, if the table holds it.
    fn position(&self, name: &str) -> (r: Option<usize>)
        requires
            self.wf(),
        ensures
            match r {
                Some(i) => i < self.names@.len() && self.names@[i as int]@ == name@,
                None => forall|j: int| 0 <= j < self.names@.len() ==> self.names@[j]@ != name@,
            },
    {
        let key: String = name.to_owned();
        let n = self.names.len();
        let mut i: usize = 0;
        while i < n
            invariant
                n == self.names@.len(),
                i <= n,
                key@ == name@,
                forall|j: int| 0 <= j < i ==> self.names@[j]@ != name@,
            decreases n - i,
        {
            if self.names[i] == key {
                return Some(i);
            }
            i += 1;
        }
        None
    }

    pub fn contains(&self, name: &str) -> (r: bool)
        requires
            self.wf(),
        ensures
            r == self@.contains_key(name@),
    {
        proof {
            lemma_column_dom(self.names@, self.values@);
        }
        match self.position(name) {
            Some(i) => {
                proof {
                    assert(self.names@[i as int]@ == name@);
                }
                true
            },
            None => false,
        }
    }

    /// The value stored under a name, or nothing if the name is unknown.
    pub fn get(&self, name: &str) -> (r: Option<usize>)
        requires
            self.wf(),
        ensures
            self@.contains_key(name@) ==> r == Some(self@[name@]),
            !self@.contains_key(name@) ==> r is None,
    {
        proof {
            lemma_column_dom(self.names@, self.values@);
        }
        match self.position(name) {
            Some(i) => {
                proof {
                    lemma_column_get(self.names@, self.values@, i as int);
                }
                Some(self.values[i])
            },
            None => None,
        }
    }

    /// Stores a value under a name: an existing entry is overwritten, a
    /// fresh name is appended.
    pub fn set(&mut self, name: &str, value: usize)
        requires
            old(self).wf(),
        ensures
            final(self).wf(),
            final(self)@ == old(self)@.insert(name@, value),
            final(self).names@.len() >= old(self).names@.len(),
    {
        match self.position(name) {
            Some(i) => {
                proof {
                    lemma_column_update(self.names@, self.values@, i as int, value);
                }
                self.values.set(i, value);
            },
            None => {
                self.names.push(name.to_owned());
                self.values.push(value);
                proof {
                    assert(self.names@.drop_last() =~= old(self).names@);
                    assert(self.values@.drop_last() =~= old(self).values@);
                }
            },
        }
    }

    /// Writes every entry of this table into `acc`, in order, so that
    /// afterwards `acc` is the union of the two mappings, preferring this
    /// table's values on shared names.
    pub fn extend_into(&self, acc: &mut SignalStore)
        requires
            self.wf(),
            old(acc).wf(),
        ensures
            final(acc).wf(),
            final(acc)@ == old(acc)@.union_prefer_right(self@),
    {
        let n = self.names.len();
        let mut i: usize = 0;
        proof {
            assert(self.names@.take(0) =~= Seq::<String>::empty());
            assert(self.values@.take(0) =~= Seq::<usize>::empty());
            assert(old(acc)@.union_prefer_right(Map::empty()) =~= old(acc)@);
        }
        while i < n
            invariant
                self.wf(),
                acc.wf(),
                n == self.names@.len(),
                i <= n,
                acc@ == old(acc)@.union_prefer_right(
                    column_map(self.names@.take(i as int), self.values@.take(i as int)),
                ),
            decreases n - i,
        {
            let ghost pre = acc@;
            acc.set(&self.names[i], self.values[i]);
            proof {
                lemma_column_take_step(self.names@, self.values@, i as int);
                vstd::map_lib::lemma_union_insert_right(
                    old(acc)@,
                    column_map(self.names@.take(i as int), self.values@.take(i as int)),
                    self.names@[i as int]@,
                    self.values@[i as int],
                );
            }
            i += 1;
        }
        proof {
            assert(self.names@.take(n as int) =~= self.names@);
            assert(self.values@.take(n as int) =~= self.values@);
        }
    }
}

} // verus!
