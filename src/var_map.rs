use vstd::prelude::*;

verus! {

/// The map that a sequence of distinct names and a sequence of values spell.
pub open spec fn to_map<V>(names: Seq<Seq<char>>, vals: Seq<V>) -> Map<Seq<char>, V>
    decreases names.len(),
{
    if names.len() == 0 {
        Map::empty()
    } else {
        to_map(names.drop_last(), vals.drop_last()).insert(names.last(), vals[names.len() - 1])
    }
}

pub proof fn lemma_to_map_dom<V>(names: Seq<Seq<char>>, vals: Seq<V>)
    ensures
        to_map(names, vals).dom() == names.to_set(),
    decreases names.len(),
{
    if names.len() > 0 {
        lemma_to_map_dom(names.drop_last(), vals.drop_last());
        assert(names.to_set() =~= names.drop_last().to_set().insert(names.last())) by {
            assert forall|x| names.to_set().contains(x) implies names.drop_last().to_set().insert(
                names.last(),
            ).contains(x) by {
                let i = choose|i: int| 0 <= i < names.len() && names[i] == x;
                if i < names.len() - 1 {
                    assert(names.drop_last()[i] == x);
                }
            }
            assert forall|x| names.drop_last().to_set().insert(names.last()).contains(x) implies names.to_set().contains(x) by {
                if x != names.last() {
                    let i = choose|i: int| 0 <= i < names.drop_last().len() && names.drop_last()[i] == x;
                    assert(names[i] == x);
                } else {
                    assert(names[names.len() - 1] == x);
                }
            }
        }
    } else {
        assert(names.to_set() =~= Set::empty());
    }
}

pub proof fn lemma_to_map_index<V>(names: Seq<Seq<char>>, vals: Seq<V>, i: int)
    requires
        names.no_duplicates(),
        names.len() == vals.len(),
        0 <= i < names.len(),
    ensures
        to_map(names, vals).contains_key(names[i]),
        to_map(names, vals)[names[i]] == vals[i],
    decreases names.len(),
{
    lemma_to_map_dom(names, vals);
    if i < names.len() - 1 {
        assert(names.drop_last()[i] == names[i]);
        lemma_to_map_index(names.drop_last(), vals.drop_last(), i);
    }
}

pub proof fn lemma_to_map_update<V>(names: Seq<Seq<char>>, vals: Seq<V>, i: int, v: V)
    requires
        names.no_duplicates(),
        names.len() == vals.len(),
        0 <= i < names.len(),
    ensures
        to_map(names, vals.update(i, v)) == to_map(names, vals).insert(names[i], v),
{
    let a = to_map(names, vals.update(i, v));
    let b = to_map(names, vals).insert(names[i], v);
    lemma_to_map_dom(names, vals.update(i, v));
    lemma_to_map_dom(names, vals);
    assert forall|k| a.contains_key(k) implies b.contains_key(k) && a[k] == b[k] by {
        let j = choose|j: int| 0 <= j < names.len() && names[j] == k;
        lemma_to_map_index(names, vals.update(i, v), j);
        if j != i {
            lemma_to_map_index(names, vals, j);
        }
    }
    assert(a.dom() =~= b.dom());
    assert(a =~= b);
}

pub proof fn lemma_to_map_remove<V>(names: Seq<Seq<char>>, vals: Seq<V>, i: int)
    requires
        names.no_duplicates(),
        names.len() == vals.len(),
        0 <= i < names.len(),
    ensures
        names.remove(i).no_duplicates(),
        to_map(names.remove(i), vals.remove(i)) == to_map(names, vals).remove(names[i]),
{
    let n2 = names.remove(i);
    let v2 = vals.remove(i);
    assert forall|a: int, b: int| 0 <= a < b < n2.len() implies n2[a] != n2[b] by {
        let a0 = if a < i { a } else { a + 1 };
        let b0 = if b < i { b } else { b + 1 };
        assert(n2[a] == names[a0]);
        assert(n2[b] == names[b0]);
    }
    let m1 = to_map(n2, v2);
    let m2 = to_map(names, vals).remove(names[i]);
    lemma_to_map_dom(n2, v2);
    lemma_to_map_dom(names, vals);
    assert forall|k| m1.contains_key(k) implies m2.contains_key(k) && m1[k] == m2[k] by {
        let j = choose|j: int| 0 <= j < n2.len() && n2[j] == k;
        let j0 = if j < i { j } else { j + 1 };
        assert(names[j0] == k);
        lemma_to_map_index(n2, v2, j);
        lemma_to_map_index(names, vals, j0);
    }
    assert forall|k| m2.contains_key(k) implies m1.contains_key(k) by {
        let j0 = choose|j: int| 0 <= j < names.len() && names[j] == k;
        let j = if j0 < i { j0 } else { j0 - 1 };
        assert(n2[j] == k);
    }
    assert(m1.dom() =~= m2.dom());
    assert(m1 =~= m2);
}

/// A map from variable names to values, kept in the order the names came.
///
/// Names are distinct; the order fixes the order in which truth assignments
/// are enumerated.
#[derive(Debug, Clone)]
pub struct VarMap<V> {
    entries: Vec<(String, V)>,
}

impl<V> VarMap<V> {
    /// The names, in order.
    pub closed spec fn names(&self) -> Seq<Seq<char>> {
        self.entries@.map_values(|e: (String, V)| e.0@)
    }

    /// The values, in the order of the names.
    pub closed spec fn vals(&self) -> Seq<V> {
        self.entries@.map_values(|e: (String, V)| e.1)
    }

    pub open spec fn wf(&self) -> bool {
        &&& self.names().no_duplicates()
        &&& self.names().len() == self.vals().len()
    }

    /// The map from each name to its value.
    pub open spec fn map(&self) -> Map<Seq<char>, V> {
        to_map(self.names(), self.vals())
    }

    /// An empty map.
    pub fn new() -> (r: Self)
        ensures
            r.wf(),
            r.names() == Seq::<Seq<char>>::empty(),
            r.vals() == Seq::<V>::empty(),
    {
        let r = VarMap { entries: Vec::new() };
        assert(r.names() =~= Seq::<Seq<char>>::empty());
        assert(r.vals() =~= Seq::<V>::empty());
        r
    }

    /// The number of names.
    pub fn len(&self) -> (r: usize)
        ensures
            r == self.names().len(),
            r == self.vals().len(),
    {
        self.entries.len()
    }

    /// The name at position `i`.
    pub fn name_at(&self, i: usize) -> (r: &String)
        requires
            i < self.names().len(),
        ensures
            r@ == self.names()[i as int],
    {
        &self.entries[i].0
    }

    /// The position of `name`, if it is present.
    pub fn position(&self, name: &str) -> (r: Option<usize>)
        requires
            self.wf(),
        ensures
            match r {
                Some(i) => i < self.names().len() && self.names()[i as int] == name@,
                None => !self.names().contains(name@),
            },
    {
        let key = name.to_owned();
        let mut i: usize = 0;
        while i < self.entries.len()
            invariant
                i <= self.entries.len(),
                key@ == name@,
                forall|j: int| 0 <= j < i ==> self.names()[j] != name@,
            decreases self.entries.len() - i,
        {
            if self.entries[i].0 == key {
                return Some(i);
            }
            i = i + 1;
        }
        None
    }

    /// Whether `name` is present.
    pub fn contains_key(&self, name: &str) -> (r: bool)
        requires
            self.wf(),
        ensures
            r == self.map().contains_key(name@),
    {
        proof {
            lemma_to_map_dom(self.names(), self.vals());
        }
        self.position(name).is_some()
    }
}

impl<V: Copy> VarMap<V> {
    /// The same names, in the same order, with the given values.
    pub fn with_values<W>(&self, vals: &Vec<W>) -> (r: VarMap<W>)
        where W: Copy,
        requires
            vals@.len() == self.names().len(),
        ensures
            r.names() == self.names(),
            r.vals() == vals@,
    {
        let mut entries: Vec<(String, W)> = Vec::new();
        let mut i: usize = 0;
        while i < self.entries.len()
            invariant
                i <= self.entries@.len(),
                vals@.len() == self.entries@.len(),
                entries@.len() == i,
                forall|j: int| 0 <= j < i ==> (#[trigger] entries@[j]).0@ == self.entries@[j].0@,
                forall|j: int| 0 <= j < i ==> (#[trigger] entries@[j]).1 == vals@[j],
            decreases self.entries@.len() - i,
        {
            entries.push((self.entries[i].0.clone(), vals[i]));
            i = i + 1;
        }
        let r = VarMap { entries };
        assert(r.names() =~= self.names());
        assert(r.vals() =~= vals@);
        r
    }

    /// A copy of the map.
    pub fn duplicate(&self) -> (r: VarMap<V>)
        ensures
            r.names() == self.names(),
            r.vals() == self.vals(),
    {
        let mut entries: Vec<(String, V)> = Vec::new();
        let mut i: usize = 0;
        while i < self.entries.len()
            invariant
                i <= self.entries@.len(),
                entries@.len() == i,
                forall|j: int| 0 <= j < i ==> (#[trigger] entries@[j]).0@ == self.entries@[j].0@,
                forall|j: int| 0 <= j < i ==> (#[trigger] entries@[j]).1 == self.entries@[j].1,
            decreases self.entries@.len() - i,
        {
            entries.push((self.entries[i].0.clone(), self.entries[i].1));
            i = i + 1;
        }
        let r = VarMap { entries };
        assert(r.names() =~= self.names());
        assert(r.vals() =~= self.vals());
        r
    }

    /// Removes `name` if it is present.
    pub fn remove(&mut self, name: &str)
        requires
            old(self).wf(),
        ensures
            final(self).wf(),
            final(self).map() == old(self).map().remove(name@),
    {
        match self.position(name) {
            None => {
                proof {
                    lemma_to_map_dom(self.names(), self.vals());
                    assert(self.map().remove(name@) =~= self.map());
                }
            },
            Some(i) => {
                let ghost n0 = self.names();
                let ghost v0 = self.vals();
                self.entries.remove(i);
                proof {
                    assert(self.names() =~= n0.remove(i as int));
                    assert(self.vals() =~= v0.remove(i as int));
                    lemma_to_map_remove(n0, v0, i as int);
                }
            },
        }
    }

    /// The value at position `i`.
    pub fn value_at(&self, i: usize) -> (r: V)
        requires
            i < self.vals().len(),
        ensures
            r == self.vals()[i as int],
    {
        self.entries[i].1
    }

    /// The value of `name`, if it is present.
    pub fn get(&self, name: &str) -> (r: Option<V>)
        requires
            self.wf(),
        ensures
            match r {
                Some(v) => self.map().contains_key(name@) && self.map()[name@] == v,
                None => !self.map().contains_key(name@),
            },
    {
        proof {
            lemma_to_map_dom(self.names(), self.vals());
        }
        match self.position(name) {
            Some(i) => {
                proof {
                    lemma_to_map_index(self.names(), self.vals(), i as int);
                }
                Some(self.entries[i].1)
            },
            None => None,
        }
    }

    /// Gives `name` the value `v`: in place where it is present, at the end otherwise.
    pub fn insert(&mut self, name: String, v: V)
        requires
            old(self).wf(),
        ensures
            final(self).wf(),
            final(self).map() == old(self).map().insert(name@, v),
            old(self).names().contains(name@) ==> final(self).names() == old(self).names(),
            !old(self).names().contains(name@) ==> final(self).names() == old(self).names().push(name@),
            !old(self).names().contains(name@) ==> final(self).vals() == old(self).vals().push(v),
    {
        match self.position(name.as_str()) {
            Some(i) => {
                let ghost old_names = self.names();
                let ghost old_vals = self.vals();
                self.entries.set(i, (name, v));
                proof {
                    assert(self.names() =~= old_names);
                    assert(self.vals() =~= old_vals.update(i as int, v));
                    lemma_to_map_update(old_names, old_vals, i as int, v);
                }
            },
            None => {
                let ghost old_names = self.names();
                let ghost old_vals = self.vals();
                self.entries.push((name, v));
                proof {
                    assert(self.names() =~= old_names.push(name@));
                    assert(self.vals() =~= old_vals.push(v));
                    assert(self.names().drop_last() =~= old_names);
                    assert(self.vals().drop_last() =~= old_vals);
                    assert forall|a: int, b: int|
                        0 <= a < b < self.names().len() implies self.names()[a]
                        != self.names()[b] by {
                        if b == self.names().len() - 1 {
                            assert(old_names.contains(self.names()[a]));
                        }
                    }
                }
            },
        }
    }
}

} // verus!
