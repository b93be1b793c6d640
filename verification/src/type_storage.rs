use vstd::prelude::*;

verus! {

/// Interns type names: every distinct name gets the next free numeric id,
/// and ids can be mapped back to their names.
///
/// The names are kept in a vector indexed by id; a name's id is its index.
pub struct TypeStorage {
    ids: Vec<String>,
}

/// The names, and the id handed out, after interning `name` into `names`: a known name
/// keeps its id, an unknown one is appended and gets the next id.
pub open spec fn interned(names: Seq<Seq<char>>, name: Seq<char>) -> (Seq<Seq<char>>, nat) {
    if names.contains(name) {
        (names, names.index_of(name) as nat)
    } else {
        (names.push(name), names.len())
    }
}

impl TypeStorage {
    /// The interned names, in order of their ids.
    pub closed spec fn names(&self) -> Seq<Seq<char>> {
        self.ids@.map_values(|s: String| s@)
    }

    /// No name is interned twice.
    pub closed spec fn wf(&self) -> bool {
        self.names().no_duplicates()
    }

    pub fn new() -> (s: Self)
        ensures
            s.wf(),
            s.names() == Seq::<Seq<char>>::empty(),
    {
        TypeStorage { ids: Vec::new() }
    }

    /// Looks `name_str` up by a linear scan of the interned names.
    fn find(&self, name_str: &String) -> (r: Option<usize>)
        requires
            self.wf(),
        ensures
            match r {
                Some(i) => i < self.names().len() && self.names()[i as int] == name_str@,
                None => !self.names().contains(name_str@),
            },
    {
        let mut i: usize = 0;
        while i < self.ids.len()
            invariant
                i <= self.ids.len(),
                self.ids@.len() == self.names().len(),
                forall|j: int| 0 <= j < i ==> self.names()[j] != name_str@,
            decreases self.ids.len() - i,
        {
            if self.ids[i] == *name_str {
                return Some(i);
            }
            i += 1;
        }
        None
    }

    /// The id of `name_str`; a name not seen before is appended and gets
    /// the next free id.
    pub fn get_type_id(&mut self, name_str: &str) -> (id: usize)
        requires
            old(self).wf(),
        ensures
            final(self).wf(),
            (final(self).names(), id as nat) == interned(old(self).names(), name_str@),
            id < final(self).names().len(),
            final(self).names()[id as int] == name_str@,
    {
        let name: String = name_str.to_owned();
        match self.find(&name) {
            Some(i) => {
                proof {
                    assert(self.names().contains(name_str@));
                    let j = self.names().index_of(name_str@);
                    assert(self.names()[j] == self.names()[i as int]);
                }
                i
            },
            None => {
                let id = self.ids.len();
                let ghost old_names = self.names();
                self.ids.push(name);
                proof {
                    assert(self.names() =~= old_names.push(name_str@));
                    assert forall|a: int, b: int|
                        0 <= a < self.names().len() && 0 <= b < self.names().len() && a != b
                        implies self.names()[a] != self.names()[b] by {
                        if b == old_names.len() {
                            assert(old_names.contains(old_names[a]));
                        } else if a == old_names.len() {
                            assert(old_names.contains(old_names[b]));
                        }
                    }
                }
                id
            },
        }
    }

    /// The name interned under `type_id`, or `None` if no such id was handed out.
    pub fn get_type_name(&self, type_id: usize) -> (r: Option<&str>)
        ensures
            type_id < self.names().len() ==> (r matches Some(s) && s@ == self.names()[type_id as int]),
            type_id >= self.names().len() ==> r is None,
    {
        if type_id < self.ids.len() {
            Some(self.ids[type_id].as_str())
        } else {
            None
        }
    }
}

/// The id handed out for a name leads back to that name.
pub proof fn lemma_interned_round_trip(names: Seq<Seq<char>>, name: Seq<char>)
    ensures
        interned(names, name).1 < interned(names, name).0.len(),
        interned(names, name).0[interned(names, name).1 as int] == name,
{
    if names.contains(name) {
        assert(names[names.index_of(name)] == name);
    }
}

/// Interning a name a second time changes nothing and hands out the same id.
pub proof fn lemma_interning_idempotent(names: Seq<Seq<char>>, name: Seq<char>)
    ensures
        interned(interned(names, name).0, name) == interned(names, name),
{
    if !names.contains(name) {
        let after = names.push(name);
        assert(after[names.len() as int] == name);
        assert(after.contains(name));
        assert(after.index_of(name) == names.len()) by {
            assert forall|i: int| 0 <= i < names.len() implies after[i] != name by {
                assert(after[i] == names[i]);
            }
        }
    }
}

/// In a well-formed storage, distinct names have distinct ids: interning two different
/// names one after the other hands out two different ids.
pub proof fn lemma_interning_distinct(s: TypeStorage, a: Seq<char>, b: Seq<char>)
    requires
        s.wf(),
        a != b,
    ensures
        interned(s.names(), a).1 != interned(interned(s.names(), a).0, b).1,
{
    let names = s.names();
    let (after_a, id_a) = interned(names, a);
    assert(id_a < after_a.len() && after_a[id_a as int] == a) by {
        if names.contains(a) {
            assert(names[names.index_of(a)] == a);
        }
    }
    let (after_b, id_b) = interned(after_a, b);
    if after_a.contains(b) {
        assert(after_a[after_a.index_of(b)] == b);
    } else {
        assert(id_b == after_a.len());
    }
}

/// The name interned under each id of a well-formed storage is that of no other id.
pub proof fn lemma_ids_name_distinct(s: TypeStorage, i: int, j: int)
    requires
        s.wf(),
        0 <= i < s.names().len(),
        0 <= j < s.names().len(),
        i != j,
    ensures
        s.names()[i] != s.names()[j],
{
}

/// Interning never renumbers: every name interned before keeps its id, and a name not
/// seen before gets the next id, the number of names interned before it.
pub proof fn lemma_interning_keeps_ids(names: Seq<Seq<char>>, name: Seq<char>)
    ensures
        interned(names, name).0.len() >= names.len(),
        interned(names, name).0.subrange(0, names.len() as int) == names,
        !names.contains(name) ==> interned(names, name).1 == names.len(),
        names.no_duplicates() ==> interned(names, name).0.no_duplicates(),
{
    let after = interned(names, name).0;
    assert(after.subrange(0, names.len() as int) =~= names);
    if !names.contains(name) && names.no_duplicates() {
        assert forall|i: int, j: int| 0 <= i < after.len() && 0 <= j < after.len() && i != j implies after[i] != after[j] by {
            if i < names.len() && j < names.len() {
                assert(after[i] == names[i] && after[j] == names[j]);
            } else if i < names.len() {
                assert(after[i] == names[i]);
                assert(names.contains(names[i]));
            } else if j < names.len() {
                assert(after[j] == names[j]);
                assert(names.contains(names[j]));
            }
        }
    }
}

} // verus!
