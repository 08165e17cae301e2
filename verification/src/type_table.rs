use vstd::prelude::*;

verus! {

/// The position of `name` in `names`, if it occurs there.
pub open spec fn position_of(names: Seq<Seq<char>>, name: Seq<char>) -> Option<int> {
    if exists|i: int| 0 <= i < names.len() && names[i] == name {
        Some(choose|i: int| 0 <= i < names.len() && names[i] == name)
    } else {
        None
    }
}

/// No name occurs twice.
pub open spec fn distinct_names(names: Seq<Seq<char>>) -> bool {
    forall|i: int, j: int| 0 <= i < names.len() && 0 <= j < names.len() && i != j ==> names[i] != names[j]
}

/// In a sequence without repeats, the position of an entry is its index.
pub proof fn lemma_position_of_entry(names: Seq<Seq<char>>, i: int)
    requires
        distinct_names(names),
        0 <= i < names.len(),
    ensures
        position_of(names, names[i]) == Some(i),
{
    let j = choose|j: int| 0 <= j < names.len() && names[j] == names[i];
    assert(names[j] == names[i]);
}

/// The type names of a graph: each name stands once, and its position is
/// the type's identifier.
#[derive(Debug)]
pub struct TypeTable {
    names: Vec<String>,
}

impl View for TypeTable {
    type V = Seq<Seq<char>>;

    closed spec fn view(&self) -> Seq<Seq<char>> {
        self.names@.map_values(|s: String| s@)
    }
}

impl TypeTable {
    /// Well-formed: no name stands twice.
    pub open spec fn wf(&self) -> bool {
        distinct_names(self@)
    }

    /// A table with no types.
    pub fn new() -> (t: TypeTable)
        ensures
            t@ == Seq::<Seq<char>>::empty(),
            t.wf(),
    {
        let t = TypeTable { names: Vec::new() };
        assert(t@ =~= Seq::<Seq<char>>::empty());
        t
    }

    /// A table holding `names`, in order; no name may stand twice.
    pub fn from_names(names: &Vec<String>) -> (t: TypeTable)
        requires
            distinct_names(names@.map_values(|s: String| s@)),
        ensures
            t.wf(),
            t@ == names@.map_values(|s: String| s@),
    {
        let mut v: Vec<String> = Vec::new();
        let mut i: usize = 0;
        while i < names.len()
            invariant
                i <= names.len(),
                v@.map_values(|s: String| s@) == names@.map_values(|s: String| s@).take(i as int),
            decreases names.len() - i,
        {
            let ghost before = v@;
            v.push(names[i].clone());
            assert(v@.map_values(|s: String| s@) =~= before.map_values(|s: String| s@).push(names@[i as int]@));
            assert(names@.map_values(|s: String| s@).take(i + 1) =~= names@.map_values(|s: String| s@).take(i as int).push(names@[i as int]@));
            i = i + 1;
        }
        assert(names@.map_values(|s: String| s@).take(i as int) =~= names@.map_values(|s: String| s@));
        TypeTable { names: v }
    }

    /// A copy of the table.
    pub fn duplicate(&self) -> (t: TypeTable)
        requires
            self.wf(),
        ensures
            t.wf(),
            t@ == self@,
    {
        TypeTable::from_names(&self.names)
    }

    /// The number of types.
    pub fn len(&self) -> (n: usize)
        ensures
            n == self@.len(),
    {
        self.names.len()
    }

    /// The name of type `id`.
    pub fn name(&self, id: usize) -> (s: &String)
        requires
            id < self@.len(),
        ensures
            s@ == self@[id as int],
    {
        &self.names[id]
    }

    /// The identifier of the type called `name`.
    pub fn index_of(&self, name: &String) -> (r: Option<usize>)
        requires
            self.wf(),
        ensures
            r == (match position_of(self@, name@) {
                Some(i) => Some(i as usize),
                None => None::<usize>,
            }),
            r matches Some(i) ==> i < self@.len() && self@[i as int] == name@,
    {
        let mut i: usize = 0;
        while i < self.names.len()
            invariant
                i <= self.names.len(),
                self.wf(),
                forall|j: int| 0 <= j < i ==> self@[j] != name@,
            decreases self.names.len() - i,
        {
            if self.names[i] == *name {
                proof {
                    lemma_position_of_entry(self@, i as int);
                }
                return Some(i);
            }
            i = i + 1;
        }
        None
    }

    /// The identifier of `name`, which is added at the end where it is new.
    pub fn intern(&mut self, name: String) -> (id: usize)
        requires
            old(self).wf(),
            old(self)@.len() < usize::MAX,
        ensures
            final(self).wf(),
            final(self)@ == (if old(self)@.contains(name@) {
                old(self)@
            } else {
                old(self)@.push(name@)
            }),
            Some(id as int) == position_of(final(self)@, name@),
            id < final(self)@.len(),
    {
        match self.index_of(&name) {
            Some(i) => {
                proof {
                    assert(self@[i as int] == name@);
                }
                i
            },
            None => {
                let id = self.names.len();
                let ghost before = self@;
                self.names.push(name);
                assert(self@ =~= before.push(name@));
                proof {
                    assert(!before.contains(name@));
                    assert(distinct_names(self@));
                    lemma_position_of_entry(self@, id as int);
                }
                id
            },
        }
    }
}

} // verus!
