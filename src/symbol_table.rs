//! The symbol table: an ordered list of (name, value) slots.
use vstd::prelude::*;

verus! {

/// A variable name: a non-empty sequence of alphabetic characters.
pub type Name = Vec<char>;

/// No name occurs twice in `names`.
pub open spec fn distinct_names(names: Seq<Seq<char>>) -> bool {
    forall|i: int, j: int|
        0 <= i < names.len() && 0 <= j < names.len() && i != j ==> names[i] != names[j]
}

/// Two names are equal, compared character by character.
pub fn same_name(a: &Vec<char>, b: &Vec<char>) -> (r: bool)
    ensures
        r == (a@ == b@),
{
    if a.len() != b.len() {
        return false;
    }
    let mut i: usize = 0;
    while i < a.len()
        invariant
            a@.len() == b@.len(),
            i <= a@.len(),
            forall|k: int| 0 <= k < i ==> a@[k] == b@[k],
        decreases a@.len() - i,
    {
        if a[i] != b[i] {
            return false;
        }
        i = i + 1;
    }
    assert(a@ =~= b@);
    true
}

/// A fresh copy of a name.
pub fn copy_name(a: &Vec<char>) -> (r: Vec<char>)
    ensures
        r@ == a@,
{
    let mut r: Vec<char> = Vec::new();
    let mut i: usize = 0;
    while i < a.len()
        invariant
            i <= a@.len(),
            r@ =~= a@.subrange(0, i as int),
        decreases a@.len() - i,
    {
        r.push(a[i]);
        i = i + 1;
    }
    assert(r@ =~= a@);
    r
}

/// Slots in declaration order. Slot `i` holds the `i`-th declared name and its
/// current value, an IEEE-754 double given by its bit pattern.
#[derive(Debug)]
pub struct SymbolTable {
    names: Vec<Name>,
    values: Vec<u64>,
}

impl SymbolTable {
    /// The declared names, slot by slot.
    pub closed spec fn names(&self) -> Seq<Seq<char>> {
        self.names@.map_values(|n: Name| n@)
    }

    /// The current values, slot by slot.
    pub closed spec fn values(&self) -> Seq<u64> {
        self.values@
    }

    /// One value per name, and no name twice.
    pub open spec fn wf(&self) -> bool {
        &&& self.names().len() == self.values().len()
        &&& distinct_names(self.names())
    }

    /// Whether `name` has a slot.
    pub open spec fn declares(&self, name: Seq<char>) -> bool {
        self.names().contains(name)
    }

    /// An empty table.
    pub fn new() -> (r: SymbolTable)
        ensures
            r.wf(),
            r.names() == Seq::<Seq<char>>::empty(),
            r.values() == Seq::<u64>::empty(),
    {
        let r = SymbolTable { names: Vec::new(), values: Vec::new() };
        assert(r.names() =~= Seq::<Seq<char>>::empty());
        r
    }

    /// The number of slots.
    pub fn len(&self) -> (r: usize)
        requires
            self.wf(),
        ensures
            r == self.names().len(),
    {
        self.names.len()
    }

    /// Finds the slot of `name`, if it has one.
    fn find(&self, name: &Vec<char>) -> (r: Option<usize>)
        requires
            self.wf(),
        ensures
            match r {
                Some(i) => i < self.names().len() && self.names()[i as int] == name@,
                None => !self.declares(name@),
            },
    {
        let mut i: usize = 0;
        while i < self.names.len()
            invariant
                self.wf(),
                i <= self.names().len(),
                forall|k: int| 0 <= k < i ==> self.names()[k] != name@,
            decreases self.names().len() - i,
        {
            if same_name(&self.names[i], name) {
                return Some(i);
            }
            i = i + 1;
        }
        None
    }

    /// Allocates a new slot for `name`, holding 0.0, and returns its index.
    /// Fails, leaving the table unchanged, if `name` already has a slot.
    pub fn insert_symbol(&mut self, name: &Vec<char>) -> (r: Result<usize, SymbolError>)
        requires
            old(self).wf(),
        ensures
            final(self).wf(),
            old(self).declares(name@) ==> r == Err::<usize, SymbolError>(SymbolError::AlreadyDeclared)
                && *final(self) == *old(self),
            !old(self).declares(name@) ==> (r matches Ok(i) && i == old(self).names().len()
                && final(self).names() == old(self).names().push(name@)
                && final(self).values() == old(self).values().push(0u64)),
    {
        match self.find(name) {
            Some(_) => Err(SymbolError::AlreadyDeclared),
            None => {
                let ghost old_names = self.names();
                let index = self.names.len();
                self.names.push(copy_name(name));
                self.values.push(0);
                assert(self.names() =~= old_names.push(name@));
                Ok(index)
            }
        }
    }

    /// The slot of `name`; fails if it has none.
    pub fn index_of_symbol(&self, name: &Vec<char>) -> (r: Result<usize, SymbolError>)
        requires
            self.wf(),
        ensures
            self.declares(name@) <==> r is Ok,
            r is Err ==> r == Err::<usize, SymbolError>(SymbolError::Undefined),
            r matches Ok(i) ==> i < self.names().len() && self.names()[i as int] == name@,
    {
        match self.find(name) {
            Some(i) => Ok(i),
            None => Err(SymbolError::Undefined),
        }
    }

    /// Drops every slot from `len` on.
    pub fn truncate(&mut self, len: usize)
        requires
            old(self).wf(),
            len <= old(self).names().len(),
        ensures
            final(self).wf(),
            final(self).names() == old(self).names().subrange(0, len as int),
            final(self).values() == old(self).values().subrange(0, len as int),
    {
        self.names.truncate(len);
        self.values.truncate(len);
        assert(self.names() =~= old(self).names().subrange(0, len as int));
        assert(self.values() =~= old(self).values().subrange(0, len as int));
    }

    /// The name held in slot `index`.
    pub fn name_at(&self, index: usize) -> (r: &Name)
        requires
            self.wf(),
            index < self.names().len(),
        ensures
            r@ == self.names()[index as int],
    {
        &self.names[index]
    }

    /// The value held in slot `index`, as its bit pattern.
    pub fn get(&self, index: usize) -> (r: u64)
        requires
            self.wf(),
            index < self.values().len(),
        ensures
            r == self.values()[index as int],
    {
        self.values[index]
    }

    /// Stores `value` (a bit pattern) in slot `index`.
    pub fn set(&mut self, index: usize, value: u64)
        requires
            old(self).wf(),
            index < old(self).values().len(),
        ensures
            final(self).wf(),
            final(self).names() == old(self).names(),
            final(self).values() == old(self).values().update(index as int, value),
    {
        self.values.set(index, value);
    }
}

/// Why a table operation failed.
#[derive(Debug, Clone, Copy, PartialEq, Eq, Structural)]
pub enum SymbolError {
    /// The name already has a slot.
    AlreadyDeclared,
    /// The name has no slot.
    Undefined,
}

} // verus!
