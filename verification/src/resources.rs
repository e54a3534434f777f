//! The registry of resources: each name is given one identifier, once.

use crate::ids::{Id, IdGen};
use vstd::prelude::*;

verus! {

/// A kind of resource.
#[derive(Debug, Clone, PartialEq, Eq)]
pub struct Resource {
    pub id: Id,
    pub name: String,
}

/// The registry of resources, in the order in which their names were first
/// seen.
#[derive(Debug, Clone, PartialEq, Eq)]
pub struct Resources {
    pub items: Vec<Resource>,
}

/// Whether one of `items` has the name `name`.
pub open spec fn names(items: Seq<Resource>, name: Seq<char>) -> bool {
    exists|i: int| 0 <= i < items.len() && (#[trigger] items[i]).name@ == name
}

/// The place in `items` of the resource with the name `name`.
pub open spec fn place_of(items: Seq<Resource>, name: Seq<char>) -> int {
    choose|i: int| 0 <= i < items.len() && (#[trigger] items[i]).name@ == name
}

/// Whether no two of `items` share a name, and identifiers grow along them.
pub open spec fn distinct(items: Seq<Resource>) -> bool {
    &&& forall|i: int, j: int|
        0 <= i < j < items.len() ==> (#[trigger] items[i]).name@ != (#[trigger] items[j]).name@
    &&& forall|i: int, j: int|
        0 <= i < j < items.len() ==> (#[trigger] items[i]).id.0 < (#[trigger] items[j]).id.0
}

/// Whether every identifier in `items` is below `bound`.
pub open spec fn ids_below(items: Seq<Resource>, bound: u64) -> bool {
    forall|i: int| 0 <= i < items.len() ==> (#[trigger] items[i]).id.0 < bound
}

/// Whether one of `items` has the identifier `id`.
pub open spec fn carried(items: Seq<Resource>, id: Id) -> bool {
    exists|i: int| 0 <= i < items.len() && (#[trigger] items[i]).id == id
}

/// A registry and an allocator after a name was looked up.
pub struct Interned {
    pub items: Seq<Resource>,
    /// The next identifier that the allocator issues.
    pub next: u64,
    /// The identifier of the name.
    pub id: Id,
}

/// Looks `name` up in `items`. A name that is there keeps its identifier; a
/// new name gets the identifier `next` and goes to the end.
pub open spec fn interned(items: Seq<Resource>, next: u64, name: String) -> Interned {
    if names(items, name@) {
        Interned { items, next, id: items[place_of(items, name@)].id }
    } else {
        Interned {
            items: items.push(Resource { id: Id(next), name }),
            next: (next + 1) as u64,
            id: Id(next),
        }
    }
}

/// Among distinct resources a name is found at one place only.
pub proof fn lemma_place_of(items: Seq<Resource>, i: int)
    requires
        distinct(items),
        0 <= i < items.len(),
    ensures
        names(items, items[i].name@),
        place_of(items, items[i].name@) == i,
{
    let j = place_of(items, items[i].name@);
    if j < i {
        assert(items[j].name@ != items[i].name@);
    } else if i < j {
        assert(items[i].name@ != items[j].name@);
    }
}

/// Looking a name up keeps the registry distinct and every entry where it
/// was, and looking it up again gives the same identifier.
pub proof fn lemma_interned(items: Seq<Resource>, next: u64, name: String)
    requires
        distinct(items),
        ids_below(items, next),
        next < u64::MAX,
    ensures
        distinct(interned(items, next, name).items),
        ids_below(interned(items, next, name).items, interned(items, next, name).next),
        items.is_prefix_of(interned(items, next, name).items),
        next <= interned(items, next, name).next <= next + 1,
        interned(items, next, name).id.0 < interned(items, next, name).next,
        names(interned(items, next, name).items, name@),
        interned(interned(items, next, name).items, interned(items, next, name).next, name)
            == interned(items, next, name),
{
    let after = interned(items, next, name);
    if names(items, name@) {
        let i = place_of(items, name@);
        assert(items[i].id.0 < next);
    } else {
        let last = items.len() as int;
        assert(after.items[last].name@ == name@);
        assert forall|i: int, j: int| 0 <= i < j < after.items.len() implies (
        #[trigger] after.items[i]).name@ != (#[trigger] after.items[j]).name@ by {
            if j == last {
                assert(items[i].name@ != name@);
            } else {
                assert(items[i].name@ != items[j].name@);
            }
        }
        assert forall|i: int, j: int| 0 <= i < j < after.items.len() implies (
        #[trigger] after.items[i]).id.0 < (#[trigger] after.items[j]).id.0 by {
            if j == last {
                assert(items[i].id.0 < next);
            } else {
                assert(items[i].id.0 < items[j].id.0);
            }
        }
        lemma_place_of(after.items, last);
    }
}

/// A registry that grows keeps every name under its identifier.
pub proof fn lemma_grown(before: Seq<Resource>, after: Seq<Resource>)
    requires
        distinct(after),
        before.is_prefix_of(after),
    ensures
        forall|name: Seq<char>|
            names(before, name) ==> names(after, name) && after[place_of(after, name)].id
                == before[place_of(before, name)].id,
        forall|id: Id| carried(before, id) ==> carried(after, id),
{
    assert forall|name: Seq<char>| names(before, name) implies names(after, name) && after[place_of(
        after,
        name,
    )].id == before[place_of(before, name)].id by {
        let i = place_of(before, name);
        assert(after[i] == before[i]);
        lemma_place_of(after, i);
    }
    assert forall|id: Id| carried(before, id) implies carried(after, id) by {
        let i = choose|i: int| 0 <= i < before.len() && (#[trigger] before[i]).id == id;
        assert(after[i] == before[i]);
    }
}

impl Resources {
    /// The invariant of the registry: no two resources share a name, and
    /// identifiers grow along the list, so none share an identifier either.
    pub open spec fn wf(&self) -> bool {
        distinct(self.items@)
    }

    /// A registry without resources.
    pub fn new() -> (resources: Self)
        ensures
            resources.wf(),
            resources.items@.len() == 0,
    {
        Resources { items: Vec::new() }
    }

    /// Checks the invariant of the registry.
    pub fn is_wf(&self) -> (ok: bool)
        ensures
            ok == self.wf(),
    {
        let mut j: usize = 0;
        while j < self.items.len()
            invariant
                j <= self.items.len(),
                forall|a: int, b: int|
                    0 <= a < b < j ==> (#[trigger] self.items@[a]).name@ != (
                    #[trigger] self.items@[b]).name@,
                forall|a: int, b: int|
                    0 <= a < b < j ==> (#[trigger] self.items@[a]).id.0 < (
                    #[trigger] self.items@[b]).id.0,
            decreases self.items.len() - j,
        {
            let mut i: usize = 0;
            while i < j
                invariant
                    i <= j < self.items.len(),
                    forall|a: int|
                        0 <= a < i ==> (#[trigger] self.items@[a]).name@ != self.items@[j as int].name@,
                    forall|a: int|
                        0 <= a < i ==> (#[trigger] self.items@[a]).id.0 < self.items@[j as int].id.0,
                decreases j - i,
            {
                if self.items[i].name == self.items[j].name || self.items[i].id.0
                    >= self.items[j].id.0 {
                    assert(!(self.items@[i as int].name@ != self.items@[j as int].name@
                        && self.items@[i as int].id.0 < self.items@[j as int].id.0));
                    return false;
                }
                i += 1;
            }
            j += 1;
        }
        true
    }

    /// Checks whether every identifier in the registry is below `bound`.
    pub fn is_below(&self, bound: u64) -> (ok: bool)
        ensures
            ok == ids_below(self.items@, bound),
    {
        let mut i: usize = 0;
        while i < self.items.len()
            invariant
                i <= self.items.len(),
                forall|a: int| 0 <= a < i ==> (#[trigger] self.items@[a]).id.0 < bound,
            decreases self.items.len() - i,
        {
            if self.items[i].id.0 >= bound {
                return false;
            }
            i += 1;
        }
        true
    }

    /// Whether the registry has a resource with the identifier `id`.
    pub fn carries(&self, id: Id) -> (found: bool)
        ensures
            found == carried(self.items@, id),
    {
        let mut i: usize = 0;
        while i < self.items.len()
            invariant
                i <= self.items.len(),
                forall|a: int| 0 <= a < i ==> (#[trigger] self.items@[a]).id != id,
            decreases self.items.len() - i,
        {
            if self.items[i].id == id {
                return true;
            }
            i += 1;
        }
        false
    }

    /// The identifier of the resource with the name `name`, if there is one.
    pub fn find(&self, name: &String) -> (found: Option<Id>)
        ensures
            found is Some <==> names(self.items@, name@),
            self.wf() && found is Some ==> found->0 == self.items@[place_of(self.items@, name@)].id,
    {
        let mut i: usize = 0;
        while i < self.items.len()
            invariant
                i <= self.items.len(),
                forall|j: int| 0 <= j < i ==> (#[trigger] self.items@[j]).name@ != name@,
            decreases self.items.len() - i,
        {
            if self.items[i].name == *name {
                proof {
                    if self.wf() {
                        lemma_place_of(self.items@, i as int);
                    }
                }
                return Some(self.items[i].id);
            }
            i += 1;
        }
        None
    }

    /// The identifier of the resource with the name `name`. The first time
    /// a name is seen it gets a new identifier; after that it keeps it.
    pub fn intern(&mut self, id_gen: &mut IdGen, name: &String) -> (id: Id)
        requires
            old(self).wf(),
            ids_below(old(self).items@, old(id_gen).next),
            old(id_gen).next < u64::MAX,
        ensures
            final(self).items@ == interned(old(self).items@, old(id_gen).next, *name).items,
            final(id_gen).next == interned(old(self).items@, old(id_gen).next, *name).next,
            id == interned(old(self).items@, old(id_gen).next, *name).id,
            final(self).wf(),
            ids_below(final(self).items@, final(id_gen).next),
    {
        proof {
            lemma_interned(self.items@, id_gen.next, *name);
        }
        match self.find(name) {
            Some(id) => id,
            None => {
                let id = id_gen.gen();
                self.items.push(Resource { id, name: name.clone() });
                id
            },
        }
    }
}

} // verus!
