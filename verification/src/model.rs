//! The entry capability set and the folder container.
//!
//! An entry is anything in the tree that can report its name, be renamed in
//! place, and duplicate itself into an independently owned value of the same
//! concrete kind. A folder is a concrete entry kind that owns a collection
//! of child entries keyed by name. A folder's ghost model is a
//! [`FolderModel`]: its name together with the map from each child's name to
//! that child's own model, so the whole observable subtree is abstracted.

use vstd::prelude::*;

verus! {

/// The cloning half of the entry capability set: every concrete entry kind
/// supplies its own duplication routine. The copy reports the same name as
/// the original.
pub trait EntryClone {
    /// The entry's identifier, as the ghost model sees it.
    spec fn entry_name(&self) -> Seq<char>;

    /// An independently owned copy of this entry, of the same concrete kind.
    fn clone_box(&self) -> (r: Box<Self>) where Self: Sized
        ensures
            (*r).entry_name() == self.entry_name(),
    ;
}

/// The entry capability set: report a name, change the name in place, and
/// (through the `EntryClone` supertrait) produce an independent copy.
pub trait Entry: EntryClone {
    /// The entry's current identifier.
    fn name(&self) -> (r: String)
        ensures
            r@ == self.entry_name(),
    ;

    /// Replaces the entry's identifier in place. No validation happens at
    /// this layer; any name is accepted.
    fn set_name(&mut self, name: &String)
        ensures
            final(self).entry_name() == name@,
    ;
}

/// The observable state of a folder: its own name and, for each child name,
/// the model of the child stored under it.
pub struct FolderModel {
    pub name: Seq<char>,
    pub children: Map<Seq<char>, FolderModel>,
}

/// True when no two folders of `s` report the same name.
pub open spec fn unique_names(s: Seq<Folder>) -> bool {
    forall|i: int, j: int|
        0 <= i < j < s.len() ==> #[trigger] s[i].entry_name() != #[trigger] s[j].entry_name()
}

/// The name-to-model map that a sequence of children stands for; a later
/// child with the same name shadows an earlier one.
pub open spec fn models_of(s: Seq<Folder>) -> Map<Seq<char>, FolderModel>
    decreases s,
{
    if s.len() == 0 {
        Map::empty()
    } else {
        models_of(s.drop_last()).insert(s.last().entry_name(), s.last().deep_model())
    }
}

/// A concrete entry kind that owns a collection of child entries, keyed by
/// each child's name at the moment of insertion. Child names are unique by
/// construction; insertion order carries no meaning.
///
/// A key could in principle go stale if a stored child were renamed behind
/// the container's back. Here that cannot happen: the folder owns its
/// children outright and hands out no mutable access to them, and the ghost
/// child mapping keys every child by the name the stored child itself
/// reports.
pub struct Folder {
    name: String,
    children: Vec<Folder>,
}

impl Folder {
    /// The folder's whole observable subtree, as a ghost value.
    pub closed spec fn deep_model(self) -> FolderModel
        decreases self,
    {
        FolderModel { name: self.name@, children: models_of(self.children@) }
    }

    /// Well-formedness: no two stored children report the same name, at any
    /// depth. `empty` establishes it and every operation preserves it.
    pub closed spec fn wf(self) -> bool {
        unique_names(self.children@)
    }

    /// The exact number of direct children.
    pub closed spec fn child_count(self) -> nat {
        self.children@.len()
    }

    /// True when a child named `n` is currently stored.
    pub open spec fn has_child(self, n: Seq<char>) -> bool {
        self@.children.dom().contains(n)
    }

    /// A folder with the given name and no children.
    pub fn empty(name: &String) -> (r: Folder)
        ensures
            r.wf(),
            r.entry_name() == name@,
            r@ == (FolderModel { name: name@, children: Map::empty() }),
            r.child_count() == 0,
    {
        Folder { name: name.clone(), children: Vec::new() }
    }

    /// True exactly when the folder has no children.
    pub fn is_empty(&self) -> (r: bool)
        ensures
            r == (self.child_count() == 0),
    {
        self.children.is_empty()
    }

    /// True exactly when the folder has at least one child.
    pub fn has_children(&self) -> (r: bool)
        ensures
            r == (self.child_count() != 0),
    {
        !self.is_empty()
    }

    /// The exact number of direct children (not recursive).
    pub fn children_count(&self) -> (r: usize)
        ensures
            r == self.child_count(),
    {
        self.children.len()
    }

    /// Adds `child` to the children, keyed by the child's name at the moment
    /// of insertion. A child already stored under that name is silently
    /// replaced; the count grows only when the name was new. Ownership of
    /// `child` passes to the folder.
    pub fn insert_child(&mut self, child: Box<Folder>)
        requires
            old(self).wf(),
        ensures
            final(self).wf(),
            final(self)@.name == old(self)@.name,
            final(self)@.children == old(self)@.children.insert(
                (*child).entry_name(),
                (*child)@,
            ),
            final(self).child_count() == if old(self).has_child((*child).entry_name()) {
                old(self).child_count()
            } else {
                old(self).child_count() + 1
            },
    {
        let child_name = child.name();
        self.delete_child(&child_name);
        proof {
            lemma_models_of_contains(self.children@, child_name@);
            lemma_unique_push(self.children@, *child);
        }
        let ghost mid = self.children@;
        self.children.push(*child);
        proof {
            assert(self.children@.drop_last() =~= mid);
            assert(self@.children =~= old(self)@.children.insert(
                (*child).entry_name(),
                (*child)@,
            ));
        }
    }

    /// Removes the child stored under `child_name`, if any; on an absent
    /// name this is a no-op, not an error.
    pub fn delete_child(&mut self, child_name: &String)
        requires
            old(self).wf(),
        ensures
            final(self).wf(),
            final(self)@.name == old(self)@.name,
            final(self)@.children == old(self)@.children.remove(child_name@),
            final(self).child_count() == if old(self).has_child(child_name@) {
                (old(self).child_count() - 1) as nat
            } else {
                old(self).child_count()
            },
    {
        let n = self.children.len();
        let mut i: usize = 0;
        while i < n
            invariant
                *self == *old(self),
                n == self.children@.len(),
                i <= n,
                unique_names(self.children@),
                forall|j: int|
                    0 <= j < i ==> #[trigger] self.children@[j].entry_name() != child_name@,
            decreases n - i,
        {
            let stored = self.children[i].name();
            if stored == *child_name {
                proof {
                    lemma_unique_remove(self.children@, i as int);
                    lemma_models_of_remove(self.children@, i as int);
                    lemma_models_of_contains(self.children@, child_name@);
                }
                self.children.remove(i);
                return ;
            }
            i += 1;
        }
        proof {
            lemma_models_of_contains(self.children@, child_name@);
            assert(old(self)@.children.remove(child_name@) =~= old(self)@.children);
        }
    }
}

impl View for Folder {
    type V = FolderModel;

    /// A folder's view is its whole observable subtree.
    closed spec fn view(&self) -> FolderModel {
        self.deep_model()
    }
}

impl EntryClone for Folder {
    closed spec fn entry_name(&self) -> Seq<char> {
        self.name@
    }

    fn clone_box(&self) -> (r: Box<Folder>)
        ensures
            (*r)@ == (*self)@,
            (*r).wf() == (*self).wf(),
            (*r).child_count() == (*self).child_count(),
    {
        Box::new(self.clone())
    }
}

impl Entry for Folder {
    fn name(&self) -> (r: String)
        ensures
            r@ == self.entry_name(),
    {
        self.name.clone()
    }

    /// Renaming touches only the folder's own identifier: the children and
    /// their keys stay exactly as they were.
    fn set_name(&mut self, name: &String)
        ensures
            final(self).wf() == old(self).wf(),
            final(self)@.name == name@,
            final(self)@.children == old(self)@.children,
            final(self).child_count() == old(self).child_count(),
    {
        self.name = name.clone();
    }
}

impl Clone for Folder {
    /// An independent deep copy: the clone's observable subtree equals the
    /// original's, and the two share no storage, so mutating either
    /// afterwards leaves the other's observable state untouched.
    fn clone(&self) -> (r: Folder)
        ensures
            r@ == (*self)@,
            r.wf() == (*self).wf(),
            r.child_count() == (*self).child_count(),
        decreases *self,
    {
        let mut copies: Vec<Folder> = Vec::new();
        let n = self.children.len();
        let mut i: usize = 0;
        while i < n
            invariant
                n == self.children@.len(),
                i <= n,
                copies@.len() == i,
                forall|j: int| 0 <= j < i ==> #[trigger] copies@[j]@ == self.children@[j]@,
            decreases n - i,
        {
            proof {
                assert(decreases_to!(*self => self.children));
                assert(decreases_to!(self.children => self.children@));
                assert(decreases_to!(self.children@ => self.children@[i as int]));
            }
            let c = self.children[i].clone();
            copies.push(c);
            i += 1;
        }
        proof {
            lemma_models_of_pointwise(copies@, self.children@);
            lemma_unique_pointwise(copies@, self.children@);
        }
        Folder { name: self.name.clone(), children: copies }
    }
}

/// A child named `n` is stored exactly when `n` is a key of the map that the
/// children stand for.
proof fn lemma_models_of_contains(s: Seq<Folder>, n: Seq<char>)
    ensures
        models_of(s).dom().contains(n) <==> (exists|i: int|
            0 <= i < s.len() && #[trigger] s[i].entry_name() == n),
    decreases s,
{
    if s.len() > 0 {
        lemma_models_of_contains(s.drop_last(), n);
        if s.last().entry_name() == n {
            assert(s[s.len() - 1].entry_name() == n);
        } else {
            if exists|i: int| 0 <= i < s.len() && #[trigger] s[i].entry_name() == n {
                let i = choose|i: int| 0 <= i < s.len() && #[trigger] s[i].entry_name() == n;
                assert(s.drop_last()[i].entry_name() == n);
            }
        }
    }
}

/// Removing one child takes exactly its name out of the map the children
/// stand for.
proof fn lemma_models_of_remove(s: Seq<Folder>, i: int)
    requires
        unique_names(s),
        0 <= i < s.len(),
    ensures
        models_of(s.remove(i)) == models_of(s).remove(s[i].entry_name()),
    decreases s,
{
    let k = s[i].entry_name();
    let t = s.drop_last();
    if i == s.len() - 1 {
        assert(s.remove(i) =~= t);
        lemma_models_of_contains(t, k);
        assert(forall|j: int| 0 <= j < t.len() ==> #[trigger] t[j].entry_name() != k);
        assert(models_of(s).remove(k) =~= models_of(t));
    } else {
        assert(unique_names(t)) by {
            assert(forall|a: int| 0 <= a < t.len() ==> t[a] == s[a]);
        }
        lemma_models_of_remove(t, i);
        assert(s.remove(i).drop_last() =~= t.remove(i));
        assert(s.remove(i).last() == s.last());
        assert(s.last().entry_name() != k);
        assert(models_of(s.remove(i)) == models_of(t.remove(i)).insert(
            s.last().entry_name(),
            s.last().deep_model(),
        ));
        assert(models_of(t).remove(k).insert(s.last().entry_name(), s.last().deep_model())
            =~= models_of(t).insert(s.last().entry_name(), s.last().deep_model()).remove(k));
    }
}

/// Removing one child keeps the remaining names unique.
proof fn lemma_unique_remove(s: Seq<Folder>, i: int)
    requires
        unique_names(s),
        0 <= i < s.len(),
    ensures
        unique_names(s.remove(i)),
{
    assert forall|a: int, b: int|
        0 <= a < b < s.remove(i).len() implies #[trigger] s.remove(i)[a].entry_name()
        != #[trigger] s.remove(i)[b].entry_name() by {
        let a0 = if a < i { a } else { a + 1 };
        let b0 = if b < i { b } else { b + 1 };
        assert(s.remove(i)[a] == s[a0]);
        assert(s.remove(i)[b] == s[b0]);
        assert(s[a0].entry_name() != s[b0].entry_name());
    }
}

/// Appending a child whose name no present child bears keeps the names
/// unique.
proof fn lemma_unique_push(s: Seq<Folder>, c: Folder)
    requires
        unique_names(s),
        forall|j: int| 0 <= j < s.len() ==> #[trigger] s[j].entry_name() != c.entry_name(),
    ensures
        unique_names(s.push(c)),
{
    assert forall|a: int, b: int|
        0 <= a < b < s.push(c).len() implies #[trigger] s.push(c)[a].entry_name()
        != #[trigger] s.push(c)[b].entry_name() by {
        assert(s.push(c)[a] == s[a]);
        if b < s.len() {
            assert(s.push(c)[b] == s[b]);
        } else {
            assert(s.push(c)[b] == c);
        }
    }
}

/// Children with pointwise equal models stand for the same name-to-model
/// map.
proof fn lemma_models_of_pointwise(s1: Seq<Folder>, s2: Seq<Folder>)
    requires
        s1.len() == s2.len(),
        forall|j: int| 0 <= j < s1.len() ==> #[trigger] s1[j]@ == s2[j]@,
    ensures
        models_of(s1) == models_of(s2),
    decreases s1,
{
    if s1.len() > 0 {
        assert(forall|j: int|
            0 <= j < s1.drop_last().len() ==> #[trigger] s1.drop_last()[j]@
                == s2.drop_last()[j]@);
        lemma_models_of_pointwise(s1.drop_last(), s2.drop_last());
        assert(s1.last()@ == s2.last()@);
        assert(s1.last().entry_name() == s2.last().entry_name());
    }
}

/// Children with pointwise equal models have unique names exactly together.
proof fn lemma_unique_pointwise(s1: Seq<Folder>, s2: Seq<Folder>)
    requires
        s1.len() == s2.len(),
        forall|j: int| 0 <= j < s1.len() ==> #[trigger] s1[j]@ == s2[j]@,
    ensures
        unique_names(s1) == unique_names(s2),
{
    assert forall|j: int|
        0 <= j < s1.len() implies #[trigger] s1[j].entry_name() == s2[j].entry_name() by {
        assert(s1[j]@ == s2[j]@);
        assert(s1[j]@.name == s1[j].entry_name());
        assert(s2[j]@.name == s2[j].entry_name());
    }
    if unique_names(s1) {
        assert forall|a: int, b: int|
            0 <= a < b < s2.len() implies #[trigger] s2[a].entry_name()
            != #[trigger] s2[b].entry_name() by {
            assert(s1[a].entry_name() != s1[b].entry_name());
        }
    }
    if unique_names(s2) {
        assert forall|a: int, b: int|
            0 <= a < b < s1.len() implies #[trigger] s1[a].entry_name()
            != #[trigger] s1[b].entry_name() by {
            assert(s2[a].entry_name() != s2[b].entry_name());
        }
    }
}

/// Last write wins: inserting two children under one name leaves the same
/// child mapping as inserting the second alone, so after the second insert
/// the folder holds only the second child under that name.
pub proof fn lemma_overwrite_on_duplicate(
    m: Map<Seq<char>, FolderModel>,
    n: Seq<char>,
    first: FolderModel,
    second: FolderModel,
)
    ensures
        m.insert(n, first).insert(n, second) == m.insert(n, second),
{
    assert(m.insert(n, first).insert(n, second) =~= m.insert(n, second));
}

/// Deleting a name twice in a row leaves the same child mapping as deleting
/// it once.
pub proof fn lemma_delete_idempotent(m: Map<Seq<char>, FolderModel>, n: Seq<char>)
    ensures
        m.remove(n).remove(n) == m.remove(n),
{
    assert(m.remove(n).remove(n) =~= m.remove(n));
}

/// Deleting a name that is not present leaves the child mapping unchanged.
pub proof fn lemma_delete_absent(m: Map<Seq<char>, FolderModel>, n: Seq<char>)
    requires
        !m.dom().contains(n),
    ensures
        m.remove(n) == m,
{
    assert(m.remove(n) =~= m);
}

/// A well-formed folder's child count is exactly the size of its child
/// mapping: the count, emptiness, and the map model agree.
pub proof fn lemma_count_matches_child_map(f: Folder)
    requires
        f.wf(),
    ensures
        f@.children.dom().finite(),
        f@.children.dom().len() == f.child_count(),
{
    lemma_models_of_len(f.children@);
}

/// Under unique names, the map a child sequence stands for has exactly one
/// key per child.
proof fn lemma_models_of_len(s: Seq<Folder>)
    requires
        unique_names(s),
    ensures
        models_of(s).dom().finite(),
        models_of(s).dom().len() == s.len(),
    decreases s,
{
    if s.len() > 0 {
        let t = s.drop_last();
        assert(unique_names(t)) by {
            assert(forall|a: int| 0 <= a < t.len() ==> t[a] == s[a]);
        }
        lemma_models_of_len(t);
        lemma_models_of_contains(t, s.last().entry_name());
        assert(!models_of(t).dom().contains(s.last().entry_name()));
        assert(models_of(s).dom() =~= models_of(t).dom().insert(s.last().entry_name()));
    }
}

} // verus!

