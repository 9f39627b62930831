//! The project list as it is kept in memory and written to `projects.json`,
//! with the operations that the commands perform on it.

use vstd::prelude::*;

use crate::project::Project;
use crate::window_manager::{first_index, lemma_first_index, lemma_first_index_sound};

verus! {

broadcast use vstd::seq_lib::group_seq_properties;

/// Versioned envelope around the project list.
#[derive(Debug, Clone)]
pub struct ProjectStoreFile {
    pub version: u32,
    pub projects: Vec<Project>,
}

impl Default for ProjectStoreFile {
    /// Format version 1 with no projects.
    fn default() -> (r: Self)
        ensures
            r.version == 1,
            r.projects@.len() == 0,
    {
        ProjectStoreFile { version: 1, projects: Vec::new() }
    }
}

/// The project carries the id `id`.
pub open spec fn has_id(id: u128) -> spec_fn(Project) -> bool {
    |p: Project| p.id == id
}

/// The project does not carry the id `id`.
pub open spec fn lacks_id(id: u128) -> spec_fn(Project) -> bool {
    |p: Project| p.id != id
}

/// The position of the first project with id `id`.
pub open spec fn index_of_id(s: Seq<Project>, id: u128) -> Option<int> {
    first_index(s, has_id(id))
}

/// The first project with id `id`.
pub open spec fn lookup(s: Seq<Project>, id: u128) -> Option<Project> {
    match index_of_id(s, id) {
        Some(i) => Some(s[i]),
        None => None,
    }
}

/// The list after an upsert of `p`: it replaces the first project with the
/// same id, or is appended when there is none.
pub open spec fn upserted(s: Seq<Project>, p: Project) -> Seq<Project> {
    match index_of_id(s, p.id) {
        Some(i) => s.update(i, p),
        None => s.push(p),
    }
}

/// The list without any project of id `id`, order kept.
pub open spec fn without_id(s: Seq<Project>, id: u128) -> Seq<Project> {
    s.filter(lacks_id(id))
}

/// The list reordered by `order`: for each id of `order` in turn, the first
/// remaining project with that id is taken out and placed next; ids with no
/// remaining project are skipped; the projects left over follow in the
/// order they had.
pub open spec fn reordered(s: Seq<Project>, order: Seq<u128>) -> Seq<Project>
    decreases order.len(),
{
    if order.len() == 0 {
        s
    } else {
        match index_of_id(s, order[0]) {
            Some(i) => seq![s[i]] + reordered(s.remove(i), order.drop_first()),
            None => reordered(s, order.drop_first()),
        }
    }
}

/// No two projects share an id.
pub open spec fn distinct_ids(s: Seq<Project>) -> bool {
    forall|i: int, j: int| 0 <= i < j < s.len() ==> s[i].id != s[j].id
}

impl ProjectStoreFile {
    /// The position of the first project with id `id`.
    pub fn position(&self, id: u128) -> (r: Option<usize>)
        ensures
            r matches Some(i) ==> index_of_id(self.projects@, id) == Some(i as int) && i
                < self.projects@.len() && self.projects@[i as int].id == id,
            r is None ==> index_of_id(self.projects@, id) is None,
    {
        let ghost s = self.projects@;
        let mut i: usize = 0;
        while i < self.projects.len()
            invariant
                s == self.projects@,
                i <= s.len(),
                forall|j: int| 0 <= j < i ==> !(has_id(id))(#[trigger] s[j]),
            decreases s.len() - i,
        {
            if self.projects[i].id == id {
                proof {
                    lemma_first_index(s, has_id(id), i as int);
                }
                return Some(i);
            }
            i = i + 1;
        }
        proof {
            lemma_first_index(s, has_id(id), s.len() as int);
        }
        None
    }

    /// The project with id `id`, if any.
    pub fn get(&self, id: u128) -> (r: Option<&Project>)
        ensures
            r == match lookup(self.projects@, id) {
                Some(p) => Some(&p),
                None => None,
            },
    {
        match self.position(id) {
            Some(i) => Some(&self.projects[i]),
            None => None,
        }
    }

    /// Replace the project with the same id, or append it.
    pub fn upsert(&mut self, project: Project)
        ensures
            final(self).projects@ == upserted(old(self).projects@, project),
            final(self).version == old(self).version,
    {
        match self.position(project.id) {
            Some(i) => {
                self.projects[i] = project;
            },
            None => {
                self.projects.push(project);
            },
        }
    }

    /// Remove every project with id `id`; answers whether one was removed.
    pub fn delete(&mut self, id: u128) -> (removed: bool)
        ensures
            final(self).projects@ == without_id(old(self).projects@, id),
            final(self).version == old(self).version,
            removed == (lookup(old(self).projects@, id) is Some),
    {
        let ghost s = self.projects@;
        let mut old_list: Vec<Project> = Vec::new();
        std::mem::swap(&mut old_list, &mut self.projects);
        let mut kept: Vec<Project> = Vec::new();
        let mut removed = false;
        for p in it: old_list.into_iter()
            invariant
                it.seq() == s,
                kept@ == s.take(it.index() as int).filter(lacks_id(id)),
                removed == exists|j: int| 0 <= j < it.index() && (#[trigger] s[j]).id == id,
        {
            proof {
                assert(s.take(it.index() + 1) =~= s.take(it.index() as int).push(p));
                s.take(it.index() as int).lemma_filter_push(p, lacks_id(id));
            }
            if p.id != id {
                kept.push(p);
            } else {
                removed = true;
            }
        }
        assert(s.take(s.len() as int) =~= s);
        proof {
            lemma_first_index_sound(s, has_id(id));
            if removed {
                let j = choose|j: int| 0 <= j < s.len() && (#[trigger] s[j]).id == id;
                assert((has_id(id))(s[j]));
            }
        }
        self.projects = kept;
        removed
    }

    /// Reorder the projects by `order` (see `reordered`).
    pub fn reorder(&mut self, order: &[u128])
        ensures
            final(self).projects@ == reordered(old(self).projects@, order@),
            final(self).version == old(self).version,
    {
        let ghost s = self.projects@;
        let mut sorted: Vec<Project> = Vec::new();
        let mut k: usize = 0;
        while k < order.len()
            invariant
                k <= order@.len(),
                sorted@ + reordered(self.projects@, order@.skip(k as int)) == reordered(
                    s,
                    order@,
                ),
                self.version == old(self).version,
            decreases order@.len() - k,
        {
            let id = order[k];
            let ghost rest = order@.skip(k as int);
            assert(rest[0] == id);
            assert(rest.drop_first() =~= order@.skip(k + 1));
            match self.position(id) {
                Some(pos) => {
                    let ghost before = self.projects@;
                    let p = self.projects.remove(pos);
                    assert(sorted@.push(p) + reordered(self.projects@, order@.skip(k + 1)) =~= sorted@
                        + reordered(before, rest));
                    sorted.push(p);
                },
                None => {},
            }
            k = k + 1;
        }
        assert(order@.skip(order@.len() as int) =~= Seq::<u128>::empty());
        sorted.append(&mut self.projects);
        self.projects = sorted;
    }

    /// The id of the first project bound to hotkey slot `index`.
    pub fn find_by_hotkey_index(&self, index: u8) -> (r: Option<u128>)
        ensures
            r == match first_index(self.projects@, |p: Project| p.hotkey_index == Some(index)) {
                Some(i) => Some(self.projects@[i].id),
                None => None,
            },
    {
        let ghost s = self.projects@;
        let ghost pred = |p: Project| p.hotkey_index == Some(index);
        let mut i: usize = 0;
        while i < self.projects.len()
            invariant
                s == self.projects@,
                pred == (|p: Project| p.hotkey_index == Some(index)),
                i <= s.len(),
                forall|j: int| 0 <= j < i ==> !pred(#[trigger] s[j]),
            decreases s.len() - i,
        {
            if self.projects[i].hotkey_index == Some(index) {
                proof {
                    lemma_first_index(s, pred, i as int);
                }
                return Some(self.projects[i].id);
            }
            i = i + 1;
        }
        proof {
            lemma_first_index(s, pred, s.len() as int);
        }
        None
    }
}

/// Read after write: right after an upsert of `p`, looking up `p`'s id
/// gives `p`, and looking up any other id gives what it gave before.
pub proof fn lemma_lookup_after_upsert(s: Seq<Project>, p: Project, other: u128)
    ensures
        lookup(upserted(s, p), p.id) == Some(p),
        other != p.id ==> lookup(upserted(s, p), other) == lookup(s, other),
{
    let t = upserted(s, p);
    lemma_first_index_sound(s, has_id(p.id));
    lemma_first_index_sound(s, has_id(other));
    match index_of_id(s, p.id) {
        Some(i) => {
            assert forall|j: int| 0 <= j < i implies !(has_id(p.id))(#[trigger] t[j]) by {
                assert(t[j] == s[j]);
            }
            lemma_first_index(t, has_id(p.id), i);
        },
        None => {
            assert forall|j: int| 0 <= j < s.len() implies !(has_id(p.id))(#[trigger] t[j]) by {
                assert(t[j] == s[j]);
            }
            lemma_first_index(t, has_id(p.id), s.len() as int);
        },
    }
    if other != p.id {
        match index_of_id(s, other) {
            Some(i) => {
                assert forall|j: int| 0 <= j < i implies !(has_id(other))(#[trigger] t[j]) by {
                    if index_of_id(s, p.id) is Some && j == index_of_id(s, p.id)->0 {
                    } else {
                        assert(t[j] == s[j]);
                    }
                }
                if index_of_id(s, p.id) is Some {
                    assert(i != index_of_id(s, p.id)->0);
                }
                assert(t[i] == s[i]);
                lemma_first_index(t, has_id(other), i);
            },
            None => {
                assert forall|j: int| 0 <= j < t.len() implies !(has_id(other))(#[trigger] t[j]) by {
                    if j < s.len() && !(index_of_id(s, p.id) is Some && j == index_of_id(
                        s,
                        p.id,
                    )->0) {
                        assert(t[j] == s[j]);
                    }
                }
                lemma_first_index(t, has_id(other), t.len() as int);
            },
        }
    }
}

/// After a delete of `id`, no project with that id remains, and `delete`
/// reports a removal exactly when a lookup of `id` found a project.
pub proof fn lemma_lookup_after_delete(s: Seq<Project>, id: u128)
    ensures
        lookup(without_id(s, id), id) is None,
        forall|k: int|
            0 <= k < without_id(s, id).len() ==> (#[trigger] without_id(s, id)[k]).id != id,
        without_id(s, id).len() <= s.len(),
{
    broadcast use vstd::seq_lib::group_filter_ensures;

    let t = without_id(s, id);
    assert forall|k: int| 0 <= k < t.len() implies !(has_id(id))(#[trigger] t[k]) by {
        assert((lacks_id(id))(t[k]));
    }
    lemma_first_index(t, has_id(id), t.len() as int);
}

/// An upsert keeps ids distinct.
pub proof fn lemma_upsert_keeps_ids_distinct(s: Seq<Project>, p: Project)
    requires
        distinct_ids(s),
    ensures
        distinct_ids(upserted(s, p)),
{
    lemma_first_index_sound(s, has_id(p.id));
}

/// A reorder is a permutation: the same projects, each as often as before.
pub proof fn lemma_reorder_is_permutation(s: Seq<Project>, order: Seq<u128>)
    ensures
        reordered(s, order).to_multiset() == s.to_multiset(),
        reordered(s, order).len() == s.len(),
    decreases order.len(),
{
    broadcast use vstd::seq_lib::group_to_multiset_ensures;

    if order.len() > 0 {
        match index_of_id(s, order[0]) {
            Some(i) => {
                lemma_first_index_sound(s, has_id(order[0]));
                lemma_reorder_is_permutation(s.remove(i), order.drop_first());
                let r = reordered(s.remove(i), order.drop_first());
                vstd::seq_lib::lemma_multiset_commutative(seq![s[i]], r);
                assert((seq![s[i]] + r).to_multiset() =~= r.to_multiset().insert(s[i])) by {
                    assert(seq![s[i]].to_multiset() =~= vstd::multiset::Multiset::empty().insert(s[i])) by {
                        assert(seq![s[i]] =~= Seq::<Project>::empty().push(s[i]));
                    }
                }
                assert(s.remove(i).to_multiset() == s.to_multiset().remove(s[i]));
            },
            None => {
                lemma_reorder_is_permutation(s, order.drop_first());
            },
        }
    }
}


/// Some project of `s` carries the id `id`.
pub open spec fn id_present(s: Seq<Project>, id: u128) -> bool {
    exists|j: int| 0 <= j < s.len() && s[j].id == id
}

/// The ids of `order` all name projects of `s`, none twice.
pub open spec fn names_present(s: Seq<Project>, order: Seq<u128>) -> bool {
    &&& order.no_duplicates()
    &&& forall|k: int| 0 <= k < order.len() ==> #[trigger] id_present(s, order[k])
}

/// Taking out the project at `i` keeps every other id present.
proof fn lemma_present_after_remove(s: Seq<Project>, i: int, id: u128)
    requires
        0 <= i < s.len(),
        id_present(s, id),
        id != s[i].id,
    ensures
        id_present(s.remove(i), id),
{
    let j = choose|j: int| 0 <= j < s.len() && s[j].id == id;
    let j2 = if j < i { j } else { j - 1 };
    assert(s.remove(i)[j2] == s[j]);
}

/// When every id of `order` names a project and ids are distinct, the
/// reordered list starts with exactly those projects, in the order given.
pub proof fn lemma_reorder_listed_first(s: Seq<Project>, order: Seq<u128>)
    requires
        distinct_ids(s),
        names_present(s, order),
    ensures
        order.len() <= s.len(),
        reordered(s, order).len() == s.len(),
        forall|k: int| 0 <= k < order.len() ==> (#[trigger] reordered(s, order)[k]).id == order[k],
    decreases order.len(),
{
    lemma_reorder_is_permutation(s, order);
    if order.len() > 0 {
        let o = order[0];
        assert(id_present(s, order[0]));
        lemma_first_index_sound(s, has_id(o));
        let j0 = choose|j: int| 0 <= j < s.len() && s[j].id == o;
        assert((has_id(o))(s[j0]));
        let i = index_of_id(s, o)->0;
        let t = s.remove(i);
        let rest = order.drop_first();
        assert(distinct_ids(t)) by {
            assert forall|a: int, b: int| 0 <= a < b < t.len() implies t[a].id != t[b].id by {
                let a2 = if a < i { a } else { a + 1 };
                let b2 = if b < i { b } else { b + 1 };
                assert(t[a] == s[a2]);
                assert(t[b] == s[b2]);
            }
        }
        assert forall|k: int| 0 <= k < rest.len() implies #[trigger] id_present(t, rest[k]) by {
            assert(rest[k] == order[k + 1]);
            assert(id_present(s, order[k + 1]));
            lemma_present_after_remove(s, i, rest[k]);
        }
        assert(rest.no_duplicates()) by {
            assert forall|a: int, b: int| 0 <= a < rest.len() && 0 <= b < rest.len() && a != b implies rest[a] != rest[b] by {
                assert(rest[a] == order[a + 1]);
                assert(rest[b] == order[b + 1]);
            }
        }
        lemma_reorder_listed_first(t, rest);
        let r = reordered(t, rest);
        assert forall|k: int| 0 <= k < order.len() implies (#[trigger] reordered(s, order)[k]).id == order[k] by {
            if k > 0 {
                assert(reordered(s, order)[k] == r[k - 1]);
                assert(rest[k - 1] == order[k]);
            }
        }
    }
}

} // verus!
