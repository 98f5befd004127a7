//! The folder registry: an ordered, duplicate-free list of folder names,
//! with one style record per folder.
//!
//! Adding a folder re-sorts the whole list alphabetically; a manual
//! reorder is kept only until the next add. This sort-on-add behaviour is
//! deliberate and user-visible.

use crate::strutil::{
    contains_string, lemma_filter_no_duplicates, lemma_filter_subset, lemma_remove_insert_multiset,
    lemma_views_push, sort_strings, strings_sorted, views,
};
use vstd::prelude::*;

verus! {

/// The style record kept per folder; it carries only the folder's name.
pub struct FolderStyle {
    pub name: String,
}

/// The ordered list of folder names and their style records.
pub struct FolderRegistry {
    pub folders: Vec<String>,
    pub styles: Vec<FolderStyle>,
}

/// The names of a sequence of style records.
pub open spec fn style_names(s: Seq<FolderStyle>) -> Seq<Seq<char>> {
    s.map_values(|st: FolderStyle| st.name@)
}

/// Whether a name differs from `name`; what survives deleting `name`.
pub open spec fn differs_from(name: Seq<char>) -> spec_fn(Seq<char>) -> bool {
    |n: Seq<char>| n != name
}

/// The names in `s`, in order, without every occurrence of `name`.
pub open spec fn without_name(s: Seq<Seq<char>>, name: Seq<char>) -> Seq<Seq<char>> {
    s.filter(differs_from(name))
}

/// Whether loaded snapshots can rebuild a registry: unique, non-empty
/// folder names mirrored exactly by the style names.
pub open spec fn loadable(folders: Seq<Seq<char>>, styles: Seq<Seq<char>>) -> bool {
    &&& folders.no_duplicates()
    &&& (forall|i: int| 0 <= i < folders.len() ==> (#[trigger] folders[i]).len() > 0)
    &&& styles == folders
}

impl FolderRegistry {
    /// The folder names in their current order.
    pub open spec fn folder_names(&self) -> Seq<Seq<char>> {
        views(self.folders@)
    }

    /// Well-formedness: folder names are unique and non-empty, and the
    /// style records mirror the folder list exactly.
    pub open spec fn wf(&self) -> bool {
        &&& self.folder_names().no_duplicates()
        &&& (forall|i: int|
            0 <= i < self.folder_names().len() ==> (#[trigger] self.folder_names()[i]).len() > 0)
        &&& style_names(self.styles@) == self.folder_names()
    }

    /// An empty registry.
    pub fn new() -> (r: FolderRegistry)
        ensures
            r.wf(),
            r.folder_names() == Seq::<Seq<char>>::empty(),
    {
        let r = FolderRegistry { folders: Vec::new(), styles: Vec::new() };
        proof {
            assert(r.folder_names() =~= Seq::<Seq<char>>::empty());
            assert(style_names(r.styles@) =~= r.folder_names());
        }
        r
    }

    /// Rebuilds the style records so that they mirror the folder list.
    fn rebuild_styles(&mut self)
        ensures
            final(self).folders@ == old(self).folders@,
            style_names(final(self).styles@) == views(final(self).folders@),
    {
        let mut styles: Vec<FolderStyle> = Vec::new();
        let mut i: usize = 0;
        while i < self.folders.len()
            invariant
                0 <= i <= self.folders@.len(),
                self.folders@ == old(self).folders@,
                style_names(styles@) == views(self.folders@).subrange(0, i as int),
            decreases self.folders@.len() - i,
        {
            let st = FolderStyle { name: self.folders[i].clone() };
            let ghost prev = styles@;
            styles.push(st);
            proof {
                let lhs = style_names(styles@);
                let rhs = views(self.folders@).subrange(0, i as int + 1);
                assert(style_names(prev).len() == prev.len());
                assert(lhs.len() == i + 1);
                assert(rhs.len() == i + 1);
                assert forall|k: int| 0 <= k < i + 1 implies lhs[k] == rhs[k] by {
                    if k < i as int {
                        assert(style_names(prev)[k] == views(self.folders@).subrange(
                            0,
                            i as int,
                        )[k]);
                    }
                }
                assert(lhs =~= rhs);
            }
            i = i + 1;
        }
        proof {
            assert(views(self.folders@).subrange(0, self.folders@.len() as int) =~= views(
                self.folders@,
            ));
        }
        self.styles = styles;
    }

    /// Adds a folder: an empty or already-present name is refused and
    /// nothing changes; otherwise the name is inserted, the whole list is
    /// re-sorted alphabetically, and a style record is created.
    pub fn add(&mut self, name: String) -> (added: bool)
        requires
            old(self).wf(),
        ensures
            final(self).wf(),
            added == (name@.len() > 0 && !old(self).folder_names().contains(name@)),
            !added ==> *final(self) == *old(self),
            added ==> final(self).folder_names().to_multiset() == old(
                self,
            ).folder_names().to_multiset().insert(name@),
            added ==> strings_sorted(final(self).folder_names()),
            added ==> final(self).folder_names().contains(name@),
            added ==> final(self).folder_names().len() == old(self).folder_names().len() + 1,
    {
        if name.as_str().is_empty() {
            return false;
        }
        if contains_string(&self.folders, &name) {
            return false;
        }
        let ghost before = views(self.folders@);
        let ghost nm = name@;
        proof {
            lemma_views_push(self.folders@, name);
        }
        self.folders.push(name);
        proof {
            before.to_multiset_ensures();
        }
        sort_strings(&mut self.folders);
        proof {
            let after = views(self.folders@);
            before.push(nm).to_multiset_ensures();
            after.to_multiset_ensures();
            assert(after.to_multiset() == before.to_multiset().insert(nm));
            // every name still present is one of the old names or the new one
            before.lemma_multiset_has_no_duplicates();
            assert forall|x: Seq<char>| after.to_multiset().contains(x) implies after.to_multiset().count(
                x,
            ) == 1 by {
                broadcast use vstd::multiset::group_multiset_axioms;

                if x == nm {
                    assert(!before.contains(nm));
                    assert(before.to_multiset().count(nm) == 0);
                } else {
                    assert(after.to_multiset().count(x) == before.to_multiset().count(x));
                    if before.to_multiset().count(x) > 0 {
                        assert(before.contains(x));
                    }
                }
            }
            after.lemma_multiset_has_no_duplicates_conv();
            // every name is non-empty
            assert forall|i: int| 0 <= i < after.len() implies (#[trigger] after[i]).len() > 0 by {
                broadcast use vstd::multiset::group_multiset_axioms;

                assert(after.contains(after[i]));
                assert(after.to_multiset().count(after[i]) > 0);
                if after[i] != nm {
                    assert(before.to_multiset().count(after[i]) > 0);
                    assert(before.contains(after[i]));
                }
            }
            // the new name is present
            assert(after.to_multiset().count(nm) > 0);
            assert(after.contains(nm));
        }
        self.rebuild_styles();
        true
    }

    /// Removes the named folder and its style record, keeping every other
    /// folder and their order; reports whether the name was present.
    pub fn remove(&mut self, name: &String) -> (removed: bool)
        requires
            old(self).wf(),
        ensures
            final(self).wf(),
            removed == old(self).folder_names().contains(name@),
            final(self).folder_names() == without_name(old(self).folder_names(), name@),
    {
        let ghost before = views(self.folders@);
        let ghost p = differs_from(name@);
        let mut kept: Vec<String> = Vec::new();
        let mut found = false;
        let mut i: usize = 0;
        while i < self.folders.len()
            invariant
                0 <= i <= self.folders@.len(),
                views(self.folders@) == before,
                p == differs_from(name@),
                views(kept@) == before.subrange(0, i as int).filter(p),
                found == before.subrange(0, i as int).contains(name@),
            decreases self.folders@.len() - i,
        {
            let ghost prefix = before.subrange(0, i as int);
            let keep_it = !(self.folders[i] == *name);
            proof {
                assert(before[i as int] == self.folders@[i as int]@);
                assert(p(before[i as int]) == keep_it);
            }
            if keep_it {
                let f = self.folders[i].clone();
                proof {
                    lemma_views_push(kept@, f);
                }
                kept.push(f);
            } else {
                found = true;
            }
            proof {
                reveal(Seq::filter);
                let prefix1 = before.subrange(0, i as int + 1);
                assert(prefix1.drop_last() =~= prefix);
                assert(prefix1.last() == before[i as int]);
                if keep_it {
                    assert(prefix1.filter(p) == prefix.filter(p).push(prefix1.last()));
                } else {
                    assert(prefix1.filter(p) == prefix.filter(p));
                }
                // membership of the name in the longer prefix
                if before[i as int] == name@ {
                    assert(prefix1.contains(name@));
                } else {
                    assert(prefix1.contains(name@) == prefix.contains(name@)) by {
                        if prefix.contains(name@) {
                            let j = choose|j: int| 0 <= j < prefix.len() && prefix[j] == name@;
                            assert(prefix1[j] == name@);
                        } else if prefix1.contains(name@) {
                            let j = choose|j: int| 0 <= j < prefix1.len() && prefix1[j] == name@;
                            assert(j < prefix.len());
                            assert(prefix[j] == name@);
                        }
                    }
                }
            }
            i = i + 1;
        }
        proof {
            assert(before.subrange(0, before.len() as int) =~= before);
            assert(views(kept@) == without_name(before, name@));
            lemma_filter_no_duplicates(before, p);
            lemma_filter_subset(before, p);
        }
        self.folders = kept;
        self.rebuild_styles();
        proof {
            let after = views(self.folders@);
            assert forall|i2: int| 0 <= i2 < after.len() implies (#[trigger] after[i2]).len()
                > 0 by {
                assert(after.contains(after[i2]));
                assert(before.contains(after[i2]));
            }
        }
        found
    }

    /// Moves the named folder to the given position (clamped to the end of
    /// the list), keeping every other folder's relative order; reports
    /// whether the name was present. The next `add` re-sorts the list.
    pub fn reorder(&mut self, name: &String, new_index: usize) -> (moved: bool)
        requires
            old(self).wf(),
        ensures
            final(self).wf(),
            moved == old(self).folder_names().contains(name@),
            !moved ==> *final(self) == *old(self),
            moved ==> ({
                let i = old(self).folder_names().index_of(name@);
                let j = if new_index as int <= old(self).folder_names().len() - 1 {
                    new_index as int
                } else {
                    old(self).folder_names().len() - 1
                };
                final(self).folder_names() == old(self).folder_names().remove(i).insert(j, name@)
            }),
            moved ==> final(self).folder_names().to_multiset() == old(
                self,
            ).folder_names().to_multiset(),
    {
        let ghost before = views(self.folders@);
        // find the folder's position
        let mut idx: usize = 0;
        let mut present = false;
        loop
            invariant
                0 <= idx <= before.len(),
                views(self.folders@) == before,
                self.folders@.len() == before.len(),
                !present ==> forall|k: int| 0 <= k < idx ==> before[k] != name@,
                present ==> idx < before.len() && before[idx as int] == name@,
            ensures
                views(self.folders@) == before,
                present == before.contains(name@),
                present ==> idx < before.len() && before[idx as int] == name@,
            decreases before.len() - idx + if present {
                0int
            } else {
                1int
            },
        {
            if idx >= self.folders.len() {
                proof {
                    if before.contains(name@) {
                        let j = choose|j: int| 0 <= j < before.len() && before[j] == name@;
                        assert(before[j] != name@);
                    }
                }
                break ;
            }
            if self.folders[idx] == *name {
                present = true;
                proof {
                    assert(before[idx as int] == self.folders@[idx as int]@);
                }
                break ;
            }
            proof {
                assert(before[idx as int] == self.folders@[idx as int]@);
            }
            idx = idx + 1;
        }
        if !present {
            return false;
        }
        proof {
            assert(exists|j: int| 0 <= j < before.len() && before[j] == name@);
            let c = before.index_of(name@);
            assert(0 <= c < before.len() && before[c] == name@);
            if c != idx as int {
                assert(false);
            }
        }
        let x = self.folders.remove(idx);
        let j = if new_index <= self.folders.len() {
            new_index
        } else {
            self.folders.len()
        };
        self.folders.insert(j, x);
        proof {
            let after = views(self.folders@);
            assert(after.len() == before.len());
            assert forall|k: int| 0 <= k < after.len() implies after[k] == before.remove(
                idx as int,
            ).insert(j as int, name@)[k] by {
                assert(after[k] == self.folders@[k]@);
            }
            assert(after =~= before.remove(idx as int).insert(j as int, name@));
            lemma_remove_insert_multiset(before, idx as int, j as int);
            // distinctness and non-emptiness follow from the unchanged multiset
            before.to_multiset_ensures();
            after.to_multiset_ensures();
            before.lemma_multiset_has_no_duplicates();
            assert forall|x2: Seq<char>| after.to_multiset().contains(x2) implies after.to_multiset().count(
                x2,
            ) == 1 by {
                assert(after.to_multiset().count(x2) == before.to_multiset().count(x2));
            }
            after.lemma_multiset_has_no_duplicates_conv();
            assert forall|i2: int| 0 <= i2 < after.len() implies (#[trigger] after[i2]).len()
                > 0 by {
                assert(after.contains(after[i2]));
                assert(after.to_multiset().count(after[i2]) > 0);
                assert(before.to_multiset().count(after[i2]) > 0);
                assert(before.contains(after[i2]));
            }
        }
        self.rebuild_styles();
        true
    }

    /// Removes every folder and style record.
    pub fn clear(&mut self)
        ensures
            final(self).wf(),
            final(self).folder_names() == Seq::<Seq<char>>::empty(),
    {
        self.folders = Vec::new();
        self.styles = Vec::new();
        proof {
            assert(self.folder_names() =~= Seq::<Seq<char>>::empty());
            assert(style_names(self.styles@) =~= self.folder_names());
        }
    }

    /// The folder names in their current order, as a fresh vector.
    pub fn get_folders(&self) -> (r: Vec<String>)
        ensures
            views(r@) == self.folder_names(),
    {
        let mut r: Vec<String> = Vec::new();
        let mut i: usize = 0;
        while i < self.folders.len()
            invariant
                0 <= i <= self.folders@.len(),
                views(r@) == self.folder_names().subrange(0, i as int),
            decreases self.folders@.len() - i,
        {
            let f = self.folders[i].clone();
            proof {
                lemma_views_push(r@, f);
            }
            r.push(f);
            proof {
                assert(views(r@) =~= self.folder_names().subrange(0, i as int + 1));
            }
            i = i + 1;
        }
        proof {
            assert(self.folder_names().subrange(0, self.folders@.len() as int)
                =~= self.folder_names());
        }
        r
    }

    /// Rebuilds a registry from loaded snapshots: the folder names must be
    /// unique and non-empty and the style names must mirror them exactly,
    /// else nothing is restored.
    pub fn from_loaded(folders: Vec<String>, style_names: Vec<String>) -> (r: Option<
        FolderRegistry,
    >)
        ensures
            r is Some <==> loadable(views(folders@), views(style_names@)),
            r matches Some(reg) ==> reg.wf() && reg.folder_names() == views(folders@),
    {
        if folders.len() != style_names.len() {
            proof {
                assert(views(folders@).len() != views(style_names@).len());
            }
            return None;
        }
        let mut i: usize = 0;
        while i < folders.len()
            invariant
                0 <= i <= folders@.len(),
                folders@.len() == style_names@.len(),
                forall|k: int| 0 <= k < i ==> views(style_names@)[k] == views(folders@)[k],
            decreases folders@.len() - i,
        {
            if !(folders[i] == style_names[i]) {
                proof {
                    assert(views(folders@)[i as int] != views(style_names@)[i as int]);
                }
                return None;
            }
            proof {
                assert(views(style_names@)[i as int] == views(folders@)[i as int]);
            }
            i = i + 1;
        }
        proof {
            assert(views(style_names@) =~= views(folders@));
        }
        let mut a: usize = 0;
        while a < folders.len()
            invariant
                0 <= a <= folders@.len(),
                views(style_names@) == views(folders@),
                forall|k: int| 0 <= k < a ==> (#[trigger] views(folders@)[k]).len() > 0,
                forall|x: int, y: int|
                    0 <= x < y < a ==> views(folders@)[x] != views(folders@)[y],
            decreases folders@.len() - a,
        {
            if folders[a].as_str().is_empty() {
                proof {
                    assert(views(folders@)[a as int].len() == 0);
                }
                return None;
            }
            let mut b: usize = 0;
            while b < a
                invariant
                    0 <= b <= a < folders@.len(),
                    views(style_names@) == views(folders@),
                    forall|y: int| 0 <= y < b ==> views(folders@)[y] != views(folders@)[a as int],
                decreases a - b,
            {
                if folders[b] == folders[a] {
                    proof {
                        assert(views(folders@)[b as int] == views(folders@)[a as int]);
                        assert(!views(folders@).no_duplicates());
                    }
                    return None;
                }
                proof {
                    assert(views(folders@)[b as int] != views(folders@)[a as int]);
                }
                b = b + 1;
            }
            proof {
                assert(views(folders@)[a as int].len() > 0);
            }
            a = a + 1;
        }
        let mut reg = FolderRegistry { folders, styles: Vec::new() };
        reg.rebuild_styles();
        proof {
            assert(reg.folder_names().no_duplicates());
        }
        Some(reg)
    }

    /// Whether the named folder exists.
    pub fn contains(&self, name: &String) -> (r: bool)
        ensures
            r == self.folder_names().contains(name@),
    {
        contains_string(&self.folders, name)
    }

    /// How many folders there are.
    pub fn len(&self) -> (n: usize)
        ensures
            n == self.folder_names().len(),
    {
        self.folders.len()
    }
}

} // verus!
