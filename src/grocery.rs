//! The category and entry services over one grocery list.
//!
//! Categories and entries are each kept in display order, and the position of
//! a record is its index. Entry positions are global across all entries. A
//! deleted category leaves its entries in place without a category.

use vstd::prelude::*;
use crate::model::{Category, Entry, EntryChanges, ServiceError};
use crate::ordering::{no_duplicates, plan_reorder, reorder_valid, reordered, lemma_reordered_permutes};

verus! {

pub open spec fn category_ids(cs: Seq<Category>) -> Seq<u64> {
    cs.map_values(|c: Category| c.id)
}

pub open spec fn entry_ids(es: Seq<Entry>) -> Seq<u64> {
    es.map_values(|e: Entry| e.id)
}

/// Each category moved to the position of its index.
pub open spec fn renumber_categories(cs: Seq<Category>) -> Seq<Category> {
    cs.map(|k: int, c: Category| Category { position: k as u64, ..c })
}

/// Each entry moved to the position of its index.
pub open spec fn renumber_entries(es: Seq<Entry>) -> Seq<Entry> {
    es.map(|k: int, e: Entry| Entry { position: k as u64, ..e })
}

/// The index of the record with the given id.
pub open spec fn category_index(cs: Seq<Category>, id: u64) -> int {
    choose|i: int| 0 <= i < cs.len() && cs[i].id == id
}

pub open spec fn entry_index(es: Seq<Entry>, id: u64) -> int {
    choose|i: int| 0 <= i < es.len() && es[i].id == id
}

/// The entry with the given id, if there is one.
pub open spec fn lookup_entry(es: Seq<Entry>, id: u64) -> Option<Entry> {
    if entry_ids(es).contains(id) {
        Some(es[entry_index(es, id)])
    } else {
        None
    }
}

/// An entry that loses its category when category `id` is deleted.
pub open spec fn detach_entry(e: Entry, id: u64) -> Entry {
    if e.category_id == Some(id) {
        Entry { category_id: None, ..e }
    } else {
        e
    }
}

/// The records of `s` taken at the given indices, each at the position of its
/// new index.
pub open spec fn pick_categories(s: Seq<Category>, p: Seq<usize>) -> Seq<Category> {
    p.map(|k: int, i: usize| Category { position: k as u64, ..s[i as int] })
}

pub open spec fn pick_entries(s: Seq<Entry>, p: Seq<usize>) -> Seq<Entry> {
    p.map(|k: int, i: usize| Entry { position: k as u64, ..s[i as int] })
}

/// A category may be referenced: `None`, or the id of a category that exists.
pub open spec fn reference_ok(cs: Seq<Category>, c: Option<u64>) -> bool {
    match c {
        Some(id) => category_ids(cs).contains(id),
        None => true,
    }
}

/// The grocery list: its categories and entries in display order, and the
/// next fresh id of each.
pub struct GroceryList {
    pub categories: Vec<Category>,
    pub entries: Vec<Entry>,
    pub next_category_id: u64,
    pub next_entry_id: u64,
}

impl GroceryList {
    /// Positions are indices, ids are distinct and below the next fresh id,
    /// and every entry's category exists.
    pub open spec fn wf(&self) -> bool {
        &&& forall|i: int|
            0 <= i < self.categories@.len() ==> #[trigger] self.categories@[i].position == i
        &&& no_duplicates(category_ids(self.categories@))
        &&& forall|i: int|
            0 <= i < self.categories@.len() ==> #[trigger] self.categories@[i].id
                < self.next_category_id
        &&& forall|i: int| 0 <= i < self.entries@.len() ==> #[trigger] self.entries@[i].position == i
        &&& no_duplicates(entry_ids(self.entries@))
        &&& forall|i: int|
            0 <= i < self.entries@.len() ==> #[trigger] self.entries@[i].id < self.next_entry_id
        &&& forall|i: int|
            0 <= i < self.entries@.len() ==> reference_ok(
                self.categories@,
                #[trigger] self.entries@[i].category_id,
            )
    }

    /// An empty list.
    pub fn new() -> (r: GroceryList)
        ensures
            r.wf(),
            r.categories@.len() == 0,
            r.entries@.len() == 0,
            r.next_category_id == 1,
            r.next_entry_id == 1,
    {
        GroceryList {
            categories: Vec::new(),
            entries: Vec::new(),
            next_category_id: 1,
            next_entry_id: 1,
        }
    }

    /// Where the category with the given id stands.
    pub fn find_category(&self, id: u64) -> (r: Option<usize>)
        ensures
            match r {
                Some(i) => i < self.categories@.len() && self.categories@[i as int].id == id,
                None => !category_ids(self.categories@).contains(id),
            },
    {
        let mut i: usize = 0;
        while i < self.categories.len()
            invariant
                i <= self.categories@.len(),
                forall|j: int| 0 <= j < i ==> self.categories@[j].id != id,
            decreases self.categories@.len() - i,
        {
            if self.categories[i].id == id {
                return Some(i);
            }
            i = i + 1;
        }
        assert forall|j: int| 0 <= j < category_ids(self.categories@).len() implies category_ids(
            self.categories@,
        )[j] != id by {}
        None
    }

    /// Where the entry with the given id stands.
    pub fn find_entry(&self, id: u64) -> (r: Option<usize>)
        ensures
            match r {
                Some(i) => i < self.entries@.len() && self.entries@[i as int].id == id,
                None => !entry_ids(self.entries@).contains(id),
            },
    {
        let mut i: usize = 0;
        while i < self.entries.len()
            invariant
                i <= self.entries@.len(),
                forall|j: int| 0 <= j < i ==> self.entries@[j].id != id,
            decreases self.entries@.len() - i,
        {
            if self.entries[i].id == id {
                return Some(i);
            }
            i = i + 1;
        }
        assert forall|j: int| 0 <= j < entry_ids(self.entries@).len() implies entry_ids(
            self.entries@,
        )[j] != id by {}
        None
    }

    /// All categories, ordered by position.
    pub fn list_categories(&self) -> (r: Vec<Category>)
        ensures
            r@ == self.categories@,
    {
        let mut r: Vec<Category> = Vec::new();
        let mut i: usize = 0;
        while i < self.categories.len()
            invariant
                i <= self.categories@.len(),
                r@ == self.categories@.take(i as int),
            decreases self.categories@.len() - i,
        {
            r.push(self.categories[i].duplicate());
            i = i + 1;
            assert(r@ =~= self.categories@.take(i as int));
        }
        assert(self.categories@.take(i as int) =~= self.categories@);
        r
    }

    /// All entries, ordered by position.
    pub fn list_entries(&self) -> (r: Vec<Entry>)
        ensures
            r@ == self.entries@,
    {
        let mut r: Vec<Entry> = Vec::new();
        let mut i: usize = 0;
        while i < self.entries.len()
            invariant
                i <= self.entries@.len(),
                r@ == self.entries@.take(i as int),
            decreases self.entries@.len() - i,
        {
            r.push(self.entries[i].duplicate());
            i = i + 1;
            assert(r@ =~= self.entries@.take(i as int));
        }
        assert(self.entries@.take(i as int) =~= self.entries@);
        r
    }
}

impl GroceryList {
    /// Adds a category named `name` at the end of the order.
    pub fn create_category(&mut self, name: String, now: i64) -> (r: Result<Category, ServiceError>)
        requires
            old(self).wf(),
            old(self).next_category_id < u64::MAX,
        ensures
            final(self).wf(),
            r is Err <==> name@.len() == 0,
            match r {
                Ok(c) => {
                    &&& c == (Category {
                        id: old(self).next_category_id,
                        name,
                        position: old(self).categories@.len() as u64,
                        created_at: now,
                        updated_at: now,
                    })
                    &&& final(self).categories@ == old(self).categories@.push(c)
                    &&& final(self).entries@ == old(self).entries@
                    &&& final(self).next_category_id == old(self).next_category_id + 1
                    &&& final(self).next_entry_id == old(self).next_entry_id
                },
                Err(e) => e == ServiceError::Validation && *final(self) == *old(self),
            },
    {
        if name.as_str().is_empty() {
            return Err(ServiceError::Validation);
        }
        let c = Category {
            id: self.next_category_id,
            name,
            position: self.categories.len() as u64,
            created_at: now,
            updated_at: now,
        };
        let ghost before = self.categories@;
        self.categories.push(c.duplicate());
        self.next_category_id = self.next_category_id + 1;
        assert(category_ids(self.categories@) =~= category_ids(before).push(c.id));
        assert forall|x: u64| category_ids(before).contains(x) implies category_ids(
            self.categories@,
        ).contains(x) by {
            let i = choose|i: int| 0 <= i < category_ids(before).len() && category_ids(before)[i] == x;
            assert(category_ids(self.categories@)[i] == x);
        }
        Ok(c)
    }

    /// Renames the category with the given id.
    pub fn update_category(&mut self, id: u64, name: String, now: i64) -> (r: Result<
        Category,
        ServiceError,
    >)
        requires
            old(self).wf(),
        ensures
            final(self).wf(),
            r == Err::<Category, ServiceError>(ServiceError::NotFound) <==> !category_ids(
                old(self).categories@,
            ).contains(id),
            r == Err::<Category, ServiceError>(ServiceError::Validation) <==> (category_ids(
                old(self).categories@,
            ).contains(id) && name@.len() == 0),
            match r {
                Ok(c) => {
                    let i = category_index(old(self).categories@, id);
                    &&& c == (Category { name, updated_at: now, ..old(self).categories@[i] })
                    &&& final(self).categories@ == old(self).categories@.update(i, c)
                    &&& final(self).entries@ == old(self).entries@
                    &&& final(self).next_category_id == old(self).next_category_id
                    &&& final(self).next_entry_id == old(self).next_entry_id
                },
                Err(_) => *final(self) == *old(self),
            },
    {
        let i = match self.find_category(id) {
            Some(i) => i,
            None => {
                return Err(ServiceError::NotFound);
            },
        };
        proof {
            let k = category_index(self.categories@, id);
            assert(category_ids(self.categories@)[i as int] == id);
            assert(category_ids(self.categories@)[k] == id);
        }
        if name.as_str().is_empty() {
            return Err(ServiceError::Validation);
        }
        let old_c = self.categories[i].duplicate();
        let c = Category { name, updated_at: now, ..old_c };
        let ghost before = self.categories@;
        self.categories.set(i, c.duplicate());
        assert(category_ids(self.categories@) =~= category_ids(before));
        Ok(c)
    }

    /// Removes the category with the given id, closes the gap in the
    /// positions, and leaves its entries without a category.
    pub fn delete_category(&mut self, id: u64) -> (r: Result<(), ServiceError>)
        requires
            old(self).wf(),
        ensures
            final(self).wf(),
            r is Err <==> !category_ids(old(self).categories@).contains(id),
            match r {
                Ok(_) => {
                    &&& final(self).categories@ == renumber_categories(
                        old(self).categories@.remove(category_index(old(self).categories@, id)),
                    )
                    &&& final(self).entries@ == old(self).entries@.map_values(
                        |e: Entry| detach_entry(e, id),
                    )
                    &&& !category_ids(final(self).categories@).contains(id)
                    &&& forall|i: int|
                        0 <= i < final(self).entries@.len() ==> reference_ok(
                            final(self).categories@,
                            #[trigger] final(self).entries@[i].category_id,
                        )
                    &&& final(self).next_category_id == old(self).next_category_id
                    &&& final(self).next_entry_id == old(self).next_entry_id
                },
                Err(e) => e == ServiceError::NotFound && *final(self) == *old(self),
            },
    {
        let i = match self.find_category(id) {
            Some(i) => i,
            None => {
                return Err(ServiceError::NotFound);
            },
        };
        let ghost old_cats = self.categories@;
        let ghost old_entries = self.entries@;
        proof {
            let k = category_index(old_cats, id);
            assert(category_ids(old_cats)[i as int] == id);
            assert(category_ids(old_cats)[k] == id);
        }
        let ghost rest = old_cats.remove(i as int);
        self.categories.remove(i);
        assert forall|j: int| 0 <= j < i implies self.categories@[j] == renumber_categories(
            rest,
        )[j] by {
            assert(rest[j] == old_cats[j]);
            assert(old_cats[j].position == j);
        }
        let mut k: usize = i;
        while k < self.categories.len()
            invariant
                i <= k <= self.categories@.len(),
                self.entries@ == old_entries,
                self.next_category_id == old(self).next_category_id,
                self.next_entry_id == old(self).next_entry_id,
                self.categories@.len() == rest.len(),
                forall|j: int| 0 <= j < k ==> self.categories@[j] == renumber_categories(rest)[j],
                forall|j: int| k <= j < rest.len() ==> self.categories@[j] == rest[j],
                forall|j: int| 0 <= j < i ==> #[trigger] rest[j] == old_cats[j],
                forall|j: int| 0 <= j < old_cats.len() ==> #[trigger] old_cats[j].position == j,
            decreases self.categories@.len() - k,
        {
            let c = self.categories[k].duplicate();
            self.categories.set(k, Category { position: k as u64, ..c });
            k = k + 1;
        }
        assert(self.categories@ =~= renumber_categories(rest));
        let mut m: usize = 0;
        while m < self.entries.len()
            invariant
                m <= self.entries@.len(),
                self.categories@ == renumber_categories(rest),
                self.next_category_id == old(self).next_category_id,
                self.next_entry_id == old(self).next_entry_id,
                self.entries@.len() == old_entries.len(),
                forall|j: int| 0 <= j < m ==> self.entries@[j] == detach_entry(old_entries[j], id),
                forall|j: int| m <= j < old_entries.len() ==> self.entries@[j] == old_entries[j],
            decreases self.entries@.len() - m,
        {
            if self.entries[m].category_id == Some(id) {
                let e = self.entries[m].duplicate();
                self.entries.set(m, Entry { category_id: None, ..e });
            }
            m = m + 1;
        }
        assert(self.entries@ =~= old_entries.map_values(|e: Entry| detach_entry(e, id)));
        proof {
            let ci = category_ids(old_cats);
            let cn = category_ids(self.categories@);
            assert(self.categories@.len() == rest.len());
            assert(rest.len() == old_cats.len() - 1);
            assert(ci.len() == cn.len() + 1);
            assert forall|j: int| 0 <= j < rest.len() implies #[trigger] rest[j] == (if j < i {
                old_cats[j]
            } else {
                old_cats[j + 1]
            }) by {}
            assert forall|j: int| 0 <= j < cn.len() implies #[trigger] cn[j] == (if j < i {
                ci[j]
            } else {
                ci[j + 1]
            }) by {}
            assert forall|x: u64| cn.contains(x) <==> (ci.contains(x) && x != id) by {
                if cn.contains(x) {
                    let j = choose|j: int| 0 <= j < cn.len() && cn[j] == x;
                    if j < i {
                        assert(ci[j] == x);
                    } else {
                        assert(ci[j + 1] == x);
                    }
                }
                if ci.contains(x) && x != id {
                    let j = choose|j: int| 0 <= j < ci.len() && ci[j] == x;
                    if j < i {
                        assert(cn[j] == x);
                    } else {
                        assert(j != i);
                        assert(cn[j - 1] == x);
                    }
                }
            }
            assert(no_duplicates(cn)) by {
                assert forall|a: int, b: int| 0 <= a < b < cn.len() implies cn[a] != cn[b] by {
                    let a2 = if a < i { a } else { a + 1 };
                    let b2 = if b < i { b } else { b + 1 };
                    assert(cn[a] == ci[a2] && cn[b] == ci[b2]);
                }
            }
            assert(category_ids(self.categories@).len() == self.categories@.len());
            let ei = entry_ids(old_entries);
            assert(entry_ids(self.entries@) =~= ei);
            assert forall|j: int| 0 <= j < self.entries@.len() implies reference_ok(
                self.categories@,
                #[trigger] self.entries@[j].category_id,
            ) by {
                assert(reference_ok(old_cats, old_entries[j].category_id));
            }
            assert forall|j: int| 0 <= j < self.categories@.len() implies #[trigger] self.categories@[j].id
                < self.next_category_id by {
                assert(cn[j] == self.categories@[j].id);
                if j < i {
                    assert(old_cats[j].id == ci[j]);
                } else {
                    assert(old_cats[j + 1].id == ci[j + 1]);
                }
            }
        }
        Ok(())
    }

    /// Puts the categories in the order that `ids` gives, those it does not
    /// list after them in their former order; nothing changes when `ids`
    /// repeats an id or lists an unknown one.
    pub fn reorder_categories(&mut self, ids: &Vec<u64>) -> (r: Result<Vec<Category>, ServiceError>)
        requires
            old(self).wf(),
        ensures
            final(self).wf(),
            r is Ok <==> reorder_valid(category_ids(old(self).categories@), ids@),
            match r {
                Ok(v) => {
                    &&& v@ == final(self).categories@
                    &&& category_ids(final(self).categories@) == reordered(
                        category_ids(old(self).categories@),
                        ids@,
                    )
                    &&& forall|k: int| 0 <= k < final(self).categories@.len() ==> {
                        let c = #[trigger] final(self).categories@[k];
                        let o = old(self).categories@[category_index(old(self).categories@, c.id)];
                        c == (Category { position: k as u64, ..o })
                    }
                    &&& final(self).entries@ == old(self).entries@
                    &&& final(self).next_category_id == old(self).next_category_id
                    &&& final(self).next_entry_id == old(self).next_entry_id
                },
                Err(e) => e == ServiceError::Validation && *final(self) == *old(self),
            },
    {
        let mut current: Vec<u64> = Vec::new();
        let mut i: usize = 0;
        while i < self.categories.len()
            invariant
                i <= self.categories@.len(),
                current@ == category_ids(self.categories@).take(i as int),
            decreases self.categories@.len() - i,
        {
            current.push(self.categories[i].id);
            i = i + 1;
            assert(current@ =~= category_ids(self.categories@).take(i as int));
        }
        assert(current@ =~= category_ids(self.categories@));
        let p = match plan_reorder(&current, ids) {
            Ok(p) => p,
            Err(e) => {
                return Err(e);
            },
        };
        let ghost old_cats = self.categories@;
        let ghost target = reordered(current@, ids@);
        proof {
            lemma_reordered_permutes(current@, ids@);
        }
        let mut next: Vec<Category> = Vec::new();
        let mut k: usize = 0;
        while k < p.len()
            invariant
                k <= p@.len(),
                old_cats == self.categories@,
                p@.len() == target.len(),
                forall|j: int|
                    0 <= j < p@.len() ==> #[trigger] p@[j] < current@.len() && current@[p@[j] as int]
                        == target[j],
                current@.len() == old_cats.len(),
                next@.len() == k,
                forall|j: int|
                    0 <= j < k ==> #[trigger] next@[j] == (Category {
                        position: j as u64,
                        ..old_cats[p@[j] as int]
                    }),
            decreases p@.len() - k,
        {
            let c = self.categories[p[k]].duplicate();
            next.push(Category { position: k as u64, ..c });
            k = k + 1;
        }
        proof {
            let ni = category_ids(next@);
            assert forall|j: int| 0 <= j < ni.len() implies #[trigger] ni[j] == target[j] by {
                assert(category_ids(old_cats)[p@[j] as int] == current@[p@[j] as int]);
            }
            assert(ni =~= target);
            assert forall|j: int| 0 <= j < next@.len() implies #[trigger] next@[j].id
                < self.next_category_id by {
                assert(old_cats[p@[j] as int].position == p@[j]);
            }
            assert forall|j: int| 0 <= j < self.entries@.len() implies reference_ok(
                next@,
                #[trigger] self.entries@[j].category_id,
            ) by {
                assert(reference_ok(old_cats, self.entries@[j].category_id));
                if let Some(c) = self.entries@[j].category_id {
                    assert(target.contains(c));
                }
            }
            assert forall|j: int| 0 <= j < next@.len() implies {
                let c = #[trigger] next@[j];
                let o = old_cats[category_index(old_cats, c.id)];
                c == (Category { position: j as u64, ..o })
            } by {
                let q = p@[j] as int;
                let t = category_index(old_cats, next@[j].id);
                assert(category_ids(old_cats)[q] == next@[j].id);
                assert(category_ids(old_cats)[t] == next@[j].id);
            }
        }
        self.categories = next;
        Ok(self.list_categories())
    }
}

/// An entry after `changes` at time `now`.
pub open spec fn apply_changes(e: Entry, changes: EntryChanges, now: i64) -> Entry {
    Entry {
        name: match changes.name {
            Some(n) => n,
            None => e.name,
        },
        category_id: match changes.category_id {
            Some(c) => c,
            None => e.category_id,
        },
        completed: match changes.completed {
            Some(c) => c,
            None => e.completed,
        },
        updated_at: now,
        ..e
    }
}

/// The changes of an entry update are acceptable.
pub open spec fn changes_ok(cs: Seq<Category>, changes: EntryChanges) -> bool {
    &&& match changes.name {
        Some(n) => n@.len() > 0,
        None => true,
    }
    &&& match changes.category_id {
        Some(c) => reference_ok(cs, c),
        None => true,
    }
}

impl GroceryList {
    /// Whether `c` may stand as an entry's category.
    fn reference_exists(&self, c: Option<u64>) -> (r: bool)
        ensures
            r == reference_ok(self.categories@, c),
    {
        match c {
            Some(id) => match self.find_category(id) {
                Some(i) => {
                    assert(category_ids(self.categories@)[i as int] == id);
                    true
                },
                None => false,
            },
            None => true,
        }
    }

    /// The entry with the given id.
    pub fn get_entry(&self, id: u64) -> (r: Option<Entry>)
        requires
            self.wf(),
        ensures
            r == lookup_entry(self.entries@, id),
    {
        match self.find_entry(id) {
            Some(i) => {
                proof {
                    let k = entry_index(self.entries@, id);
                    assert(entry_ids(self.entries@)[i as int] == id);
                    assert(entry_ids(self.entries@)[k] == id);
                }
                Some(self.entries[i].duplicate())
            },
            None => None,
        }
    }

    /// Adds an entry named `name` at the end of the order.
    pub fn create_entry(&mut self, name: String, category_id: Option<u64>, now: i64) -> (r: Result<
        Entry,
        ServiceError,
    >)
        requires
            old(self).wf(),
            old(self).next_entry_id < u64::MAX,
        ensures
            final(self).wf(),
            r is Err <==> (name@.len() == 0 || !reference_ok(old(self).categories@, category_id)),
            match r {
                Ok(e) => {
                    &&& e == (Entry {
                        id: old(self).next_entry_id,
                        name,
                        category_id,
                        completed: false,
                        position: old(self).entries@.len() as u64,
                        created_at: now,
                        updated_at: now,
                    })
                    &&& final(self).entries@ == old(self).entries@.push(e)
                    &&& final(self).categories@ == old(self).categories@
                    &&& final(self).next_entry_id == old(self).next_entry_id + 1
                    &&& final(self).next_category_id == old(self).next_category_id
                },
                Err(e) => e == ServiceError::Validation && *final(self) == *old(self),
            },
    {
        if name.as_str().is_empty() || !self.reference_exists(category_id) {
            return Err(ServiceError::Validation);
        }
        let e = Entry {
            id: self.next_entry_id,
            name,
            category_id,
            completed: false,
            position: self.entries.len() as u64,
            created_at: now,
            updated_at: now,
        };
        let ghost before = self.entries@;
        self.entries.push(e.duplicate());
        self.next_entry_id = self.next_entry_id + 1;
        assert(entry_ids(self.entries@) =~= entry_ids(before).push(e.id));
        Ok(e)
    }

    /// Changes the fields of the entry with the given id.
    pub fn update_entry(&mut self, id: u64, changes: EntryChanges, now: i64) -> (r: Result<
        Entry,
        ServiceError,
    >)
        requires
            old(self).wf(),
        ensures
            final(self).wf(),
            r == Err::<Entry, ServiceError>(ServiceError::NotFound) <==> !entry_ids(
                old(self).entries@,
            ).contains(id),
            r == Err::<Entry, ServiceError>(ServiceError::Validation) <==> (entry_ids(
                old(self).entries@,
            ).contains(id) && !changes_ok(old(self).categories@, changes)),
            match r {
                Ok(e) => {
                    let i = entry_index(old(self).entries@, id);
                    &&& e == apply_changes(old(self).entries@[i], changes, now)
                    &&& final(self).entries@ == old(self).entries@.update(i, e)
                    &&& final(self).categories@ == old(self).categories@
                    &&& final(self).next_category_id == old(self).next_category_id
                    &&& final(self).next_entry_id == old(self).next_entry_id
                },
                Err(_) => *final(self) == *old(self),
            },
    {
        let i = match self.find_entry(id) {
            Some(i) => i,
            None => {
                return Err(ServiceError::NotFound);
            },
        };
        proof {
            let k = entry_index(self.entries@, id);
            assert(entry_ids(self.entries@)[i as int] == id);
            assert(entry_ids(self.entries@)[k] == id);
        }
        let name_ok = match &changes.name {
            Some(n) => !n.as_str().is_empty(),
            None => true,
        };
        let category_ok = match changes.category_id {
            Some(c) => self.reference_exists(c),
            None => true,
        };
        if !name_ok || !category_ok {
            return Err(ServiceError::Validation);
        }
        let old_e = self.entries[i].duplicate();
        let name = match changes.name {
            Some(n) => n,
            None => old_e.name.clone(),
        };
        let category_id = match changes.category_id {
            Some(c) => c,
            None => old_e.category_id,
        };
        let completed = match changes.completed {
            Some(c) => c,
            None => old_e.completed,
        };
        let e = Entry { name, category_id, completed, updated_at: now, ..old_e };
        let ghost before = self.entries@;
        self.entries.set(i, e.duplicate());
        assert(entry_ids(self.entries@) =~= entry_ids(before));
        Ok(e)
    }

    /// Removes the entry with the given id and closes the gap in the positions.
    pub fn delete_entry(&mut self, id: u64) -> (r: Result<(), ServiceError>)
        requires
            old(self).wf(),
        ensures
            final(self).wf(),
            r is Err <==> !entry_ids(old(self).entries@).contains(id),
            match r {
                Ok(_) => {
                    &&& final(self).entries@ == renumber_entries(
                        old(self).entries@.remove(entry_index(old(self).entries@, id)),
                    )
                    &&& !entry_ids(final(self).entries@).contains(id)
                    &&& final(self).categories@ == old(self).categories@
                    &&& final(self).next_category_id == old(self).next_category_id
                    &&& final(self).next_entry_id == old(self).next_entry_id
                },
                Err(e) => e == ServiceError::NotFound && *final(self) == *old(self),
            },
    {
        let i = match self.find_entry(id) {
            Some(i) => i,
            None => {
                return Err(ServiceError::NotFound);
            },
        };
        let ghost old_entries = self.entries@;
        proof {
            let k = entry_index(old_entries, id);
            assert(entry_ids(old_entries)[i as int] == id);
            assert(entry_ids(old_entries)[k] == id);
        }
        let ghost rest = old_entries.remove(i as int);
        self.entries.remove(i);
        assert forall|j: int| 0 <= j < i implies self.entries@[j] == renumber_entries(rest)[j] by {
            assert(rest[j] == old_entries[j]);
            assert(old_entries[j].position == j);
        }
        let mut k: usize = i;
        while k < self.entries.len()
            invariant
                i <= k <= self.entries@.len(),
                self.categories@ == old(self).categories@,
                self.next_category_id == old(self).next_category_id,
                self.next_entry_id == old(self).next_entry_id,
                self.entries@.len() == rest.len(),
                forall|j: int| 0 <= j < k ==> self.entries@[j] == renumber_entries(rest)[j],
                forall|j: int| k <= j < rest.len() ==> self.entries@[j] == rest[j],
            decreases self.entries@.len() - k,
        {
            let e = self.entries[k].duplicate();
            self.entries.set(k, Entry { position: k as u64, ..e });
            k = k + 1;
        }
        assert(self.entries@ =~= renumber_entries(rest));
        proof {
            let ei = entry_ids(old_entries);
            let en = entry_ids(self.entries@);
            assert(ei.len() == en.len() + 1);
            assert forall|j: int| 0 <= j < rest.len() implies #[trigger] rest[j] == (if j < i {
                old_entries[j]
            } else {
                old_entries[j + 1]
            }) by {}
            assert forall|j: int| 0 <= j < en.len() implies #[trigger] en[j] == (if j < i {
                ei[j]
            } else {
                ei[j + 1]
            }) by {}
            assert(!en.contains(id)) by {
                if en.contains(id) {
                    let j = choose|j: int| 0 <= j < en.len() && en[j] == id;
                    if j < i {
                        assert(ei[j] == ei[i as int]);
                    } else {
                        assert(ei[j + 1] == ei[i as int]);
                    }
                }
            }
            assert(no_duplicates(en)) by {
                assert forall|a: int, b: int| 0 <= a < b < en.len() implies en[a] != en[b] by {
                    let a2 = if a < i { a } else { a + 1 };
                    let b2 = if b < i { b } else { b + 1 };
                    assert(en[a] == ei[a2] && en[b] == ei[b2]);
                }
            }
            assert forall|j: int| 0 <= j < self.entries@.len() implies #[trigger] self.entries@[j].id
                < self.next_entry_id by {
                if j < i {
                    assert(old_entries[j].id < self.next_entry_id);
                } else {
                    assert(old_entries[j + 1].id < self.next_entry_id);
                }
            }
            assert forall|j: int| 0 <= j < self.entries@.len() implies reference_ok(
                self.categories@,
                #[trigger] self.entries@[j].category_id,
            ) by {
                if j < i {
                    assert(reference_ok(self.categories@, old_entries[j].category_id));
                } else {
                    assert(reference_ok(self.categories@, old_entries[j + 1].category_id));
                }
            }
        }
        Ok(())
    }

    /// Puts the entries in the order that `ids` gives, those it does not list
    /// after them in their former order; nothing changes when `ids` repeats an
    /// id or lists an unknown one.
    pub fn reorder_entries(&mut self, ids: &Vec<u64>) -> (r: Result<Vec<Entry>, ServiceError>)
        requires
            old(self).wf(),
        ensures
            final(self).wf(),
            r is Ok <==> reorder_valid(entry_ids(old(self).entries@), ids@),
            match r {
                Ok(v) => {
                    &&& v@ == final(self).entries@
                    &&& entry_ids(final(self).entries@) == reordered(
                        entry_ids(old(self).entries@),
                        ids@,
                    )
                    &&& forall|k: int| 0 <= k < final(self).entries@.len() ==> {
                        let e = #[trigger] final(self).entries@[k];
                        let o = old(self).entries@[entry_index(old(self).entries@, e.id)];
                        e == (Entry { position: k as u64, ..o })
                    }
                    &&& final(self).categories@ == old(self).categories@
                    &&& final(self).next_category_id == old(self).next_category_id
                    &&& final(self).next_entry_id == old(self).next_entry_id
                },
                Err(e) => e == ServiceError::Validation && *final(self) == *old(self),
            },
    {
        let mut current: Vec<u64> = Vec::new();
        let mut i: usize = 0;
        while i < self.entries.len()
            invariant
                i <= self.entries@.len(),
                current@ == entry_ids(self.entries@).take(i as int),
            decreases self.entries@.len() - i,
        {
            current.push(self.entries[i].id);
            i = i + 1;
            assert(current@ =~= entry_ids(self.entries@).take(i as int));
        }
        assert(current@ =~= entry_ids(self.entries@));
        let p = match plan_reorder(&current, ids) {
            Ok(p) => p,
            Err(e) => {
                return Err(e);
            },
        };
        let ghost old_entries = self.entries@;
        let ghost target = reordered(current@, ids@);
        proof {
            lemma_reordered_permutes(current@, ids@);
        }
        let mut next: Vec<Entry> = Vec::new();
        let mut k: usize = 0;
        while k < p.len()
            invariant
                k <= p@.len(),
                old_entries == self.entries@,
                p@.len() == target.len(),
                forall|j: int|
                    0 <= j < p@.len() ==> #[trigger] p@[j] < current@.len() && current@[p@[j] as int]
                        == target[j],
                current@.len() == old_entries.len(),
                next@.len() == k,
                forall|j: int|
                    0 <= j < k ==> #[trigger] next@[j] == (Entry {
                        position: j as u64,
                        ..old_entries[p@[j] as int]
                    }),
            decreases p@.len() - k,
        {
            let e = self.entries[p[k]].duplicate();
            next.push(Entry { position: k as u64, ..e });
            k = k + 1;
        }
        proof {
            let ni = entry_ids(next@);
            assert forall|j: int| 0 <= j < ni.len() implies #[trigger] ni[j] == target[j] by {
                assert(entry_ids(old_entries)[p@[j] as int] == current@[p@[j] as int]);
            }
            assert(ni =~= target);
            assert forall|j: int| 0 <= j < next@.len() implies #[trigger] next@[j].id
                < self.next_entry_id by {
                assert(old_entries[p@[j] as int].position == p@[j]);
            }
            assert forall|j: int| 0 <= j < next@.len() implies reference_ok(
                self.categories@,
                #[trigger] next@[j].category_id,
            ) by {
                assert(old_entries[p@[j] as int].position == p@[j]);
            }
            assert forall|j: int| 0 <= j < next@.len() implies {
                let e = #[trigger] next@[j];
                let o = old_entries[entry_index(old_entries, e.id)];
                e == (Entry { position: j as u64, ..o })
            } by {
                let q = p@[j] as int;
                let t = entry_index(old_entries, next@[j].id);
                assert(entry_ids(old_entries)[q] == next@[j].id);
                assert(entry_ids(old_entries)[t] == next@[j].id);
            }
        }
        self.entries = next;
        Ok(self.list_entries())
    }
}

/// Some category stands at position `p`.
pub open spec fn category_holds_position(cs: Seq<Category>, p: int) -> bool {
    exists|i: int| 0 <= i < cs.len() && cs[i].position == p
}

/// Some entry stands at position `p`.
pub open spec fn entry_holds_position(es: Seq<Entry>, p: int) -> bool {
    exists|i: int| 0 <= i < es.len() && es[i].position == p
}

/// In a well-formed list, which every operation keeps, the category
/// positions are exactly 0, 1, ..., n - 1, each held once.
pub proof fn lemma_category_positions_contiguous(list: &GroceryList)
    requires
        list.wf(),
    ensures
        forall|p: int| (0 <= p < list.categories@.len()) <==> #[trigger] category_holds_position(list.categories@, p),
        forall|i: int, j: int|
            0 <= i < j < list.categories@.len() ==> list.categories@[i].position
                != list.categories@[j].position,
{
    assert forall|p: int| (0 <= p < list.categories@.len()) implies #[trigger] category_holds_position(list.categories@, p) by {
        assert(list.categories@[p].position == p);
    }
}

/// In a well-formed list, which every operation keeps, the entry positions
/// are exactly 0, 1, ..., n - 1, each held once.
pub proof fn lemma_entry_positions_contiguous(list: &GroceryList)
    requires
        list.wf(),
    ensures
        forall|p: int| (0 <= p < list.entries@.len()) <==> #[trigger] entry_holds_position(list.entries@, p),
        forall|i: int, j: int|
            0 <= i < j < list.entries@.len() ==> list.entries@[i].position
                != list.entries@[j].position,
{
    assert forall|p: int| (0 <= p < list.entries@.len()) implies #[trigger] entry_holds_position(list.entries@, p) by {
        assert(list.entries@[p].position == p);
    }
}

/// An entry just created, and read back by its id, has the name and
/// category it was created with.
pub proof fn lemma_entry_round_trip(list: &GroceryList, name: String, category_id: Option<u64>, now: i64)
    requires
        list.wf(),
    ensures
        ({
            let e = Entry {
                id: list.next_entry_id,
                name,
                category_id,
                completed: false,
                position: list.entries@.len() as u64,
                created_at: now,
                updated_at: now,
            };
            let found = lookup_entry(list.entries@.push(e), e.id);
            &&& found == Some(e)
            &&& found.unwrap().name@ == name@
            &&& found.unwrap().category_id == category_id
        }),
{
    let e = Entry {
        id: list.next_entry_id,
        name,
        category_id,
        completed: false,
        position: list.entries@.len() as u64,
        created_at: now,
        updated_at: now,
    };
    let es = list.entries@.push(e);
    let ids = entry_ids(es);
    let n = list.entries@.len() as int;
    assert(ids[n] == e.id);
    let k = entry_index(es, e.id);
    if k != n {
        assert(es[k] == list.entries@[k]);
        assert(list.entries@[k].id < list.next_entry_id);
    }
}

/// Records read back from storage can form a list: positions are indices,
/// ids are distinct and below the largest `u64`, and every entry's category
/// exists.
pub open spec fn records_ok(cs: Seq<Category>, es: Seq<Entry>) -> bool {
    &&& forall|i: int| 0 <= i < cs.len() ==> #[trigger] cs[i].position == i
    &&& no_duplicates(category_ids(cs))
    &&& forall|i: int| 0 <= i < cs.len() ==> #[trigger] cs[i].id < u64::MAX
    &&& forall|i: int| 0 <= i < es.len() ==> #[trigger] es[i].position == i
    &&& no_duplicates(entry_ids(es))
    &&& forall|i: int| 0 <= i < es.len() ==> #[trigger] es[i].id < u64::MAX
    &&& forall|i: int| 0 <= i < es.len() ==> reference_ok(cs, #[trigger] es[i].category_id)
}

/// The next fresh id after `ids`: one more than the largest, 1 when there is none.
pub open spec fn next_id(ids: Seq<u64>) -> int
    decreases ids.len(),
{
    if ids.len() == 0 {
        1
    } else {
        let r = next_id(ids.drop_last());
        if ids.last() + 1 > r {
            ids.last() + 1
        } else {
            r
        }
    }
}

fn fresh_id(ids: &Vec<u64>) -> (r: u64)
    requires
        forall|i: int| 0 <= i < ids@.len() ==> #[trigger] ids@[i] < u64::MAX,
    ensures
        r == next_id(ids@),
        forall|i: int| 0 <= i < ids@.len() ==> #[trigger] ids@[i] < r,
{
    let mut r: u64 = 1;
    let mut i: usize = 0;
    while i < ids.len()
        invariant
            i <= ids@.len(),
            forall|j: int| 0 <= j < ids@.len() ==> #[trigger] ids@[j] < u64::MAX,
            r == next_id(ids@.take(i as int)),
            forall|j: int| 0 <= j < i ==> #[trigger] ids@[j] < r,
        decreases ids@.len() - i,
    {
        assert(ids@.take(i + 1).drop_last() =~= ids@.take(i as int));
        if ids[i] + 1 > r {
            r = ids[i] + 1;
        }
        i = i + 1;
    }
    assert(ids@.take(i as int) =~= ids@);
    r
}

fn distinct_ids(ids: &Vec<u64>) -> (r: bool)
    ensures
        r == no_duplicates(ids@),
{
    let n = ids.len();
    let mut i: usize = 0;
    while i < n
        invariant
            n == ids@.len(),
            i <= n,
            forall|a: int, b: int| 0 <= a < b < n && a < i ==> ids@[a] != ids@[b],
        decreases n - i,
    {
        let mut j: usize = i + 1;
        while j < n
            invariant
                n == ids@.len(),
                i < n,
                i + 1 <= j <= n,
                forall|a: int, b: int| 0 <= a < b < n && a < i ==> ids@[a] != ids@[b],
                forall|b: int| i < b < j ==> ids@[i as int] != ids@[b],
            decreases n - j,
        {
            if ids[i] == ids[j] {
                return false;
            }
            j = j + 1;
        }
        i = i + 1;
    }
    true
}

impl GroceryList {
    /// A list of the given records, in the order given, when they can form
    /// one; the next fresh ids follow the largest ids in use.
    pub fn from_records(categories: Vec<Category>, entries: Vec<Entry>) -> (r: Option<GroceryList>)
        ensures
            r is Some <==> records_ok(categories@, entries@),
            match r {
                Some(l) => {
                    &&& l.wf()
                    &&& l.categories@ == categories@
                    &&& l.entries@ == entries@
                    &&& l.next_category_id == next_id(category_ids(categories@))
                    &&& l.next_entry_id == next_id(entry_ids(entries@))
                },
                None => true,
            },
    {
        let mut cids: Vec<u64> = Vec::new();
        let mut i: usize = 0;
        while i < categories.len()
            invariant
                i <= categories@.len(),
                cids@ == category_ids(categories@).take(i as int),
                forall|j: int| 0 <= j < i ==> #[trigger] categories@[j].position == j,
                forall|j: int| 0 <= j < i ==> #[trigger] categories@[j].id < u64::MAX,
            decreases categories@.len() - i,
        {
            if categories[i].position != i as u64 || categories[i].id == u64::MAX {
                return None;
            }
            cids.push(categories[i].id);
            i = i + 1;
            assert(cids@ =~= category_ids(categories@).take(i as int));
        }
        assert(cids@ =~= category_ids(categories@));
        let mut eids: Vec<u64> = Vec::new();
        let mut i: usize = 0;
        while i < entries.len()
            invariant
                i <= entries@.len(),
                eids@ == entry_ids(entries@).take(i as int),
                forall|j: int| 0 <= j < i ==> #[trigger] entries@[j].position == j,
                forall|j: int| 0 <= j < i ==> #[trigger] entries@[j].id < u64::MAX,
            decreases entries@.len() - i,
        {
            if entries[i].position != i as u64 || entries[i].id == u64::MAX {
                return None;
            }
            eids.push(entries[i].id);
            i = i + 1;
            assert(eids@ =~= entry_ids(entries@).take(i as int));
        }
        assert(eids@ =~= entry_ids(entries@));
        if !distinct_ids(&cids) || !distinct_ids(&eids) {
            return None;
        }
        assert forall|j: int| 0 <= j < cids@.len() implies #[trigger] cids@[j] < u64::MAX by {
            assert(cids@[j] == categories@[j].id);
        }
        assert forall|j: int| 0 <= j < eids@.len() implies #[trigger] eids@[j] < u64::MAX by {
            assert(eids@[j] == entries@[j].id);
        }
        let next_category_id = fresh_id(&cids);
        let next_entry_id = fresh_id(&eids);
        let list = GroceryList { categories, entries, next_category_id, next_entry_id };
        let mut i: usize = 0;
        while i < list.entries.len()
            invariant
                i <= list.entries@.len(),
                list.categories@ == categories@,
                list.entries@ == entries@,
                forall|j: int|
                    0 <= j < i ==> reference_ok(list.categories@, #[trigger] list.entries@[j].category_id),
            decreases list.entries@.len() - i,
        {
            if !list.reference_exists(list.entries[i].category_id) {
                assert(!reference_ok(categories@, entries@[i as int].category_id));
                return None;
            }
            i = i + 1;
        }
        assert forall|j: int| 0 <= j < list.categories@.len() implies #[trigger] list.categories@[j].id
            < list.next_category_id by {
            assert(cids@[j] == list.categories@[j].id);
        }
        assert forall|j: int| 0 <= j < list.entries@.len() implies #[trigger] list.entries@[j].id
            < list.next_entry_id by {
            assert(eids@[j] == list.entries@[j].id);
        }
        Some(list)
    }
}

} // verus!
