//! Autocomplete: the distinct names that start with a query, ASCII letters
//! compared without regard to case, in the order in which they first occur.

use vstd::prelude::*;
use crate::grocery::GroceryList;
use crate::model::{Category, Entry};

verus! {

pub open spec fn is_upper(c: char) -> bool {
    'A' <= c && c <= 'Z'
}

/// Two characters are equal, or are one ASCII letter in its two cases.
pub open spec fn same_letter(a: char, b: char) -> bool {
    ||| a == b
    ||| is_upper(a) && a as u32 + 32 == b as u32
    ||| is_upper(b) && b as u32 + 32 == a as u32
}

/// `query` is a prefix of `name`, up to the case of ASCII letters.
pub open spec fn prefix_match(query: Seq<char>, name: Seq<char>) -> bool {
    &&& query.len() <= name.len()
    &&& forall|i: int| 0 <= i < query.len() ==> same_letter(#[trigger] query[i], name[i])
}

/// The names that `query` prefixes, each once, in order of first occurrence.
pub open spec fn suggestions(names: Seq<Seq<char>>, query: Seq<char>) -> Seq<Seq<char>>
    decreases names.len(),
{
    if names.len() == 0 {
        Seq::empty()
    } else {
        let r = suggestions(names.drop_last(), query);
        let n = names.last();
        if prefix_match(query, n) && !r.contains(n) {
            r.push(n)
        } else {
            r
        }
    }
}

pub open spec fn category_names(cs: Seq<Category>) -> Seq<Seq<char>> {
    cs.map_values(|c: Category| c.name@)
}

pub open spec fn entry_names(es: Seq<Entry>) -> Seq<Seq<char>> {
    es.map_values(|e: Entry| e.name@)
}

pub open spec fn views(v: Seq<String>) -> Seq<Seq<char>> {
    v.map_values(|s: String| s@)
}

fn same_letter_exec(a: char, b: char) -> (r: bool)
    ensures
        r == same_letter(a, b),
{
    a == b || ('A' <= a && a <= 'Z' && a as u32 + 32 == b as u32) || ('A' <= b && b <= 'Z'
        && b as u32 + 32 == a as u32)
}

/// Whether `query` prefixes `name`, up to the case of ASCII letters.
pub fn is_prefix_match(query: &str, name: &str) -> (r: bool)
    ensures
        r == prefix_match(query@, name@),
{
    let ql = query.unicode_len();
    let nl = name.unicode_len();
    if ql > nl {
        return false;
    }
    let mut i: usize = 0;
    while i < ql
        invariant
            ql == query@.len(),
            nl == name@.len(),
            ql <= nl,
            i <= ql,
            forall|j: int| 0 <= j < i ==> same_letter(#[trigger] query@[j], name@[j]),
        decreases ql - i,
    {
        if !same_letter_exec(query.get_char(i), name.get_char(i)) {
            return false;
        }
        i = i + 1;
    }
    true
}

/// The distinct names that `query` prefixes, in order of first occurrence.
pub fn suggest(names: &Vec<String>, query: &str) -> (r: Vec<String>)
    ensures
        views(r@) == suggestions(views(names@), query@),
{
    let mut r: Vec<String> = Vec::new();
    let mut i: usize = 0;
    while i < names.len()
        invariant
            i <= names@.len(),
            views(r@) == suggestions(views(names@).take(i as int), query@),
        decreases names@.len() - i,
    {
        let ghost before = views(names@).take(i as int);
        assert(views(names@).take(i + 1).drop_last() =~= before);
        let name = &names[i];
        let mut seen = false;
        let mut j: usize = 0;
        while j < r.len()
            invariant
                j <= r@.len(),
                seen == exists|k: int| 0 <= k < j && r@[k]@ == name@,
            decreases r@.len() - j,
        {
            if r[j] == *name {
                seen = true;
            }
            j = j + 1;
        }
        proof {
            if seen {
                let k = choose|k: int| 0 <= k < j && r@[k]@ == name@;
                assert(views(r@)[k] == name@);
            } else {
                assert forall|k: int| 0 <= k < views(r@).len() implies views(r@)[k] != name@ by {
                    assert(views(r@)[k] == r@[k]@);
                }
            }
        }
        if !seen && is_prefix_match(query, name.as_str()) {
            r.push(name.clone());
            assert(views(r@) =~= views(r@).drop_last().push(name@));
        }
        i = i + 1;
    }
    assert(views(names@).take(i as int) =~= views(names@));
    r
}

impl GroceryList {
    /// The category names that `query` prefixes, for autocomplete.
    pub fn category_suggestions(&self, query: &str) -> (r: Vec<String>)
        ensures
            views(r@) == suggestions(category_names(self.categories@), query@),
    {
        let mut names: Vec<String> = Vec::new();
        let mut i: usize = 0;
        while i < self.categories.len()
            invariant
                i <= self.categories@.len(),
                names@.len() == i,
                forall|k: int| 0 <= k < i ==> #[trigger] names@[k]@ == self.categories@[k].name@,
            decreases self.categories@.len() - i,
        {
            names.push(self.categories[i].name.clone());
            i = i + 1;
        }
        assert(views(names@) =~= category_names(self.categories@));
        suggest(&names, query)
    }

    /// The entry names that `query` prefixes, for autocomplete.
    pub fn entry_suggestions(&self, query: &str) -> (r: Vec<String>)
        ensures
            views(r@) == suggestions(entry_names(self.entries@), query@),
    {
        let mut names: Vec<String> = Vec::new();
        let mut i: usize = 0;
        while i < self.entries.len()
            invariant
                i <= self.entries@.len(),
                names@.len() == i,
                forall|k: int| 0 <= k < i ==> #[trigger] names@[k]@ == self.entries@[k].name@,
            decreases self.entries@.len() - i,
        {
            names.push(self.entries[i].name.clone());
            i = i + 1;
        }
        assert(views(names@) =~= entry_names(self.entries@));
        suggest(&names, query)
    }
}

} // verus!
