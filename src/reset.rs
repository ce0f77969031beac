//! The demo reset: the statements that, in one transaction, empty each known
//! table of the live database and fill it again from the snapshot database
//! attached as `demo`, and a model of what they do.

use vstd::prelude::*;
use crate::suggest::views;

verus! {

/// Seconds between two demo resets.
pub const RESET_INTERVAL_SECS: u64 = 900;

/// The tables that a reset may touch: the only names ever written into a
/// statement's text.
pub open spec fn is_known_table(t: Seq<char>) -> bool {
    t == "categories"@ || t == "entries"@
}

/// The known tables among `tables`, in their order.
pub open spec fn known_tables(tables: Seq<Seq<char>>) -> Seq<Seq<char>>
    decreases tables.len(),
{
    if tables.len() == 0 {
        Seq::empty()
    } else {
        let rest = known_tables(tables.drop_last());
        if is_known_table(tables.last()) {
            rest.push(tables.last())
        } else {
            rest
        }
    }
}

/// What `known_tables` keeps: exactly the listed names that are known, each
/// once when the list repeats none.
pub proof fn lemma_known_tables(tables: Seq<Seq<char>>)
    ensures
        forall|t: Seq<char>| #[trigger] known_tables(tables).contains(t) <==> (tables.contains(t) && is_known_table(t)),
        tables.no_duplicates() ==> known_tables(tables).no_duplicates(),
    decreases tables.len(),
{
    if tables.len() > 0 {
        let prefix = tables.drop_last();
        let last = tables.last();
        lemma_known_tables(prefix);
        let rest = known_tables(prefix);
        assert forall|t: Seq<char>| tables.contains(t) <==> (prefix.contains(t) || t == last) by {
            if tables.contains(t) {
                let i = choose|i: int| 0 <= i < tables.len() && tables[i] == t;
                if i < tables.len() - 1 {
                    assert(prefix[i] == t);
                }
            }
            if prefix.contains(t) {
                let i = choose|i: int| 0 <= i < prefix.len() && prefix[i] == t;
                assert(tables[i] == t);
            }
            if t == last {
                assert(tables[tables.len() - 1] == t);
            }
        }
        if tables.no_duplicates() {
            assert(prefix.no_duplicates()) by {
                assert forall|i: int, j: int| 0 <= i < prefix.len() && 0 <= j < prefix.len() && i != j
                    implies prefix[i] != prefix[j] by {
                    assert(prefix[i] == tables[i] && prefix[j] == tables[j]);
                }
            }
            assert(!prefix.contains(last)) by {
                if prefix.contains(last) {
                    let i = choose|i: int| 0 <= i < prefix.len() && prefix[i] == last;
                    assert(tables[i] == tables[tables.len() - 1]);
                }
            }
        }
        if is_known_table(last) {
            let r = rest.push(last);
            assert forall|t: Seq<char>| r.contains(t) <==> (rest.contains(t) || t == last) by {
                if r.contains(t) {
                    let i = choose|i: int| 0 <= i < r.len() && r[i] == t;
                    if i < rest.len() {
                        assert(rest[i] == t);
                    }
                }
                if rest.contains(t) {
                    let i = choose|i: int| 0 <= i < rest.len() && rest[i] == t;
                    assert(r[i] == t);
                }
                if t == last {
                    assert(r[rest.len() as int] == t);
                }
            }
            if tables.no_duplicates() {
                assert forall|i: int, j: int| 0 <= i < r.len() && 0 <= j < r.len() && i != j
                    implies r[i] != r[j] by {
                    if i == rest.len() {
                        assert(rest.contains(r[j]));
                    } else if j == rest.len() {
                        assert(rest.contains(r[i]));
                    }
                }
            }
        }
    }
}

/// One step of a reset: `(true, t)` empties table `t`, `(false, t)` copies
/// the snapshot's rows of `t` into it.
pub open spec fn reset_steps(tables: Seq<Seq<char>>) -> Seq<(bool, Seq<char>)> {
    tables.map_values(|t: Seq<char>| (true, t)) + tables.map_values(|t: Seq<char>| (false, t))
}

/// The SQL text of a step.
pub open spec fn step_sql(step: (bool, Seq<char>)) -> Seq<char> {
    if step.0 {
        "DELETE FROM main."@ + step.1
    } else {
        "INSERT INTO main."@ + step.1 + " SELECT * FROM demo."@ + step.1
    }
}

/// What a step does to the live tables, given the snapshot's.
pub open spec fn apply_step<R>(
    db: Map<Seq<char>, Seq<R>>,
    snapshot: Map<Seq<char>, Seq<R>>,
    step: (bool, Seq<char>),
) -> Map<Seq<char>, Seq<R>> {
    if step.0 {
        db.insert(step.1, Seq::empty())
    } else {
        db.insert(step.1, db[step.1] + snapshot[step.1])
    }
}

/// What the steps do, one after the other.
pub open spec fn apply_steps<R>(
    db: Map<Seq<char>, Seq<R>>,
    snapshot: Map<Seq<char>, Seq<R>>,
    steps: Seq<(bool, Seq<char>)>,
) -> Map<Seq<char>, Seq<R>>
    decreases steps.len(),
{
    if steps.len() == 0 {
        db
    } else {
        apply_step(apply_steps(db, snapshot, steps.drop_last()), snapshot, steps.last())
    }
}

proof fn lemma_apply_concat<R>(
    db: Map<Seq<char>, Seq<R>>,
    snapshot: Map<Seq<char>, Seq<R>>,
    a: Seq<(bool, Seq<char>)>,
    b: Seq<(bool, Seq<char>)>,
)
    ensures
        apply_steps(db, snapshot, a + b) == apply_steps(apply_steps(db, snapshot, a), snapshot, b),
    decreases b.len(),
{
    if b.len() == 0 {
        assert(a + b =~= a);
    } else {
        assert((a + b).drop_last() =~= a + b.drop_last());
        lemma_apply_concat(db, snapshot, a, b.drop_last());
    }
}

proof fn lemma_clear_all<R>(
    db: Map<Seq<char>, Seq<R>>,
    snapshot: Map<Seq<char>, Seq<R>>,
    tables: Seq<Seq<char>>,
)
    ensures
        ({
            let r = apply_steps(db, snapshot, tables.map_values(|t: Seq<char>| (true, t)));
            &&& forall|t: Seq<char>| tables.contains(t) ==> r.contains_key(t) && r[t] == Seq::<R>::empty()
            &&& forall|t: Seq<char>|
                !tables.contains(t) ==> (r.contains_key(t) == db.contains_key(t) && r[t] == db[t])
        }),
    decreases tables.len(),
{
    if tables.len() > 0 {
        let prefix = tables.drop_last();
        assert(tables.map_values(|t: Seq<char>| (true, t)).drop_last() =~= prefix.map_values(
            |t: Seq<char>| (true, t),
        ));
        lemma_clear_all(db, snapshot, prefix);
        assert forall|t: Seq<char>| tables.contains(t) <==> (prefix.contains(t) || t == tables.last()) by {
            if tables.contains(t) {
                let i = choose|i: int| 0 <= i < tables.len() && tables[i] == t;
                if i < tables.len() - 1 {
                    assert(prefix[i] == t);
                }
            }
            if prefix.contains(t) {
                let i = choose|i: int| 0 <= i < prefix.len() && prefix[i] == t;
                assert(tables[i] == t);
            }
            if t == tables.last() {
                assert(tables[tables.len() - 1] == t);
            }
        }
    }
}

proof fn lemma_copy_all<R>(
    db: Map<Seq<char>, Seq<R>>,
    snapshot: Map<Seq<char>, Seq<R>>,
    tables: Seq<Seq<char>>,
)
    requires
        tables.no_duplicates(),
        forall|t: Seq<char>| tables.contains(t) ==> db.contains_key(t) && db[t] == Seq::<R>::empty(),
    ensures
        ({
            let r = apply_steps(db, snapshot, tables.map_values(|t: Seq<char>| (false, t)));
            &&& forall|t: Seq<char>| tables.contains(t) ==> r.contains_key(t) && r[t] == snapshot[t]
            &&& forall|t: Seq<char>|
                !tables.contains(t) ==> (r.contains_key(t) == db.contains_key(t) && r[t] == db[t])
        }),
    decreases tables.len(),
{
    if tables.len() > 0 {
        let prefix = tables.drop_last();
        let last = tables.last();
        assert(tables.map_values(|t: Seq<char>| (false, t)).drop_last() =~= prefix.map_values(
            |t: Seq<char>| (false, t),
        ));
        assert forall|t: Seq<char>| tables.contains(t) <==> (prefix.contains(t) || t == last) by {
            if tables.contains(t) {
                let i = choose|i: int| 0 <= i < tables.len() && tables[i] == t;
                if i < tables.len() - 1 {
                    assert(prefix[i] == t);
                }
            }
            if prefix.contains(t) {
                let i = choose|i: int| 0 <= i < prefix.len() && prefix[i] == t;
                assert(tables[i] == t);
            }
            if t == last {
                assert(tables[tables.len() - 1] == t);
            }
        }
        assert(!prefix.contains(last)) by {
            if prefix.contains(last) {
                let i = choose|i: int| 0 <= i < prefix.len() && prefix[i] == last;
                assert(tables[i] == tables[tables.len() - 1]);
            }
        }
        assert(prefix.no_duplicates()) by {
            assert forall|i: int, j: int| 0 <= i < prefix.len() && 0 <= j < prefix.len() && i != j
                implies prefix[i] != prefix[j] by {
                assert(prefix[i] == tables[i] && prefix[j] == tables[j]);
            }
        }
        lemma_copy_all(db, snapshot, prefix);
        assert(Seq::<R>::empty() + snapshot[last] =~= snapshot[last]);
    }
}

proof fn lemma_steps_restore<R>(
    db: Map<Seq<char>, Seq<R>>,
    snapshot: Map<Seq<char>, Seq<R>>,
    tables: Seq<Seq<char>>,
)
    requires
        tables.no_duplicates(),
    ensures
        forall|t: Seq<char>|
            tables.contains(t) ==> apply_steps(db, snapshot, reset_steps(tables)).contains_key(t)
                && apply_steps(db, snapshot, reset_steps(tables))[t] == snapshot[t],
        forall|t: Seq<char>|
            !tables.contains(t) ==> apply_steps(db, snapshot, reset_steps(tables)).contains_key(t)
                == db.contains_key(t) && apply_steps(db, snapshot, reset_steps(tables))[t] == db[t],
{
    let clears = tables.map_values(|t: Seq<char>| (true, t));
    let copies = tables.map_values(|t: Seq<char>| (false, t));
    lemma_apply_concat(db, snapshot, clears, copies);
    lemma_clear_all(db, snapshot, tables);
    let mid = apply_steps(db, snapshot, clears);
    lemma_copy_all(mid, snapshot, tables);
}

/// The live tables after a reset of the known tables among `tables`.
pub open spec fn after_reset<R>(
    db: Map<Seq<char>, Seq<R>>,
    snapshot: Map<Seq<char>, Seq<R>>,
    tables: Seq<Seq<char>>,
) -> Map<Seq<char>, Seq<R>> {
    apply_steps(db, snapshot, reset_steps(known_tables(tables)))
}

/// A reset of the listed tables makes every known one hold exactly the
/// snapshot's rows, and leaves every other table as it was.
pub proof fn lemma_reset_restores_snapshot<R>(
    db: Map<Seq<char>, Seq<R>>,
    snapshot: Map<Seq<char>, Seq<R>>,
    tables: Seq<Seq<char>>,
)
    requires
        tables.no_duplicates(),
    ensures
        forall|t: Seq<char>|
            #[trigger] known_tables(tables).contains(t) <==> (tables.contains(t) && is_known_table(t)),
        forall|t: Seq<char>|
            known_tables(tables).contains(t) ==> after_reset(db, snapshot, tables).contains_key(t)
                && after_reset(db, snapshot, tables)[t] == snapshot[t],
        forall|t: Seq<char>|
            !known_tables(tables).contains(t) ==> after_reset(db, snapshot, tables).contains_key(t)
                == db.contains_key(t) && after_reset(db, snapshot, tables)[t] == db[t],
{
    lemma_known_tables(tables);
    lemma_steps_restore(db, snapshot, known_tables(tables));
}

fn same_text(a: &str, b: &str) -> (r: bool)
    ensures
        r == (a@ == b@),
{
    let n = a.unicode_len();
    if b.unicode_len() != n {
        return false;
    }
    let mut i: usize = 0;
    while i < n
        invariant
            n == a@.len(),
            n == b@.len(),
            i <= n,
            forall|j: int| 0 <= j < i ==> a@[j] == b@[j],
        decreases n - i,
    {
        if a.get_char(i) != b.get_char(i) {
            assert(a@[i as int] != b@[i as int]);
            return false;
        }
        i = i + 1;
    }
    assert(a@ =~= b@);
    true
}

fn known_table_exec(t: &str) -> (r: bool)
    ensures
        r == is_known_table(t@),
{
    same_text(t, "categories") || same_text(t, "entries")
}

/// The statements of a reset of the known tables among `tables`, in order:
/// first one that empties each, then one that copies each from the snapshot.
/// Any other name is left out, so only the known table names are ever
/// written into a statement's text.
pub fn reset_statements(tables: &Vec<String>) -> (r: Vec<String>)
    ensures
        views(r@) == reset_steps(known_tables(views(tables@))).map_values(
            |st: (bool, Seq<char>)| step_sql(st),
        ),
{
    let mut kept: Vec<&str> = Vec::new();
    let mut i: usize = 0;
    while i < tables.len()
        invariant
            i <= tables@.len(),
            kept@.map_values(|t: &str| t@) == known_tables(views(tables@).take(i as int)),
        decreases tables@.len() - i,
    {
        assert(views(tables@).take(i + 1).drop_last() =~= views(tables@).take(i as int));
        let t = tables[i].as_str();
        if known_table_exec(t) {
            kept.push(t);
            assert(kept@.map_values(|t: &str| t@) =~= kept@.drop_last().map_values(|t: &str| t@).push(t@));
        }
        i = i + 1;
    }
    assert(views(tables@).take(i as int) =~= views(tables@));
    let ghost names = kept@.map_values(|t: &str| t@);
    let ghost target = reset_steps(names).map_values(|st: (bool, Seq<char>)| step_sql(st));
    let n = kept.len();
    let mut out: Vec<String> = Vec::new();
    let mut k: usize = 0;
    while k < n
        invariant
            n == kept@.len(),
            k <= n,
            names == kept@.map_values(|t: &str| t@),
            target == reset_steps(names).map_values(|st: (bool, Seq<char>)| step_sql(st)),
            out@.len() == k,
            forall|j: int| 0 <= j < k ==> #[trigger] out@[j]@ == target[j],
        decreases n - k,
    {
        let sql = String::from_str("DELETE FROM main.").concat(kept[k]);
        out.push(sql);
        k = k + 1;
    }
    let mut k: usize = 0;
    while k < n
        invariant
            n == kept@.len(),
            k <= n,
            names == kept@.map_values(|t: &str| t@),
            target == reset_steps(names).map_values(|st: (bool, Seq<char>)| step_sql(st)),
            out@.len() == n + k,
            forall|j: int| 0 <= j < n + k ==> #[trigger] out@[j]@ == target[j],
        decreases n - k,
    {
        let t = kept[k];
        let sql = String::from_str("INSERT INTO main.").concat(t).concat(" SELECT * FROM demo.").concat(
            t,
        );
        out.push(sql);
        k = k + 1;
    }
    assert(views(out@) =~= target);
    out
}

} // verus!
