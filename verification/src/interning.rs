//! Interning: a table holds each item once, in the order in which the items
//! were first seen, and the position of an item is its id. Tables only grow,
//! so an id, once given, stays valid.
use vstd::prelude::*;

verus! {

/// A table after `x` was interned: unchanged if it holds `x`, else with `x` at its end.
pub open spec fn interned<T>(table: Seq<T>, x: T) -> Seq<T> {
    if table.contains(x) {
        table
    } else {
        table.push(x)
    }
}

/// In a table without repeats an item is found where it stands.
pub proof fn lemma_index_of_unique<T>(table: Seq<T>, i: int)
    requires
        table.no_duplicates(),
        0 <= i < table.len(),
    ensures
        table.index_of(table[i]) == i,
{
    let j = table.index_of(table[i]);
    assert(0 <= j < table.len() && table[j] == table[i]);
}

/// What a table holds after one more item was put at its end.
pub proof fn lemma_push_contains<T>(table: Seq<T>, x: T, y: T)
    ensures
        table.push(x).contains(y) <==> (table.contains(y) || y == x),
{
    if table.contains(y) {
        let i = choose|i: int| 0 <= i < table.len() && table[i] == y;
        assert(table.push(x)[i] == y);
    }
    if y == x {
        assert(table.push(x)[table.len() as int] == y);
    }
    if table.push(x).contains(y) {
        let i = choose|i: int| 0 <= i < table.push(x).len() && table.push(x)[i] == y;
        if i < table.len() {
            assert(table[i] == y);
        }
    }
}

/// Interning keeps a table free of repeats, keeps every id, and leaves the
/// item in the table.
pub proof fn lemma_interned<T>(table: Seq<T>, x: T)
    requires
        table.no_duplicates(),
    ensures
        interned(table, x).no_duplicates(),
        interned(table, x).contains(x),
        table.is_prefix_of(interned(table, x)),
        forall|y: T| table.contains(y) ==> interned(table, x).contains(y),
{
    if !table.contains(x) {
        let t = table.push(x);
        assert forall|i: int, j: int| 0 <= i < t.len() && 0 <= j < t.len() && i != j implies t[i] != t[j] by {
            if i < table.len() {
                assert(table.contains(table[i]));
            }
            if j < table.len() {
                assert(table.contains(table[j]));
            }
        }
        assert forall|y: T| table.contains(y) implies t.contains(y) by {
            lemma_push_contains(table, x, y);
        }
        lemma_push_contains(table, x, x);
    }
}

/// In a table without repeats an item keeps its id when the table grows.
pub proof fn lemma_index_of_extended<T>(shorter: Seq<T>, longer: Seq<T>, x: T)
    requires
        longer.no_duplicates(),
        shorter.is_prefix_of(longer),
        shorter.contains(x),
    ensures
        longer.contains(x),
        longer.index_of(x) == shorter.index_of(x),
        0 <= shorter.index_of(x) < shorter.len(),
{
    let i = shorter.index_of(x);
    assert(0 <= i < shorter.len() && shorter[i] == x);
    assert(longer[i] == x);
    lemma_index_of_unique(longer, i);
}

} // verus!
