//! Why the edit distance is the least number of edits.
//!
//! An edit inserts one character, deletes one, or puts one in the place of
//! another. An edit path from `a` to `b` is a chain of sequences that starts
//! at `a`, ends at `b`, and moves by one edit at a time. This module proves
//! that some path from `a` to `b` takes exactly `edit_distance(a, b)` edits,
//! and that none takes fewer.

use crate::edit_distance::{edit_distance, lemma_edit_distance_self};
use vstd::prelude::*;

verus! {

/// Whether `y` is `x` with one character inserted somewhere.
pub open spec fn is_insertion(x: Seq<char>, y: Seq<char>) -> bool {
    exists|i: int, c: char| 0 <= i <= x.len() && y == #[trigger] x.insert(i, c)
}

/// Whether `y` is `x` with one character taken out.
pub open spec fn is_deletion(x: Seq<char>, y: Seq<char>) -> bool {
    exists|i: int| 0 <= i < x.len() && y == #[trigger] x.remove(i)
}

/// Whether `y` is `x` with one character replaced.
pub open spec fn is_substitution(x: Seq<char>, y: Seq<char>) -> bool {
    exists|i: int, c: char| 0 <= i < x.len() && y == #[trigger] x.update(i, c)
}

/// Whether a single edit turns `x` into `y`.
pub open spec fn is_single_edit(x: Seq<char>, y: Seq<char>) -> bool {
    is_insertion(x, y) || is_deletion(x, y) || is_substitution(x, y)
}

/// Whether `path` leads from `a` to `b` by one edit at a time.
pub open spec fn is_edit_path(path: Seq<Seq<char>>, a: Seq<char>, b: Seq<char>) -> bool {
    &&& path.len() > 0
    &&& path.first() == a
    &&& path.last() == b
    &&& forall|k: int| 0 <= k < path.len() - 1 ==> is_single_edit(#[trigger] path[k], path[k + 1])
}

/// Every sequence of `path` with `c` appended.
pub open spec fn with_appended(path: Seq<Seq<char>>, c: char) -> Seq<Seq<char>> {
    path.map_values(|s: Seq<char>| s.push(c))
}

/// Taking the last character off the first sequence changes the distance by
/// at most one.
proof fn lemma_shorter_first(a: Seq<char>, x: Seq<char>)
    requires
        a.len() > 0,
    ensures
        edit_distance(a, x) <= edit_distance(a.drop_last(), x) + 1,
{
}

/// Appending a character to the second sequence adds at most one edit.
proof fn lemma_append_costs_one(a: Seq<char>, x: Seq<char>, c: char)
    ensures
        edit_distance(a, x.push(c)) <= edit_distance(a, x) + 1,
{
    assert(x.push(c).drop_last() =~= x);
}

/// Dropping the last character of the second sequence adds at most one edit.
proof fn lemma_drop_costs_one(a: Seq<char>, x: Seq<char>)
    requires
        x.len() > 0,
    ensures
        edit_distance(a, x.drop_last()) <= edit_distance(a, x) + 1,
    decreases a.len(),
{
    if a.len() > 0 {
        lemma_drop_costs_one(a.drop_last(), x);
        lemma_shorter_first(a, x.drop_last());
    }
}

/// Replacing the last character of the second sequence adds at most one edit.
proof fn lemma_replace_last_costs_one(a: Seq<char>, x: Seq<char>, q: char, c: char)
    ensures
        edit_distance(a, x.push(c)) <= edit_distance(a, x.push(q)) + 1,
    decreases a.len(),
{
    assert(x.push(c).drop_last() =~= x);
    assert(x.push(q).drop_last() =~= x);
    if a.len() > 0 {
        lemma_replace_last_costs_one(a.drop_last(), x, q, c);
    }
}

/// Inserting a character anywhere into the second sequence adds at most one
/// edit.
proof fn lemma_insertion_costs_one(a: Seq<char>, x: Seq<char>, i: int, c: char)
    requires
        0 <= i <= x.len(),
    ensures
        edit_distance(a, x.insert(i, c)) <= edit_distance(a, x) + 1,
    decreases a.len() + x.len(),
{
    let y = x.insert(i, c);
    if i == x.len() {
        assert(y =~= x.push(c));
        lemma_append_costs_one(a, x, c);
    } else if a.len() > 0 {
        assert(y.drop_last() =~= x.drop_last().insert(i, c));
        assert(y.last() == x.last());
        lemma_insertion_costs_one(a.drop_last(), x, i, c);
        lemma_insertion_costs_one(a, x.drop_last(), i, c);
        lemma_insertion_costs_one(a.drop_last(), x.drop_last(), i, c);
    }
}

/// Deleting a character anywhere from the second sequence adds at most one
/// edit.
proof fn lemma_deletion_costs_one(a: Seq<char>, x: Seq<char>, i: int)
    requires
        0 <= i < x.len(),
    ensures
        edit_distance(a, x.remove(i)) <= edit_distance(a, x) + 1,
    decreases a.len() + x.len(),
{
    let y = x.remove(i);
    if i == x.len() - 1 {
        assert(y =~= x.drop_last());
        lemma_drop_costs_one(a, x);
    } else if a.len() > 0 {
        assert(y.drop_last() =~= x.drop_last().remove(i));
        assert(y.last() == x.last());
        lemma_deletion_costs_one(a.drop_last(), x, i);
        lemma_deletion_costs_one(a, x.drop_last(), i);
        lemma_deletion_costs_one(a.drop_last(), x.drop_last(), i);
    }
}

/// Replacing a character anywhere in the second sequence adds at most one
/// edit.
proof fn lemma_substitution_costs_one(a: Seq<char>, x: Seq<char>, i: int, c: char)
    requires
        0 <= i < x.len(),
    ensures
        edit_distance(a, x.update(i, c)) <= edit_distance(a, x) + 1,
    decreases a.len() + x.len(),
{
    let y = x.update(i, c);
    if i == x.len() - 1 {
        assert(y =~= x.drop_last().push(c));
        assert(x =~= x.drop_last().push(x.last()));
        lemma_replace_last_costs_one(a, x.drop_last(), x.last(), c);
    } else if a.len() > 0 {
        assert(y.drop_last() =~= x.drop_last().update(i, c));
        assert(y.last() == x.last());
        lemma_substitution_costs_one(a.drop_last(), x, i, c);
        lemma_substitution_costs_one(a, x.drop_last(), i, c);
        lemma_substitution_costs_one(a.drop_last(), x.drop_last(), i, c);
    }
}

/// One edit moves a sequence at most one step away from any other.
pub proof fn lemma_single_edit_costs_one(a: Seq<char>, x: Seq<char>, y: Seq<char>)
    requires
        is_single_edit(x, y),
    ensures
        edit_distance(a, y) <= edit_distance(a, x) + 1,
{
    if is_insertion(x, y) {
        let (i, c) = choose|i: int, c: char| 0 <= i <= x.len() && y == #[trigger] x.insert(i, c);
        lemma_insertion_costs_one(a, x, i, c);
    } else if is_deletion(x, y) {
        let i = choose|i: int| 0 <= i < x.len() && y == #[trigger] x.remove(i);
        lemma_deletion_costs_one(a, x, i);
    } else {
        let (i, c) = choose|i: int, c: char| 0 <= i < x.len() && y == #[trigger] x.update(i, c);
        lemma_substitution_costs_one(a, x, i, c);
    }
}

/// No edit path from `a` to `b` takes fewer edits than their distance.
pub proof fn lemma_no_shorter_path(path: Seq<Seq<char>>, a: Seq<char>, b: Seq<char>)
    requires
        is_edit_path(path, a, b),
    ensures
        edit_distance(a, b) <= path.len() - 1,
    decreases path.len(),
{
    if path.len() == 1 {
        lemma_edit_distance_self(a);
    } else {
        let before = path.drop_last();
        let stop = path[path.len() - 2];
        assert forall|k: int| 0 <= k < before.len() - 1 implies is_single_edit(
            #[trigger] before[k],
            before[k + 1],
        ) by {
            assert(is_single_edit(path[k], path[k + 1]));
        }
        lemma_no_shorter_path(before, a, stop);
        assert(is_single_edit(path[path.len() - 2], path[path.len() - 2 + 1]));
        lemma_single_edit_costs_one(a, stop, b);
    }
}

/// An edit keeps being one when the same character is appended on both sides.
proof fn lemma_single_edit_with_appended(x: Seq<char>, y: Seq<char>, c: char)
    requires
        is_single_edit(x, y),
    ensures
        is_single_edit(x.push(c), y.push(c)),
{
    if is_insertion(x, y) {
        let (i, d) = choose|i: int, d: char| 0 <= i <= x.len() && y == #[trigger] x.insert(i, d);
        assert(y.push(c) =~= x.push(c).insert(i, d));
        assert(is_insertion(x.push(c), y.push(c)));
    } else if is_deletion(x, y) {
        let i = choose|i: int| 0 <= i < x.len() && y == #[trigger] x.remove(i);
        assert(y.push(c) =~= x.push(c).remove(i));
        assert(is_deletion(x.push(c), y.push(c)));
    } else {
        let (i, d) = choose|i: int, d: char| 0 <= i < x.len() && y == #[trigger] x.update(i, d);
        assert(y.push(c) =~= x.push(c).update(i, d));
        assert(is_substitution(x.push(c), y.push(c)));
    }
}

/// Appending the same character to every sequence of an edit path gives an
/// edit path between the two lengthened ends.
proof fn lemma_path_with_appended(path: Seq<Seq<char>>, x: Seq<char>, y: Seq<char>, c: char)
    requires
        is_edit_path(path, x, y),
    ensures
        is_edit_path(with_appended(path, c), x.push(c), y.push(c)),
{
    let longer = with_appended(path, c);
    assert forall|k: int| 0 <= k < longer.len() - 1 implies is_single_edit(
        #[trigger] longer[k],
        longer[k + 1],
    ) by {
        assert(is_single_edit(path[k], path[k + 1]));
        lemma_single_edit_with_appended(path[k], path[k + 1], c);
    }
}

/// Some edit path from `a` to `b` takes exactly as many edits as their
/// distance. The path is returned.
pub proof fn lemma_shortest_path(a: Seq<char>, b: Seq<char>) -> (path: Seq<Seq<char>>)
    ensures
        is_edit_path(path, a, b),
        path.len() - 1 == edit_distance(a, b),
    decreases a.len() + b.len(),
{
    if a.len() == 0 && b.len() == 0 {
        assert(a =~= b);
        seq![a]
    } else if a.len() == 0 {
        let before = lemma_shortest_path(a, b.drop_last());
        let path = before.push(b);
        assert(b =~= b.drop_last().insert(b.len() - 1, b.last()));
        assert(is_insertion(b.drop_last(), b));
        assert forall|k: int| 0 <= k < path.len() - 1 implies is_single_edit(
            #[trigger] path[k],
            path[k + 1],
        ) by {
            if k < before.len() - 1 {
                assert(is_single_edit(before[k], before[k + 1]));
            }
        }
        path
    } else if b.len() == 0 || edit_distance(a, b) == edit_distance(a.drop_last(), b) + 1 {
        let after = lemma_shortest_path(a.drop_last(), b);
        let path = seq![a] + after;
        assert(a.drop_last() =~= a.remove(a.len() - 1));
        assert(is_deletion(a, a.drop_last()));
        assert forall|k: int| 0 <= k < path.len() - 1 implies is_single_edit(
            #[trigger] path[k],
            path[k + 1],
        ) by {
            if k > 0 {
                assert(is_single_edit(after[k - 1], after[k - 1 + 1]));
            }
        }
        path
    } else if edit_distance(a, b) == edit_distance(a, b.drop_last()) + 1 {
        let before = lemma_shortest_path(a, b.drop_last());
        let path = before.push(b);
        assert(b =~= b.drop_last().insert(b.len() - 1, b.last()));
        assert(is_insertion(b.drop_last(), b));
        assert forall|k: int| 0 <= k < path.len() - 1 implies is_single_edit(
            #[trigger] path[k],
            path[k + 1],
        ) by {
            if k < before.len() - 1 {
                assert(is_single_edit(before[k], before[k + 1]));
            }
        }
        path
    } else {
        let inner = lemma_shortest_path(a.drop_last(), b.drop_last());
        let kept = with_appended(inner, a.last());
        lemma_path_with_appended(inner, a.drop_last(), b.drop_last(), a.last());
        assert(a =~= a.drop_last().push(a.last()));
        let reached = b.drop_last().push(a.last());
        if a.last() == b.last() {
            assert(b =~= reached);
            kept
        } else {
            let path = kept.push(b);
            assert(b =~= reached.update(b.len() - 1, b.last()));
            assert(is_substitution(reached, b));
            assert forall|k: int| 0 <= k < path.len() - 1 implies is_single_edit(
                #[trigger] path[k],
                path[k + 1],
            ) by {
                if k < kept.len() - 1 {
                    assert(is_single_edit(kept[k], kept[k + 1]));
                }
            }
            path
        }
    }
}

/// The edit distance is the least number of single-character insertions,
/// deletions and substitutions that turn `a` into `b`: one way of editing
/// takes exactly that many, and no way takes fewer.
pub proof fn lemma_edit_distance_is_least_edit_count(a: Seq<char>, b: Seq<char>)
    ensures
        exists|path: Seq<Seq<char>>| #[trigger]
            is_edit_path(path, a, b) && path.len() - 1 == edit_distance(a, b),
        forall|path: Seq<Seq<char>>| #[trigger]
            is_edit_path(path, a, b) ==> edit_distance(a, b) <= path.len() - 1,
{
    let shortest = lemma_shortest_path(a, b);
    assert(is_edit_path(shortest, a, b) && shortest.len() - 1 == edit_distance(a, b));
    assert forall|path: Seq<Seq<char>>| #[trigger] is_edit_path(path, a, b) implies edit_distance(
        a,
        b,
    ) <= path.len() - 1 by {
        lemma_no_shorter_path(path, a, b);
    }
}

} // verus!
