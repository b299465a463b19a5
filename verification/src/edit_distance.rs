//! The Levenshtein edit distance: its definition, the properties that
//! follow from it, and the table that computes it.

use vstd::prelude::*;

verus! {

/// The smallest of three numbers.
pub open spec fn min3(x: nat, y: nat, z: nat) -> nat {
    if x <= y && x <= z {
        x
    } else if y <= z {
        y
    } else {
        z
    }
}

/// What it costs to turn the character `x` into `y`: nothing when they are
/// the same character, one substitution otherwise.
pub open spec fn substitution_cost(x: char, y: char) -> nat {
    if x == y {
        0
    } else {
        1
    }
}

/// The Levenshtein distance between `a` and `b`, by its recurrence on the
/// last characters of the two sequences. Characters are compared as Unicode
/// scalar values. That this is the least number of single-character
/// insertions, deletions and substitutions that turn `a` into `b` is proved
/// in `edit_path`.
pub open spec fn edit_distance(a: Seq<char>, b: Seq<char>) -> nat
    decreases a.len() + b.len(),
{
    if a.len() == 0 {
        b.len()
    } else if b.len() == 0 {
        a.len()
    } else {
        min3(
            edit_distance(a.drop_last(), b) + 1,
            edit_distance(a, b.drop_last()) + 1,
            edit_distance(a.drop_last(), b.drop_last()) + substitution_cost(a.last(), b.last()),
        )
    }
}

/// The distance never exceeds the length of the longer sequence.
pub proof fn lemma_edit_distance_upper_bound(a: Seq<char>, b: Seq<char>)
    ensures
        edit_distance(a, b) <= a.len() || edit_distance(a, b) <= b.len(),
    decreases a.len() + b.len(),
{
    if a.len() > 0 && b.len() > 0 {
        lemma_edit_distance_upper_bound(a.drop_last(), b.drop_last());
    }
}

/// Swapping the two sequences leaves the distance unchanged.
pub proof fn lemma_edit_distance_symmetric(a: Seq<char>, b: Seq<char>)
    ensures
        edit_distance(a, b) == edit_distance(b, a),
    decreases a.len() + b.len(),
{
    if a.len() > 0 && b.len() > 0 {
        lemma_edit_distance_symmetric(a.drop_last(), b);
        lemma_edit_distance_symmetric(a, b.drop_last());
        lemma_edit_distance_symmetric(a.drop_last(), b.drop_last());
    }
}

/// The distance is at least the difference of the two lengths.
pub proof fn lemma_edit_distance_lower_bound(a: Seq<char>, b: Seq<char>)
    ensures
        a.len() - b.len() <= edit_distance(a, b),
        b.len() - a.len() <= edit_distance(a, b),
    decreases a.len() + b.len(),
{
    if a.len() > 0 && b.len() > 0 {
        lemma_edit_distance_lower_bound(a.drop_last(), b);
        lemma_edit_distance_lower_bound(a, b.drop_last());
        lemma_edit_distance_lower_bound(a.drop_last(), b.drop_last());
    }
}

/// A sequence is at distance zero from itself.
pub proof fn lemma_edit_distance_self(a: Seq<char>)
    ensures
        edit_distance(a, a) == 0,
    decreases a.len(),
{
    if a.len() > 0 {
        lemma_edit_distance_self(a.drop_last());
    }
}

/// Two sequences are at distance zero only when they are equal.
pub proof fn lemma_edit_distance_zero(a: Seq<char>, b: Seq<char>)
    ensures
        edit_distance(a, b) == 0 <==> a == b,
    decreases a.len() + b.len(),
{
    if a.len() == 0 || b.len() == 0 {
        if a.len() == 0 && b.len() == 0 {
            assert(a =~= b);
        }
    } else {
        lemma_edit_distance_zero(a.drop_last(), b.drop_last());
        if a == b {
            lemma_edit_distance_self(a);
        }
        if edit_distance(a, b) == 0 {
            assert(a.drop_last() == b.drop_last());
            assert(a.last() == b.last());
            assert(a =~= a.drop_last().push(a.last()));
            assert(b =~= b.drop_last().push(b.last()));
        }
    }
}

/// From or to the empty sequence the distance is the other sequence's length.
pub proof fn lemma_edit_distance_empty(s: Seq<char>)
    ensures
        edit_distance(Seq::<char>::empty(), s) == s.len(),
        edit_distance(s, Seq::<char>::empty()) == s.len(),
{
}

/// One step of the table: the distance between the first `i` characters of
/// `a` and the first `j` of `b`, from the three neighbouring cells.
proof fn lemma_edit_distance_step(a: Seq<char>, b: Seq<char>, i: int, j: int)
    requires
        0 < i <= a.len(),
        0 < j <= b.len(),
    ensures
        edit_distance(a.take(i), b.take(j)) == min3(
            edit_distance(a.take(i - 1), b.take(j)) + 1,
            edit_distance(a.take(i), b.take(j - 1)) + 1,
            edit_distance(a.take(i - 1), b.take(j - 1)) + substitution_cost(a[i - 1], b[j - 1]),
        ),
{
    assert(a.take(i).drop_last() =~= a.take(i - 1));
    assert(b.take(j).drop_last() =~= b.take(j - 1));
}

/// Computes the Levenshtein distance between `a` and `b` with the
/// Wagner-Fischer table: one row per prefix of `a`, one column per prefix
/// of `b`, each cell filled from its upper, left and upper-left neighbours.
pub fn wagner_fischer_table(a: &Vec<char>, b: &Vec<char>) -> (distance: usize)
    ensures
        distance == edit_distance(a@, b@),
{
    let m = a.len();
    let n = b.len();
    let mut first: Vec<usize> = Vec::new();
    first.push(0);
    let mut j: usize = 0;
    while j < n
        invariant
            n == b@.len(),
            j <= n,
            first@.len() == j + 1,
            forall|c: int| 0 <= c <= j ==> first@[c] == edit_distance(a@.take(0), b@.take(c)),
        decreases n - j,
    {
        j += 1;
        first.push(j);
    }
    let width = first.len();
    let mut matrix: Vec<Vec<usize>> = Vec::new();
    matrix.push(first);
    let mut i: usize = 0;
    while i < m
        invariant
            m == a@.len(),
            n == b@.len(),
            width == n + 1,
            i <= m,
            matrix@.len() == i + 1,
            forall|r: int| 0 <= r <= i ==> (#[trigger] matrix@[r])@.len() == width,
            forall|r: int, c: int|
                0 <= r <= i && 0 <= c <= n ==> (#[trigger] matrix@[r]@[c]) == edit_distance(
                    a@.take(r),
                    b@.take(c),
                ),
        decreases m - i,
    {
        i += 1;
        let mut row: Vec<usize> = Vec::new();
        row.push(i);
        let mut j: usize = 1;
        while j < width
            invariant
                m == a@.len(),
                n == b@.len(),
                width == n + 1,
                0 < i <= m,
                0 < j <= width,
                matrix@.len() == i,
                row@.len() == j,
                forall|r: int| 0 <= r < i ==> (#[trigger] matrix@[r])@.len() == width,
                forall|r: int, c: int|
                    0 <= r < i && 0 <= c <= n ==> (#[trigger] matrix@[r]@[c]) == edit_distance(
                        a@.take(r),
                        b@.take(c),
                    ),
                forall|c: int|
                    0 <= c < j ==> row@[c] == edit_distance(a@.take(i as int), b@.take(c)),
            decreases width - j,
        {
            proof {
                lemma_edit_distance_step(a@, b@, i as int, j as int);
                lemma_edit_distance_upper_bound(a@.take(i - 1), b@.take(j as int));
                lemma_edit_distance_upper_bound(a@.take(i - 1), b@.take(j - 1));
            }
            let indicator: usize = if a[i - 1] == b[j - 1] {
                0
            } else {
                1
            };
            let above: usize = matrix[i - 1][j] + 1;
            let diagonal: usize = matrix[i - 1][j - 1] + indicator;
            let beside: usize = row[j - 1];
            let best: usize = if above < diagonal {
                above
            } else {
                diagonal
            };
            let cell: usize = if beside < best {
                beside + 1
            } else {
                best
            };
            row.push(cell);
            j += 1;
        }
        matrix.push(row);
    }
    assert(a@.take(m as int) =~= a@);
    assert(b@.take(n as int) =~= b@);
    matrix[m][n]
}

} // verus!
