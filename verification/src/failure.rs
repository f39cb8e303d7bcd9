//! The failure function of the substring matcher.
//!
//! For every position `j` of a term the table holds the position at which
//! matching resumes after a mismatch at `j`: the longest proper border of
//! the first `j` characters that is not bound to fail on the same character
//! again. The entry for the end of the term is the longest proper border of
//! the whole term, from which matching resumes after an occurrence.

use vstd::prelude::*;

verus! {

/// Whether the first `k` characters of `term` are also the `k` characters
/// before position `j`, with `k < j`: a proper border of the first `j`
/// characters.
pub open spec fn is_border(term: Seq<char>, k: int, j: int) -> bool {
    &&& 0 <= k < j <= term.len()
    &&& forall|m: int| 0 <= m < k ==> #[trigger] term[m] == term[j - k + m]
}

/// Whether `k` is a border of the first `j` characters from which a mismatch
/// at `j` can be resumed: the character after the border differs from the
/// one at `j`. At the end of the term every border counts.
pub open spec fn resumes(term: Seq<char>, k: int, j: int) -> bool {
    &&& is_border(term, k, j)
    &&& j < term.len() ==> term[k] != term[j]
}

/// The largest `k' <= k` with `resumes(term, k', j)`, or `-1` where there is none.
pub open spec fn link_below(term: Seq<char>, j: int, k: int) -> int
    decreases k + 1,
{
    if k < 0 {
        -1
    } else if resumes(term, k, j) {
        k
    } else {
        link_below(term, j, k - 1)
    }
}

/// The failure link of position `j`: the largest `k` with
/// `resumes(term, k, j)`, or `-1` where there is none.
pub open spec fn link(term: Seq<char>, j: int) -> int {
    link_below(term, j, j - 1)
}

/// Whether `table` is the failure function of `term`: one entry for each
/// position and one for the end, each the failure link of its position.
pub open spec fn is_failure_table(term: Seq<char>, table: Seq<isize>) -> bool {
    &&& table.len() == term.len() + 1
    &&& forall|j: int| 0 <= j <= term.len() ==> #[trigger] table[j] == link(term, j)
}

/// Whether `k` is the longest proper border of the first `j` characters.
pub open spec fn is_longest_border(term: Seq<char>, k: int, j: int) -> bool {
    &&& is_border(term, k, j)
    &&& forall|q: int| k < q < j ==> !is_border(term, q, j)
}

/// `link_below` returns the largest position up to `k` from which a
/// mismatch at `j` can be resumed.
pub proof fn lemma_link_below(term: Seq<char>, j: int, k: int)
    ensures
        -1 <= link_below(term, j, k),
        k >= -1 ==> link_below(term, j, k) <= k,
        link_below(term, j, k) >= 0 ==> resumes(term, link_below(term, j, k), j),
        forall|q: int| link_below(term, j, k) < q <= k ==> !resumes(term, q, j),
    decreases k + 1,
{
    if k >= 0 && !resumes(term, k, j) {
        lemma_link_below(term, j, k - 1);
    }
}

/// The failure link of `j` lies below `j`, resumes a mismatch at `j`, and
/// no larger position does.
pub proof fn lemma_link(term: Seq<char>, j: int)
    ensures
        -1 <= link(term, j),
        j >= 0 ==> link(term, j) < j,
        link(term, j) >= 0 ==> resumes(term, link(term, j), j),
        forall|q: int| link(term, j) < q ==> !resumes(term, q, j),
{
    lemma_link_below(term, j, j - 1);
}

/// A position that resumes a mismatch at `j`, with none above it that
/// does, is the failure link of `j`; so is `-1` where no position does.
pub proof fn lemma_link_unique(term: Seq<char>, j: int, k: int)
    requires
        k == -1 || resumes(term, k, j),
        forall|q: int| k < q < j ==> !resumes(term, q, j),
    ensures
        link(term, j) == k,
{
    lemma_link(term, j);
    let l = link(term, j);
    if l > k {
        assert(resumes(term, l, j));
        assert(l < j);
    } else if l < k {
        assert(resumes(term, k, j));
    }
}

/// A border of a border is a border.
pub proof fn lemma_border_of_border(term: Seq<char>, a: int, b: int, j: int)
    requires
        is_border(term, a, b),
        is_border(term, b, j),
    ensures
        is_border(term, a, j),
{
    assert forall|m: int| 0 <= m < a implies #[trigger] term[m] == term[j - a + m] by {
        assert(term[m] == term[b - a + m]);
        let m2 = b - a + m;
        assert(term[m2] == term[j - b + m2]);
    }
}

/// Of two borders of the same prefix the shorter is a border of the longer.
pub proof fn lemma_border_in_border(term: Seq<char>, a: int, b: int, j: int)
    requires
        is_border(term, a, j),
        is_border(term, b, j),
        a < b,
    ensures
        is_border(term, a, b),
{
    assert forall|m: int| 0 <= m < a implies #[trigger] term[m] == term[b - a + m] by {
        assert(term[m] == term[j - a + m]);
        let m2 = b - a + m;
        assert(term[m2] == term[j - b + m2]);
    }
}

/// A border of the first `j + 1` characters, shortened by one, is a border
/// of the first `j`, and the character after it is the one at `j`.
pub proof fn lemma_border_shrink(term: Seq<char>, k: int, j: int)
    requires
        0 <= k,
        is_border(term, k + 1, j + 1),
    ensures
        is_border(term, k, j),
        term[k] == term[j],
{
    assert forall|m: int| 0 <= m < k implies #[trigger] term[m] == term[j - k + m] by {
        assert(term[m] == term[(j + 1) - (k + 1) + m]);
    }
    assert(term[k] == term[(j + 1) - (k + 1) + k]);
}

/// A border of the first `j` characters, followed by the character at `j`,
/// grows by one into a border of the first `j + 1`.
pub proof fn lemma_border_grow(term: Seq<char>, k: int, j: int)
    requires
        is_border(term, k, j),
        j < term.len(),
        term[k] == term[j],
    ensures
        is_border(term, k + 1, j + 1),
{
    assert forall|m: int| 0 <= m < k + 1 implies #[trigger] term[m] == term[(j + 1) - (k + 1)
        + m] by {
        if m < k {
            assert(term[m] == term[j - k + m]);
        }
    }
}

/// What the search for the next border has established at candidate `c`
/// while the table entry of `pos` is built: `c` is a border of the first
/// `pos` characters or `-1`, and no longer border is followed by the
/// character at `pos`.
pub open spec fn walk_inv(term: Seq<char>, pos: int, c: int) -> bool {
    &&& -1 <= c < pos
    &&& c >= 0 ==> is_border(term, c, pos)
    &&& forall|q: int| c < q < pos && is_border(term, q, pos) ==> term[q] != term[pos]
}

/// Where the longest border of the first `pos` characters is followed by
/// the character at `pos`, the two positions have the same failure link.
proof fn lemma_link_copied(term: Seq<char>, pos: int, cnd: int)
    requires
        pos < term.len(),
        is_longest_border(term, cnd, pos),
        term[pos] == term[cnd],
    ensures
        link(term, pos) == link(term, cnd),
{
    let l = link(term, cnd);
    lemma_link(term, cnd);
    if l >= 0 {
        lemma_border_of_border(term, l, cnd, pos);
    }
    assert forall|q: int| l < q < pos implies !resumes(term, q, pos) by {
        if resumes(term, q, pos) {
            assert(q <= cnd);
            assert(q != cnd);
            lemma_border_in_border(term, q, cnd, pos);
            assert(resumes(term, q, cnd));
        }
    }
    lemma_link_unique(term, pos, l);
}

/// Following the failure link of a candidate that is not followed by the
/// character at `pos` keeps what the search has established.
proof fn lemma_walk_step(term: Seq<char>, pos: int, c: int)
    requires
        pos < term.len(),
        0 <= c,
        walk_inv(term, pos, c),
        term[c] != term[pos],
    ensures
        walk_inv(term, pos, link(term, c)),
{
    let l = link(term, c);
    lemma_link(term, c);
    if l >= 0 {
        lemma_border_of_border(term, l, c, pos);
    }
    assert forall|q: int| l < q < pos && is_border(term, q, pos) implies term[q] != term[pos] by {
        if q < c {
            lemma_border_in_border(term, q, c, pos);
            assert(!resumes(term, q, c));
        }
    }
}

/// Where the search ends, the candidate grown by one is the longest border
/// of the first `pos + 1` characters.
proof fn lemma_walk_done(term: Seq<char>, pos: int, c: int)
    requires
        1 <= pos < term.len(),
        walk_inv(term, pos, c),
        c >= 0 ==> term[c] == term[pos],
    ensures
        is_longest_border(term, c + 1, pos + 1),
{
    if c >= 0 {
        lemma_border_grow(term, c, pos);
    }
    let next = pos + 1;
    assert forall|q: int| c + 1 < q < next implies !is_border(term, q, next) by {
        if is_border(term, q, next) {
            lemma_border_shrink(term, q - 1, pos);
        }
    }
}

/// Builds the failure function of `term`.
pub fn build_failure_function(term: &[char]) -> (table: Vec<isize>)
    requires
        term@.len() < isize::MAX,
    ensures
        is_failure_table(term@, table@),
{
    let n = term.len();
    let mut table: Vec<isize> = vec![-1; n + 1];
    if n == 0 {
        return table;
    }
    let mut pos: usize = 1;
    let mut cnd: isize = 0;
    while pos < n
        invariant
            n == term@.len(),
            n < isize::MAX,
            table@.len() == n + 1,
            1 <= pos <= n,
            is_longest_border(term@, cnd as int, pos as int),
            forall|j: int| 0 <= j < pos ==> #[trigger] table@[j] == link(term@, j),
        decreases n - pos,
    {
        if term[pos] == term[cnd as usize] {
            proof {
                lemma_link_copied(term@, pos as int, cnd as int);
                lemma_walk_done(term@, pos as int, cnd as int);
            }
            let copied = table[cnd as usize];
            table.set(pos, copied);
        } else {
            proof {
                lemma_link_unique(term@, pos as int, cnd as int);
                lemma_walk_step(term@, pos as int, cnd as int);
            }
            table.set(pos, cnd);
            cnd = table[cnd as usize];
            while cnd >= 0 && term[pos] != term[cnd as usize]
                invariant
                    n == term@.len(),
                    table@.len() == n + 1,
                    1 <= pos < n,
                    walk_inv(term@, pos as int, cnd as int),
                    forall|j: int| 0 <= j <= pos ==> #[trigger] table@[j] == link(term@, j),
                decreases cnd + 1,
            {
                proof {
                    lemma_walk_step(term@, pos as int, cnd as int);
                    lemma_link(term@, cnd as int);
                }
                cnd = table[cnd as usize];
            }
            proof {
                lemma_walk_done(term@, pos as int, cnd as int);
            }
        }
        pos += 1;
        cnd += 1;
    }
    proof {
        lemma_link_unique(term@, n as int, cnd as int);
    }
    table.set(pos, cnd);
    table
}

} // verus!
