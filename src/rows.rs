use vstd::prelude::*;

verus! {

/// A table of sets of symbol indices, one row per symbol.
pub open spec fn table_view(rows: Seq<Vec<usize>>) -> Seq<Set<usize>> {
    rows.map_values(|r: Vec<usize>| r@.to_set())
}

/// Each set of `a` is contained in the set of `b` at the same index.
pub open spec fn below(a: Seq<Set<usize>>, b: Seq<Set<usize>>) -> bool {
    &&& a.len() == b.len()
    &&& forall|x: int| 0 <= x < a.len() ==> #[trigger] a[x].subset_of(b[x])
}

/// Rows without repeated entries, each entry below `n`.
pub open spec fn rows_ok(rows: Seq<Vec<usize>>, n: int) -> bool {
    &&& rows.len() == n
    &&& forall|x: int| 0 <= x < n ==> (#[trigger] rows[x])@.no_duplicates()
    &&& forall|x: int, k: int| 0 <= x < n && 0 <= k < rows[x]@.len() ==> #[trigger] rows[x]@[k] < n
}

/// The number of entries over all rows.
pub open spec fn total(rows: Seq<Vec<usize>>) -> int
    decreases rows.len(),
{
    if rows.len() == 0 {
        0
    } else {
        total(rows.drop_last()) + rows.last()@.len()
    }
}

pub proof fn lemma_total_update(rows: Seq<Vec<usize>>, x: int, v: Vec<usize>)
    requires
        0 <= x < rows.len(),
    ensures
        total(rows.update(x, v)) == total(rows) - rows[x]@.len() + v@.len(),
    decreases rows.len(),
{
    if x == rows.len() - 1 {
        assert(rows.update(x, v).drop_last() =~= rows.drop_last());
    } else {
        lemma_total_update(rows.drop_last(), x, v);
        assert(rows.update(x, v).drop_last() =~= rows.drop_last().update(x, v));
    }
}

pub proof fn lemma_total_bound(rows: Seq<Vec<usize>>, n: int)
    requires
        n >= 0,
        forall|x: int| 0 <= x < rows.len() ==> (#[trigger] rows[x])@.len() <= n,
    ensures
        0 <= total(rows) <= n * rows.len(),
    decreases rows.len(),
{
    if rows.len() > 0 {
        lemma_total_bound(rows.drop_last(), n);
        assert(rows.last() == rows[rows.len() - 1]);
        assert(n * (rows.len() - 1) + n == n * rows.len()) by (nonlinear_arith);
    }
}

/// A list of distinct entries below `n` has at most `n` entries.
pub proof fn lemma_distinct_below(s: Seq<usize>, n: int)
    requires
        s.no_duplicates(),
        n >= 0,
        forall|k: int| 0 <= k < s.len() ==> s[k] < n,
    ensures
        s.len() <= n,
{
    let t = s.map_values(|e: usize| e as int);
    assert(t.no_duplicates()) by {
        assert forall|i: int, j: int| 0 <= i < t.len() && 0 <= j < t.len() && i != j implies t[i] != t[j] by {
            assert(s[i] != s[j]);
        }
    }
    t.unique_seq_to_set();
    vstd::set_lib::lemma_int_range(0, n);
    assert(t.to_set().subset_of(vstd::set_lib::set_int_range(0, n))) by {
        assert forall|e: int| t.to_set().contains(e) implies vstd::set_lib::set_int_range(0, n).contains(e) by {
            let k = choose|k: int| 0 <= k < t.len() && t[k] == e;
            assert(s[k] < n);
        }
    }
    vstd::set_lib::lemma_len_subset(t.to_set(), vstd::set_lib::set_int_range(0, n));
}

pub proof fn lemma_push_to_set(s: Seq<usize>, e: usize)
    ensures
        s.push(e).to_set() == s.to_set().insert(e),
{
    assert forall|v: usize| s.push(e).to_set().contains(v) implies s.to_set().insert(e).contains(v) by {
        let k = choose|k: int| 0 <= k < s.push(e).len() && s.push(e)[k] == v;
        if k < s.len() {
            assert(s[k] == v);
        }
    }
    assert forall|v: usize| s.to_set().insert(e).contains(v) implies s.push(e).to_set().contains(v) by {
        if v == e {
            assert(s.push(e)[s.len() as int] == e);
        } else {
            let k = choose|k: int| 0 <= k < s.len() && s[k] == v;
            assert(s.push(e)[k] == v);
        }
    }
    assert(s.push(e).to_set() =~= s.to_set().insert(e));
}

pub proof fn lemma_push_to_set_any<A>(s: Seq<A>, e: A)
    ensures
        s.push(e).to_set() == s.to_set().insert(e),
{
    assert forall|v: A| s.push(e).to_set().contains(v) implies s.to_set().insert(e).contains(v) by {
        let k = choose|k: int| 0 <= k < s.push(e).len() && s.push(e)[k] == v;
        if k < s.len() {
            assert(s[k] == v);
        }
    }
    assert forall|v: A| s.to_set().insert(e).contains(v) implies s.push(e).to_set().contains(v) by {
        if v == e {
            assert(s.push(e)[s.len() as int] == e);
        } else {
            let k = choose|k: int| 0 <= k < s.len() && s[k] == v;
            assert(s.push(e)[k] == v);
        }
    }
    assert(s.push(e).to_set() =~= s.to_set().insert(e));
}

/// Whether `e` is an entry of `row`.
pub fn row_contains(row: &Vec<usize>, e: usize) -> (r: bool)
    ensures
        r == row@.contains(e),
{
    let mut i: usize = 0;
    while i < row.len()
        invariant
            i <= row@.len(),
            forall|j: int| 0 <= j < i ==> row@[j] != e,
        decreases row@.len() - i,
    {
        if row[i] == e {
            return true;
        }
        i = i + 1;
    }
    false
}

/// The entries of `src`, without `0` when `drop_zero` holds.
pub open spec fn source_set(src: Seq<usize>, drop_zero: bool) -> Set<usize> {
    if drop_zero {
        src.to_set().remove(0)
    } else {
        src.to_set()
    }
}

/// Adds to row `x` the entries of `src` (leaving out `0` when `drop_zero`
/// holds) and tells whether the row grew.
pub fn add_into(rows: &mut Vec<Vec<usize>>, x: usize, src: &Vec<usize>, drop_zero: bool) -> (changed: bool)
    requires
        rows_ok(old(rows)@, old(rows)@.len() as int),
        x < old(rows)@.len(),
        forall|k: int| 0 <= k < src@.len() ==> src@[k] < old(rows)@.len(),
    ensures
        rows_ok(final(rows)@, old(rows)@.len() as int),
        final(rows)@.len() == old(rows)@.len(),
        forall|z: int| 0 <= z < old(rows)@.len() && z != x ==> #[trigger] final(rows)@[z] == old(rows)@[z],
        final(rows)@[x as int]@.to_set() == old(rows)@[x as int]@.to_set().union(source_set(src@, drop_zero)),
        changed ==> total(final(rows)@) > total(old(rows)@),
        !changed ==> final(rows)@ == old(rows)@,
{
    let n = rows.len();
    let mut row = rows[x].clone();
    let ghost start = row@;
    proof {
        assert(row@ =~= rows@[x as int]@);
    }
    let mut added = false;
    let mut i: usize = 0;
    while i < src.len()
        invariant
            i <= src@.len(),
            n == rows@.len(),
            forall|k: int| 0 <= k < src@.len() ==> src@[k] < n,
            row@.no_duplicates(),
            forall|k: int| 0 <= k < row@.len() ==> row@[k] < n,
            row@.len() >= start.len(),
            added ==> row@.len() > start.len(),
            !added ==> row@ == start,
            row@.to_set() == start.to_set().union(source_set(src@.take(i as int), drop_zero)),
        decreases src@.len() - i,
    {
        let e = src[i];
        let ghost prev = row@;
        if !(drop_zero && e == 0) && !row_contains(&row, e) {
            row.push(e);
            added = true;
            proof {
                assert forall|a: int, b: int| 0 <= a < row@.len() && 0 <= b < row@.len() && a != b implies row@[a] != row@[b] by {
                    if a < prev.len() && b < prev.len() {
                        assert(prev[a] != prev[b]);
                    }
                }
                assert(row@.to_set() =~= prev.to_set().insert(e)) by {
                    assert forall|v: usize| row@.to_set().contains(v) implies prev.to_set().insert(e).contains(v) by {
                        let k = choose|k: int| 0 <= k < row@.len() && row@[k] == v;
                        if k < prev.len() {
                            assert(prev[k] == v);
                        }
                    }
                    assert forall|v: usize| prev.to_set().insert(e).contains(v) implies row@.to_set().contains(v) by {
                        if v == e {
                            assert(row@[prev.len() as int] == e);
                        } else {
                            let k = choose|k: int| 0 <= k < prev.len() && prev[k] == v;
                            assert(row@[k] == v);
                        }
                    }
                }
            }
        }
        proof {
            assert(src@.take(i as int + 1) =~= src@.take(i as int).push(e));
            lemma_push_to_set(src@.take(i as int), e);
            assert(source_set(src@.take(i as int + 1), drop_zero) =~= if drop_zero && e == 0 {
                source_set(src@.take(i as int), drop_zero)
            } else {
                source_set(src@.take(i as int), drop_zero).insert(e)
            });
        }
        i = i + 1;
    }
    proof {
        assert(src@.take(i as int) =~= src@);
    }
    if added {
        let ghost before = rows@;
        rows.set(x, row);
        proof {
            lemma_total_update(before, x as int, row);
            assert(rows@ == before.update(x as int, row));
        }
    } else {
        proof {
            assert(start.to_set().union(source_set(src@, drop_zero)) == rows@[x as int]@.to_set());
        }
    }
    added
}

} // verus!
