//! Minimal sparse matrix structure: triplet assembly and CSR storage.
//!
//! The matrix is generic over its value type `V`. Everything about the
//! sparsity pattern is proved exactly; what is said of the values goes
//! through `V`'s own specification of `+` (see `running_sum`).
use vstd::prelude::*;
use vstd::std_specs::ops::{AddSpec, MulSpec};
use core::ops::{Add, Mul};

verus! {

/// A single (row, column, value) contribution produced during assembly.
///
/// Several triplets may land on the same (row, column); the conversion to CSR
/// sums them, and that summation is exactly what "assembly" means.
#[derive(Clone, Copy, Debug)]
pub struct Triplet<V> {
    pub row: usize,
    pub column: usize,
    pub value: V,
}

/// The values that `triplets` contribute at (row, column), in input order.
pub open spec fn contributions<V>(triplets: Seq<Triplet<V>>, row: int, column: int) -> Seq<V>
    decreases triplets.len(),
{
    if triplets.len() == 0 {
        Seq::empty()
    } else {
        let earlier = contributions(triplets.drop_last(), row, column);
        let last = triplets.last();
        if last.row == row && last.column == column {
            earlier.push(last.value)
        } else {
            earlier
        }
    }
}

/// The sum of a non-empty sequence formed from left to right, starting from
/// its first element: `((v0 + v1) + v2) + ...`, with `V`'s specification of `+`.
pub open spec fn running_sum<V: Add<Output = V>>(values: Seq<V>) -> V
    decreases values.len(),
{
    if values.len() <= 1 {
        values[0]
    } else {
        running_sum(values.drop_last()).add_spec(values.last())
    }
}

/// Every partial sum of `running_sum(values)` meets `V`'s precondition of `+`.
pub open spec fn partial_sums_defined<V: Add<Output = V>>(values: Seq<V>) -> bool
    decreases values.len(),
{
    values.len() <= 1 || (partial_sums_defined(values.drop_last()) && running_sum(
        values.drop_last(),
    ).add_req(values.last()))
}

/// `+` on `V` never fails, whatever the operands (as for floating point).
pub open spec fn addition_is_total<V: Add<Output = V>>() -> bool {
    forall|a: V, b: V| #[trigger] a.add_req(b)
}

/// Summing `values` from left to right does not fail.
pub open spec fn summable<V: Add<Output = V>>(values: Seq<V>) -> bool {
    ||| values.len() <= 1
    ||| addition_is_total::<V>()
    ||| (V::obeys_add_spec() && partial_sums_defined(values))
}

/// What the sum of `values` is can be stated: a single value is its own sum,
/// and longer sums are known when `V`'s `+` follows its specification.
pub open spec fn sum_is_known<V: Add<Output = V>>(values: Seq<V>) -> bool {
    values.len() == 1 || V::obeys_add_spec()
}

/// Compressed sparse row matrix.
///
/// `row_offsets` has `n_rows + 1` entries: the non-zeros of row `i` occupy the
/// slice `row_offsets[i] .. row_offsets[i + 1]` of `column_indices` and
/// `values`. Column indices within a row are kept strictly increasing.
/// Entries stored past `row_offsets[n_rows]` belong to no row.
#[derive(Debug)]
pub struct CsrMatrix<V> {
    n_rows: usize,
    n_columns: usize,
    row_offsets: Vec<usize>,
    column_indices: Vec<usize>,
    values: Vec<V>,
}

impl<V> CsrMatrix<V> {
    /// Storage slot `k` holds an entry of row `r`.
    spec fn in_row(self, r: int, k: int) -> bool {
        &&& 0 <= r < self.n_rows
        &&& self.row_offsets@[r] <= k < self.row_offsets@[r + 1]
    }

    #[verifier::type_invariant]
    spec fn well_formed(self) -> bool {
        &&& self.row_offsets@.len() == self.n_rows + 1
        &&& self.row_offsets@[0] == 0
        &&& forall|i: int, j: int|
            0 <= i <= j <= self.n_rows ==> #[trigger] self.row_offsets@[i]
                <= #[trigger] self.row_offsets@[j]
        &&& self.row_offsets@[self.n_rows as int] <= self.column_indices@.len()
        &&& self.column_indices@.len() == self.values@.len()
        &&& forall|r: int, k1: int, k2: int|
            #![trigger self.in_row(r, k1), self.in_row(r, k2)]
            self.in_row(r, k1) && self.in_row(r, k2) && k1 < k2 ==> self.column_indices@[k1]
                < self.column_indices@[k2]
    }

    /// Number of rows.
    pub closed spec fn num_rows(&self) -> nat {
        self.n_rows as nat
    }

    /// Number of columns the matrix was declared with.
    pub closed spec fn num_columns(&self) -> nat {
        self.n_columns as nat
    }

    /// The stored entry at (r, c) lies in storage slot `k`.
    spec fn slot_of(self, r: int, c: int, k: int) -> bool {
        self.in_row(r, k) && self.column_indices@[k] == c
    }

    /// Some storage slot holds the entry at (r, c).
    spec fn stores(self, r: int, c: int) -> bool {
        exists|k: int| self.slot_of(r, c, k)
    }

    /// The value stored at (r, c).
    spec fn stored_value(self, r: int, c: int) -> V {
        self.values@[choose|k: int| self.slot_of(r, c, k)]
    }
}

impl<V> View for CsrMatrix<V> {
    type V = Map<(int, int), V>;

    /// The stored entries, keyed by (row, column).
    closed spec fn view(&self) -> Map<(int, int), V> {
        Map::new(|p: (int, int)| self.stores(p.0, p.1), |p: (int, int)| self.stored_value(p.0, p.1))
    }
}

/// An element-by-element copy of `v`.
fn copy_vec<T: Copy>(v: &Vec<T>) -> (copy: Vec<T>)
    ensures
        copy@ == v@,
{
    let mut copy: Vec<T> = Vec::new();
    let mut i: usize = 0;
    while i < v.len()
        invariant
            i <= v@.len(),
            copy@ == v@.take(i as int),
        decreases v@.len() - i,
    {
        copy.push(v[i]);
        i += 1;
        proof {
            assert(copy@ =~= v@.take(i as int));
        }
    }
    proof {
        assert(v@.take(v@.len() as int) =~= v@);
    }
    copy
}

impl<V: Copy> Clone for CsrMatrix<V> {
    fn clone(&self) -> (copy: Self)
        ensures
            copy@ == self@,
            copy.num_rows() == self.num_rows(),
            copy.num_columns() == self.num_columns(),
    {
        proof {
            use_type_invariant(self);
        }
        let row_offsets = copy_vec(&self.row_offsets);
        let column_indices = copy_vec(&self.column_indices);
        let values = copy_vec(&self.values);
        proof {
            assert forall|r: int, k1: int, k2: int|
                #![trigger row_offsets@[r], column_indices@[k1], column_indices@[k2]]
                0 <= r < self.n_rows && row_offsets@[r] <= k1 < k2 < row_offsets@[r + 1] implies
                column_indices@[k1] < column_indices@[k2] by {
                assert(self.in_row(r, k1));
                assert(self.in_row(r, k2));
            }
            assert forall|i: int, j: int|
                0 <= i <= j <= self.n_rows implies #[trigger] row_offsets@[i]
                <= #[trigger] row_offsets@[j] by {
                assert(self.row_offsets@[i] <= self.row_offsets@[j]);
            }
        }
        let copy = CsrMatrix {
            n_rows: self.n_rows,
            n_columns: self.n_columns,
            row_offsets,
            column_indices,
            values,
        };
        proof {
            assert(copy.well_formed());
            assert forall|r: int, k: int| copy.in_row(r, k) == self.in_row(r, k) by {}
            assert forall|r: int, c: int, k: int| copy.slot_of(r, c, k) == self.slot_of(r, c, k) by {}
            assert(copy@ =~= self@) by {
                assert forall|p: (int, int)| #[trigger] copy@.contains_key(p) <==> self@.contains_key(p) by {
                    if copy@.contains_key(p) {
                        let k = copy.lemma_stored(p.0, p.1);
                        assert(self.slot_of(p.0, p.1, k));
                    }
                    if self@.contains_key(p) {
                        let k = self.lemma_stored(p.0, p.1);
                        assert(copy.slot_of(p.0, p.1, k));
                    }
                }
                assert forall|p: (int, int)| #[trigger] copy@.contains_key(p) implies copy@[p] == self@[p] by {
                    let k = self.lemma_stored(p.0, p.1);
                    self.lemma_slot(p.0, k);
                    copy.lemma_slot(p.0, k);
                }
            }
        }
        copy
    }
}

impl<V> CsrMatrix<V> {
    /// Storage slot `k` of row `r` is the entry at (r, column_indices[k]).
    proof fn lemma_slot(self, r: int, k: int)
        requires
            self.well_formed(),
            self.in_row(r, k),
        ensures
            self@.contains_key((r, self.column_indices@[k] as int)),
            self@[(r, self.column_indices@[k] as int)] == self.values@[k],
    {
        let c = self.column_indices@[k] as int;
        assert(self.slot_of(r, c, k));
        let k2 = choose|k2: int| self.slot_of(r, c, k2);
        if k2 < k {
            assert(self.column_indices@[k2] < self.column_indices@[k]);
        } else if k < k2 {
            assert(self.column_indices@[k] < self.column_indices@[k2]);
        }
    }

    /// A stored entry lies in a slot of its row.
    proof fn lemma_stored(self, r: int, c: int) -> (k: int)
        requires
            self@.contains_key((r, c)),
        ensures
            self.slot_of(r, c, k),
    {
        choose|k: int| self.slot_of(r, c, k)
    }

    /// Every key of the view is a position in one of the matrix's rows, with a
    /// non-negative column.
    pub proof fn lemma_view_keys(&self, r: int, c: int)
        requires
            self@.contains_key((r, c)),
        ensures
            0 <= r < self.num_rows(),
            c >= 0,
    {
        let k = self.lemma_stored(r, c);
    }

    /// No storage lies past the last row: every stored value belongs to a row.
    pub closed spec fn no_storage_past_last_row(&self) -> bool {
        self.row_offsets@[self.n_rows as int] == self.values@.len()
    }
}

// ---------------------------------------------------------------------------
// Facts about contributions and running sums
// ---------------------------------------------------------------------------
/// Appending a triplet appends its value to the contributions at its position
/// and leaves every other position alone.
pub(crate) proof fn lemma_contributions_push<V>(ts: Seq<Triplet<V>>, t: Triplet<V>, r: int, c: int)
    ensures
        contributions(ts.push(t), r, c) == (if t.row == r && t.column == c {
            contributions(ts, r, c).push(t.value)
        } else {
            contributions(ts, r, c)
        }),
{
    assert(ts.push(t).drop_last() =~= ts);
}

/// The contributions of a prefix of the triplets are a prefix of the
/// contributions of all of them.
proof fn lemma_contributions_prefix<V>(ts: Seq<Triplet<V>>, k: int, r: int, c: int)
    requires
        0 <= k <= ts.len(),
    ensures
        contributions(ts.take(k), r, c).len() <= contributions(ts, r, c).len(),
        contributions(ts.take(k), r, c) =~= contributions(ts, r, c).take(
            contributions(ts.take(k), r, c).len() as int,
        ),
    decreases ts.len(),
{
    if k == ts.len() {
        assert(ts.take(k) =~= ts);
    } else {
        assert(ts.take(k) =~= ts.drop_last().take(k));
        lemma_contributions_prefix(ts.drop_last(), k, r, c);
    }
}

/// Partial sums that are defined for a sequence are defined for its prefixes.
proof fn lemma_partial_sums_prefix<V: Add<Output = V>>(s: Seq<V>, n: int)
    requires
        partial_sums_defined(s),
        1 <= n <= s.len(),
    ensures
        partial_sums_defined(s.take(n)),
    decreases s.len(),
{
    if n == s.len() {
        assert(s.take(n) =~= s);
    } else {
        assert(s.take(n) =~= s.drop_last().take(n));
        lemma_partial_sums_prefix(s.drop_last(), n);
    }
}

// ---------------------------------------------------------------------------
// Row buckets used while building a matrix from triplets
// ---------------------------------------------------------------------------
/// A bucket of (column, value) pairs whose columns strictly increase.
spec fn bucket_sorted<V>(b: Seq<(usize, V)>) -> bool {
    forall|i: int, j: int| 0 <= i < j < b.len() ==> b[i].0 < b[j].0
}

/// Column `c` occurs in the bucket.
spec fn bucket_has<V>(b: Seq<(usize, V)>, c: int) -> bool {
    exists|j: int| 0 <= j < b.len() && b[j].0 == c
}

/// The bucket entry `e` of row `r` holds the sum of what `ts` contributes there.
spec fn bucket_entry_ok<V: Add<Output = V>>(e: (usize, V), ts: Seq<Triplet<V>>, r: int) -> bool {
    let s = contributions(ts, r, e.0 as int);
    &&& s.len() > 0
    &&& sum_is_known(s) ==> e.1 == running_sum(s)
}

/// Bucket `r` holds, column by column in increasing order, the summed
/// contributions of `ts` to row `r`, for every row `r <= n_rows`.
spec fn buckets_hold<V: Add<Output = V>>(
    rows: Seq<Vec<(usize, V)>>,
    ts: Seq<Triplet<V>>,
    n_rows: int,
) -> bool {
    &&& rows.len() == n_rows + 1
    &&& forall|r: int| 0 <= r <= n_rows ==> bucket_sorted(#[trigger] rows[r]@)
    &&& forall|r: int, c: int|
        #![trigger contributions(ts, r, c)]
        #![trigger bucket_has(rows[r]@, c)]
        0 <= r <= n_rows ==> (bucket_has(rows[r]@, c) <==> contributions(ts, r, c).len() > 0)
    &&& forall|r: int, j: int|
        0 <= r <= n_rows && 0 <= j < rows[r]@.len() ==> bucket_entry_ok(
            #[trigger] rows[r]@[j],
            ts,
            r,
        )
}

/// `m` is the matrix that `triplets` assemble into: it has `n_rows` rows and
/// `n_columns` columns, an entry exactly where some triplet of a row below
/// `n_rows` contributes, and each entry is the running sum of its
/// contributions in input order (whenever that sum is known).
pub open spec fn agrees_with_triplets<V: Add<Output = V>>(
    m: &CsrMatrix<V>,
    triplets: Seq<Triplet<V>>,
    n_rows: int,
    n_columns: int,
) -> bool {
    &&& m.num_rows() == n_rows
    &&& m.num_columns() == n_columns
    &&& forall|r: int, c: int|
        #[trigger] m@.contains_key((r, c)) <==> 0 <= r < n_rows && contributions(
            triplets,
            r,
            c,
        ).len() > 0
    &&& forall|r: int, c: int|
        #[trigger] m@.contains_key((r, c)) && sum_is_known(contributions(triplets, r, c))
            ==> m@[(r, c)] == running_sum(contributions(triplets, r, c))
}

/// A position that receives a contribution is the position of some triplet.
pub(crate) proof fn lemma_contributions_witness<V>(ts: Seq<Triplet<V>>, r: int, c: int) -> (i: int)
    requires
        contributions(ts, r, c).len() > 0,
    ensures
        0 <= i < ts.len(),
        ts[i].row == r,
        ts[i].column == c,
    decreases ts.len(),
{
    let last = ts.last();
    if last.row == r && last.column == c {
        ts.len() - 1
    } else {
        let i = lemma_contributions_witness(ts.drop_last(), r, c);
        assert(ts[i] == ts.drop_last()[i]);
        i
    }
}

impl<V: Copy + Add<Output = V>> CsrMatrix<V> {
    /// Build a CSR matrix from triplets, summing duplicate positions.
    ///
    /// Each stored entry is the running sum of the values contributed at its
    /// position, in input order. Triplets whose row equals `n_rows` are kept
    /// in storage after the last row and belong to no row.
    pub fn from_triplets(triplets: &[Triplet<V>], n_rows: usize, n_columns: usize) -> (matrix:
        Self)
        requires
            n_rows < usize::MAX,
            forall|i: int| 0 <= i < triplets@.len() ==> #[trigger] triplets@[i].row <= n_rows,
            forall|r: int, c: int| summable(#[trigger] contributions(triplets@, r, c)),
        ensures
            agrees_with_triplets(&matrix, triplets@, n_rows as int, n_columns as int),
            (forall|i: int| 0 <= i < triplets@.len() ==> #[trigger] triplets@[i].row < n_rows)
                ==> matrix.no_storage_past_last_row(),
            (forall|i: int| 0 <= i < triplets@.len() ==> #[trigger] triplets@[i].column
                < n_columns) ==> matrix.columns_in_range_spec(),
    {
        // One bucket per row, plus one for the triplets that sit on row n_rows.
        let mut rows: Vec<Vec<(usize, V)>> = Vec::new();
        let mut r: usize = 0;
        while r <= n_rows
            invariant
                r <= n_rows + 1,
                n_rows < usize::MAX,
                rows@.len() == r,
                forall|i: int| 0 <= i < r ==> (#[trigger] rows@[i])@.len() == 0,
            decreases n_rows + 1 - r,
        {
            rows.push(Vec::new());
            r += 1;
        }
        proof {
            assert(triplets@.take(0) =~= Seq::<Triplet<V>>::empty());
            assert forall|r: int, c: int| 0 <= r <= n_rows implies (bucket_has(rows@[r]@, c)
                <==> #[trigger] contributions(triplets@.take(0), r, c).len() > 0) by {
                assert(rows@[r]@.len() == 0);
            }
        }

        // Add the triplets one at a time, in input order.
        let mut k: usize = 0;
        while k < triplets.len()
            invariant
                k <= triplets@.len(),
                n_rows < usize::MAX,
                forall|i: int| 0 <= i < triplets@.len() ==> #[trigger] triplets@[i].row <= n_rows,
                forall|r: int, c: int| summable(#[trigger] contributions(triplets@, r, c)),
                buckets_hold(rows@, triplets@.take(k as int), n_rows as int),
            decreases triplets@.len() - k,
        {
            let t = triplets[k];
            let row = t.row;
            let column = t.column;
            let ghost ts = triplets@.take(k as int);
            let ghost ts_next = triplets@.take(k + 1);
            assert(ts_next =~= ts.push(t));
            assert(row <= n_rows);

            let len = rows[row].len();
            let mut j: usize = 0;
            while j < len && rows[row][j].0 < column
                invariant
                    j <= len,
                    row < rows@.len(),
                    len == rows@[row as int]@.len(),
                    forall|i: int| 0 <= i < j ==> (#[trigger] rows@[row as int]@[i]).0 < column,
                decreases len - j,
            {
                j += 1;
            }
            let ghost old_rows = rows@;
            let ghost bucket = rows@[row as int]@;
            let ghost cs = contributions(ts, row as int, column as int);
            proof {
                lemma_contributions_push(ts, t, row as int, column as int);
                lemma_contributions_prefix(triplets@, k + 1, row as int, column as int);
                assert forall|r: int, c: int| #![auto] !(r == row && c == column) implies contributions(
                    ts_next,
                    r,
                    c,
                ) == contributions(ts, r, c) by {
                    lemma_contributions_push(ts, t, r, c);
                }
            }
            if j < len && rows[row][j].0 == column {
                let entry = rows[row][j];
                proof {
                    assert(bucket_has(bucket, column as int));
                    assert(bucket_entry_ok(bucket[j as int], ts, row as int));
                    let full = contributions(triplets@, row as int, column as int);
                    let next = contributions(ts_next, row as int, column as int);
                    assert(next =~= cs.push(t.value));
                    assert(next.drop_last() =~= cs);
                    if !addition_is_total::<V>() {
                        lemma_partial_sums_prefix(full, next.len() as int);
                        assert(full.take(next.len() as int) =~= next);
                    }
                }
                let sum = entry.1 + t.value;
                rows[row].set(j, (column, sum));
                proof {
                    let next = contributions(ts_next, row as int, column as int);
                    assert(next.drop_last() =~= cs);
                    let nb = rows@[row as int]@;
                    assert(nb =~= bucket.update(j as int, (column, sum)));
                    assert forall|c: int| #[trigger] bucket_has(nb, c) <==> bucket_has(bucket, c) by {
                        if bucket_has(bucket, c) {
                            let i = choose|i: int| 0 <= i < bucket.len() && bucket[i].0 == c;
                            assert(nb[i].0 == c);
                        }
                        if bucket_has(nb, c) {
                            let i = choose|i: int| 0 <= i < nb.len() && nb[i].0 == c;
                            assert(bucket[i].0 == c);
                        }
                    }
                    assert forall|r: int, jj: int|
                        0 <= r <= n_rows && 0 <= jj < rows@[r]@.len() implies bucket_entry_ok(
                        #[trigger] rows@[r]@[jj],
                        ts_next,
                        r,
                    ) by {
                        if r == row && jj == j {
                        } else if r == row {
                            assert(rows@[r]@[jj] == bucket[jj]);
                            assert(bucket[jj].0 != column);
                            assert(bucket_entry_ok(old_rows[r]@[jj], ts, r));
                        } else {
                            assert(rows@[r] == old_rows[r]);
                            assert(bucket_entry_ok(old_rows[r]@[jj], ts, r));
                        }
                    }
                    assert forall|r: int, c: int| 0 <= r <= n_rows implies (bucket_has(
                        rows@[r]@,
                        c,
                    ) <==> #[trigger] contributions(ts_next, r, c).len() > 0) by {
                        if r != row {
                            assert(rows@[r] == old_rows[r]);
                        }
                    }
                    assert forall|r: int| 0 <= r <= n_rows implies bucket_sorted(
                        #[trigger] rows@[r]@,
                    ) by {
                        if r != row {
                            assert(rows@[r] == old_rows[r]);
                        }
                    }
                }
            } else {
                proof {
                    assert(!bucket_has(bucket, column as int)) by {
                        if bucket_has(bucket, column as int) {
                            let i = choose|i: int|
                                0 <= i < bucket.len() && bucket[i].0 == column as int;
                            if i < j {
                            } else {
                                assert(j < len);
                                assert(bucket[j as int].0 >= column);
                                assert(bucket[j as int].0 != column);
                                if i > j {
                                    assert(bucket[j as int].0 < bucket[i].0);
                                }
                            }
                        }
                    }
                    assert(cs.len() == 0);
                }
                rows[row].insert(j, (column, t.value));
                proof {
                    let nb = rows@[row as int]@;
                    assert(nb =~= bucket.insert(j as int, (column, t.value)));
                    bucket.insert_ensures(j as int, (column, t.value));
                    let next = contributions(ts_next, row as int, column as int);
                    assert(next =~= seq![t.value]);
                    assert forall|c: int| #[trigger] bucket_has(nb, c) <==> (bucket_has(bucket, c)
                        || c == column) by {
                        if bucket_has(bucket, c) {
                            let i = choose|i: int| 0 <= i < bucket.len() && bucket[i].0 == c;
                            if i < j {
                                assert(nb[i].0 == c);
                            } else {
                                assert(nb[i + 1].0 == c);
                            }
                        }
                        if c == column {
                            assert(nb[j as int].0 == c);
                        }
                        if bucket_has(nb, c) {
                            let i = choose|i: int| 0 <= i < nb.len() && nb[i].0 == c;
                            if i < j {
                                assert(bucket[i].0 == c);
                            } else if i > j {
                                assert(bucket[i - 1].0 == c);
                            }
                        }
                    }
                    assert(bucket_sorted(nb)) by {
                        assert forall|a: int, b: int| 0 <= a < b < nb.len() implies nb[a].0
                            < nb[b].0 by {
                            if j < len {
                                assert(bucket[j as int].0 > column);
                            }
                            if b < j {
                            } else if b == j {
                                assert(a < j);
                            } else if a < j {
                                assert(nb[b] == bucket[b - 1]);
                                if b - 1 > j {
                                    assert(bucket[j as int].0 < bucket[b - 1].0);
                                }
                            } else if a == j {
                                assert(nb[b] == bucket[b - 1]);
                                if b - 1 > j {
                                    assert(bucket[j as int].0 < bucket[b - 1].0);
                                }
                            } else {
                                assert(nb[a] == bucket[a - 1]);
                                assert(nb[b] == bucket[b - 1]);
                            }
                        }
                    }
                    assert forall|r: int, jj: int|
                        0 <= r <= n_rows && 0 <= jj < rows@[r]@.len() implies bucket_entry_ok(
                        #[trigger] rows@[r]@[jj],
                        ts_next,
                        r,
                    ) by {
                        if r == row && jj == j {
                        } else if r == row && jj < j {
                            assert(rows@[r]@[jj] == bucket[jj]);
                            assert(bucket_entry_ok(old_rows[r]@[jj], ts, r));
                        } else if r == row {
                            assert(rows@[r]@[jj] == bucket[jj - 1]);
                            assert(bucket_entry_ok(old_rows[r]@[jj - 1], ts, r));
                        } else {
                            assert(rows@[r] == old_rows[r]);
                            assert(bucket_entry_ok(old_rows[r]@[jj], ts, r));
                        }
                    }
                    assert forall|r: int, c: int| 0 <= r <= n_rows implies (bucket_has(
                        rows@[r]@,
                        c,
                    ) <==> #[trigger] contributions(ts_next, r, c).len() > 0) by {
                        if r != row {
                            assert(rows@[r] == old_rows[r]);
                        }
                    }
                    assert forall|r: int| 0 <= r <= n_rows implies bucket_sorted(
                        #[trigger] rows@[r]@,
                    ) by {
                        if r != row {
                            assert(rows@[r] == old_rows[r]);
                        }
                    }
                }
            }
            k += 1;
        }
        proof {
            assert(triplets@.take(triplets@.len() as int) =~= triplets@);
        }
        let ghost buckets = rows@;

        // Lay the buckets out one after another.
        let mut row_offsets: Vec<usize> = Vec::new();
        let mut column_indices: Vec<usize> = Vec::new();
        let mut values: Vec<V> = Vec::new();
        let mut r: usize = 0;
        while r <= n_rows
            invariant
                r <= n_rows + 1,
                n_rows < usize::MAX,
                rows@ == buckets,
                buckets.len() == n_rows + 1,
                row_offsets@.len() == r,
                column_indices@.len() == values@.len(),
                r == 0 ==> values@.len() == 0,
                r > 0 ==> values@.len() == row_offsets@[r - 1] + buckets[r - 1]@.len(),
                forall|i: int| 0 <= i < r - 1 ==> #[trigger] row_offsets@[i + 1] == row_offsets@[i]
                    + buckets[i]@.len(),
                forall|i: int| 0 <= i < r ==> #[trigger] row_offsets@[i] + buckets[i]@.len() <= values@.len(),
                r > 0 ==> row_offsets@[0] == 0,
                forall|i: int, j: int|
                    0 <= i <= j < r ==> #[trigger] row_offsets@[i] <= #[trigger] row_offsets@[j],
                forall|i: int, j: int|
                    0 <= i < r && 0 <= j < buckets[i]@.len() ==> column_indices@[row_offsets@[i]
                        + j] == (#[trigger] buckets[i]@[j]).0 && values@[row_offsets@[i] + j]
                        == buckets[i]@[j].1,
            decreases n_rows + 1 - r,
        {
            let start = values.len();
            row_offsets.push(start);
            let len = rows[r].len();
            let mut j: usize = 0;
            while j < len
                invariant
                    j <= len,
                    r <= n_rows,
                    rows@ == buckets,
                    buckets.len() == n_rows + 1,
                    len == buckets[r as int]@.len(),
                    row_offsets@.len() == r + 1,
                    row_offsets@[r as int] == start,
                    column_indices@.len() == values@.len(),
                    values@.len() == start + j,
                    forall|i: int| 0 <= i < r ==> #[trigger] row_offsets@[i] <= start,
                    forall|i: int, jj: int|
                        0 <= i < r && 0 <= jj < buckets[i]@.len() ==> column_indices@[row_offsets@[i]
                            + jj] == (#[trigger] buckets[i]@[jj]).0 && values@[row_offsets@[i]
                            + jj] == buckets[i]@[jj].1,
                    forall|jj: int|
                        0 <= jj < j ==> column_indices@[start + jj] == (
                        #[trigger] buckets[r as int]@[jj]).0 && values@[start + jj]
                            == buckets[r as int]@[jj].1,
                    forall|i: int|
                        0 <= i < r ==> #[trigger] row_offsets@[i] + buckets[i]@.len() <= start,
                decreases len - j,
            {
                let entry = rows[r][j];
                column_indices.push(entry.0);
                values.push(entry.1);
                j += 1;
            }
            r += 1;
        }
        proof {
            assert forall|i: int, j: int| 0 <= i <= j <= n_rows implies #[trigger] row_offsets@[i]
                <= #[trigger] row_offsets@[j] by {}
            assert(row_offsets@[n_rows as int] <= column_indices@.len());
            assert forall|r: int, k1: int, k2: int|
                #![trigger row_offsets@[r], column_indices@[k1], column_indices@[k2]]
                0 <= r < n_rows && row_offsets@[r] <= k1 < k2 < row_offsets@[r + 1] implies
                column_indices@[k1] < column_indices@[k2] by {
                assert(row_offsets@[r + 1] == row_offsets@[r] + buckets[r]@.len());
                let j1 = k1 - row_offsets@[r];
                let j2 = k2 - row_offsets@[r];
                assert(column_indices@[k1] == buckets[r]@[j1].0);
                assert(column_indices@[k2] == buckets[r]@[j2].0);
                assert(bucket_sorted(buckets[r]@));
            }
        }
        let matrix = CsrMatrix { n_rows, n_columns, row_offsets, column_indices, values };
        proof {
            // Slot k of row r holds entry k - row_offsets[r] of bucket r.
            assert forall|r: int, k: int| #[trigger] matrix.in_row(r, k) implies 0 <= k
                - matrix.row_offsets@[r] < buckets[r]@.len() && matrix.column_indices@[k]
                == buckets[r]@[k - matrix.row_offsets@[r]].0 && matrix.values@[k] == buckets[r]@[k
                - matrix.row_offsets@[r]].1 by {
                let j = k - matrix.row_offsets@[r];
                assert(matrix.row_offsets@[r + 1] == matrix.row_offsets@[r] + buckets[r]@.len());
            }
            assert(matrix.well_formed());
            assert forall|r: int, c: int|
                #[trigger] matrix@.contains_key((r, c)) <==> 0 <= r < n_rows && contributions(
                    triplets@,
                    r,
                    c,
                ).len() > 0 by {
                if matrix@.contains_key((r, c)) {
                    let k = matrix.lemma_stored(r, c);
                    let j = k - matrix.row_offsets@[r];
                    assert(buckets[r]@[j].0 == c);
                    assert(bucket_has(buckets[r]@, c));
                }
                if 0 <= r < n_rows && contributions(triplets@, r, c).len() > 0 {
                    assert(bucket_has(buckets[r]@, c));
                    let j = choose|j: int| 0 <= j < buckets[r]@.len() && buckets[r]@[j].0 == c;
                    let k = matrix.row_offsets@[r] + j;
                    assert(matrix.row_offsets@[r + 1] == matrix.row_offsets@[r] + buckets[r]@.len());
                    assert(matrix.in_row(r, k));
                    matrix.lemma_slot(r, k);
                }
            }
            assert forall|r: int, c: int|
                #[trigger] matrix@.contains_key((r, c)) && sum_is_known(
                    contributions(triplets@, r, c),
                ) implies matrix@[(r, c)] == running_sum(contributions(triplets@, r, c)) by {
                let k = matrix.lemma_stored(r, c);
                matrix.lemma_slot(r, k);
                let j = k - matrix.row_offsets@[r];
                assert(bucket_entry_ok(buckets[r]@[j], triplets@, r));
            }
            if forall|i: int| 0 <= i < triplets@.len() ==> #[trigger] triplets@[i].row < n_rows {
                if buckets[n_rows as int]@.len() > 0 {
                    let e = buckets[n_rows as int]@[0];
                    assert(bucket_entry_ok(e, triplets@, n_rows as int));
                    let i = lemma_contributions_witness(triplets@, n_rows as int, e.0 as int);
                }
                assert(matrix.no_storage_past_last_row());
            }
            if forall|i: int|
                0 <= i < triplets@.len() ==> #[trigger] triplets@[i].column < n_columns {
                assert forall|r: int, c: int| #[trigger]
                    matrix@.contains_key((r, c)) implies c < matrix.num_columns() by {
                    let i = lemma_contributions_witness(triplets@, r, c);
                }
            }
        }
        matrix
    }
}

/// `v` is a value that `V::default()` can return (for `f64`, `0.0`).
pub open spec fn is_default<V: Default>(v: V) -> bool {
    call_ensures(V::default, (), v)
}

impl<V> CsrMatrix<V> {
    pub fn n_rows(&self) -> (n: usize)
        ensures
            n == self.num_rows(),
    {
        self.n_rows
    }

    /// Number of columns the matrix was declared with.
    pub fn n_columns(&self) -> (n: usize)
        ensures
            n == self.num_columns(),
    {
        self.n_columns
    }

    /// Every stored entry lies on the main diagonal or next to it.
    pub open spec fn is_tridiagonal_spec(&self) -> bool {
        forall|r: int, c: int| #[trigger] self@.contains_key((r, c)) ==> r - 1 <= c <= r + 1
    }

    /// Whether every stored entry lies on the main diagonal or next to it.
    pub fn is_tridiagonal(&self) -> (tridiagonal: bool)
        ensures
            tridiagonal == self.is_tridiagonal_spec(),
    {
        proof {
            use_type_invariant(self);
        }
        let mut row: usize = 0;
        while row < self.n_rows
            invariant
                self.well_formed(),
                row <= self.n_rows,
                forall|r: int, c: int|
                    #[trigger] self@.contains_key((r, c)) && r < row ==> r - 1 <= c <= r + 1,
            decreases self.n_rows - row,
        {
            let start = self.row_offsets[row];
            let end = self.row_offsets[row + 1];
            let mut index = start;
            while index < end
                invariant
                    self.well_formed(),
                    row < self.n_rows,
                    start == self.row_offsets@[row as int],
                    end == self.row_offsets@[row + 1],
                    start <= index <= end,
                    forall|k: int|
                        start <= k < index ==> row - 1 <= #[trigger] self.column_indices@[k] <= row
                            + 1,
                decreases end - index,
            {
                proof {
                    assert(self.row_offsets@[row + 1] <= self.row_offsets@[self.n_rows as int]);
                }
                let column = self.column_indices[index];
                if !(column <= row + 1 && (row == 0 || column >= row - 1)) {
                    proof {
                        self.lemma_slot(row as int, index as int);
                    }
                    return false;
                }
                index += 1;
            }
            proof {
                assert forall|c: int| #[trigger] self@.contains_key((row as int, c)) implies row - 1
                    <= c <= row + 1 by {
                    let k = self.lemma_stored(row as int, c);
                }
            }
            row += 1;
        }
        proof {
            assert forall|r: int, c: int| #[trigger] self@.contains_key((r, c)) implies r - 1 <= c
                <= r + 1 by {
                let k = self.lemma_stored(r, c);
            }
        }
        true
    }
}

impl<V> CsrMatrix<V> {
    /// Every stored entry's column is below the declared number of columns.
    pub open spec fn columns_in_range_spec(&self) -> bool {
        forall|r: int, c: int| #[trigger] self@.contains_key((r, c)) ==> c < self.num_columns()
    }

    /// Whether every stored entry of row `row` has its column below the
    /// declared number of columns.
    pub fn row_columns_in_range(&self, row: usize) -> (in_range: bool)
        requires
            row < self.num_rows(),
        ensures
            in_range == forall|c: int| #[trigger]
                self@.contains_key((row as int, c)) ==> c < self.num_columns(),
    {
        proof {
            use_type_invariant(self);
            assert(self.row_offsets@[row + 1] <= self.row_offsets@[self.n_rows as int]);
        }
        let start = self.row_offsets[row];
        let end = self.row_offsets[row + 1];
        let mut index = start;
        while index < end
            invariant
                self.well_formed(),
                row < self.n_rows,
                start == self.row_offsets@[row as int],
                end == self.row_offsets@[row + 1],
                end <= self.column_indices@.len(),
                start <= index <= end,
                forall|k: int| start <= k < index ==> #[trigger] self.column_indices@[k] < self.n_columns,
            decreases end - index,
        {
            if self.column_indices[index] >= self.n_columns {
                proof {
                    assert(self.in_row(row as int, index as int));
                    self.lemma_slot(row as int, index as int);
                }
                return false;
            }
            index += 1;
        }
        proof {
            assert forall|c: int| #[trigger] self@.contains_key((row as int, c)) implies c
                < self.n_columns by {
                let k = self.lemma_stored(row as int, c);
            }
        }
        true
    }

    /// Whether every stored entry's column is below the declared number of
    /// columns (`from_triplets` does not check this).
    pub fn columns_in_range(&self) -> (in_range: bool)
        ensures
            in_range == self.columns_in_range_spec(),
    {
        proof {
            use_type_invariant(self);
        }
        let mut row: usize = 0;
        while row < self.n_rows
            invariant
                self.well_formed(),
                row <= self.n_rows,
                forall|r: int, c: int|
                    #[trigger] self@.contains_key((r, c)) && r < row ==> c < self.n_columns,
            decreases self.n_rows - row,
        {
            proof {
                assert(self.row_offsets@[row + 1] <= self.row_offsets@[self.n_rows as int]);
            }
            let start = self.row_offsets[row];
            let end = self.row_offsets[row + 1];
            let mut index = start;
            while index < end
                invariant
                    self.well_formed(),
                    row < self.n_rows,
                    start == self.row_offsets@[row as int],
                    end == self.row_offsets@[row + 1],
                    end <= self.column_indices@.len(),
                    start <= index <= end,
                    forall|k: int| start <= k < index ==> #[trigger] self.column_indices@[k] < self.n_columns,
                decreases end - index,
            {
                if self.column_indices[index] >= self.n_columns {
                    proof {
                        assert(self.in_row(row as int, index as int));
                        self.lemma_slot(row as int, index as int);
                    }
                    return false;
                }
                index += 1;
            }
            proof {
                assert forall|c: int| #[trigger] self@.contains_key((row as int, c)) implies c
                    < self.n_columns by {
                    let k = self.lemma_stored(row as int, c);
                }
            }
            row += 1;
        }
        proof {
            assert forall|r: int, c: int| #[trigger] self@.contains_key((r, c)) implies c
                < self.num_columns() by {
                let k = self.lemma_stored(r, c);
            }
        }
        true
    }
}

impl<V: Copy + Default> CsrMatrix<V> {
    /// Look up a single entry; positions with no stored entry read as
    /// `V::default()`. Linear in the row length.
    pub fn get(&self, row: usize, column: usize) -> (value: V)
        requires
            row < self.num_rows(),
        ensures
            self@.contains_key((row as int, column as int)) ==> value == self@[(
                row as int,
                column as int,
            )],
            !self@.contains_key((row as int, column as int)) ==> is_default(value),
    {
        proof {
            use_type_invariant(self);
            assert(self.row_offsets@[row + 1] <= self.row_offsets@[self.n_rows as int]);
        }
        let start = self.row_offsets[row];
        let end = self.row_offsets[row + 1];
        let mut index = start;
        while index < end
            invariant
                self.well_formed(),
                row < self.n_rows,
                start == self.row_offsets@[row as int],
                end == self.row_offsets@[row + 1],
                end <= self.column_indices@.len(),
                start <= index <= end,
                forall|k: int| start <= k < index ==> #[trigger] self.column_indices@[k] != column,
            decreases end - index,
        {
            if self.column_indices[index] == column {
                proof {
                    self.lemma_slot(row as int, index as int);
                }
                return self.values[index];
            }
            index += 1;
        }
        proof {
            if self@.contains_key((row as int, column as int)) {
                let k = self.lemma_stored(row as int, column as int);
            }
        }
        V::default()
    }

    /// Pull out the three diagonals of a tridiagonal matrix.
    ///
    /// Returns (sub_diagonal, main_diagonal, super_diagonal) where
    /// `sub_diagonal[i]` is the entry at (i, i-1) and `super_diagonal[i]` the
    /// entry at (i, i+1); positions with no stored entry read as `V::default()`.
    pub fn to_tridiagonal(&self) -> (diagonals: (Vec<V>, Vec<V>, Vec<V>))
        requires
            self.is_tridiagonal_spec(),
        ensures
            diagonals.0@.len() == self.num_rows(),
            diagonals.1@.len() == self.num_rows(),
            diagonals.2@.len() == self.num_rows(),
            forall|r: int|
                0 <= r < self.num_rows() ==> diagonal_entry(self, r, r - 1, #[trigger] diagonals.0@[r]),
            forall|r: int|
                0 <= r < self.num_rows() ==> diagonal_entry(self, r, r, #[trigger] diagonals.1@[r]),
            forall|r: int|
                0 <= r < self.num_rows() ==> diagonal_entry(self, r, r + 1, #[trigger] diagonals.2@[r]),
            self.num_rows() > 0 ==> is_default(diagonals.0@[0]),
    {
        proof {
            use_type_invariant(self);
            if self@.contains_key((0, -1)) {
                self.lemma_view_keys(0, -1);
            }
        }
        let n = self.n_rows;
        let zero = V::default();
        let mut sub: Vec<V> = Vec::new();
        let mut main: Vec<V> = Vec::new();
        let mut super_diagonal: Vec<V> = Vec::new();
        let mut i: usize = 0;
        while i < n
            invariant
                i <= n,
                sub@.len() == i,
                main@.len() == i,
                super_diagonal@.len() == i,
                forall|r: int| 0 <= r < i ==> #[trigger] sub@[r] == zero,
                forall|r: int| 0 <= r < i ==> #[trigger] main@[r] == zero,
                forall|r: int| 0 <= r < i ==> #[trigger] super_diagonal@[r] == zero,
            decreases n - i,
        {
            sub.push(zero);
            main.push(zero);
            super_diagonal.push(zero);
            i += 1;
        }

        let mut row: usize = 0;
        while row < n
            invariant
                self.well_formed(),
                self.is_tridiagonal_spec(),
                is_default(zero),
                n == self.n_rows,
                row <= n,
                sub@.len() == n,
                main@.len() == n,
                super_diagonal@.len() == n,
                forall|r: int| 0 <= r < row ==> diagonal_entry(self, r, r - 1, #[trigger] sub@[r]),
                forall|r: int| 0 <= r < row ==> diagonal_entry(self, r, r, #[trigger] main@[r]),
                forall|r: int|
                    0 <= r < row ==> diagonal_entry(self, r, r + 1, #[trigger] super_diagonal@[r]),
                forall|r: int| row <= r < n ==> #[trigger] sub@[r] == zero,
                forall|r: int| row <= r < n ==> #[trigger] main@[r] == zero,
                forall|r: int| row <= r < n ==> #[trigger] super_diagonal@[r] == zero,
            decreases n - row,
        {
            proof {
                assert(self.row_offsets@[row + 1] <= self.row_offsets@[self.n_rows as int]);
            }
            let start = self.row_offsets[row];
            let end = self.row_offsets[row + 1];
            let mut index = start;
            while index < end
                invariant
                    self.well_formed(),
                    self.is_tridiagonal_spec(),
                    is_default(zero),
                    n == self.n_rows,
                    row < n,
                    start == self.row_offsets@[row as int],
                    end == self.row_offsets@[row + 1],
                    end <= self.column_indices@.len(),
                    start <= index <= end,
                    sub@.len() == n,
                    main@.len() == n,
                    super_diagonal@.len() == n,
                    forall|r: int| 0 <= r < row ==> diagonal_entry(self, r, r - 1, #[trigger] sub@[r]),
                    forall|r: int| 0 <= r < row ==> diagonal_entry(self, r, r, #[trigger] main@[r]),
                    forall|r: int|
                        0 <= r < row ==> diagonal_entry(self, r, r + 1, #[trigger] super_diagonal@[r]),
                    forall|r: int| row < r < n ==> #[trigger] sub@[r] == zero,
                    forall|r: int| row < r < n ==> #[trigger] main@[r] == zero,
                    forall|r: int| row < r < n ==> #[trigger] super_diagonal@[r] == zero,
                    seen_entry(self, row as int, row - 1, start as int, index as int, sub@[row as int], zero),
                    seen_entry(self, row as int, row as int, start as int, index as int, main@[row as int], zero),
                    seen_entry(self, row as int, row + 1, start as int, index as int, super_diagonal@[row as int], zero),
                decreases end - index,
            {
                let column = self.column_indices[index];
                let value = self.values[index];
                proof {
                    self.lemma_slot(row as int, index as int);
                    assert(self.in_row(row as int, index as int));
                    assert forall|k: int| start <= k < index implies self.column_indices@[k] < column by {
                        assert(self.in_row(row as int, k));
                    }
                }
                if row > 0 && column == row - 1 {
                    sub.set(row, value);
                } else if column == row {
                    main.set(row, value);
                } else if column == row + 1 {
                    super_diagonal.set(row, value);
                }
                index += 1;
            }
            proof {
                assert forall|c: int|
                    !(exists|k: int| start <= k < end && self.column_indices@[k] == c) implies
                    !#[trigger] self@.contains_key((row as int, c)) by {
                    if self@.contains_key((row as int, c)) {
                        let k = self.lemma_stored(row as int, c);
                    }
                }
            }
            row += 1;
        }
        (sub, main, super_diagonal)
    }
}

/// `value` is what the tridiagonal extraction reads at (r, c): the stored
/// entry if there is one, otherwise a default value.
pub open spec fn diagonal_entry<V: Default>(m: &CsrMatrix<V>, r: int, c: int, value: V) -> bool {
    if m@.contains_key((r, c)) {
        value == m@[(r, c)]
    } else {
        is_default(value)
    }
}

/// After scanning storage slots `start .. index` of row `r`, `value` holds the
/// entry of column `c` if it was among them, and `zero` otherwise.
spec fn seen_entry<V>(m: &CsrMatrix<V>, r: int, c: int, start: int, index: int, value: V, zero: V) -> bool {
    if exists|k: int| start <= k < index && m.column_indices@[k] == c {
        m@.contains_key((r, c)) && value == m@[(r, c)]
    } else {
        value == zero
    }
}

// ---------------------------------------------------------------------------
// Keeping a subset of rows and columns
// ---------------------------------------------------------------------------
/// The last position at which `c` occurs in `keep`, or -1 if it does not.
pub open spec fn last_position(keep: Seq<usize>, c: int) -> int
    decreases keep.len(),
{
    if keep.len() == 0 {
        -1
    } else if keep.last() == c {
        keep.len() - 1
    } else {
        last_position(keep.drop_last(), c)
    }
}

/// No index occurs twice in `keep`.
pub open spec fn no_repeats(keep: Seq<usize>) -> bool {
    forall|i: int, j: int| 0 <= i < j < keep.len() ==> keep[i] != keep[j]
}

pub(crate) proof fn lemma_last_position(keep: Seq<usize>, c: int)
    ensures
        -1 <= last_position(keep, c) < keep.len(),
        last_position(keep, c) >= 0 ==> keep[last_position(keep, c)] == c,
        forall|i: int| last_position(keep, c) < i < keep.len() ==> keep[i] != c,
    decreases keep.len(),
{
    if keep.len() > 0 {
        lemma_last_position(keep.drop_last(), c);
        assert forall|i: int| last_position(keep, c) < i < keep.len() implies keep[i] != c by {
            if i < keep.len() - 1 {
                assert(keep[i] == keep.drop_last()[i]);
            }
        }
    }
}

pub(crate) proof fn lemma_last_position_push(keep: Seq<usize>, x: usize, c: int)
    ensures
        last_position(keep.push(x), c) == if x == c {
            keep.len() as int
        } else {
            last_position(keep, c)
        },
{
    assert(keep.push(x).drop_last() =~= keep);
}

/// In a sequence without repeats, every element's last position is its only one.
pub proof fn lemma_no_repeats_last_position(keep: Seq<usize>, b: int)
    requires
        no_repeats(keep),
        0 <= b < keep.len(),
    ensures
        last_position(keep, keep[b] as int) == b,
{
    lemma_last_position(keep, keep[b] as int);
    let p = last_position(keep, keep[b] as int);
    if p < b {
    } else if p > b {
        assert(keep[b] != keep[p]);
    }
}

/// Where column `old` of the full matrix lands in the submatrix, or
/// `usize::MAX` if it is not kept.
spec fn new_index_of(keep: Seq<usize>, old: int) -> int {
    if last_position(keep, old) >= 0 {
        last_position(keep, old)
    } else {
        usize::MAX as int
    }
}

/// The submatrix of `m` on `keep` has an entry at (a, b).
pub open spec fn kept_entry<V>(m: &CsrMatrix<V>, keep: Seq<usize>, a: int, b: int) -> bool {
    &&& 0 <= a < keep.len()
    &&& 0 <= b < keep.len()
    &&& last_position(keep, keep[b] as int) == b
    &&& m@.contains_key((keep[a] as int, keep[b] as int))
}

/// Among storage slots `start .. index`, one holds column `keep[b]`, and `b`
/// is the last position of that column in `keep`.
spec fn kept_so_far<V>(m: &CsrMatrix<V>, keep: Seq<usize>, b: int, start: int, index: int) -> bool {
    &&& 0 <= b < keep.len()
    &&& last_position(keep, keep[b] as int) == b
    &&& exists|k: int| start <= k < index && m.column_indices@[k] == keep[b]
}

/// `sub` is the submatrix of `m` on `keep`: entry (a, b) of `sub` is entry
/// (keep[a], keep[b]) of `m`, where a column index that occurs in `keep` more
/// than once lands on its last occurrence.
pub open spec fn is_submatrix<V>(sub: &CsrMatrix<V>, m: &CsrMatrix<V>, keep: Seq<usize>) -> bool {
    &&& sub.num_rows() == keep.len()
    &&& sub.num_columns() == keep.len()
    &&& forall|a: int, b: int| #[trigger] sub@.contains_key((a, b)) <==> kept_entry(m, keep, a, b)
    &&& forall|a: int, b: int| #[trigger]
        sub@.contains_key((a, b)) ==> sub@[(a, b)] == m@[(keep[a] as int, keep[b] as int)]
}

impl<V: Copy + Add<Output = V>> CsrMatrix<V> {
    /// Keep only the rows and columns in `keep`, renumbered to 0, 1, 2, ...
    ///
    /// Entry (a, b) of the result is entry (keep[a], keep[b]) of `self`. When an
    /// index occurs in `keep` more than once, its column lands on its last
    /// occurrence; its row is repeated at every occurrence.
    pub fn submatrix(&self, keep: &[usize]) -> (sub: Self)
        requires
            keep@.len() < usize::MAX,
            forall|i: int|
                0 <= i < keep@.len() ==> #[trigger] keep@[i] < self.num_rows() && keep@[i]
                    < self.num_columns(),
            forall|i: int, c: int|
                0 <= i < keep@.len() && #[trigger] self@.contains_key((keep@[i] as int, c)) ==> c
                    < self.num_columns(),
        ensures
            is_submatrix(&sub, self, keep@),
            no_repeats(keep@) ==> forall|a: int, b: int|
                0 <= a < keep@.len() && 0 <= b < keep@.len() ==> (#[trigger] sub@.contains_key(
                    (a, b),
                ) <==> self@.contains_key((keep@[a] as int, keep@[b] as int))),
    {
        proof {
            use_type_invariant(self);
        }
        // Map old index -> new index, or usize::MAX for "removed".
        let mut new_index: Vec<usize> = Vec::new();
        let mut i: usize = 0;
        while i < self.n_columns
            invariant
                i <= self.n_columns,
                new_index@.len() == i,
                forall|c: int| 0 <= c < i ==> #[trigger] new_index@[c] == usize::MAX,
            decreases self.n_columns - i,
        {
            new_index.push(usize::MAX);
            i += 1;
        }
        proof {
            assert(keep@.take(0) =~= Seq::<usize>::empty());
        }
        let mut position: usize = 0;
        while position < keep.len()
            invariant
                position <= keep@.len(),
                keep@.len() < usize::MAX,
                new_index@.len() == self.n_columns,
                forall|i: int|
                    0 <= i < keep@.len() ==> #[trigger] keep@[i] < self.num_rows() && keep@[i]
                        < self.num_columns(),
                forall|c: int|
                    0 <= c < self.n_columns ==> #[trigger] new_index@[c] == new_index_of(
                        keep@.take(position as int),
                        c,
                    ),
            decreases keep@.len() - position,
        {
            let old = keep[position];
            new_index.set(old, position);
            proof {
                assert(keep@.take(position + 1) =~= keep@.take(position as int).push(old));
                assert forall|c: int| 0 <= c < self.n_columns implies #[trigger] new_index@[c]
                    == new_index_of(keep@.take(position + 1), c) by {
                    lemma_last_position_push(keep@.take(position as int), old, c);
                }
            }
            position += 1;
        }
        proof {
            assert(keep@.take(keep@.len() as int) =~= keep@);
        }

        let mut triplets: Vec<Triplet<V>> = Vec::new();
        let mut new_row: usize = 0;
        while new_row < keep.len()
            invariant
                self.well_formed(),
                new_row <= keep@.len(),
                keep@.len() < usize::MAX,
                new_index@.len() == self.n_columns,
                forall|i: int|
                    0 <= i < keep@.len() ==> #[trigger] keep@[i] < self.num_rows() && keep@[i]
                        < self.num_columns(),
                forall|i: int, c: int|
                    0 <= i < keep@.len() && #[trigger] self@.contains_key((keep@[i] as int, c))
                        ==> c < self.num_columns(),
                forall|c: int|
                    0 <= c < self.n_columns ==> #[trigger] new_index@[c] == new_index_of(keep@, c),
                forall|i: int| 0 <= i < triplets@.len() ==> #[trigger] triplets@[i].row < new_row,
                forall|a: int, b: int|
                    #[trigger] contributions(triplets@, a, b) == if a < new_row && kept_entry(
                        self,
                        keep@,
                        a,
                        b,
                    ) {
                        seq![self@[(keep@[a] as int, keep@[b] as int)]]
                    } else {
                        Seq::<V>::empty()
                    },
            decreases keep@.len() - new_row,
        {
            let old_row = keep[new_row];
            proof {
                assert(self.row_offsets@[old_row + 1] <= self.row_offsets@[self.n_rows as int]);
            }
            let start = self.row_offsets[old_row];
            let end = self.row_offsets[old_row + 1];
            let mut index = start;
            while index < end
                invariant
                    self.well_formed(),
                    new_row < keep@.len(),
                    keep@.len() < usize::MAX,
                    old_row == keep@[new_row as int],
                    old_row < self.n_rows,
                    start == self.row_offsets@[old_row as int],
                    end == self.row_offsets@[old_row + 1],
                    end <= self.column_indices@.len(),
                    start <= index <= end,
                    new_index@.len() == self.n_columns,
                    forall|i: int, c: int|
                        0 <= i < keep@.len() && #[trigger] self@.contains_key((keep@[i] as int, c))
                            ==> c < self.num_columns(),
                    forall|c: int|
                        0 <= c < self.n_columns ==> #[trigger] new_index@[c] == new_index_of(
                            keep@,
                            c,
                        ),
                    forall|i: int| 0 <= i < triplets@.len() ==> #[trigger] triplets@[i].row <= new_row,
                    forall|a: int, b: int|
                        #[trigger] contributions(triplets@, a, b) == if (a < new_row && kept_entry(
                            self,
                            keep@,
                            a,
                            b,
                        )) || (a == new_row && kept_so_far(self, keep@, b, start as int, index as int)) {
                            seq![self@[(keep@[a] as int, keep@[b] as int)]]
                        } else {
                            Seq::<V>::empty()
                        },
                decreases end - index,
            {
                let old_column = self.column_indices[index];
                let value = self.values[index];
                proof {
                    assert(self.in_row(old_row as int, index as int));
                    self.lemma_slot(old_row as int, index as int);
                    assert(old_column < self.n_columns);
                    lemma_last_position(keep@, old_column as int);
                    assert forall|k: int| start <= k < index implies self.column_indices@[k]
                        < old_column by {
                        assert(self.in_row(old_row as int, k));
                    }
                }
                let ghost before = triplets@;
                if new_index[old_column] != usize::MAX {
                    let t = Triplet { row: new_row, column: new_index[old_column], value };
                    triplets.push(t);
                    proof {
                        let p = last_position(keep@, old_column as int);
                        assert(p >= 0);
                        assert(keep@[p] == old_column);
                        assert forall|a: int, b: int|
                            #[trigger] contributions(triplets@, a, b) == if (a < new_row
                                && kept_entry(self, keep@, a, b)) || (a == new_row && kept_so_far(
                                self,
                                keep@,
                                b,
                                start as int,
                                index + 1,
                            )) {
                                seq![self@[(keep@[a] as int, keep@[b] as int)]]
                            } else {
                                Seq::<V>::empty()
                            } by {
                            lemma_contributions_push(before, t, a, b);
                            if a == new_row && b == p {
                                assert(!kept_so_far(self, keep@, b, start as int, index as int));
                                assert(kept_so_far(self, keep@, b, start as int, index + 1));
                            } else if a == new_row {
                                if kept_so_far(self, keep@, b, start as int, index + 1) {
                                    let k = choose|k: int|
                                        start <= k < index + 1 && self.column_indices@[k]
                                            == keep@[b];
                                    if k == index {
                                        assert(keep@[b] == old_column);
                                    }
                                    assert(kept_so_far(self, keep@, b, start as int, index as int));
                                }
                            }
                        }
                    }
                } else {
                    proof {
                        assert forall|a: int, b: int|
                            #[trigger] contributions(triplets@, a, b) == if (a < new_row
                                && kept_entry(self, keep@, a, b)) || (a == new_row && kept_so_far(
                                self,
                                keep@,
                                b,
                                start as int,
                                index + 1,
                            )) {
                                seq![self@[(keep@[a] as int, keep@[b] as int)]]
                            } else {
                                Seq::<V>::empty()
                            } by {
                            if a == new_row && kept_so_far(
                                self,
                                keep@,
                                b,
                                start as int,
                                index + 1,
                            ) {
                                let k = choose|k: int|
                                    start <= k < index + 1 && self.column_indices@[k] == keep@[b];
                                if k == index {
                                    assert(keep@[b] == old_column);
                                    lemma_last_position(keep@, old_column as int);
                                }
                                assert(kept_so_far(self, keep@, b, start as int, index as int));
                            }
                        }
                    }
                }
                index += 1;
            }
            proof {
                assert forall|b: int|
                    kept_so_far(self, keep@, b, start as int, end as int) <==> kept_entry(
                        self,
                        keep@,
                        new_row as int,
                        b,
                    ) by {
                    if kept_so_far(self, keep@, b, start as int, end as int) {
                        let k = choose|k: int|
                            start <= k < end && self.column_indices@[k] == keep@[b];
                        assert(self.in_row(old_row as int, k));
                        self.lemma_slot(old_row as int, k);
                    }
                    if kept_entry(self, keep@, new_row as int, b) {
                        let k = self.lemma_stored(old_row as int, keep@[b] as int);
                    }
                }
                assert forall|a: int, b: int|
                    #[trigger] contributions(triplets@, a, b) == if a < new_row + 1 && kept_entry(
                        self,
                        keep@,
                        a,
                        b,
                    ) {
                        seq![self@[(keep@[a] as int, keep@[b] as int)]]
                    } else {
                        Seq::<V>::empty()
                    } by {}
            }
            new_row += 1;
        }
        proof {
            assert forall|r: int, c: int| summable(#[trigger] contributions(triplets@, r, c)) by {}
        }
        let sub = Self::from_triplets(triplets.as_slice(), keep.len(), keep.len());
        proof {
            assert forall|a: int, b: int| #[trigger] sub@.contains_key((a, b)) implies sub@[(a, b)]
                == self@[(keep@[a] as int, keep@[b] as int)] by {
                let s = contributions(triplets@, a, b);
                assert(s.len() == 1);
            }
            if no_repeats(keep@) {
                assert forall|a: int, b: int|
                    0 <= a < keep@.len() && 0 <= b < keep@.len() implies (
                    #[trigger] sub@.contains_key((a, b)) <==> self@.contains_key(
                        (keep@[a] as int, keep@[b] as int),
                    )) by {
                    lemma_no_repeats_last_position(keep@, b);
                }
            }
        }
        sub
    }
}

// ---------------------------------------------------------------------------
// Matrix-vector product
// ---------------------------------------------------------------------------
/// `*` on `V` never fails, whatever the operands (as for floating point).
pub open spec fn multiplication_is_total<V: Mul<Output = V>>() -> bool {
    forall|a: V, b: V| #[trigger] a.mul_req(b)
}

/// Row `r` of `m` times `x`, summed from `zero` over the stored entries with
/// column below `upto`, in increasing column order:
/// `((zero + m[r][c0] * x[c0]) + m[r][c1] * x[c1]) + ...`.
pub open spec fn row_product<V: Add<Output = V> + Mul<Output = V>>(
    m: &CsrMatrix<V>,
    x: Seq<V>,
    r: int,
    zero: V,
    upto: int,
) -> V
    decreases upto,
{
    if upto <= 0 {
        zero
    } else {
        let acc = row_product(m, x, r, zero, upto - 1);
        if m@.contains_key((r, upto - 1)) {
            acc.add_spec(m@[(r, upto - 1)].mul_spec(x[upto - 1]))
        } else {
            acc
        }
    }
}

/// Every product and partial sum of `row_product(m, x, r, zero, upto)` meets
/// the preconditions of `V`'s `*` and `+`.
pub open spec fn row_product_defined<V: Add<Output = V> + Mul<Output = V>>(
    m: &CsrMatrix<V>,
    x: Seq<V>,
    r: int,
    zero: V,
    upto: int,
) -> bool
    decreases upto,
{
    upto <= 0 || {
        &&& row_product_defined(m, x, r, zero, upto - 1)
        &&& m@.contains_key((r, upto - 1)) ==> {
            &&& m@[(r, upto - 1)].mul_req(x[upto - 1])
            &&& row_product(m, x, r, zero, upto - 1).add_req(
                m@[(r, upto - 1)].mul_spec(x[upto - 1]),
            )
        }
    }
}

/// Every operation that `multiply` performs on values can be carried out.
pub open spec fn product_defined<V: Default + Add<Output = V> + Mul<Output = V>>(
    m: &CsrMatrix<V>,
    x: Seq<V>,
) -> bool {
    ||| addition_is_total::<V>() && multiplication_is_total::<V>()
    ||| {
        &&& V::obeys_add_spec()
        &&& V::obeys_mul_spec()
        &&& forall|z: V, r: int|
            #![trigger row_product_defined(m, x, r, z, m.num_columns() as int)]
            is_default(z) && 0 <= r < m.num_rows() ==> row_product_defined(
                m,
                x,
                r,
                z,
                m.num_columns() as int,
            )
    }
}

/// Columns with no stored entry in row `r` add nothing to its product.
proof fn lemma_row_product_skip<V: Add<Output = V> + Mul<Output = V>>(
    m: &CsrMatrix<V>,
    x: Seq<V>,
    r: int,
    zero: V,
    a: int,
    b: int,
)
    requires
        0 <= a <= b,
        forall|c: int| a <= c < b ==> !#[trigger] m@.contains_key((r, c)),
    ensures
        row_product(m, x, r, zero, a) == row_product(m, x, r, zero, b),
        row_product_defined(m, x, r, zero, a) == row_product_defined(m, x, r, zero, b),
    decreases b - a,
{
    if a < b {
        lemma_row_product_skip(m, x, r, zero, a, b - 1);
        assert(!m@.contains_key((r, b - 1)));
    }
}

/// What is defined up to column `b` is defined up to any earlier column.
proof fn lemma_row_product_defined_prefix<V: Add<Output = V> + Mul<Output = V>>(
    m: &CsrMatrix<V>,
    x: Seq<V>,
    r: int,
    zero: V,
    a: int,
    b: int,
)
    requires
        a <= b,
        row_product_defined(m, x, r, zero, b),
    ensures
        row_product_defined(m, x, r, zero, a),
    decreases b - a,
{
    if a < b {
        lemma_row_product_defined_prefix(m, x, r, zero, a, b - 1);
    }
}

impl<V: Copy + Default + Add<Output = V> + Mul<Output = V>> CsrMatrix<V> {
    /// Matrix-vector product. This is the only operation conjugate gradient
    /// needs from the matrix.
    ///
    /// Entry r of the result is the sum, from a default value (zero), of
    /// `value * vector[column]` over the stored entries of row r in increasing
    /// column order.
    pub fn multiply(&self, vector: &[V]) -> (result: Vec<V>)
        requires
            vector@.len() == self.num_columns(),
            self.columns_in_range_spec(),
            product_defined(self, vector@),
        ensures
            result@.len() == self.num_rows(),
            V::obeys_add_spec() && V::obeys_mul_spec() ==> exists|z: V|
                is_default(z) && forall|r: int|
                    0 <= r < self.num_rows() ==> #[trigger] result@[r] == row_product(
                        self,
                        vector@,
                        r,
                        z,
                        self.num_columns() as int,
                    ),
    {
        proof {
            use_type_invariant(self);
        }
        let zero = V::default();
        let ghost obeys = V::obeys_add_spec() && V::obeys_mul_spec();
        let ghost n_columns = self.n_columns as int;
        let mut result: Vec<V> = Vec::new();
        let mut row: usize = 0;
        while row < self.n_rows
            invariant
                self.well_formed(),
                is_default(zero),
                obeys == (V::obeys_add_spec() && V::obeys_mul_spec()),
                n_columns == self.n_columns,
                vector@.len() == self.num_columns(),
                forall|r: int, c: int| #[trigger] self@.contains_key((r, c)) ==> c < self.num_columns(),
                product_defined(self, vector@),
                row <= self.n_rows,
                result@.len() == row,
                obeys ==> forall|r: int|
                    0 <= r < row ==> #[trigger] result@[r] == row_product(
                        self,
                        vector@,
                        r,
                        zero,
                        n_columns,
                    ),
            decreases self.n_rows - row,
        {
            proof {
                assert(self.row_offsets@[row + 1] <= self.row_offsets@[self.n_rows as int]);
            }
            let start = self.row_offsets[row];
            let end = self.row_offsets[row + 1];
            let mut sum = zero;
            let mut index = start;
            let ghost mut reached: int = 0;
            while index < end
                invariant
                    self.well_formed(),
                    is_default(zero),
                    obeys == (V::obeys_add_spec() && V::obeys_mul_spec()),
                    n_columns == self.n_columns,
                    vector@.len() == self.num_columns(),
                    forall|r: int, c: int| #[trigger] self@.contains_key((r, c)) ==> c < self.num_columns(),
                    product_defined(self, vector@),
                    row < self.n_rows,
                    start == self.row_offsets@[row as int],
                    end == self.row_offsets@[row + 1],
                    end <= self.column_indices@.len(),
                    start <= index <= end,
                    0 <= reached <= n_columns,
                    index == start ==> reached == 0,
                    index > start ==> reached == self.column_indices@[index - 1] + 1,
                    forall|c: int|
                        0 <= c < reached && #[trigger] self@.contains_key((row as int, c)) ==> exists|k: int|
                            start <= k < index && self.column_indices@[k] == c,
                    obeys ==> sum == row_product(self, vector@, row as int, zero, reached),
                decreases end - index,
            {
                let column = self.column_indices[index];
                let value = self.values[index];
                proof {
                    assert(self.in_row(row as int, index as int));
                    self.lemma_slot(row as int, index as int);
                    assert(column < self.n_columns);
                    assert forall|c: int| reached <= c < column implies !#[trigger] self@.contains_key(
                        (row as int, c),
                    ) by {
                        if self@.contains_key((row as int, c)) {
                            let k = self.lemma_stored(row as int, c);
                            assert(self.in_row(row as int, k));
                            if k < index {
                                if index > start {
                                    assert(self.in_row(row as int, index - 1));
                                    if k < index - 1 {
                                        assert(self.column_indices@[k] < self.column_indices@[index - 1]);
                                    }
                                }
                            } else if k > index {
                                assert(self.column_indices@[index as int] < self.column_indices@[k]);
                            }
                        }
                    }
                    if index > start {
                        assert(self.in_row(row as int, index - 1));
                        assert(self.column_indices@[index - 1] < column);
                    }
                    lemma_row_product_skip(self, vector@, row as int, zero, reached, column as int);
                    if !(addition_is_total::<V>() && multiplication_is_total::<V>()) {
                        assert(row_product_defined(self, vector@, row as int, zero, n_columns));
                        lemma_row_product_defined_prefix(
                            self,
                            vector@,
                            row as int,
                            zero,
                            column + 1,
                            n_columns,
                        );
                    }
                }
                let product = value * vector[column];
                sum = sum + product;
                proof {
                    reached = column + 1;
                    assert forall|c: int|
                        0 <= c < reached && #[trigger] self@.contains_key((row as int, c)) implies exists|k: int|
                            start <= k < index + 1 && self.column_indices@[k] == c by {
                        if c == column {
                            assert(self.column_indices@[index as int] == c);
                        } else {
                            assert(!(reached - 1 <= c < column));
                        }
                    }
                }
                index += 1;
            }
            proof {
                assert forall|c: int| reached <= c < n_columns implies !#[trigger] self@.contains_key(
                    (row as int, c),
                ) by {
                    if self@.contains_key((row as int, c)) {
                        let k = self.lemma_stored(row as int, c);
                        assert(self.in_row(row as int, k));
                        if index > start {
                            assert(self.in_row(row as int, index - 1));
                            if k < index - 1 {
                                assert(self.column_indices@[k] < self.column_indices@[index - 1]);
                            }
                        }
                    }
                }
                lemma_row_product_skip(self, vector@, row as int, zero, reached, n_columns);
            }
            result.push(sum);
            row += 1;
        }
        proof {
            if obeys {
                assert(is_default(zero) && forall|r: int|
                    0 <= r < self.num_rows() ==> #[trigger] result@[r] == row_product(
                        self,
                        vector@,
                        r,
                        zero,
                        self.num_columns() as int,
                    ));
            }
        }
        result
    }
}

// ---------------------------------------------------------------------------
// Laws
// ---------------------------------------------------------------------------
/// No two triplets share a (row, column) position.
pub open spec fn positions_distinct<V>(triplets: Seq<Triplet<V>>) -> bool {
    forall|i: int, j: int|
        0 <= i < j < triplets.len() ==> !(triplets[i].row == triplets[j].row && triplets[i].column
            == triplets[j].column)
}

/// With distinct positions, a position receives the value of the one triplet
/// that lies there, or nothing.
proof fn lemma_contributions_distinct<V>(ts: Seq<Triplet<V>>, i: int)
    requires
        positions_distinct(ts),
        0 <= i < ts.len(),
    ensures
        contributions(ts, ts[i].row as int, ts[i].column as int) == seq![ts[i].value],
    decreases ts.len(),
{
    let r = ts[i].row as int;
    let c = ts[i].column as int;
    let rest = ts.drop_last();
    assert forall|a: int, b: int| 0 <= a < b < rest.len() implies !(rest[a].row == rest[b].row
        && rest[a].column == rest[b].column) by {
        assert(rest[a] == ts[a] && rest[b] == ts[b]);
    }
    if i == ts.len() - 1 {
        if contributions(rest, r, c).len() > 0 {
            let j = lemma_contributions_witness(rest, r, c);
            assert(rest[j] == ts[j]);
        }
    } else {
        assert(rest[i] == ts[i]);
        lemma_contributions_distinct(rest, i);
    }
}

/// The matrix that triplets with distinct positions assemble into does not
/// depend on the order of the triplets: any rearrangement of them gives the
/// same entries.
pub proof fn law_from_triplets_ignores_order<V: Add<Output = V>>(
    ts1: Seq<Triplet<V>>,
    ts2: Seq<Triplet<V>>,
    n_rows: int,
    n_columns: int,
    m1: &CsrMatrix<V>,
    m2: &CsrMatrix<V>,
)
    requires
        positions_distinct(ts1),
        ts2.to_multiset() == ts1.to_multiset(),
        agrees_with_triplets(m1, ts1, n_rows, n_columns),
        agrees_with_triplets(m2, ts2, n_rows, n_columns),
    ensures
        m1@ == m2@,
{
    broadcast use vstd::seq_lib::group_to_multiset_ensures;

    // Distinct positions make the triplets distinct, so each occurs once in
    // either sequence, and the rearrangement has distinct positions too.
    assert(ts1.no_duplicates());
    ts1.lemma_multiset_has_no_duplicates();
    ts2.lemma_multiset_has_no_duplicates_conv();
    assert forall|i: int, j: int| 0 <= i < j < ts2.len() implies !(ts2[i].row == ts2[j].row
        && ts2[i].column == ts2[j].column) by {
        if ts2[i].row == ts2[j].row && ts2[i].column == ts2[j].column {
            assert(ts2.contains(ts2[i]));
            assert(ts2.contains(ts2[j]));
            assert(ts1.to_multiset().count(ts2[i]) > 0);
            assert(ts1.to_multiset().count(ts2[j]) > 0);
            let a = choose|a: int| 0 <= a < ts1.len() && ts1[a] == ts2[i];
            let b = choose|b: int| 0 <= b < ts1.len() && ts1[b] == ts2[j];
            assert(a == b);
        }
    }
    // Both sequences give every position the same contributions.
    assert forall|r: int, c: int| #[trigger] contributions(ts1, r, c) == contributions(ts2, r, c) by {
        if contributions(ts1, r, c).len() > 0 {
            let i = lemma_contributions_witness(ts1, r, c);
            lemma_contributions_distinct(ts1, i);
            assert(ts1.contains(ts1[i]));
            assert(ts2.to_multiset().count(ts1[i]) > 0);
            let j = choose|j: int| 0 <= j < ts2.len() && ts2[j] == ts1[i];
            lemma_contributions_distinct(ts2, j);
        } else if contributions(ts2, r, c).len() > 0 {
            let j = lemma_contributions_witness(ts2, r, c);
            assert(ts2.contains(ts2[j]));
            assert(ts1.to_multiset().count(ts2[j]) > 0);
            let i = choose|i: int| 0 <= i < ts1.len() && ts1[i] == ts2[j];
            lemma_contributions_distinct(ts1, i);
        }
    }
    assert(m1@ =~= m2@) by {
        assert forall|p: (int, int)| #[trigger] m1@.contains_key(p) <==> m2@.contains_key(p) by {
            assert(contributions(ts1, p.0, p.1) == contributions(ts2, p.0, p.1));
        }
        assert forall|p: (int, int)| #[trigger] m1@.contains_key(p) implies m1@[p] == m2@[p] by {
            assert(contributions(ts1, p.0, p.1) == contributions(ts2, p.0, p.1));
            let i = lemma_contributions_witness(ts1, p.0, p.1);
            lemma_contributions_distinct(ts1, i);
        }
    }
}

/// Selecting a submatrix and then a submatrix of it is one selection by the
/// composed index list, when neither list repeats an index.
pub proof fn law_submatrix_of_submatrix<V>(
    m: &CsrMatrix<V>,
    k1: Seq<usize>,
    k2: Seq<usize>,
    s1: &CsrMatrix<V>,
    s12: &CsrMatrix<V>,
    s3: &CsrMatrix<V>,
)
    requires
        no_repeats(k1),
        no_repeats(k2),
        forall|i: int| 0 <= i < k2.len() ==> #[trigger] k2[i] < k1.len(),
        is_submatrix(s1, m, k1),
        is_submatrix(s12, s1, k2),
        is_submatrix(s3, m, k2.map_values(|i: usize| k1[i as int])),
    ensures
        s12@ == s3@,
{
    let k3 = k2.map_values(|i: usize| k1[i as int]);
    assert(no_repeats(k3)) by {
        assert forall|i: int, j: int| 0 <= i < j < k3.len() implies k3[i] != k3[j] by {
            assert(k2[i] != k2[j]);
            if k2[i] < k2[j] {
                assert(k1[k2[i] as int] != k1[k2[j] as int]);
            } else {
                assert(k1[k2[j] as int] != k1[k2[i] as int]);
            }
        }
    }
    assert forall|a: int, b: int| #[trigger] s12@.contains_key((a, b)) <==> s3@.contains_key((a, b)) by {
        if 0 <= a < k2.len() && 0 <= b < k2.len() {
            lemma_no_repeats_last_position(k2, b);
            lemma_no_repeats_last_position(k1, k2[b] as int);
            lemma_no_repeats_last_position(k3, b);
        }
    }
    assert forall|a: int, b: int| #[trigger] s12@.contains_key((a, b)) implies s12@[(a, b)] == s3@[(a, b)] by {
        lemma_no_repeats_last_position(k2, b);
        lemma_no_repeats_last_position(k1, k2[b] as int);
        lemma_no_repeats_last_position(k3, b);
    }
    assert(s12@ =~= s3@);
}

} // verus!
