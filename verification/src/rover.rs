//! The indexer core: ingests decoded records and maintains, per column
//! position, two synchronized index structures — an append-ordered
//! association list for exact-match lookup and a sorted association list for
//! ascending traversal by column value.

use vstd::prelude::*;

use crate::column::{col_lt, lemma_col_lt_properties, lemma_col_lt_transitive, Column, ColumnV};

verus! {

/// A column's position within a decoded record (0 to 255).
pub type ColumnIndex = u8;

/// The number of column positions a record may use.
pub const MAX_COLUMNS: usize = 256;

/// The reason a decoder could not interpret a raw value.
#[derive(Debug, Clone, PartialEq, Eq)]
pub struct DecodeError {
    pub reason: String,
}

/// An error raised while ingesting one record. Both kinds abort the
/// ingestion cleanly: the indexes are left exactly as they were.
#[derive(Debug, Clone, PartialEq, Eq)]
pub enum IndexError {
    /// The decoder could not interpret the raw value; carries the cause.
    DecodeFailure(DecodeError),
    /// The decoded record has more than [`MAX_COLUMNS`] columns.
    TooManyColumns,
}

/// ValueDecoder transforms a raw value into a vector of Columns.
///
/// A decoder is expected to be pure: the same raw value should always yield
/// the same column sequence. A value it cannot interpret is reported as a
/// `DecodeError`, never a panic.
pub trait ValueDecoder<V> {
    fn decode(&self, value: V) -> Result<Vec<Column>, DecodeError>;
}

/// One entry of an association list: the keys of every record whose decoded
/// value at this list's position equals `column`, in ingestion order.
struct Bucket<K> {
    column: Column,
    keys: Vec<K>,
}

/// Whether the association list `bs` has an entry for column value `c`.
spec fn assoc_has<K>(bs: Seq<Bucket<K>>, c: ColumnV) -> bool
    decreases bs.len(),
{
    if bs.len() == 0 {
        false
    } else if bs[0].column@ == c {
        true
    } else {
        assoc_has(bs.skip(1), c)
    }
}

/// The keys that the association list `bs` holds for column value `c`
/// (first matching entry; empty if absent).
spec fn assoc_lookup<K>(bs: Seq<Bucket<K>>, c: ColumnV) -> Seq<K>
    decreases bs.len(),
{
    if bs.len() == 0 {
        Seq::empty()
    } else if bs[0].column@ == c {
        bs[0].keys@
    } else {
        assoc_lookup(bs.skip(1), c)
    }
}

/// An entry whose column occurs nowhere earlier determines the lookup.
proof fn lemma_assoc_at<K>(bs: Seq<Bucket<K>>, i: int)
    requires
        0 <= i < bs.len(),
        forall|m: int| 0 <= m < i ==> bs[m].column@ != bs[i].column@,
    ensures
        assoc_has(bs, bs[i].column@),
        assoc_lookup(bs, bs[i].column@) == bs[i].keys@,
    decreases i,
{
    if i > 0 {
        let tl = bs.skip(1);
        assert(tl[i - 1] == bs[i]);
        assert forall|m: int| 0 <= m < i - 1 implies (#[trigger] tl[m]).column@ != tl[i - 1].column@ by {
            assert(tl[m] == bs[m + 1]);
        }
        lemma_assoc_at(tl, i - 1);
    }
}

/// A column value matched by no entry is absent.
proof fn lemma_assoc_absent<K>(bs: Seq<Bucket<K>>, c: ColumnV)
    requires
        forall|m: int| 0 <= m < bs.len() ==> bs[m].column@ != c,
    ensures
        !assoc_has(bs, c),
        assoc_lookup(bs, c) == Seq::<K>::empty(),
    decreases bs.len(),
{
    if bs.len() > 0 {
        let tl = bs.skip(1);
        assert forall|m: int| 0 <= m < tl.len() implies (#[trigger] tl[m]).column@ != c by {
            assert(tl[m] == bs[m + 1]);
        }
        lemma_assoc_absent(tl, c);
    }
}

/// Replacing the first entry of a column with one for the same column
/// changes only that column's keys.
proof fn lemma_assoc_update<K>(bs: Seq<Bucket<K>>, i: int, b2: Bucket<K>, c: ColumnV)
    requires
        0 <= i < bs.len(),
        forall|m: int| 0 <= m < i ==> bs[m].column@ != bs[i].column@,
        b2.column@ == bs[i].column@,
    ensures
        assoc_has(bs.update(i, b2), c) == assoc_has(bs, c),
        assoc_lookup(bs.update(i, b2), c) == (if c == bs[i].column@ {
            b2.keys@
        } else {
            assoc_lookup(bs, c)
        }),
    decreases bs.len(),
{
    let bs2 = bs.update(i, b2);
    if i == 0 {
        assert(bs2[0] == b2);
        assert(bs2.skip(1) =~= bs.skip(1));
    } else {
        assert(bs2[0] == bs[0]);
        assert(bs[0].column@ != bs[i].column@);
        if bs[0].column@ != c {
            let tl = bs.skip(1);
            assert(tl[i - 1] == bs[i]);
            assert forall|m: int| 0 <= m < i - 1 implies (#[trigger] tl[m]).column@ != tl[i - 1].column@ by {
                assert(tl[m] == bs[m + 1]);
            }
            lemma_assoc_update(tl, i - 1, b2, c);
            assert(bs2.skip(1) =~= tl.update(i - 1, b2));
        }
    }
}

/// Inserting an entry for a column absent from the list adds exactly that
/// association and disturbs no other.
proof fn lemma_assoc_insert<K>(bs: Seq<Bucket<K>>, i: int, b: Bucket<K>, c: ColumnV)
    requires
        0 <= i <= bs.len(),
        forall|m: int| 0 <= m < bs.len() ==> bs[m].column@ != b.column@,
    ensures
        assoc_has(bs.insert(i, b), c) == (assoc_has(bs, c) || c == b.column@),
        assoc_lookup(bs.insert(i, b), c) == (if c == b.column@ {
            b.keys@
        } else {
            assoc_lookup(bs, c)
        }),
    decreases bs.len(),
{
    let bs2 = bs.insert(i, b);
    bs.insert_ensures(i, b);
    if i == 0 {
        assert(bs2[0] == b);
        assert(bs2.skip(1) =~= bs);
        if b.column@ != c {
            if bs.len() == 0 {
                assert(!assoc_has(bs, c));
                assert(assoc_lookup(bs, c) == Seq::<K>::empty());
            }
        }
    } else {
        assert(bs2[0] == bs[0]);
        assert(bs[0].column@ != b.column@);
        if bs[0].column@ != c {
            let tl = bs.skip(1);
            assert forall|m: int| 0 <= m < tl.len() implies (#[trigger] tl[m]).column@ != b.column@ by {
                assert(tl[m] == bs[m + 1]);
            }
            lemma_assoc_insert(tl, i - 1, b, c);
            assert(bs2.skip(1) =~= tl.insert(i - 1, b)) by {
                tl.insert_ensures(i - 1, b);
            }
        }
    }
}

/// The column values of a decoded record, in record order.
pub open spec fn column_views(cols: Seq<Column>) -> Seq<ColumnV> {
    cols.map_values(|c: Column| c@)
}

/// The entries of a sorted association list ascend strictly in the fixed
/// column order.
spec fn sorted_buckets<K>(bs: Seq<Bucket<K>>) -> bool {
    forall|i: int, j: int|
        0 <= i < j < bs.len() ==> col_lt(#[trigger] bs[i].column@, #[trigger] bs[j].column@)
}

/// Every entry of the list holds at least one key.
spec fn nonempty_buckets<K>(bs: Seq<Bucket<K>>) -> bool {
    forall|i: int| 0 <= i < bs.len() ==> (#[trigger] bs[i]).keys@.len() > 0
}

/// All keys of the list, bucket by bucket, each bucket in ingestion order.
spec fn flatten_keys<K>(bs: Seq<Bucket<K>>) -> Seq<K>
    decreases bs.len(),
{
    if bs.len() == 0 {
        Seq::empty()
    } else {
        bs[0].keys@ + flatten_keys(bs.skip(1))
    }
}


/// Appending a bucket at the end appends its keys to the flattening.
proof fn lemma_flatten_push<K>(bs: Seq<Bucket<K>>, b: Bucket<K>)
    ensures
        flatten_keys(bs.push(b)) == flatten_keys(bs) + b.keys@,
    decreases bs.len(),
{
    if bs.len() == 0 {
        assert(bs.push(b).skip(1) =~= Seq::<Bucket<K>>::empty());
        assert(bs.push(b)[0] == b);
        assert(flatten_keys(Seq::<Bucket<K>>::empty()) == Seq::<K>::empty());
        assert(flatten_keys(bs) == Seq::<K>::empty());
        assert(flatten_keys(bs.push(b)) == b.keys@ + Seq::<K>::empty());
        assert(b.keys@ + Seq::<K>::empty() =~= flatten_keys(bs) + b.keys@);
    } else {
        assert(bs.push(b)[0] == bs[0]);
        assert(bs.push(b).skip(1) =~= bs.skip(1).push(b));
        lemma_flatten_push(bs.skip(1), b);
        assert(bs[0].keys@ + (flatten_keys(bs.skip(1)) + b.keys@) =~= (bs[0].keys@ + flatten_keys(
            bs.skip(1),
        )) + b.keys@);
    }
}

/// A column value matched by no entry yields no keys.
proof fn lemma_assoc_not_has_lookup<K>(bs: Seq<Bucket<K>>, c: ColumnV)
    requires
        !assoc_has(bs, c),
    ensures
        assoc_lookup(bs, c) == Seq::<K>::empty(),
    decreases bs.len(),
{
    if bs.len() > 0 {
        lemma_assoc_not_has_lookup(bs.skip(1), c);
    }
}

/// A present column value yields at least one key when no bucket is empty.
proof fn lemma_assoc_has_lookup_len<K>(bs: Seq<Bucket<K>>, c: ColumnV)
    requires
        nonempty_buckets(bs),
        assoc_has(bs, c),
    ensures
        assoc_lookup(bs, c).len() > 0,
    decreases bs.len(),
{
    if bs.len() > 0 && bs[0].column@ != c {
        let tl = bs.skip(1);
        assert forall|m: int| 0 <= m < tl.len() implies (#[trigger] tl[m]).keys@.len() > 0 by {
            assert(tl[m] == bs[m + 1]);
        }
        lemma_assoc_has_lookup_len(tl, c);
    } else if bs.len() > 0 {
        assert(bs[0].keys@.len() > 0);
    }
}

/// A column value is present exactly when some entry carries it.
proof fn lemma_assoc_has_exists<K>(bs: Seq<Bucket<K>>, c: ColumnV)
    ensures
        assoc_has(bs, c) <==> exists|i: int| 0 <= i < bs.len() && (#[trigger] bs[i]).column@ == c,
    decreases bs.len(),
{
    if bs.len() > 0 {
        let tl = bs.skip(1);
        lemma_assoc_has_exists(tl, c);
        if bs[0].column@ == c {
            assert(0 <= 0 < bs.len() && bs[0].column@ == c);
        } else {
            if assoc_has(bs, c) {
                let i = choose|i: int| 0 <= i < tl.len() && (#[trigger] tl[i]).column@ == c;
                assert(bs[i + 1] == tl[i]);
                assert(0 <= i + 1 < bs.len() && bs[i + 1].column@ == c);
            }
            if exists|i: int| 0 <= i < bs.len() && (#[trigger] bs[i]).column@ == c {
                let i = choose|i: int| 0 <= i < bs.len() && (#[trigger] bs[i]).column@ == c;
                assert(i > 0);
                assert(tl[i - 1] == bs[i]);
                assert(assoc_has(tl, c));
            }
        }
    }
}

/// Two strictly ascending column sequences with the same members are equal.
proof fn lemma_sorted_seq_determined(a: Seq<ColumnV>, b: Seq<ColumnV>)
    requires
        forall|i: int, j: int| 0 <= i < j < a.len() ==> col_lt(#[trigger] a[i], #[trigger] a[j]),
        forall|i: int, j: int| 0 <= i < j < b.len() ==> col_lt(#[trigger] b[i], #[trigger] b[j]),
        forall|c: ColumnV| a.contains(c) == b.contains(c),
    ensures
        a == b,
    decreases a.len(),
{
    if a.len() == 0 {
        if b.len() > 0 {
            assert(b.contains(b[0]));
            assert(a.contains(b[0]));
        }
        assert(a =~= b);
    } else {
        assert(a.contains(a[0]));
        assert(b.contains(a[0]));
        let j = choose|j: int| 0 <= j < b.len() && b[j] == a[0];
        assert(b.contains(b[0]));
        assert(a.contains(b[0]));
        let i = choose|i: int| 0 <= i < a.len() && a[i] == b[0];
        if i > 0 && j > 0 {
            assert(col_lt(a[0], a[i]));
            assert(col_lt(b[0], b[j]));
            lemma_col_lt_properties(a[0], b[0]);
        }
        assert(a[0] == b[0]);
        let ta = a.skip(1);
        let tb = b.skip(1);
        assert forall|c: ColumnV| ta.contains(c) == tb.contains(c) by {
            lemma_sorted_tail_contains(a, c);
            lemma_sorted_tail_contains(b, c);
        }
        assert forall|i2: int, j2: int| 0 <= i2 < j2 < ta.len() implies col_lt(
            #[trigger] ta[i2],
            #[trigger] ta[j2],
        ) by {
            assert(ta[i2] == a[i2 + 1] && ta[j2] == a[j2 + 1]);
        }
        assert forall|i2: int, j2: int| 0 <= i2 < j2 < tb.len() implies col_lt(
            #[trigger] tb[i2],
            #[trigger] tb[j2],
        ) by {
            assert(tb[i2] == b[i2 + 1] && tb[j2] == b[j2 + 1]);
        }
        lemma_sorted_seq_determined(ta, tb);
        assert forall|m: int| 0 <= m < a.len() implies a[m] == b[m] by {
            if m >= 1 {
                assert(a[m] == ta[m - 1]);
                assert(b[m] == tb[m - 1]);
            }
        }
        assert(a =~= b);
    }
}

/// In a strictly ascending sequence, the tail holds exactly the members
/// other than the head.
proof fn lemma_sorted_tail_contains(a: Seq<ColumnV>, c: ColumnV)
    requires
        a.len() > 0,
        forall|i: int, j: int| 0 <= i < j < a.len() ==> col_lt(#[trigger] a[i], #[trigger] a[j]),
    ensures
        a.skip(1).contains(c) == (a.contains(c) && c != a[0]),
{
    let t = a.skip(1);
    if t.contains(c) {
        let i = choose|i: int| 0 <= i < t.len() && t[i] == c;
        assert(a[i + 1] == c);
        assert(a.contains(c));
        assert(col_lt(a[0], a[i + 1]));
        lemma_col_lt_properties(a[0], c);
    }
    if a.contains(c) && c != a[0] {
        let i = choose|i: int| 0 <= i < a.len() && a[i] == c;
        assert(i > 0);
        assert(t[i - 1] == c);
        assert(t.contains(c));
    }
}

/// Finds the first entry of `bs` whose column equals `c`.
fn find_bucket<K>(bs: &Vec<Bucket<K>>, c: &Column) -> (r: Option<usize>)
    ensures
        match r {
            Some(i) => i < bs@.len() && bs@[i as int].column@ == c@ && forall|m: int|
                0 <= m < i ==> (#[trigger] bs@[m]).column@ != c@,
            None => forall|m: int| 0 <= m < bs@.len() ==> (#[trigger] bs@[m]).column@ != c@,
        },
{
    let mut i: usize = 0;
    while i < bs.len()
        invariant
            i <= bs@.len(),
            forall|m: int| 0 <= m < i ==> (#[trigger] bs@[m]).column@ != c@,
        decreases bs@.len() - i,
    {
        if bs[i].column.eq_value(c) {
            return Some(i);
        }
        i = i + 1;
    }
    None
}

/// Finds the first position of `bs` whose column is not below `c` in the
/// fixed column order: the position at which `c`'s bucket stands or belongs.
fn find_sorted_pos<K>(bs: &Vec<Bucket<K>>, c: &Column) -> (j: usize)
    ensures
        j <= bs@.len(),
        forall|m: int| 0 <= m < j ==> col_lt((#[trigger] bs@[m]).column@, c@),
        j < bs@.len() ==> !col_lt(bs@[j as int].column@, c@),
{
    let mut j: usize = 0;
    while j < bs.len()
        invariant
            j <= bs@.len(),
            forall|m: int| 0 <= m < j ==> col_lt((#[trigger] bs@[m]).column@, c@),
        decreases bs@.len() - j,
    {
        if !bs[j].column.lt_value(c) {
            return j;
        }
        j = j + 1;
    }
    j
}

/// Rover is an in-memory indexer for any key/value store. A `value_decoder`
/// turns a raw value into a vector of Columns; for each column position the
/// indexer maintains an exact-match index and an order index, kept in step
/// with each other.
pub struct Rover<K, D> {
    /// Per position, the buckets in first-insertion order: exact-match lookup.
    exact_index: Vec<Vec<Bucket<K>>>,
    /// Per position, the buckets in ascending column order: sorted traversal.
    order_index: Vec<Vec<Bucket<K>>>,
    /// Transforms raw values into columns.
    value_decoder: D,
}

impl<K: Copy, D> Rover<K, D> {
    /// The internal invariant: both indexes cover the same positions, the
    /// order index ascends strictly in column order, every bucket is
    /// non-empty, and at each position both indexes hold exactly the same
    /// column-to-keys associations.
    pub closed spec fn wf(self) -> bool {
        &&& self.exact_index@.len() == self.order_index@.len()
        &&& self.exact_index@.len() <= MAX_COLUMNS as int
        &&& forall|p: int|
            0 <= p < self.order_index@.len() ==> sorted_buckets(#[trigger] self.order_index@[p]@)
        &&& forall|p: int|
            0 <= p < self.order_index@.len() ==> nonempty_buckets(#[trigger] self.order_index@[p]@)
        &&& forall|p: int|
            0 <= p < self.exact_index@.len() ==> nonempty_buckets(#[trigger] self.exact_index@[p]@)
        &&& forall|p: int, c: ColumnV|
            0 <= p < self.exact_index@.len() ==> #[trigger] assoc_lookup(
                self.exact_index@[p]@,
                c,
            ) == assoc_lookup(self.order_index@[p]@, c)
        &&& forall|p: int, c: ColumnV|
            0 <= p < self.exact_index@.len() ==> #[trigger] assoc_has(self.exact_index@[p]@, c)
                == assoc_has(self.order_index@[p]@, c)
    }

    /// The keys indexed under column value `c` at position `p`, in ingestion
    /// order; empty if the pair was never indexed.
    pub closed spec fn lookup(self, p: int, c: ColumnV) -> Seq<K> {
        if 0 <= p < self.exact_index@.len() {
            assoc_lookup(self.exact_index@[p]@, c)
        } else {
            Seq::empty()
        }
    }

    /// Whether any key is indexed under column value `c` at position `p`.
    pub closed spec fn has_col(self, p: int, c: ColumnV) -> bool {
        0 <= p < self.exact_index@.len() && assoc_has(self.exact_index@[p]@, c)
    }

    /// The distinct column values indexed at position `p`, in ascending order.
    pub closed spec fn order_cols(self, p: int) -> Seq<ColumnV> {
        if 0 <= p < self.order_index@.len() {
            Seq::new(self.order_index@[p]@.len(), |i: int| self.order_index@[p]@[i].column@)
        } else {
            Seq::empty()
        }
    }

    /// All keys indexed at position `p`, primarily in ascending column
    /// order, secondarily in ingestion order.
    pub closed spec fn sorted_keys(self, p: int) -> Seq<K> {
        if 0 <= p < self.order_index@.len() {
            flatten_keys(self.order_index@[p]@)
        } else {
            Seq::empty()
        }
    }

    /// Creates an empty indexer that owns the given decoder.
    pub fn new(value_decoder: D) -> (r: Self)
        ensures
            r.wf(),
            forall|p: int, c: ColumnV| !(#[trigger] r.has_col(p, c)),
            forall|p: int, c: ColumnV| #[trigger] r.lookup(p, c) == Seq::<K>::empty(),
            forall|p: int| #[trigger] r.order_cols(p) == Seq::<ColumnV>::empty(),
            forall|p: int| #[trigger] r.sorted_keys(p) == Seq::<K>::empty(),
    {
        Rover { exact_index: Vec::new(), order_index: Vec::new(), value_decoder }
    }

    /// Returns the keys associated with the given Column at the given
    /// position, in ingestion order, or `None` if there are none.
    pub fn get(&self, c: Column, index: ColumnIndex) -> (r: Option<&Vec<K>>)
        ensures
            match r {
                Some(keys) => self.has_col(index as int, c@) && keys@ == self.lookup(
                    index as int,
                    c@,
                ),
                None => !self.has_col(index as int, c@) && self.lookup(index as int, c@)
                    == Seq::<K>::empty(),
            },
    {
        let idx = index as usize;
        if idx >= self.exact_index.len() {
            return None;
        }
        match find_bucket(&self.exact_index[idx], &c) {
            Some(i) => {
                proof {
                    lemma_assoc_at(self.exact_index@[idx as int]@, i as int);
                }
                Some(&self.exact_index[idx][i].keys)
            },
            None => {
                proof {
                    lemma_assoc_absent(self.exact_index@[idx as int]@, c@);
                }
                None
            },
        }
    }

    /// Extends both indexes with empty position slots until position `idx`
    /// exists. No association changes.
    fn ensure_position(&mut self, idx: usize)
        requires
            old(self).wf(),
            idx < MAX_COLUMNS,
        ensures
            final(self).wf(),
            idx < final(self).exact_index@.len(),
            final(self).exact_index@.len() == final(self).order_index@.len(),
            forall|p: int|
                0 <= p < old(self).exact_index@.len() ==> #[trigger] final(self).exact_index@[p]
                    == old(self).exact_index@[p] && final(self).order_index@[p] == old(self).order_index@[p],
            forall|p: int|
                old(self).exact_index@.len() <= p < final(self).exact_index@.len()
                    ==> (#[trigger] final(self).exact_index@[p])@ == Seq::<Bucket<K>>::empty()
                    && final(self).order_index@[p]@ == Seq::<Bucket<K>>::empty(),
            forall|p: int, c: ColumnV|
                #[trigger] final(self).lookup(p, c) == old(self).lookup(p, c),
            forall|p: int, c: ColumnV|
                #[trigger] final(self).has_col(p, c) == old(self).has_col(p, c),
    {
        while self.exact_index.len() <= idx
            invariant
                self.wf(),
                idx < MAX_COLUMNS,
                old(self).exact_index@.len() <= self.exact_index@.len(),
                forall|p: int|
                    0 <= p < old(self).exact_index@.len() ==> #[trigger] self.exact_index@[p]
                        == old(self).exact_index@[p] && self.order_index@[p] == old(self).order_index@[p],
                forall|p: int|
                    old(self).exact_index@.len() <= p < self.exact_index@.len()
                        ==> (#[trigger] self.exact_index@[p])@ == Seq::<Bucket<K>>::empty()
                        && self.order_index@[p]@ == Seq::<Bucket<K>>::empty(),
            decreases idx + 1 - self.exact_index@.len(),
        {
            let ghost prev = *self;
            self.exact_index.push(Vec::new());
            self.order_index.push(Vec::new());
            proof {
                let n = prev.exact_index@.len() as int;
                assert forall|p: int, c: ColumnV|
                    0 <= p < self.exact_index@.len() implies #[trigger] assoc_lookup(
                    self.exact_index@[p]@,
                    c,
                ) == assoc_lookup(self.order_index@[p]@, c) && #[trigger] assoc_has(
                    self.exact_index@[p]@,
                    c,
                ) == assoc_has(self.order_index@[p]@, c) by {
                    if p < n {
                        assert(prev.wf());
                        assert(assoc_lookup(prev.exact_index@[p]@, c) == assoc_lookup(
                            prev.order_index@[p]@,
                            c,
                        ));
                        assert(assoc_has(prev.exact_index@[p]@, c) == assoc_has(
                            prev.order_index@[p]@,
                            c,
                        ));
                    }
                }
            }
        }
        proof {
            assert forall|p: int|
                0 <= p < old(self).exact_index@.len() implies #[trigger] self.exact_index@[p]
                == old(self).exact_index@[p] && self.order_index@[p] == old(
                self,
            ).order_index@[p] by {}
            assert forall|p: int, c: ColumnV|
                #[trigger] self.lookup(p, c) == old(self).lookup(p, c) && #[trigger] self.has_col(
                p,
                c,
            ) == old(self).has_col(p, c) by {
                let n = old(self).exact_index@.len() as int;
                if n <= p < self.exact_index@.len() {
                    assert(self.exact_index@[p]@ == Seq::<Bucket<K>>::empty());
                }
            }
        }
    }

    /// Appends `k` under column `c` in the exact-match index at position
    /// `idx`, creating the bucket if the column is new there.
    fn exact_insert(&mut self, idx: usize, k: K, c: &Column)
        requires
            idx < old(self).exact_index@.len(),
            nonempty_buckets(old(self).exact_index@[idx as int]@),
        ensures
            final(self).order_index == old(self).order_index,
            final(self).exact_index@.len() == old(self).exact_index@.len(),
            forall|p: int|
                0 <= p < old(self).exact_index@.len() && p != idx ==> #[trigger] final(self).exact_index@[p] == old(self).exact_index@[p],
            nonempty_buckets(final(self).exact_index@[idx as int]@),
            forall|c2: ColumnV|
                #[trigger] assoc_lookup(final(self).exact_index@[idx as int]@, c2) == (if c2 == c@ {
                    assoc_lookup(old(self).exact_index@[idx as int]@, c2).push(k)
                } else {
                    assoc_lookup(old(self).exact_index@[idx as int]@, c2)
                }),
            forall|c2: ColumnV|
                #[trigger] assoc_has(final(self).exact_index@[idx as int]@, c2) == (assoc_has(
                    old(self).exact_index@[idx as int]@,
                    c2,
                ) || c2 == c@),
    {
        let ghost bs = self.exact_index@[idx as int]@;
        match find_bucket(&self.exact_index[idx], c) {
            Some(i) => {
                self.exact_index[idx][i].keys.push(k);
                proof {
                    let bs2 = self.exact_index@[idx as int]@;
                    let b2 = bs2[i as int];
                    assert(bs2 =~= bs.update(i as int, b2));
                    lemma_assoc_at(bs, i as int);
                    assert forall|c2: ColumnV|
                        #[trigger] assoc_lookup(bs2, c2) == (if c2 == c@ {
                            assoc_lookup(bs, c2).push(k)
                        } else {
                            assoc_lookup(bs, c2)
                        }) by {
                        lemma_assoc_update(bs, i as int, b2, c2);
                    }
                    assert forall|c2: ColumnV|
                        #[trigger] assoc_has(bs2, c2) == (assoc_has(bs, c2) || c2 == c@) by {
                        lemma_assoc_update(bs, i as int, b2, c2);
                    }
                }
            },
            None => {
                let mut keys: Vec<K> = Vec::new();
                keys.push(k);
                let col = c.clone();
                self.exact_index[idx].push(Bucket { column: col, keys });
                proof {
                    let bs2 = self.exact_index@[idx as int]@;
                    let b = bs2[bs.len() as int];
                    assert(bs2 =~= bs.insert(bs.len() as int, b)) by {
                        bs.insert_ensures(bs.len() as int, b);
                    }
                    lemma_assoc_absent(bs, c@);
                    assert(b.keys@ =~= assoc_lookup(bs, c@).push(k));
                    assert forall|c2: ColumnV|
                        #[trigger] assoc_lookup(bs2, c2) == (if c2 == c@ {
                            assoc_lookup(bs, c2).push(k)
                        } else {
                            assoc_lookup(bs, c2)
                        }) by {
                        lemma_assoc_insert(bs, bs.len() as int, b, c2);
                    }
                    assert forall|c2: ColumnV|
                        #[trigger] assoc_has(bs2, c2) == (assoc_has(bs, c2) || c2 == c@) by {
                        lemma_assoc_insert(bs, bs.len() as int, b, c2);
                    }
                    assert forall|m: int| 0 <= m < bs2.len() implies (#[trigger] bs2[m]).keys@.len()
                        > 0 by {
                        bs.insert_ensures(bs.len() as int, b);
                    }
                }
            },
        }
    }

    /// Appends `k` under column `c` in the order index at position `idx`,
    /// inserting a new bucket at its sorted place if the column is new there.
    fn order_insert(&mut self, idx: usize, k: K, c: &Column)
        requires
            idx < old(self).order_index@.len(),
            sorted_buckets(old(self).order_index@[idx as int]@),
            nonempty_buckets(old(self).order_index@[idx as int]@),
        ensures
            final(self).exact_index == old(self).exact_index,
            final(self).order_index@.len() == old(self).order_index@.len(),
            forall|p: int|
                0 <= p < old(self).order_index@.len() && p != idx ==> #[trigger] final(self).order_index@[p] == old(self).order_index@[p],
            sorted_buckets(final(self).order_index@[idx as int]@),
            nonempty_buckets(final(self).order_index@[idx as int]@),
            forall|c2: ColumnV|
                #[trigger] assoc_lookup(final(self).order_index@[idx as int]@, c2) == (if c2 == c@ {
                    assoc_lookup(old(self).order_index@[idx as int]@, c2).push(k)
                } else {
                    assoc_lookup(old(self).order_index@[idx as int]@, c2)
                }),
            forall|c2: ColumnV|
                #[trigger] assoc_has(final(self).order_index@[idx as int]@, c2) == (assoc_has(
                    old(self).order_index@[idx as int]@,
                    c2,
                ) || c2 == c@),
    {
        let ghost bs = self.order_index@[idx as int]@;
        let j = find_sorted_pos(&self.order_index[idx], c);
        let hit = if j < self.order_index[idx].len() {
            self.order_index[idx][j].column.eq_value(c)
        } else {
            false
        };
        if hit {
            proof {
                assert forall|m: int| 0 <= m < j implies (#[trigger] bs[m]).column@ != bs[j as int].column@ by {
                    lemma_col_lt_properties(bs[m].column@, c@);
                }
            }
            self.order_index[idx][j].keys.push(k);
            proof {
                let bs2 = self.order_index@[idx as int]@;
                let b2 = bs2[j as int];
                assert(bs2 =~= bs.update(j as int, b2));
                lemma_assoc_at(bs, j as int);
                assert forall|c2: ColumnV|
                    #[trigger] assoc_lookup(bs2, c2) == (if c2 == c@ {
                        assoc_lookup(bs, c2).push(k)
                    } else {
                        assoc_lookup(bs, c2)
                    }) by {
                    lemma_assoc_update(bs, j as int, b2, c2);
                }
                assert forall|c2: ColumnV|
                    #[trigger] assoc_has(bs2, c2) == (assoc_has(bs, c2) || c2 == c@) by {
                    lemma_assoc_update(bs, j as int, b2, c2);
                }
                assert forall|i2: int, j2: int| 0 <= i2 < j2 < bs2.len() implies col_lt(
                    #[trigger] bs2[i2].column@,
                    #[trigger] bs2[j2].column@,
                ) by {
                    assert(bs2[i2].column@ == bs[i2].column@);
                    assert(bs2[j2].column@ == bs[j2].column@);
                }
            }
        } else {
            proof {
                assert forall|m: int| 0 <= m < bs.len() implies (#[trigger] bs[m]).column@
                    != c@ by {
                    if m < j {
                        lemma_col_lt_properties(bs[m].column@, c@);
                    } else if m == j {
                    } else {
                        lemma_col_lt_properties(bs[j as int].column@, c@);
                        lemma_col_lt_transitive(c@, bs[j as int].column@, bs[m].column@);
                        lemma_col_lt_properties(bs[m].column@, c@);
                    }
                }
            }
            let mut keys: Vec<K> = Vec::new();
            keys.push(k);
            let col = c.clone();
            self.order_index[idx].insert(j, Bucket { column: col, keys });
            proof {
                let bs2 = self.order_index@[idx as int]@;
                let b = bs2[j as int];
                assert(bs2 == bs.insert(j as int, b));
                bs.insert_ensures(j as int, b);
                lemma_assoc_absent(bs, c@);
                assert(b.keys@ =~= assoc_lookup(bs, c@).push(k));
                assert forall|c2: ColumnV|
                    #[trigger] assoc_lookup(bs2, c2) == (if c2 == c@ {
                        assoc_lookup(bs, c2).push(k)
                    } else {
                        assoc_lookup(bs, c2)
                    }) by {
                    lemma_assoc_insert(bs, j as int, b, c2);
                }
                assert forall|c2: ColumnV|
                    #[trigger] assoc_has(bs2, c2) == (assoc_has(bs, c2) || c2 == c@) by {
                    lemma_assoc_insert(bs, j as int, b, c2);
                }
                if (j as int) < bs.len() {
                    lemma_col_lt_properties(bs[j as int].column@, c@);
                }
                assert forall|i2: int, j2: int| 0 <= i2 < j2 < bs2.len() implies col_lt(
                    #[trigger] bs2[i2].column@,
                    #[trigger] bs2[j2].column@,
                ) by {
                    if j2 < j {
                        assert(bs2[i2] == bs[i2] && bs2[j2] == bs[j2]);
                    } else if i2 < j && j2 == j {
                        assert(bs2[i2] == bs[i2] && bs2[j2] == b);
                    } else if i2 < j && j2 > j {
                        assert(bs2[i2] == bs[i2] && bs2[j2] == bs[j2 - 1]);
                    } else if i2 == j {
                        assert(bs2[j2] == bs[j2 - 1]);
                        if j2 - 1 > j {
                            lemma_col_lt_transitive(c@, bs[j as int].column@, bs[j2 - 1].column@);
                        }
                    } else {
                        assert(bs2[i2] == bs[i2 - 1] && bs2[j2] == bs[j2 - 1]);
                    }
                }
                assert forall|m: int| 0 <= m < bs2.len() implies (#[trigger] bs2[m]).keys@.len()
                    > 0 by {
                    if m < j {
                        assert(bs2[m] == bs[m]);
                    } else if m > j {
                        assert(bs2[m] == bs[m - 1]);
                    }
                }
            }
        }
    }

    /// Appends `k` to the bucket of column `c` at position `index` in both
    /// indexes, as one atomic step: every other association is untouched.
    fn index_column(&mut self, k: K, c: Column, index: ColumnIndex)
        requires
            old(self).wf(),
        ensures
            final(self).wf(),
            forall|p: int, c2: ColumnV|
                #[trigger] final(self).lookup(p, c2) == (if p == index as int && c2 == c@ {
                    old(self).lookup(p, c2).push(k)
                } else {
                    old(self).lookup(p, c2)
                }),
            forall|p: int, c2: ColumnV|
                #[trigger] final(self).has_col(p, c2) == (old(self).has_col(p, c2) || (p
                    == index as int && c2 == c@)),
    {
        let idx = index as usize;
        self.ensure_position(idx);
        let ghost pre = *self;
        self.exact_insert(idx, k, &c);
        let ghost mid = *self;
        self.order_insert(idx, k, &c);
        proof {
            let i = idx as int;
            assert(self.exact_index == mid.exact_index);
            assert(self.exact_index@.len() == pre.exact_index@.len());
            assert(self.order_index@.len() == pre.order_index@.len());
            assert forall|p: int|
                0 <= p < pre.exact_index@.len() && p != i implies #[trigger] self.exact_index@[p]
                == pre.exact_index@[p] && self.order_index@[p] == pre.order_index@[p] by {}
            // well-formedness is restored once both indexes are updated
            assert forall|p: int|
                0 <= p < self.order_index@.len() implies sorted_buckets(
                #[trigger] self.order_index@[p]@,
            ) && nonempty_buckets(self.order_index@[p]@) && nonempty_buckets(
                self.exact_index@[p]@,
            ) by {
                if p != i {
                    assert(self.order_index@[p] == pre.order_index@[p]);
                    assert(self.exact_index@[p] == pre.exact_index@[p]);
                }
            }
            assert forall|p: int, c2: ColumnV|
                0 <= p < self.exact_index@.len() implies #[trigger] assoc_lookup(
                self.exact_index@[p]@,
                c2,
            ) == assoc_lookup(self.order_index@[p]@, c2) && #[trigger] assoc_has(
                self.exact_index@[p]@,
                c2,
            ) == assoc_has(self.order_index@[p]@, c2) by {
                if p == i {
                    assert(assoc_lookup(pre.exact_index@[i]@, c2) == assoc_lookup(
                        pre.order_index@[i]@,
                        c2,
                    ));
                    assert(assoc_has(pre.exact_index@[i]@, c2) == assoc_has(
                        pre.order_index@[i]@,
                        c2,
                    ));
                } else {
                    assert(self.order_index@[p] == pre.order_index@[p]);
                    assert(self.exact_index@[p] == pre.exact_index@[p]);
                    assert(assoc_lookup(pre.exact_index@[p]@, c2) == assoc_lookup(
                        pre.order_index@[p]@,
                        c2,
                    ));
                    assert(assoc_has(pre.exact_index@[p]@, c2) == assoc_has(
                        pre.order_index@[p]@,
                        c2,
                    ));
                }
            }
            assert(self.wf());
            assert forall|p: int, c2: ColumnV|
                #[trigger] self.lookup(p, c2) == (if p == index as int && c2 == c@ {
                    old(self).lookup(p, c2).push(k)
                } else {
                    old(self).lookup(p, c2)
                }) by {
                assert(pre.lookup(p, c2) == old(self).lookup(p, c2));
                if 0 <= p < self.exact_index@.len() {
                    if p == i {
                        assert(assoc_lookup(self.exact_index@[i]@, c2) == (if c2 == c@ {
                            assoc_lookup(pre.exact_index@[i]@, c2).push(k)
                        } else {
                            assoc_lookup(pre.exact_index@[i]@, c2)
                        }));
                    } else {
                        assert(self.exact_index@[p] == pre.exact_index@[p]);
                    }
                }
            }
            assert forall|p: int, c2: ColumnV|
                #[trigger] self.has_col(p, c2) == (old(self).has_col(p, c2) || (p
                == index as int && c2 == c@)) by {
                assert(pre.has_col(p, c2) == old(self).has_col(p, c2));
                if 0 <= p < self.exact_index@.len() {
                    if p == i {
                        assert(assoc_has(self.exact_index@[i]@, c2) == (assoc_has(
                            pre.exact_index@[i]@,
                            c2,
                        ) || c2 == c@));
                    } else {
                        assert(self.exact_index@[p] == pre.exact_index@[p]);
                    }
                }
            }
        }
    }

    /// What one successful ingestion of key `k` with decoded column values
    /// `cols` does to the indexes: `k` is appended to the bucket of `cols[p]`
    /// at every position `p` of the record, and no other association changes.
    pub open spec fn ingested(pre: Self, post: Self, k: K, cols: Seq<ColumnV>) -> bool {
        &&& forall|p: int, c: ColumnV|
            #[trigger] post.lookup(p, c) == (if 0 <= p < cols.len() && cols[p] == c {
                pre.lookup(p, c).push(k)
            } else {
                pre.lookup(p, c)
            })
        &&& forall|p: int, c: ColumnV|
            #[trigger] post.has_col(p, c) == (pre.has_col(p, c) || (0 <= p < cols.len()
                && cols[p] == c))
    }

    /// Ingests one already-decoded record: appends `k` to both indexes at
    /// every column position of the record, or rejects the record unchanged
    /// when it has more than [`MAX_COLUMNS`] columns.
    pub fn index_decoded(&mut self, k: K, cols: Vec<Column>) -> (r: Result<(), IndexError>)
        requires
            old(self).wf(),
        ensures
            final(self).wf(),
            r is Ok <==> cols@.len() <= MAX_COLUMNS as int,
            r is Err ==> r == Err::<(), IndexError>(IndexError::TooManyColumns) && *final(self)
                == *old(self),
            r is Ok ==> Self::ingested(*old(self), *final(self), k, column_views(cols@)),
    {
        if cols.len() > MAX_COLUMNS {
            return Err(IndexError::TooManyColumns);
        }
        let ghost cs = column_views(cols@);
        let mut i: usize = 0;
        while i < cols.len()
            invariant
                self.wf(),
                i <= cols@.len(),
                cols@.len() <= MAX_COLUMNS as int,
                cs == column_views(cols@),
                forall|p: int, c: ColumnV|
                    #[trigger] self.lookup(p, c) == (if 0 <= p < i && cs[p] == c {
                        old(self).lookup(p, c).push(k)
                    } else {
                        old(self).lookup(p, c)
                    }),
                forall|p: int, c: ColumnV|
                    #[trigger] self.has_col(p, c) == (old(self).has_col(p, c) || (0 <= p < i
                        && cs[p] == c)),
            decreases cols@.len() - i,
        {
            let ghost prev = *self;
            let c = cols[i].clone();
            proof {
                assert(c@ == cs[i as int]);
            }
            self.index_column(k, c, i as u8);
            proof {
                assert(i < MAX_COLUMNS);
                assert((i as u8) as int == i as int);
                assert forall|p: int, c2: ColumnV|
                    #[trigger] self.lookup(p, c2) == (if 0 <= p < i + 1 && cs[p] == c2 {
                        old(self).lookup(p, c2).push(k)
                    } else {
                        old(self).lookup(p, c2)
                    }) by {
                    assert(self.lookup(p, c2) == (if p == i as int && c2 == c@ {
                        prev.lookup(p, c2).push(k)
                    } else {
                        prev.lookup(p, c2)
                    }));
                }
                assert forall|p: int, c2: ColumnV|
                    #[trigger] self.has_col(p, c2) == (old(self).has_col(p, c2) || (0 <= p < i + 1
                        && cs[p] == c2)) by {
                    assert(self.has_col(p, c2) == (prev.has_col(p, c2) || (p == i as int && c2
                        == c@)));
                }
            }
            i = i + 1;
        }
        Ok(())
    }

    /// Ingests one raw record: decodes `v` and appends `k` to both indexes
    /// at every column position of the decoded record. On any error the
    /// indexes are left exactly as they were before the call.
    pub fn index_all_columns<V>(&mut self, k: K, v: V) -> (r: Result<(), IndexError>) where
        D: ValueDecoder<V>,

        requires
            old(self).wf(),
        ensures
            final(self).wf(),
            r is Err ==> *final(self) == *old(self),
            r is Ok ==> exists|cols: Seq<ColumnV>|
                cols.len() <= MAX_COLUMNS as int && #[trigger] Self::ingested(
                    *old(self),
                    *final(self),
                    k,
                    cols,
                ),
    {
        let cols = match self.value_decoder.decode(v) {
            Ok(cols) => cols,
            Err(e) => {
                return Err(IndexError::DecodeFailure(e));
            },
        };
        let ghost cs = column_views(cols@);
        let r = self.index_decoded(k, cols);
        proof {
            if r is Ok {
                assert(cs.len() <= MAX_COLUMNS as int);
                assert(Self::ingested(*old(self), *self, k, cs));
            }
        }
        r
    }

    /// Returns every key indexed at the given position, primarily sorted by
    /// column value in the fixed ascending order, secondarily in the order
    /// the keys were ingested. Empty if the position was never indexed.
    pub fn sort_by_column(&self, index: ColumnIndex) -> (r: Vec<K>)
        ensures
            r@ == self.sorted_keys(index as int),
    {
        let mut result: Vec<K> = Vec::new();
        let idx = index as usize;
        if idx >= self.order_index.len() {
            return result;
        }
        let ghost bs = self.order_index@[idx as int]@;
        let n = self.order_index[idx].len();
        let mut i: usize = 0;
        proof {
            assert(bs.take(0) =~= Seq::<Bucket<K>>::empty());
        }
        while i < n
            invariant
                idx < self.order_index@.len(),
                bs == self.order_index@[idx as int]@,
                n == bs.len(),
                i <= n,
                result@ == flatten_keys(bs.take(i as int)),
            decreases n - i,
        {
            let m = self.order_index[idx][i].keys.len();
            let mut j: usize = 0;
            while j < m
                invariant
                    idx < self.order_index@.len(),
                    bs == self.order_index@[idx as int]@,
                    n == bs.len(),
                    i < n,
                    m == bs[i as int].keys@.len(),
                    j <= m,
                    result@ == flatten_keys(bs.take(i as int)) + bs[i as int].keys@.take(j as int),
                decreases m - j,
            {
                result.push(self.order_index[idx][i].keys[j]);
                proof {
                    assert(bs[i as int].keys@.take(j + 1) =~= bs[i as int].keys@.take(j as int).push(
                        bs[i as int].keys@[j as int],
                    ));
                }
                j = j + 1;
            }
            proof {
                assert(bs.take(i + 1) =~= bs.take(i as int).push(bs[i as int]));
                lemma_flatten_push(bs.take(i as int), bs[i as int]);
                assert(bs[i as int].keys@.take(m as int) =~= bs[i as int].keys@);
            }
            i = i + 1;
        }
        proof {
            assert(bs.take(n as int) =~= bs);
        }
        result
    }

    /// The concatenation of the `lookup` buckets of the column values `cs`
    /// at position `p`, in the order of `cs`.
    pub open spec fn flatten_lookup(self, p: int, cs: Seq<ColumnV>) -> Seq<K>
        decreases cs.len(),
    {
        if cs.len() == 0 {
            Seq::empty()
        } else {
            self.lookup(p, cs[0]) + self.flatten_lookup(p, cs.skip(1))
        }
    }

    proof fn lemma_flatten_suffix(self, p: int, n: int)
        requires
            self.wf(),
            0 <= p < self.order_index@.len(),
            0 <= n <= self.order_index@[p]@.len(),
        ensures
            flatten_keys(self.order_index@[p]@.skip(n)) == self.flatten_lookup(
                p,
                self.order_cols(p).skip(n),
            ),
        decreases self.order_index@[p]@.len() - n,
    {
        let bs = self.order_index@[p]@;
        let cols = self.order_cols(p);
        if n == bs.len() {
            assert(bs.skip(n) =~= Seq::<Bucket<K>>::empty());
            assert(cols.skip(n) =~= Seq::<ColumnV>::empty());
        } else {
            assert(sorted_buckets(bs));
            assert forall|m: int| 0 <= m < n implies (#[trigger] bs[m]).column@
                != bs[n].column@ by {
                assert(col_lt(bs[m].column@, bs[n].column@));
                lemma_col_lt_properties(bs[m].column@, bs[n].column@);
            }
            lemma_assoc_at(bs, n);
            self.lemma_flatten_suffix(p, n + 1);
            assert(bs.skip(n).skip(1) =~= bs.skip(n + 1));
            assert(cols.skip(n).skip(1) =~= cols.skip(n + 1));
            assert(bs.skip(n)[0] == bs[n]);
            assert(cols.skip(n)[0] == bs[n].column@);
            assert(self.lookup(p, bs[n].column@) == assoc_lookup(bs, bs[n].column@));
            assert(flatten_keys(bs.skip(n)) == bs[n].keys@ + flatten_keys(bs.skip(n + 1)));
            assert(self.flatten_lookup(p, cols.skip(n)) == self.lookup(p, bs[n].column@)
                + self.flatten_lookup(p, cols.skip(n + 1)));
        }
    }

    /// Equivalence invariant: at every position, exact-match lookup and the
    /// sorted traversal expose the same associations — `sorted_keys` is the
    /// concatenation, over the indexed column values in ascending order, of
    /// exactly the key sequences that `lookup` returns, and a column value
    /// is listed if and only if it holds at least one key.
    pub proof fn lemma_index_equivalence(self, p: int)
        requires
            self.wf(),
        ensures
            self.sorted_keys(p) == self.flatten_lookup(p, self.order_cols(p)),
            forall|c: ColumnV| #[trigger] self.has_col(p, c) == self.order_cols(p).contains(c),
            forall|c: ColumnV| #[trigger] self.has_col(p, c) ==> self.lookup(p, c).len() > 0,
            forall|c: ColumnV| !(#[trigger] self.has_col(p, c)) ==> self.lookup(p, c)
                == Seq::<K>::empty(),
    {
        if 0 <= p < self.order_index@.len() {
            let bs = self.order_index@[p]@;
            let cols = self.order_cols(p);
            self.lemma_flatten_suffix(p, 0);
            assert(bs.skip(0) =~= bs);
            assert(cols.skip(0) =~= cols);
            assert forall|c: ColumnV| #[trigger] self.has_col(p, c) == self.order_cols(p).contains(
                c,
            ) by {
                lemma_assoc_has_exists(bs, c);
                assert(self.has_col(p, c) == assoc_has(bs, c));
                if assoc_has(bs, c) {
                    let i = choose|i: int| 0 <= i < bs.len() && (#[trigger] bs[i]).column@ == c;
                    assert(cols[i] == c);
                    assert(cols.contains(c));
                }
                if cols.contains(c) {
                    let i = choose|i: int| 0 <= i < cols.len() && cols[i] == c;
                    assert(bs[i].column@ == c);
                }
            }
            assert forall|c: ColumnV| #[trigger] self.has_col(p, c) implies self.lookup(p, c).len()
                > 0 by {
                assert(nonempty_buckets(bs));
                lemma_assoc_has_lookup_len(bs, c);
            }
            assert forall|c: ColumnV| !(#[trigger] self.has_col(p, c)) implies self.lookup(p, c)
                =~= Seq::<K>::empty() by {
                if 0 <= p < self.exact_index@.len() {
                    lemma_assoc_not_has_lookup(self.exact_index@[p]@, c);
                }
            }
        } else {
            assert(self.sorted_keys(p) == Seq::<K>::empty());
            assert(self.order_cols(p) == Seq::<ColumnV>::empty());
        }
    }

    /// Order invariant: the column values indexed at a position, as listed
    /// by `order_cols`, ascend strictly in the fixed column order; since
    /// `sorted_keys` concatenates their buckets in that order and each
    /// bucket keeps ingestion order, keys with equal columns stay in the
    /// order they were ingested.
    pub proof fn lemma_order_invariant(self, p: int)
        requires
            self.wf(),
        ensures
            forall|i: int, j: int|
                0 <= i < j < self.order_cols(p).len() ==> col_lt(
                    #[trigger] self.order_cols(p)[i],
                    #[trigger] self.order_cols(p)[j],
                ),
            self.order_cols(p).no_duplicates(),
    {
        if 0 <= p < self.order_index@.len() {
            let bs = self.order_index@[p]@;
            assert(sorted_buckets(bs));
            assert forall|i: int, j: int|
                0 <= i < j < self.order_cols(p).len() implies col_lt(
                #[trigger] self.order_cols(p)[i],
                #[trigger] self.order_cols(p)[j],
            ) by {
                assert(col_lt(bs[i].column@, bs[j].column@));
            }
            assert forall|i: int, j: int|
                0 <= i < self.order_cols(p).len() && 0 <= j < self.order_cols(p).len() && i != j
                implies #[trigger] self.order_cols(p)[i] != #[trigger] self.order_cols(p)[j] by {
                if i < j {
                    assert(col_lt(bs[i].column@, bs[j].column@));
                    lemma_col_lt_properties(bs[i].column@, bs[j].column@);
                } else {
                    assert(col_lt(bs[j].column@, bs[i].column@));
                    lemma_col_lt_properties(bs[j].column@, bs[i].column@);
                }
            }
        }
    }

    /// Determinism: the ascending column list at a position is fully
    /// determined by which column values hold keys there. Two well-formed
    /// indexers that agree on `has_col` at a position traverse it in the
    /// same column order, whatever the ingestion history.
    pub proof fn lemma_order_deterministic(a: Self, b: Self, p: int)
        requires
            a.wf(),
            b.wf(),
            forall|c: ColumnV| #[trigger] a.has_col(p, c) == b.has_col(p, c),
        ensures
            a.order_cols(p) == b.order_cols(p),
    {
        a.lemma_index_equivalence(p);
        a.lemma_order_invariant(p);
        b.lemma_index_equivalence(p);
        b.lemma_order_invariant(p);
        assert forall|c: ColumnV| a.order_cols(p).contains(c) == b.order_cols(p).contains(c) by {
            assert(a.has_col(p, c) == a.order_cols(p).contains(c));
            assert(b.has_col(p, c) == b.order_cols(p).contains(c));
        }
        lemma_sorted_seq_determined(a.order_cols(p), b.order_cols(p));
    }

    /// Duplicate preservation: two successive ingestions whose decoded
    /// records carry the same column value at position `p` leave both keys
    /// in that column's bucket, in ingestion order, with no deduplication.
    pub proof fn lemma_duplicate_preservation(
        pre: Self,
        mid: Self,
        post: Self,
        k1: K,
        k2: K,
        cols1: Seq<ColumnV>,
        cols2: Seq<ColumnV>,
        p: int,
    )
        requires
            Self::ingested(pre, mid, k1, cols1),
            Self::ingested(mid, post, k2, cols2),
            0 <= p < cols1.len(),
            0 <= p < cols2.len(),
            cols1[p] == cols2[p],
        ensures
            post.lookup(p, cols1[p]) == pre.lookup(p, cols1[p]).push(k1).push(k2),
            post.has_col(p, cols1[p]),
    {
        assert(mid.lookup(p, cols1[p]) == pre.lookup(p, cols1[p]).push(k1));
        assert(post.lookup(p, cols2[p]) == mid.lookup(p, cols2[p]).push(k2));
    }
}

} // verus!
