//! Assignment of scanned files to a fixed number of chunks, largest file
//! first, each file to the currently least-loaded chunk.

use vstd::multiset::Multiset;
use vstd::prelude::*;

verus! {

broadcast use vstd::seq_lib::group_to_multiset_ensures;

/// One regular file found by the scanner: its path and its size in bytes.
#[derive(Debug, PartialEq, Eq)]
pub struct FileMeta {
    pub path: String,
    pub size: u64,
}

impl FileMeta {
    pub fn new(path: String, size: u64) -> (r: FileMeta)
        ensures
            r.path@ == path@,
            r.size == size,
    {
        FileMeta { path, size }
    }
}

/// Sum of the sizes of a sequence of entries.
pub open spec fn total(s: Seq<FileMeta>) -> int
    decreases s.len(),
{
    if s.len() == 0 {
        0
    } else {
        total(s.drop_last()) + s.last().size
    }
}

/// The files of one chunk, in the order they were assigned.
pub struct OutputChunk(pub Vec<FileMeta>);

impl OutputChunk {
    pub open spec fn view(&self) -> Seq<FileMeta> {
        self.0@
    }

    /// Total size in bytes of the chunk's members.
    pub fn size(&self) -> (r: u64)
        requires
            total(self@) <= u64::MAX,
        ensures
            r == total(self@),
    {
        let mut sum: u64 = 0;
        let mut i: usize = 0;
        while i < self.0.len()
            invariant
                0 <= i <= self@.len(),
                total(self@) <= u64::MAX,
                sum == total(self@.take(i as int)),
            decreases self@.len() - i,
        {
            proof {
                assert(self@.take(i + 1).drop_last() =~= self@.take(i as int));
                lemma_total_prefix_le(self@, i + 1);
            }
            sum = sum + self.0[i].size;
            i = i + 1;
        }
        proof {
            assert(self@.take(i as int) =~= self@);
        }
        sum
    }
}

/// A prefix never weighs more than the whole sequence.
pub proof fn lemma_total_prefix_le(s: Seq<FileMeta>, k: int)
    requires
        0 <= k <= s.len(),
    ensures
        0 <= total(s.take(k)) <= total(s),
    decreases s.len(),
{
    if k == s.len() {
        assert(s.take(k) =~= s);
        lemma_total_nonneg(s);
    } else {
        lemma_total_prefix_le(s.drop_last(), k);
        assert(s.drop_last().take(k) =~= s.take(k));
    }
}

pub proof fn lemma_total_nonneg(s: Seq<FileMeta>)
    ensures
        total(s) >= 0,
    decreases s.len(),
{
    if s.len() > 0 {
        lemma_total_nonneg(s.drop_last());
    }
}


/// Sum of the totals of all chunks.
pub open spec fn grand_total(c: Seq<Seq<FileMeta>>) -> int
    decreases c.len(),
{
    if c.len() == 0 {
        0
    } else {
        grand_total(c.drop_last()) + total(c.last())
    }
}

/// Index of the least-loaded chunk among the first `k`, the lowest index
/// winning a tie.
pub open spec fn first_min(c: Seq<Seq<FileMeta>>, k: int) -> int
    decreases k,
{
    if k <= 1 {
        0
    } else {
        let j = first_min(c, k - 1);
        if total(c[k - 1]) < total(c[j]) {
            k - 1
        } else {
            j
        }
    }
}

/// The chunks after `entry` is given to the least-loaded one.
pub open spec fn assign_one(c: Seq<Seq<FileMeta>>, entry: FileMeta) -> Seq<Seq<FileMeta>> {
    let k = first_min(c, c.len() as int);
    c.update(k, c[k].push(entry))
}

/// `n` empty chunks.
pub open spec fn empty_chunks(n: nat) -> Seq<Seq<FileMeta>> {
    Seq::new(n, |i: int| Seq::<FileMeta>::empty())
}

/// The chunks obtained by assigning `items`, in order, to `n` initially
/// empty chunks.
pub open spec fn assign_all(items: Seq<FileMeta>, n: nat) -> Seq<Seq<FileMeta>>
    decreases items.len(),
{
    if items.len() == 0 {
        empty_chunks(n)
    } else {
        assign_one(assign_all(items.drop_last(), n), items.last())
    }
}

pub proof fn lemma_first_min_bounds(c: Seq<Seq<FileMeta>>, k: int)
    requires
        1 <= k <= c.len(),
    ensures
        0 <= first_min(c, k) < k,
        forall|i: int| 0 <= i < k ==> total(c[first_min(c, k)]) <= #[trigger] total(c[i]),
    decreases k,
{
    if k > 1 {
        lemma_first_min_bounds(c, k - 1);
    }
}

pub proof fn lemma_chunk_le_grand(c: Seq<Seq<FileMeta>>, i: int)
    requires
        0 <= i < c.len(),
    ensures
        0 <= total(c[i]) <= grand_total(c),
    decreases c.len(),
{
    lemma_grand_nonneg(c.drop_last());
    lemma_total_nonneg(c[i]);
    if i < c.len() - 1 {
        lemma_chunk_le_grand(c.drop_last(), i);
        lemma_total_nonneg(c.last());
    }
}

pub proof fn lemma_grand_nonneg(c: Seq<Seq<FileMeta>>)
    ensures
        grand_total(c) >= 0,
    decreases c.len(),
{
    if c.len() > 0 {
        lemma_grand_nonneg(c.drop_last());
        lemma_total_nonneg(c.last());
    }
}

/// Adding an entry to one chunk adds its size to the grand total.
pub proof fn lemma_grand_push(c: Seq<Seq<FileMeta>>, k: int, e: FileMeta)
    requires
        0 <= k < c.len(),
    ensures
        grand_total(c.update(k, c[k].push(e))) == grand_total(c) + e.size,
    decreases c.len(),
{
    let d = c.update(k, c[k].push(e));
    assert(c[k].push(e).drop_last() =~= c[k]);
    if k == c.len() - 1 {
        assert(d.drop_last() =~= c.drop_last());
    } else {
        lemma_grand_push(c.drop_last(), k, e);
        assert(d.drop_last() =~= c.drop_last().update(k, c[k].push(e)));
    }
}

/// The chunks of one split, and the directory their files were found under.
pub struct OutputChunks {
    pub prefix: String,
    pub chunks: Vec<OutputChunk>,
}

impl OutputChunks {
    pub open spec fn view(&self) -> Seq<Seq<FileMeta>> {
        self.chunks@.map_values(|c: OutputChunk| c@)
    }

    /// `count` empty chunks for files found under `prefix`.
    pub fn new(prefix: String, count: usize) -> (r: OutputChunks)
        ensures
            r@ == empty_chunks(count as nat),
            r.prefix@ == prefix@,
    {
        let mut chunks: Vec<OutputChunk> = Vec::new();
        let mut i: usize = 0;
        while i < count
            invariant
                i <= count,
                chunks@.len() == i,
                forall|j: int| 0 <= j < i ==> (#[trigger] chunks@[j])@ == Seq::<FileMeta>::empty(),
            decreases count - i,
        {
            chunks.push(OutputChunk(Vec::new()));
            proof {
                assert(chunks@[i as int]@ =~= Seq::<FileMeta>::empty());
            }
            i = i + 1;
        }
        let r = OutputChunks { prefix, chunks };
        proof {
            assert(r@ =~= empty_chunks(count as nat));
        }
        r
    }

    /// Gives `meta` to the chunk with the smallest total, the lowest index
    /// winning a tie.
    pub fn push(&mut self, meta: FileMeta)
        requires
            old(self)@.len() >= 1,
            grand_total(old(self)@) + meta.size <= u64::MAX,
        ensures
            final(self)@ == assign_one(old(self)@, meta),
            final(self).prefix == old(self).prefix,
    {
        let ghost c = self@;
        proof {
            lemma_chunk_le_grand(c, 0);
        }
        let mut min_index: usize = 0;
        let mut min_value: u64 = self.chunks[0].size();
        let mut idx: usize = 1;
        while idx < self.chunks.len()
            invariant
                self@ == c,
                1 <= idx <= c.len(),
                min_index == first_min(c, idx as int),
                0 <= min_index < c.len(),
                min_value == total(c[min_index as int]),
                grand_total(c) <= u64::MAX,
            decreases c.len() - idx,
        {
            proof {
                lemma_chunk_le_grand(c, idx as int);
            }
            let size = self.chunks[idx].size();
            if size < min_value {
                min_index = idx;
                min_value = size;
            }
            idx = idx + 1;
        }
        let mut chunk = self.chunks.remove(min_index);
        chunk.0.push(meta);
        self.chunks.insert(min_index, chunk);
        proof {
            assert(self@ =~= assign_one(c, meta));
        }
    }
}


/// Sizes never increase along the sequence.
pub open spec fn is_desc(s: Seq<FileMeta>) -> bool {
    forall|i: int, j: int| 0 <= i < j < s.len() ==> s[i].size >= s[j].size
}

/// Every entry held by any of the chunks, with multiplicity.
pub open spec fn bag(c: Seq<Seq<FileMeta>>) -> Multiset<FileMeta>
    decreases c.len(),
{
    if c.len() == 0 {
        Multiset::empty()
    } else {
        bag(c.drop_last()).add(c.last().to_multiset())
    }
}

pub proof fn lemma_total_remove(s: Seq<FileMeta>, i: int)
    requires
        0 <= i < s.len(),
    ensures
        total(s.remove(i)) == total(s) - s[i].size,
    decreases s.len(),
{
    if i < s.len() - 1 {
        lemma_total_remove(s.drop_last(), i);
        assert(s.remove(i).drop_last() =~= s.drop_last().remove(i));
    } else {
        assert(s.remove(i) =~= s.drop_last());
    }
}

/// Adding an entry to one chunk adds it to the bag.
pub proof fn lemma_bag_push(c: Seq<Seq<FileMeta>>, k: int, e: FileMeta)
    requires
        0 <= k < c.len(),
    ensures
        bag(c.update(k, c[k].push(e))) =~= bag(c).insert(e),
    decreases c.len(),
{
    let d = c.update(k, c[k].push(e));
    if k == c.len() - 1 {
        assert(d.drop_last() =~= c.drop_last());
    } else {
        lemma_bag_push(c.drop_last(), k, e);
        assert(d.drop_last() =~= c.drop_last().update(k, c[k].push(e)));
    }
}

pub proof fn lemma_bag_empty(n: nat)
    ensures
        bag(empty_chunks(n)) =~= Multiset::<FileMeta>::empty(),
    decreases n,
{
    if n > 0 {
        lemma_bag_empty((n - 1) as nat);
        assert(empty_chunks(n).drop_last() =~= empty_chunks((n - 1) as nat));
    }
}

/// The shape and the weight of the chunks after assigning `items`.
pub proof fn lemma_assign_all_shape(items: Seq<FileMeta>, n: nat)
    requires
        n >= 1,
    ensures
        assign_all(items, n).len() == n,
        grand_total(assign_all(items, n)) == total(items),
        bag(assign_all(items, n)) =~= items.to_multiset(),
    decreases items.len(),
{
    if items.len() == 0 {
        lemma_bag_empty(n);
        lemma_grand_empty(n);
    } else {
        let prev = assign_all(items.drop_last(), n);
        lemma_assign_all_shape(items.drop_last(), n);
        lemma_first_min_bounds(prev, n as int);
        let k = first_min(prev, n as int);
        lemma_grand_push(prev, k, items.last());
        lemma_bag_push(prev, k, items.last());
        assert(items.drop_last().push(items.last()) =~= items);
    }
}

pub proof fn lemma_grand_empty(n: nat)
    ensures
        grand_total(empty_chunks(n)) == 0,
    decreases n,
{
    if n > 0 {
        lemma_grand_empty((n - 1) as nat);
        assert(empty_chunks(n).drop_last() =~= empty_chunks((n - 1) as nat));
    }
}

/// Orders entries by size, largest first.
pub fn sort_by_size_desc(items: Vec<FileMeta>) -> (r: Vec<FileMeta>)
    ensures
        r@.to_multiset() =~= items@.to_multiset(),
        is_desc(r@),
        total(r@) == total(items@),
{
    let ghost input = items@;
    let mut rest = items;
    let mut out: Vec<FileMeta> = Vec::new();
    while rest.len() > 0
        invariant
            out@.to_multiset().add(rest@.to_multiset()) =~= input.to_multiset(),
            total(out@) + total(rest@) == total(input),
            is_desc(out@),
            forall|i: int|
                0 <= i < rest@.len() && out@.len() > 0 ==> (#[trigger] rest@[i]).size
                    <= out@.last().size,
        decreases rest@.len(),
    {
        let mut best: usize = 0;
        let mut j: usize = 1;
        while j < rest.len()
            invariant
                0 <= best < j <= rest@.len(),
                forall|i: int| 0 <= i < j ==> (#[trigger] rest@[i]).size <= rest@[best as int].size,
            decreases rest@.len() - j,
        {
            if rest[j].size > rest[best].size {
                best = j;
            }
            j = j + 1;
        }
        let ghost before = rest@;
        proof {
            lemma_total_remove(before, best as int);
        }
        let m = rest.remove(best);
        proof {
            assert(rest@ =~= before.remove(best as int));
            assert(before.to_multiset().contains(m));
            assert(out@.push(m).drop_last() =~= out@);
            assert forall|i: int| 0 <= i < rest@.len() implies (#[trigger] rest@[i]).size <= m.size by {
                if i < best {
                    assert(rest@[i] == before[i]);
                } else {
                    assert(rest@[i] == before[i + 1]);
                }
            }
        }
        out.push(m);
    }
    proof {
        assert(rest@.to_multiset() =~= Multiset::<FileMeta>::empty());
    }
    out
}

/// No two positions of the sequence hold the same path.
pub open spec fn distinct_paths(s: Seq<FileMeta>) -> bool {
    forall|i: int, j: int|
        0 <= i < s.len() && 0 <= j < s.len() && i != j ==> (#[trigger] s[i]).path@ != (
        #[trigger] s[j]).path@
}

/// No path is held at two positions, in one chunk or in two.
pub open spec fn chunks_disjoint(c: Seq<Seq<FileMeta>>) -> bool {
    forall|a: int, i: int, b: int, j: int|
        0 <= a < c.len() && 0 <= b < c.len() && 0 <= i < c[a].len() && 0 <= j < c[b].len() && (a
            != b || i != j) ==> (#[trigger] c[a][i]).path@ != (#[trigger] c[b][j]).path@
}

/// Assigning entries whose paths are distinct puts each path in exactly
/// one place: every entry of the chunks comes from `items`, and no path
/// appears twice across the chunks.
pub proof fn lemma_assign_all_disjoint(items: Seq<FileMeta>, n: nat)
    requires
        n >= 1,
        distinct_paths(items),
    ensures
        chunks_disjoint(assign_all(items, n)),
        forall|a: int, i: int|
            0 <= a < assign_all(items, n).len() && 0 <= i < assign_all(items, n)[a].len()
                ==> items.contains(#[trigger] assign_all(items, n)[a][i]),
    decreases items.len(),
{
    lemma_assign_all_shape(items, n);
    if items.len() > 0 {
        let rest = items.drop_last();
        let e = items.last();
        let prev = assign_all(rest, n);
        assert(distinct_paths(rest));
        lemma_assign_all_disjoint(rest, n);
        lemma_assign_all_shape(rest, n);
        lemma_first_min_bounds(prev, n as int);
        let k = first_min(prev, n as int);
        let c = assign_all(items, n);
        assert(c == prev.update(k, prev[k].push(e)));
        assert forall|a: int, i: int|
            0 <= a < c.len() && 0 <= i < c[a].len() implies (a == k && i == prev[k].len() && c[a][i]
            == e) || (i < prev[a].len() && c[a][i] == prev[a][i] && rest.contains(c[a][i])) by {
            if a == k && i < prev[k].len() {
                assert(c[a][i] == prev[a][i]);
                assert(rest.contains(prev[a][i]));
            } else if a != k {
                assert(rest.contains(prev[a][i]));
            }
        }
        assert forall|x: FileMeta| rest.contains(x) implies x.path@ != e.path@ by {
            let p = choose|p: int| 0 <= p < rest.len() && rest[p] == x;
            assert(items[p] == x);
            assert(items[items.len() - 1] == e);
        }
        assert forall|x: FileMeta| rest.contains(x) implies items.contains(x) by {
            let p = choose|p: int| 0 <= p < rest.len() && rest[p] == x;
            assert(items[p] == x);
        }
        assert(items[items.len() - 1] == e);
        assert forall|a: int, i: int, b: int, j: int|
            0 <= a < c.len() && 0 <= b < c.len() && 0 <= i < c[a].len() && 0 <= j < c[b].len() && (
            a != b || i != j) implies (#[trigger] c[a][i]).path@ != (#[trigger] c[b][j]).path@ by {}
    }
}

/// Splits `inventory`, found under `prefix`, into `count` chunks: entries
/// are taken largest first and each goes to the least-loaded chunk, the
/// lowest index winning a tie.
pub fn build_output_chunks(prefix: String, inventory: Vec<FileMeta>, count: usize) -> (r:
    OutputChunks)
    requires
        count >= 1,
        total(inventory@) <= u64::MAX,
    ensures
        r.prefix@ == prefix@,
        exists|order: Seq<FileMeta>|
            #![trigger assign_all(order, count as nat)]
            order.to_multiset() =~= inventory@.to_multiset() && is_desc(order) && total(order) == total(
                inventory@,
            ) && r@ == assign_all(
                order,
                count as nat,
            ),
        r@.len() == count,
        bag(r@) =~= inventory@.to_multiset(),
        inventory@.len() == 0 ==> r@ == empty_chunks(count as nat),
        distinct_paths(inventory@) ==> chunks_disjoint(r@),
{
    let ghost inv = inventory@;
    let order = sort_by_size_desc(inventory);
    let ghost sorted = order@;
    let mut chunks = OutputChunks::new(prefix, count);
    let mut rest = order;
    let len = rest.len();
    proof {
        assert(sorted.skip(0) =~= sorted);
        assert(len == sorted.len());
    }
    let ghost n = count as nat;
    proof {
        assert(sorted.take(0) =~= Seq::<FileMeta>::empty());
    }
    let mut i: usize = 0;
    while rest.len() > 0
        invariant
            i + rest@.len() == sorted.len(),
            rest@ == sorted.skip(i as int),
            sorted.len() <= usize::MAX,
            chunks@ == assign_all(sorted.take(i as int), n),
            chunks.prefix@ == prefix@,
            total(sorted) <= u64::MAX,
            n == count,
            n >= 1,
        decreases rest@.len(),
    {
        let meta = rest.remove(0);
        proof {
            assert(meta == sorted[i as int]);
            assert(rest@ =~= sorted.skip(i + 1));
            assert(sorted.take(i + 1).drop_last() =~= sorted.take(i as int));
            lemma_assign_all_shape(sorted.take(i as int), n);
            lemma_total_prefix_le(sorted, i + 1);
        }
        chunks.push(meta);
        i = i + 1;
    }
    proof {
        assert(sorted.take(i as int) =~= sorted);
        lemma_assign_all_shape(sorted, n);
        assert(sorted.to_multiset().len() == inv.to_multiset().len());
        assert(sorted.len() == inv.len());
        if distinct_paths(inv) {
            lemma_permutation_distinct(inv, sorted);
            lemma_assign_all_disjoint(sorted, n);
        }
    }
    chunks
}


/// Reordering entries keeps their paths distinct.
pub proof fn lemma_permutation_distinct(s: Seq<FileMeta>, t: Seq<FileMeta>)
    requires
        distinct_paths(s),
        t.to_multiset() =~= s.to_multiset(),
    ensures
        distinct_paths(t),
{
    assert(s.no_duplicates());
    s.lemma_multiset_has_no_duplicates();
    assert forall|x: FileMeta| t.to_multiset().contains(x) implies t.to_multiset().count(x) == 1 by {}
    t.lemma_multiset_has_no_duplicates_conv();
    assert forall|i: int, j: int|
        0 <= i < t.len() && 0 <= j < t.len() && i != j implies (#[trigger] t[i]).path@ != (
        #[trigger] t[j]).path@ by {
        assert(t.to_multiset().count(t[i]) > 0);
        assert(t.to_multiset().count(t[j]) > 0);
        assert(s.contains(t[i]));
        assert(s.contains(t[j]));
        let p = choose|p: int| 0 <= p < s.len() && s[p] == t[i];
        let q = choose|q: int| 0 <= q < s.len() && s[q] == t[j];
        assert(t[i] != t[j]);
    }
}


/// Every entry weighs at most `m`.
pub open spec fn sizes_at_most(s: Seq<FileMeta>, m: int) -> bool {
    forall|i: int| 0 <= i < s.len() ==> (#[trigger] s[i]).size <= m
}

/// A total of chunks that all weigh at least `v` is at least `len * v`.
pub proof fn lemma_grand_at_least(c: Seq<Seq<FileMeta>>, v: int)
    requires
        forall|i: int| 0 <= i < c.len() ==> v <= #[trigger] total(c[i]),
    ensures
        grand_total(c) >= c.len() * v,
    decreases c.len(),
{
    if c.len() > 0 {
        lemma_grand_at_least(c.drop_last(), v);
        assert(total(c[c.len() - 1]) >= v);
        assert(c.len() * v == (c.len() - 1) * v + v) by (nonlinear_arith);
    }
}

/// Balance of the greedy assignment: with `n` chunks and no entry heavier
/// than `m`, every chunk weighs at most the average plus `(n - 1) / n`
/// times the heaviest entry, that is `n * total <= sum + (n - 1) * m`.
pub proof fn lemma_assign_all_balance(items: Seq<FileMeta>, n: nat, m: int)
    requires
        n >= 1,
        m >= 0,
        sizes_at_most(items, m),
    ensures
        forall|a: int|
            0 <= a < n ==> n * #[trigger] total(assign_all(items, n)[a]) <= total(items) + (n - 1)
                * m,
    decreases items.len(),
{
    lemma_assign_all_shape(items, n);
    if items.len() == 0 {
        assert forall|a: int| 0 <= a < n implies n * #[trigger] total(assign_all(items, n)[a])
            <= total(items) + (n - 1) * m by {
            assert(assign_all(items, n)[a] =~= Seq::<FileMeta>::empty());
            assert((n - 1) * m >= 0) by (nonlinear_arith)
                requires
                    n >= 1,
                    m >= 0,
            ;
        }
    } else {
        let rest = items.drop_last();
        let e = items.last();
        let prev = assign_all(rest, n);
        assert(sizes_at_most(rest, m));
        lemma_assign_all_balance(rest, n, m);
        lemma_assign_all_shape(rest, n);
        lemma_first_min_bounds(prev, n as int);
        let k = first_min(prev, n as int);
        let lk = total(prev[k]);
        lemma_grand_at_least(prev, lk);
        let c = assign_all(items, n);
        assert(c == prev.update(k, prev[k].push(e)));
        assert(prev[k].push(e).drop_last() =~= prev[k]);
        assert(e == items[items.len() - 1]);
        assert(e.size <= m);
        let g = total(rest);
        assert(total(items) == g + e.size);
        assert forall|a: int| 0 <= a < n implies n * #[trigger] total(c[a]) <= total(items) + (n
            - 1) * m by {
            if a == k {
                assert(total(c[a]) == lk + e.size);
                assert(n * lk <= g);
                assert(n * (lk + e.size) <= g + e.size + (n - 1) * m) by (nonlinear_arith)
                    requires
                        n * lk <= g,
                        e.size <= m,
                        n >= 1,
                ;
            } else {
                assert(c[a] == prev[a]);
                assert(n * total(prev[a]) <= g + (n - 1) * m);
            }
        }
    }
}


/// Among chunks of equal totals the first one is the least loaded.
pub proof fn lemma_first_min_of_equal(c: Seq<Seq<FileMeta>>, k: int)
    requires
        1 <= k <= c.len(),
        forall|i: int| 0 <= i < k ==> #[trigger] total(c[i]) == total(c[0]),
    ensures
        first_min(c, k) == 0,
    decreases k,
{
    if k > 1 {
        lemma_first_min_of_equal(c, k - 1);
    }
}

/// A dominant first entry: when the first entry weighs at least as much as
/// all the others together and there are at least two chunks, the first
/// chunk holds exactly that entry's weight and no chunk weighs more, which
/// is the best any partition can do.
pub proof fn lemma_assign_all_dominant(items: Seq<FileMeta>, n: nat)
    requires
        n >= 2,
        items.len() >= 1,
        2 * items[0].size >= total(items),
    ensures
        total(assign_all(items, n)[0]) == items[0].size,
        forall|a: int|
            1 <= a < n ==> #[trigger] total(assign_all(items, n)[a]) <= total(items) - items[0].size,
        forall|a: int| 0 <= a < n ==> #[trigger] total(assign_all(items, n)[a]) <= items[0].size,
    decreases items.len(),
{
    lemma_assign_all_shape(items, n);
    let big = items[0].size as int;
    let c = assign_all(items, n);
    let rest = items.drop_last();
    let e = items.last();
    let prev = assign_all(rest, n);
    lemma_assign_all_shape(rest, n);
    assert(c == assign_one(prev, e));
    lemma_first_min_bounds(prev, n as int);
    let k = first_min(prev, n as int);
    assert(prev[k].push(e).drop_last() =~= prev[k]);
    if items.len() == 1 {
        assert(rest.len() == 0);
        assert(prev == empty_chunks(n));
        assert forall|i: int| 0 <= i < n implies #[trigger] total(prev[i]) == total(prev[0]) by {
            assert(prev[i] =~= Seq::<FileMeta>::empty());
            assert(prev[0] =~= Seq::<FileMeta>::empty());
        }
        lemma_first_min_of_equal(prev, n as int);
        assert(e == items[0]);
        assert(total(items) == big) by {
            assert(items.drop_last() =~= Seq::<FileMeta>::empty());
        }
        assert forall|a: int| 1 <= a < n implies #[trigger] total(c[a]) <= total(items) - big by {
            assert(c[a] == prev[a]);
            assert(prev[a] =~= Seq::<FileMeta>::empty());
        }
    } else {
        assert(rest[0] == items[0]);
        lemma_total_nonneg(rest);
        assert(total(items) == total(rest) + e.size);
        lemma_assign_all_dominant(rest, n);
        if k == 0 {
            assert(total(prev[0]) <= total(prev[1]));
            assert(e.size == 0);
        }
        assert forall|a: int| 1 <= a < n implies #[trigger] total(c[a]) <= total(items) - big by {
            if a != k {
                assert(c[a] == prev[a]);
            }
        }
    }
    assert forall|a: int| 0 <= a < n implies #[trigger] total(c[a]) <= big by {
        if a >= 1 {
            assert(total(c[a]) <= total(items) - big);
        }
    }
}


/// A dominant file: when some file of the inventory weighs at least as
/// much as all the others together and there are at least two chunks, the
/// heaviest chunk weighs exactly as much as the largest file, which no
/// partition can beat. `order` is the largest-first order in which the
/// inventory is assigned.
pub proof fn lemma_dominant_file(inventory: Seq<FileMeta>, order: Seq<FileMeta>, n: nat, d: int)
    requires
        n >= 2,
        0 <= d < inventory.len(),
        2 * inventory[d].size >= total(inventory),
        order.to_multiset() =~= inventory.to_multiset(),
        is_desc(order),
        total(order) == total(inventory),
    ensures
        order.len() >= 1,
        inventory.contains(order[0]),
        forall|i: int| 0 <= i < inventory.len() ==> (#[trigger] inventory[i]).size <= order[0].size,
        total(assign_all(order, n)[0]) == order[0].size,
        forall|a: int| 0 <= a < n ==> #[trigger] total(assign_all(order, n)[a]) <= order[0].size,
{
    assert(inventory.to_multiset().count(inventory[d]) > 0);
    assert(order.contains(inventory[d]));
    assert(order.to_multiset().count(order[0]) > 0);
    assert forall|i: int| 0 <= i < inventory.len() implies (#[trigger] inventory[i]).size
        <= order[0].size by {
        assert(inventory.to_multiset().count(inventory[i]) > 0);
        assert(order.contains(inventory[i]));
        let q = choose|q: int| 0 <= q < order.len() && order[q] == inventory[i];
        if q > 0 {
            assert(order[0].size >= order[q].size);
        }
    }
    lemma_assign_all_dominant(order, n);
}

} // verus!
