use vstd::prelude::*;

verus! {

/// The sum of a row of counts.
pub open spec fn row_total(s: Seq<int>) -> int
    decreases s.len(),
{
    if s.len() == 0 {
        0
    } else {
        row_total(s.drop_last()) + s.last()
    }
}

/// What a rating model has accumulated: for `n` items, the win counts
/// `wins[i][j]` (times `i` beat `j`), the symmetric comparison counts
/// `comparisons[i][j]`, and the number of facts recorded.
pub struct Tally {
    pub n: nat,
    pub wins: Seq<Seq<int>>,
    pub comparisons: Seq<Seq<int>>,
    pub recorded: nat,
}

impl Tally {
    /// No facts yet for `n` items.
    pub open spec fn empty(n: nat) -> Tally {
        Tally {
            n,
            wins: Seq::new(n, |i: int| Seq::new(n, |j: int| 0int)),
            comparisons: Seq::new(n, |i: int| Seq::new(n, |j: int| 0int)),
            recorded: 0,
        }
    }

    /// One fact "`w` beat `l`"; a fact that names an index outside the
    /// collection changes nothing.
    pub open spec fn record(self, w: int, l: int) -> Tally {
        if 0 <= w < self.n && 0 <= l < self.n {
            let c = self.comparisons.update(w, self.comparisons[w].update(l, self.comparisons[w][l] + 1));
            Tally {
                n: self.n,
                wins: self.wins.update(w, self.wins[w].update(l, self.wins[w][l] + 1)),
                comparisons: c.update(l, c[l].update(w, c[l][w] + 1)),
                recorded: self.recorded + 1,
            }
        } else {
            self
        }
    }

    /// The facts of `pairs`, (winner, loser), recorded in order.
    pub open spec fn record_all(self, pairs: Seq<(u32, u32)>) -> Tally
        decreases pairs.len(),
    {
        if pairs.len() == 0 {
            self
        } else {
            self.record_all(pairs.drop_last()).record(pairs.last().0 as int, pairs.last().1 as int)
        }
    }

    /// Both matrices are `n` by `n`.
    pub open spec fn is_square(self) -> bool {
        &&& self.wins.len() == self.n
        &&& self.comparisons.len() == self.n
        &&& forall|i: int| 0 <= i < self.n ==> (#[trigger] self.wins[i]).len() == self.n
        &&& forall|i: int| 0 <= i < self.n ==> (#[trigger] self.comparisons[i]).len() == self.n
    }

    /// The items among the first `k` that item `i` has met, each with the
    /// number of comparisons between the two, in increasing order of index;
    /// `i` itself is left out.
    pub open spec fn opponents_upto(self, i: int, k: int) -> Seq<(u32, u64)>
        decreases k,
    {
        if k <= 0 {
            seq![]
        } else {
            let prev = self.opponents_upto(i, k - 1);
            let j = k - 1;
            if j != i && self.comparisons[i][j] > 0 {
                prev.push((j as u32, self.comparisons[i][j] as u64))
            } else {
                prev
            }
        }
    }

    /// All items that item `i` has met, with the comparison counts: the
    /// terms of the denominator of its strength update.
    pub open spec fn opponents(self, i: int) -> Seq<(u32, u64)> {
        self.opponents_upto(i, self.n as int)
    }

    /// All wins of item `i`.
    pub open spec fn total_wins(self, i: int) -> int {
        row_total(self.wins[i])
    }

    /// All comparisons that involve item `i`.
    pub open spec fn total_comparisons_of(self, i: int) -> int {
        row_total(self.comparisons[i])
    }
}

proof fn lemma_record_comparisons_of(t: Tally, w: int, l: int, i: int)
    requires
        t.is_square(),
        0 <= i < t.n,
    ensures
        t.record(w, l).is_square(),
        t.record(w, l).total_comparisons_of(i) == t.total_comparisons_of(i) + (if 0 <= w < t.n && 0 <= l < t.n {
            (if i == w { 1int } else { 0int }) + (if i == l { 1int } else { 0int })
        } else {
            0int
        }),
{
    if 0 <= w < t.n && 0 <= l < t.n {
        let c0 = t.comparisons;
        let c1 = c0.update(w, c0[w].update(l, c0[w][l] + 1));
        let t1 = t.record(w, l);
        assert(c1[w].len() == t.n);
        assert(t1.is_square()) by {
            assert forall|a: int| 0 <= a < t.n implies (#[trigger] t1.wins[a]).len() == t.n by {
                assert(t.wins[a].len() == t.n);
            }
            assert forall|a: int| 0 <= a < t.n implies (#[trigger] t1.comparisons[a]).len() == t.n by {
                assert(t.comparisons[a].len() == t.n);
            }
        }
        assert(c0[i].len() == t.n);
        if i == w {
            lemma_row_total_update(c0[i], l, c0[i][l] + 1);
        }
        if i == l {
            lemma_row_total_update(c1[i], w, c1[i][w] + 1);
        }
    }
}

/// Recording one fact never lowers the comparison count of any item, and
/// raises it for each item the fact names when both of its items lie in the
/// collection. Since an item's uncertainty `1 / (1 + sqrt(count))` strictly
/// decreases as that count grows, it falls with the first comparison of the
/// item and never rises afterwards.
pub proof fn lemma_record_raises_comparisons(t: Tally, w: int, l: int, i: int)
    requires
        t.is_square(),
        0 <= i < t.n,
    ensures
        t.record(w, l).total_comparisons_of(i) >= t.total_comparisons_of(i),
        0 <= w < t.n && 0 <= l < t.n && (i == w || i == l) ==> t.record(w, l).total_comparisons_of(i)
            > t.total_comparisons_of(i),
{
    lemma_record_comparisons_of(t, w, l, i);
}

/// Over any further sequence of facts, no item's comparison count falls.
pub proof fn lemma_record_all_keeps_comparisons(t: Tally, pairs: Seq<(u32, u32)>, i: int)
    requires
        t.is_square(),
        0 <= i < t.n,
    ensures
        t.record_all(pairs).is_square(),
        t.record_all(pairs).n == t.n,
        t.record_all(pairs).total_comparisons_of(i) >= t.total_comparisons_of(i),
    decreases pairs.len(),
{
    if pairs.len() > 0 {
        let p = pairs.last();
        lemma_record_all_keeps_comparisons(t, pairs.drop_last(), i);
        lemma_record_comparisons_of(t.record_all(pairs.drop_last()), p.0 as int, p.1 as int, i);
    }
}

/// The largest number of facts a model accepts; it keeps every count
/// within `u64`.
pub const MAX_RECORDED: u64 = 0x3fff_ffff_ffff_ffff;

/// Win and comparison counts over a fixed collection of items, from which
/// Bradley-Terry strengths and uncertainties are estimated.
pub struct BradleyTerry {
    num_items: u32,
    wins: Vec<Vec<u64>>,
    comparisons: Vec<Vec<u64>>,
    recorded: u64,
}

spec fn row_view(r: Seq<u64>) -> Seq<int> {
    r.map_values(|x: u64| x as int)
}

spec fn counts_view(m: Seq<Vec<u64>>) -> Seq<Seq<int>> {
    m.map_values(|r: Vec<u64>| row_view(r@))
}

impl View for BradleyTerry {
    type V = Tally;

    closed spec fn view(&self) -> Tally {
        Tally {
            n: self.num_items as nat,
            wins: counts_view(self.wins@),
            comparisons: counts_view(self.comparisons@),
            recorded: self.recorded as nat,
        }
    }
}

proof fn lemma_row_total_update(s: Seq<int>, k: int, v: int)
    requires
        0 <= k < s.len(),
    ensures
        row_total(s.update(k, v)) == row_total(s) - s[k] + v,
    decreases s.len(),
{
    let t = s.update(k, v);
    if k < s.len() - 1 {
        assert(t.drop_last() =~= s.drop_last().update(k, v));
        lemma_row_total_update(s.drop_last(), k, v);
    } else {
        assert(t.drop_last() =~= s.drop_last());
    }
}

proof fn lemma_row_total_prefix(s: Seq<int>, j: int)
    requires
        0 <= j <= s.len(),
        forall|i: int| 0 <= i < s.len() ==> s[i] >= 0,
    ensures
        row_total(s.take(j)) <= row_total(s),
    decreases s.len() - j,
{
    if j < s.len() {
        assert(s.take(j + 1).drop_last() =~= s.take(j));
        lemma_row_total_prefix(s, j + 1);
    } else {
        assert(s.take(j) =~= s);
    }
}

proof fn lemma_row_total_entry(s: Seq<int>, k: int)
    requires
        0 <= k < s.len(),
        forall|i: int| 0 <= i < s.len() ==> s[i] >= 0,
    ensures
        0 <= s[k] <= row_total(s),
    decreases s.len(),
{
    if k < s.len() - 1 {
        lemma_row_total_entry(s.drop_last(), k);
    } else {
        lemma_row_total_prefix(s.drop_last(), 0);
        assert(s.drop_last().take(0) =~= Seq::<int>::empty());
    }
}

proof fn lemma_row_total_zero(n: nat)
    ensures
        row_total(Seq::new(n, |j: int| 0int)) == 0,
    decreases n,
{
    if n > 0 {
        assert(Seq::new(n, |j: int| 0int).drop_last() =~= Seq::new((n - 1) as nat, |j: int| 0int));
        lemma_row_total_zero((n - 1) as nat);
    }
}

fn increment(m: &mut Vec<Vec<u64>>, i: usize, j: usize)
    requires
        i < old(m)@.len(),
        j < old(m)@[i as int]@.len(),
        old(m)@[i as int]@[j as int] < u64::MAX,
    ensures
        counts_view(final(m)@) == counts_view(old(m)@).update(
            i as int,
            counts_view(old(m)@)[i as int].update(j as int, counts_view(old(m)@)[i as int][j as int] + 1),
        ),
        final(m)@.len() == old(m)@.len(),
        forall|a: int| 0 <= a < final(m)@.len() ==> (#[trigger] final(m)@[a])@.len() == old(m)@[a]@.len(),
{
    let mut row: Vec<u64> = Vec::new();
    std::mem::swap(&mut row, &mut m[i]);
    let v = row[j];
    row.set(j, v + 1);
    std::mem::swap(&mut row, &mut m[i]);
    proof {
        let before = counts_view(old(m)@);
        let expect = before.update(i as int, before[i as int].update(j as int, before[i as int][j as int] + 1));
        assert forall|a: int| 0 <= a < final(m)@.len() implies #[trigger] counts_view(final(m)@)[a] =~= expect[a] by {
            if a != i {
                assert(final(m)@[a] == old(m)@[a]);
            }
        }
        assert(counts_view(final(m)@) =~= expect);
    }
}

impl BradleyTerry {
    /// The matrices are `n` by `n`, every count is non-negative, each row of
    /// wins sums to at most the number of facts, each row of comparisons to
    /// at most twice that, and the number of facts stays within its bound.
    pub closed spec fn wf(&self) -> bool {
        let t = self@;
        &&& t.is_square()
        &&& self.wins@.len() == t.n
        &&& self.comparisons@.len() == t.n
        &&& forall|i: int| 0 <= i < t.n ==> (#[trigger] self.wins@[i])@.len() == t.n
        &&& forall|i: int| 0 <= i < t.n ==> (#[trigger] self.comparisons@[i])@.len() == t.n
        &&& t.recorded <= MAX_RECORDED
        &&& forall|i: int| 0 <= i < t.n ==> #[trigger] t.total_wins(i) <= t.recorded
        &&& forall|i: int| 0 <= i < t.n ==> #[trigger] t.total_comparisons_of(i) <= 2 * t.recorded
    }

    proof fn lemma_entry_bounds(&self, i: int, j: int)
        requires
            self.wf(),
            0 <= i < self@.n,
            0 <= j < self@.n,
        ensures
            self@.wins[i][j] <= self@.recorded,
            self@.comparisons[i][j] <= 2 * self@.recorded,
            self@.wins[i].len() == self@.n,
            self@.comparisons[i].len() == self@.n,
            self@.wins[i][j] == self.wins@[i]@[j],
            self@.comparisons[i][j] == self.comparisons@[i]@[j],
    {
        let t = self@;
        assert(t.total_wins(i) <= t.recorded);
        assert(t.total_comparisons_of(i) <= 2 * t.recorded);
        assert(self.wins@[i]@.len() == t.n);
        assert(self.comparisons@[i]@.len() == t.n);
        lemma_row_total_entry(t.wins[i], j);
        lemma_row_total_entry(t.comparisons[i], j);
    }

    /// Records the fact "`winner` beat `loser`". A fact that names an index
    /// outside the collection is ignored.
    pub fn record_comparison(&mut self, winner: u32, loser: u32)
        requires
            old(self).wf(),
            old(self)@.recorded < MAX_RECORDED,
        ensures
            final(self).wf(),
            final(self)@.is_square(),
            final(self)@ == old(self)@.record(winner as int, loser as int),
    {
        let w = winner as usize;
        let l = loser as usize;
        let n = self.num_items as usize;
        if w < n && l < n {
            proof {
                self.lemma_entry_bounds(w as int, l as int);
                self.lemma_entry_bounds(l as int, w as int);
            }
            let ghost t0 = self@;
            let ghost wi = w as int;
            let ghost li = l as int;
            increment(&mut self.wins, w, l);
            increment(&mut self.comparisons, w, l);
            proof {
                let c = counts_view(self.comparisons@);
                if w == l {
                    assert(c[li][wi] == t0.comparisons[wi][li] + 1);
                } else {
                    assert(c[li] == t0.comparisons[li]);
                }
                assert(self.comparisons@[li]@[wi] == c[li][wi]);
            }
            increment(&mut self.comparisons, l, w);
            self.recorded = self.recorded + 1;
            proof {
                let t1 = self@;
                assert(t1 == t0.record(w as int, l as int));
                assert forall|i: int| 0 <= i < t1.n implies #[trigger] t1.total_wins(i) <= t1.recorded by {
                    assert(t0.total_wins(i) <= t0.recorded);
                    if i == w {
                        lemma_row_total_update(t0.wins[i], l as int, t0.wins[i][l as int] + 1);
                    } else {
                        assert(t1.wins[i] == t0.wins[i]);
                        assert(t0.total_wins(i) <= t0.recorded);
                    }
                }
                assert forall|i: int| 0 <= i < t1.n implies #[trigger] t1.total_comparisons_of(i) <= 2 * t1.recorded by {
                    let c0 = t0.comparisons;
                    let c1 = c0.update(w as int, c0[w as int].update(l as int, c0[w as int][l as int] + 1));
                    assert(t0.total_comparisons_of(i) <= 2 * t0.recorded);
                    if i == w {
                        lemma_row_total_update(c0[i], l as int, c0[i][l as int] + 1);
                    }
                    if i == l {
                        lemma_row_total_update(c1[i], w as int, c1[i][w as int] + 1);
                    }
                    if i != w && i != l {
                        assert(t1.comparisons[i] == c0[i]);
                    }
                }
            }
        }
    }

    /// Records each (winner, loser) fact of `results`, in order.
    pub fn record_comparisons(&mut self, results: &[(u32, u32)])
        requires
            old(self).wf(),
            old(self)@.recorded + results@.len() <= MAX_RECORDED,
        ensures
            final(self).wf(),
            final(self)@.is_square(),
            final(self)@ == old(self)@.record_all(results@),
    {
        let mut i: usize = 0;
        while i < results.len()
            invariant
                i <= results@.len(),
                self.wf(),
                self@ == old(self)@.record_all(results@.take(i as int)),
                self@.recorded <= old(self)@.recorded + i,
                old(self)@.recorded + results@.len() <= MAX_RECORDED,
            decreases results@.len() - i,
        {
            let (winner, loser) = results[i];
            self.record_comparison(winner, loser);
            assert(results@.take(i as int + 1).drop_last() =~= results@.take(i as int));
            i += 1;
        }
        assert(results@.take(results@.len() as int) =~= results@);
    }

    /// The number of items in the collection.
    pub fn num_items(&self) -> (r: u32)
        ensures
            r == self@.n,
    {
        self.num_items
    }

    /// The number of facts recorded so far.
    pub fn total_comparisons(&self) -> (r: u64)
        ensures
            r == self@.recorded,
    {
        self.recorded
    }

    /// How often `winner` has beaten `loser`.
    pub fn wins_between(&self, winner: u32, loser: u32) -> (r: u64)
        requires
            self.wf(),
            winner < self@.n,
            loser < self@.n,
        ensures
            r == self@.wins[winner as int][loser as int],
    {
        proof {
            self.lemma_entry_bounds(winner as int, loser as int);
        }
        self.wins[winner as usize][loser as usize]
    }

    /// How often items `i` and `j` have been compared.
    pub fn comparisons_between(&self, i: u32, j: u32) -> (r: u64)
        requires
            self.wf(),
            i < self@.n,
            j < self@.n,
        ensures
            r == self@.comparisons[i as int][j as int],
    {
        proof {
            self.lemma_entry_bounds(i as int, j as int);
        }
        self.comparisons[i as usize][j as usize]
    }

    /// Every other item that `item` has been compared with, and how often,
    /// in increasing order of index.
    pub fn opponents(&self, item: u32) -> (r: Vec<(u32, u64)>)
        requires
            self.wf(),
            item < self@.n,
        ensures
            r@ == self@.opponents(item as int),
    {
        let n = self.num_items;
        let mut result: Vec<(u32, u64)> = Vec::new();
        let mut j: u32 = 0;
        while j < n
            invariant
                self.wf(),
                item < self@.n == n,
                j <= n,
                result@ == self@.opponents_upto(item as int, j as int),
            decreases n - j,
        {
            if j != item {
                let count = self.comparisons_between(item, j);
                if count > 0 {
                    result.push((j, count));
                }
            }
            j += 1;
        }
        result
    }

    fn row_sum(row: &Vec<u64>, bound: Ghost<int>) -> (r: u64)
        requires
            row_total(row_view(row@)) <= bound@ <= u64::MAX,
        ensures
            r == row_total(row_view(row@)),
    {
        let ghost s = row_view(row@);
        let mut acc: u64 = 0;
        let mut j: usize = 0;
        while j < row.len()
            invariant
                j <= row@.len() == s.len(),
                s == row_view(row@),
                row_total(s) <= bound@ <= u64::MAX,
                acc == row_total(s.take(j as int)),
            decreases row@.len() - j,
        {
            proof {
                assert(s.take(j as int + 1).drop_last() =~= s.take(j as int));
                lemma_row_total_prefix(s, j as int + 1);
            }
            acc = acc + row[j];
            j += 1;
        }
        assert(s.take(s.len() as int) =~= s);
        acc
    }

    /// All wins of `item`: the numerator of its strength update.
    pub fn total_wins(&self, item: u32) -> (r: u64)
        requires
            self.wf(),
            item < self@.n,
        ensures
            r == self@.total_wins(item as int),
    {
        proof {
            self.lemma_entry_bounds(item as int, 0);
            assert(self@.total_wins(item as int) <= self@.recorded);
        }
        Self::row_sum(&self.wins[item as usize], Ghost(self@.recorded as int))
    }

    /// All comparisons that involve `item`, from which its uncertainty
    /// `1 / (1 + sqrt(count))` is derived.
    pub fn item_comparisons(&self, item: u32) -> (r: u64)
        requires
            self.wf(),
            item < self@.n,
        ensures
            r == self@.total_comparisons_of(item as int),
    {
        proof {
            self.lemma_entry_bounds(item as int, 0);
            assert(self@.total_comparisons_of(item as int) <= 2 * self@.recorded);
        }
        Self::row_sum(&self.comparisons[item as usize], Ghost(2 * self@.recorded as int))
    }

    /// Creates a model for `num_items` items with no facts; `None` when the
    /// count does not fit an item index.
    pub fn new(num_items: usize) -> (r: Option<Self>)
        ensures
            r is None <==> num_items > u32::MAX,
            r matches Some(bt) ==> bt.wf() && bt@.is_square() && bt@ == Tally::empty(num_items as nat),
    {
        if num_items > u32::MAX as usize {
            return None;
        }
        let mut wins: Vec<Vec<u64>> = Vec::new();
        let mut comparisons: Vec<Vec<u64>> = Vec::new();
        let mut i: usize = 0;
        while i < num_items
            invariant
                i <= num_items,
                wins@.len() == i,
                comparisons@.len() == i,
                forall|a: int| 0 <= a < i ==> (#[trigger] wins@[a])@ == Seq::new(num_items as nat, |j: int| 0u64),
                forall|a: int| 0 <= a < i ==> (#[trigger] comparisons@[a])@ == Seq::new(num_items as nat, |j: int| 0u64),
            decreases num_items - i,
        {
            let mut row: Vec<u64> = Vec::new();
            let mut j: usize = 0;
            while j < num_items
                invariant
                    j <= num_items,
                    row@ == Seq::new(j as nat, |x: int| 0u64),
                decreases num_items - j,
            {
                row.push(0);
                assert(row@ =~= Seq::new((j + 1) as nat, |x: int| 0u64));
                j += 1;
            }
            wins.push(row.clone());
            comparisons.push(row);
            i += 1;
        }
        let bt = BradleyTerry { num_items: num_items as u32, wins, comparisons, recorded: 0 };
        proof {
            let n = num_items as nat;
            let zero_row = Seq::new(n, |j: int| 0int);
            assert forall|a: int| 0 <= a < n implies (#[trigger] counts_view(bt.wins@)[a]) =~= zero_row by {
                assert(bt.wins@[a]@ == Seq::new(n, |j: int| 0u64));
            }
            assert forall|a: int| 0 <= a < n implies (#[trigger] counts_view(bt.comparisons@)[a]) =~= zero_row by {
                assert(bt.comparisons@[a]@ == Seq::new(n, |j: int| 0u64));
            }
            assert(counts_view(bt.wins@) =~= Tally::empty(n).wins);
            assert(counts_view(bt.comparisons@) =~= Tally::empty(n).comparisons);
            lemma_row_total_zero(n);
        }
        Some(bt)
    }
}

} // verus!
