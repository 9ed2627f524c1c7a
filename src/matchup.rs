use rand::seq::SliceRandom;
use std::collections::BTreeSet;
use vstd::prelude::*;

verus! {

/// The canonical form of an unordered pair: smaller index first.
pub open spec fn normalized(a: u32, b: u32) -> (u32, u32) {
    if a < b {
        (a, b)
    } else {
        (b, a)
    }
}

/// Orders the two indices of a pair so that the smaller comes first.
pub fn normalize_pair(a: u32, b: u32) -> (r: (u32, u32))
    ensures
        r == normalized(a, b),
        r.0 <= r.1,
        (r.0 == a && r.1 == b) || (r.0 == b && r.1 == a),
{
    if a < b {
        (a, b)
    } else {
        (b, a)
    }
}


/// Normalizing a pair does not depend on the order of its two indices, and
/// puts the smaller index first.
pub proof fn lemma_normalize_symmetric(a: u32, b: u32)
    ensures
        normalized(a, b) == normalized(b, a),
        normalized(a, b).0 <= normalized(a, b).1,
{
}

fn contains_index(v: &Vec<u32>, x: u32) -> (r: bool)
    ensures
        r == v@.contains(x),
{
    let mut i: usize = 0;
    while i < v.len()
        invariant
            i <= v@.len(),
            forall|k: int| 0 <= k < i ==> v@[k] != x,
        decreases v@.len() - i,
    {
        if v[i] == x {
            return true;
        }
        i += 1;
    }
    false
}

/// Whether a submitted ranking names exactly the items of the matchup it
/// answers: the two hold the same set of indices.
pub fn same_members(matchup: &Vec<u32>, ranked: &Vec<u32>) -> (r: bool)
    ensures
        r == (matchup@.to_set() == ranked@.to_set()),
{
    let mut i: usize = 0;
    while i < matchup.len()
        invariant
            i <= matchup@.len(),
            forall|k: int| 0 <= k < i ==> ranked@.contains(#[trigger] matchup@[k]),
        decreases matchup@.len() - i,
    {
        if !contains_index(ranked, matchup[i]) {
            assert(matchup@.to_set().contains(matchup@[i as int]));
            assert(!ranked@.to_set().contains(matchup@[i as int]));
            return false;
        }
        i += 1;
    }
    let mut j: usize = 0;
    while j < ranked.len()
        invariant
            j <= ranked@.len(),
            forall|k: int| 0 <= k < matchup@.len() ==> ranked@.contains(#[trigger] matchup@[k]),
            forall|k: int| 0 <= k < j ==> matchup@.contains(#[trigger] ranked@[k]),
        decreases ranked@.len() - j,
    {
        if !contains_index(matchup, ranked[j]) {
            assert(ranked@.to_set().contains(ranked@[j as int]));
            assert(!matchup@.to_set().contains(ranked@[j as int]));
            return false;
        }
        j += 1;
    }
    assert(matchup@.to_set() =~= ranked@.to_set()) by {
        assert forall|x: u32| matchup@.to_set().contains(x) implies ranked@.to_set().contains(x) by {
            let k = choose|k: int| 0 <= k < matchup@.len() && matchup@[k] == x;
            assert(ranked@.contains(matchup@[k]));
        }
        assert forall|x: u32| ranked@.to_set().contains(x) implies matchup@.to_set().contains(x) by {
            let k = choose|k: int| 0 <= k < ranked@.len() && ranked@[k] == x;
            assert(matchup@.contains(ranked@[k]));
        }
    }
    true
}

/// The set of canonical pairs among the given (winner, loser) facts.
pub open spec fn compared_set(results: Seq<(u32, u32)>) -> Set<(u32, u32)> {
    Set::new(
        |q: (u32, u32)|
            exists|i: int| 0 <= i < results.len() && q == #[trigger] normalized(results[i].0, results[i].1),
    )
}

/// Collects the canonical form of every pair in `results`.
pub fn extract_compared_pairs(results: &[(u32, u32)]) -> (r: BTreeSet<(u32, u32)>)
    ensures
        r@ == compared_set(results@),
{
    broadcast use vstd::laws_cmp::group_laws_cmp;
    let mut set: BTreeSet<(u32, u32)> = BTreeSet::new();
    let mut i: usize = 0;
    while i < results.len()
        invariant
            i <= results@.len(),
            set@ == compared_set(results@.take(i as int)),
        decreases results@.len() - i,
    {
        let (a, b) = results[i];
        let p = normalize_pair(a, b);
        set.insert(p);
        proof {
            let prev = results@.take(i as int);
            let next = results@.take(i as int + 1);
            assert forall|q: (u32, u32)| #[trigger] set@.contains(q) <==> compared_set(next).contains(q) by {
                if set@.contains(q) {
                    if q == p {
                        assert(q == normalized(next[i as int].0, next[i as int].1));
                    } else {
                        assert(compared_set(prev).contains(q));
                        let k = choose|k: int| 0 <= k < prev.len() && q == #[trigger] normalized(prev[k].0, prev[k].1);
                        assert(q == normalized(next[k].0, next[k].1));
                    }
                }
                if compared_set(next).contains(q) {
                    let k = choose|k: int| 0 <= k < next.len() && q == #[trigger] normalized(next[k].0, next[k].1);
                    if k < i {
                        assert(q == normalized(prev[k].0, prev[k].1));
                    }
                }
            }
            assert(set@ =~= compared_set(next));
        }
        i += 1;
    }
    assert(results@.take(results@.len() as int) =~= results@);
    set
}

/// The number of distinct unordered pairs among `n` items.
pub open spec fn pairs_among(n: int) -> int {
    if n < 2 {
        0
    } else {
        n * (n - 1) / 2
    }
}

/// Counts the distinct unordered pairs among `num_photos` items.
pub fn total_pairs_needed(num_photos: u32) -> (r: u64)
    ensures
        r == pairs_among(num_photos as int),
{
    if num_photos < 2 {
        return 0;
    }
    let n = num_photos as u64;
    assert(n * (n - 1) <= u64::MAX) by (nonlinear_arith)
        requires
            2 <= n <= u32::MAX,
    ;
    n * (n - 1) / 2
}

/// The share of all pairs already compared, in whole percent: the product
/// `compared * 100` saturates at `u64::MAX`, the quotient is rounded down and
/// capped at 100, and a collection of fewer than two items counts as complete.
pub open spec fn completion(compared: int, n: int) -> int {
    let total = pairs_among(n);
    if total == 0 {
        100
    } else {
        let scaled = if compared * 100 > u64::MAX { u64::MAX as int } else { compared * 100 };
        if scaled / total > 100 {
            100
        } else {
            scaled / total
        }
    }
}

/// Reports how far the comparison of all pairs has progressed, in percent.
pub fn completion_percent(compared_pairs: u64, num_photos: u32) -> (r: u8)
    ensures
        r == completion(compared_pairs as int, num_photos as int),
        r <= 100,
{
    let total = total_pairs_needed(num_photos);
    if total == 0 {
        return 100;
    }
    let scaled = match compared_pairs.checked_mul(100) {
        Some(v) => v,
        None => u64::MAX,
    };
    let percent = scaled / total;
    if percent > 100 {
        100
    } else {
        percent as u8
    }
}


/// Every pair that `x` would form with a member of `selected` has already
/// been compared.
pub open spec fn dominated(x: u32, selected: Seq<u32>, compared: Set<(u32, u32)>) -> bool {
    forall|j: int| 0 <= j < selected.len() ==> compared.contains(normalized(x, #[trigger] selected[j]))
}

/// The greedy pass over candidates in priority order: a candidate joins while
/// the selection holds fewer than `size` members, if the selection is empty or
/// the candidate forms at least one uncompared pair with a member.
pub open spec fn greedy_selection(order: Seq<u32>, compared: Set<(u32, u32)>, size: nat) -> Seq<u32>
    decreases order.len(),
{
    if order.len() == 0 {
        seq![]
    } else {
        let s = greedy_selection(order.drop_last(), compared, size);
        let x = order.last();
        if s.len() < size && (s.len() == 0 || !dominated(x, s, compared)) {
            s.push(x)
        } else {
            s
        }
    }
}

/// The matchup chosen from candidates in priority order: none when there are
/// fewer than `size` candidates, else the greedy selection when it reaches
/// `size` members, else the first `size` candidates.
pub open spec fn dynamic_matchup(order: Seq<u32>, compared: Set<(u32, u32)>, size: nat) -> Option<Seq<u32>> {
    if order.len() < size {
        None
    } else {
        let g = greedy_selection(order, compared, size);
        if g.len() < size {
            Some(order.take(size as int))
        } else {
            Some(g)
        }
    }
}

/// Picks the next matchup of `matchup_size` items. `order` lists the rated
/// items from most to least uncertain; `compared_pairs` holds the canonical
/// pairs already judged.
pub fn select_dynamic_matchup(
    order: &Vec<u32>,
    compared_pairs: &BTreeSet<(u32, u32)>,
    matchup_size: usize,
) -> (r: Option<Vec<u32>>)
    ensures
        r is None <==> order@.len() < matchup_size,
        r matches Some(v) ==> v@.len() == matchup_size,
        match r {
            None => dynamic_matchup(order@, compared_pairs@, matchup_size as nat) is None,
            Some(v) => dynamic_matchup(order@, compared_pairs@, matchup_size as nat) == Some(v@),
        },
{
    broadcast use vstd::laws_cmp::group_laws_cmp;
    broadcast use vstd::std_specs::btree::axiom_set_contains_deref_key;
    if order.len() < matchup_size {
        return None;
    }
    let ghost compared = compared_pairs@;
    let ghost size = matchup_size as nat;
    let mut selected: Vec<u32> = Vec::with_capacity(matchup_size);
    let mut i: usize = 0;
    while i < order.len()
        invariant
            i <= order@.len(),
            selected@ == greedy_selection(order@.take(i as int), compared, size),
            selected@.len() <= size,
            compared == compared_pairs@,
            size == matchup_size,
        decreases order@.len() - i,
    {
        let x = order[i];
        assert(order@.take(i as int + 1).drop_last() =~= order@.take(i as int));
        assert(order@.take(i as int + 1).last() == x);
        if selected.len() < matchup_size {
            let mut all_compared = true;
            let mut j: usize = 0;
            while j < selected.len()
                invariant
                    j <= selected@.len(),
                    all_compared <==> (forall|jj: int| 0 <= jj < j ==> compared.contains(normalized(x, #[trigger] selected@[jj]))),
                    compared == compared_pairs@,
                decreases selected@.len() - j,
            {
                let p = normalize_pair(x, selected[j]);
                if !compared_pairs.contains(&p) {
                    all_compared = false;
                }
                j += 1;
            }
            if !all_compared || selected.len() == 0 {
                selected.push(x);
            }
        }
        i += 1;
    }
    assert(order@.take(order@.len() as int) =~= order@);
    if selected.len() < matchup_size {
        selected.clear();
        let mut k: usize = 0;
        while k < matchup_size
            invariant
                k <= matchup_size <= order@.len(),
                selected@ == order@.take(k as int),
            decreases matchup_size - k,
        {
            selected.push(order[k]);
            assert(order@.take(k as int + 1) =~= order@.take(k as int).push(order@[k as int]));
            k += 1;
        }
    }
    if selected.len() == matchup_size {
        Some(selected)
    } else {
        None
    }
}


proof fn lemma_greedy_members(order: Seq<u32>, compared: Set<(u32, u32)>, size: nat)
    requires
        order.no_duplicates(),
    ensures
        greedy_selection(order, compared, size).no_duplicates(),
        forall|k: int|
            0 <= k < greedy_selection(order, compared, size).len() ==> order.contains(
                #[trigger] greedy_selection(order, compared, size)[k],
            ),
    decreases order.len(),
{
    if order.len() > 0 {
        let prev = order.drop_last();
        assert(prev.no_duplicates());
        lemma_greedy_members(prev, compared, size);
        let s = greedy_selection(prev, compared, size);
        let x = order.last();
        assert forall|k: int| 0 <= k < s.len() implies order.contains(#[trigger] s[k]) by {
            let t = choose|t: int| 0 <= t < prev.len() && prev[t] == s[k];
            assert(order[t] == s[k]);
        }
        if s.len() < size && (s.len() == 0 || !dominated(x, s, compared)) {
            assert forall|k: int| 0 <= k < s.len() implies #[trigger] s[k] != x by {
                let t = choose|t: int| 0 <= t < prev.len() && prev[t] == s[k];
                assert(order[t] == s[k]);
                assert(order[order.len() - 1] == x);
            }
            let g = s.push(x);
            assert forall|k: int| 0 <= k < g.len() implies order.contains(#[trigger] g[k]) by {
                if k == s.len() {
                    assert(order[order.len() - 1] == x);
                } else {
                    assert(g[k] == s[k]);
                }
            }
        }
    }
}

/// A dynamic matchup exists exactly when there are at least `size`
/// candidates; it then holds exactly `size` candidates, and when the
/// candidates are distinct so are its members.
pub proof fn lemma_dynamic_matchup_shape(order: Seq<u32>, compared: Set<(u32, u32)>, size: nat)
    ensures
        dynamic_matchup(order, compared, size) is None <==> order.len() < size,
        dynamic_matchup(order, compared, size) matches Some(v) ==> {
            &&& v.len() == size
            &&& forall|k: int| 0 <= k < v.len() ==> order.contains(#[trigger] v[k])
            &&& order.no_duplicates() ==> v.no_duplicates()
        },
{
    if order.len() >= size {
        if order.no_duplicates() {
            lemma_greedy_members(order, compared, size);
        }
        let g = greedy_selection(order, compared, size);
        if g.len() < size {
            let v = order.take(size as int);
            assert forall|k: int| 0 <= k < v.len() implies order.contains(#[trigger] v[k]) by {
                assert(order[k] == v[k]);
            }
        } else {
            lemma_greedy_bounded(order, compared, size);
            assert forall|k: int| 0 <= k < g.len() implies order.contains(#[trigger] g[k]) by {
                lemma_greedy_from_order(order, compared, size, k);
            }
        }
    }
}

proof fn lemma_greedy_bounded(order: Seq<u32>, compared: Set<(u32, u32)>, size: nat)
    ensures
        greedy_selection(order, compared, size).len() <= size,
    decreases order.len(),
{
    if order.len() > 0 {
        lemma_greedy_bounded(order.drop_last(), compared, size);
    }
}

proof fn lemma_greedy_from_order(order: Seq<u32>, compared: Set<(u32, u32)>, size: nat, k: int)
    requires
        0 <= k < greedy_selection(order, compared, size).len(),
    ensures
        order.contains(greedy_selection(order, compared, size)[k]),
    decreases order.len(),
{
    let prev = order.drop_last();
    let s = greedy_selection(prev, compared, size);
    if k < s.len() {
        lemma_greedy_from_order(prev, compared, size, k);
        let t = choose|t: int| 0 <= t < prev.len() && prev[t] == s[k];
        assert(order[t] == s[k]);
    } else {
        assert(order[order.len() - 1] == order.last());
    }
}


/// Relies on rand's `SliceRandom::shuffle`, driven by the thread-local
/// generator of `rand::rng`: the vector is permuted in place.
#[verifier::external_body]
fn shuffle_in_place(v: &mut Vec<u32>)
    ensures
        final(v)@.len() == old(v)@.len(),
        final(v)@.to_multiset() == old(v)@.to_multiset(),
{
    v.shuffle(&mut rand::rng());
}

/// The number of binary digits of `x`; zero has none.
pub open spec fn bit_length(x: nat) -> nat
    decreases x,
{
    if x == 0 {
        0
    } else {
        1 + bit_length(x / 2)
    }
}

/// The number of shuffled rounds for `n` items: `ceil(log2(n)) + 1`.
pub open spec fn seed_rounds(n: nat) -> nat {
    bit_length((n - 1) as nat) + 1
}

/// `p` lists each of the indices `0..n` exactly once.
pub open spec fn is_index_permutation(p: Seq<u32>, n: nat) -> bool {
    &&& p.len() == n
    &&& p.no_duplicates()
    &&& forall|i: int| 0 <= i < p.len() ==> p[i] < n
}

/// Starting at `start`, `groups` holds the consecutive full chunks of size
/// `k` of the permutation `p`, in order; a short trailing chunk is left out.
pub open spec fn round_of(groups: Seq<Vec<u32>>, start: int, p: Seq<u32>, k: nat) -> bool {
    forall|c: int|
        0 <= c < p.len() as int / k as int ==> #[trigger] groups[start + c]@ == p.subrange(c * k, c * k + k)
}

/// Round `t` of `groups`, made of `per` groups of size `k` starting at group
/// `t * per`, cuts some permutation of `0..n`.
pub open spec fn is_seed_round(groups: Seq<Vec<u32>>, t: int, per: int, n: nat, k: nat) -> bool {
    exists|p: Seq<u32>| is_index_permutation(p, n) && #[trigger] round_of(groups, t * per, p, k)
}

fn seed_round_count(num_photos: u32) -> (r: usize)
    requires
        num_photos >= 1,
    ensures
        r == seed_rounds(num_photos as nat),
{
    let mut rest: u32 = num_photos - 1;
    let mut bits: usize = 0;
    proof {
        lemma_bit_length_bound(rest as nat);
    }
    while rest > 0
        invariant
            bits + bit_length(rest as nat) == bit_length((num_photos - 1) as nat),
            bits <= 32 - bit_length(rest as nat),
            bit_length(rest as nat) <= 32,
        decreases rest,
    {
        proof {
            lemma_bit_length_bound(rest as nat);
        }
        rest = rest / 2;
        bits = bits + 1;
    }
    bits + 1
}

proof fn lemma_bit_length_bound(x: nat)
    requires
        x <= u32::MAX,
    ensures
        bit_length(x) <= 32,
        x > 0 ==> bit_length(x / 2) + 1 == bit_length(x),
{
    reveal_with_fuel(pow2, 33);
    lemma_bit_length_pow(x, 32);
}

proof fn lemma_bit_length_pow(x: nat, e: nat)
    requires
        x < pow2(e),
    ensures
        bit_length(x) <= e,
    decreases e,
{
    if x > 0 && e > 0 {
        assert(pow2(e) == 2 * pow2((e - 1) as nat));
        lemma_bit_length_pow(x / 2, (e - 1) as nat);
    } else if x > 0 {
        assert(pow2(0) == 1);
    }
}

/// Two to the power `e`.
pub open spec fn pow2(e: nat) -> nat
    decreases e,
{
    if e == 0 {
        1
    } else {
        2 * pow2((e - 1) as nat)
    }
}

proof fn lemma_permutation_kept(p: Seq<u32>, q: Seq<u32>, n: nat)
    requires
        is_index_permutation(p, n),
        q.len() == p.len(),
        q.to_multiset() == p.to_multiset(),
    ensures
        is_index_permutation(q, n),
{
    broadcast use vstd::seq_lib::group_to_multiset_ensures;
    p.lemma_multiset_has_no_duplicates();
    q.lemma_multiset_has_no_duplicates_conv();
    assert forall|i: int| 0 <= i < q.len() implies q[i] < n by {
        assert(q.to_multiset().count(q[i]) > 0);
        assert(p.contains(q[i]));
    }
}

/// Draws the initial matchups for `num_photos` items: `ceil(log2(n)) + 1`
/// rounds, each a fresh uniformly random permutation of all indices cut into
/// consecutive groups of `matchup_size`, with any short trailing group
/// dropped. Nothing is drawn when there are fewer items than one group needs.
pub fn generate_seed_matchups(num_photos: u32, matchup_size: usize) -> (r: Vec<Vec<u32>>)
    requires
        matchup_size > 0 || num_photos == 0,
    ensures
        forall|i: int| 0 <= i < r@.len() ==> (#[trigger] r@[i])@.len() == matchup_size,
        forall|i: int| 0 <= i < r@.len() ==> (#[trigger] r@[i])@.no_duplicates(),
        forall|i: int, j: int|
            0 <= i < r@.len() && 0 <= j < r@[i]@.len() ==> #[trigger] r@[i]@[j] < num_photos,
        (num_photos < matchup_size || num_photos == 0) ==> r@.len() == 0,
        !(num_photos < matchup_size || num_photos == 0) ==> {
            let per = num_photos as int / matchup_size as int;
            &&& r@.len() == seed_rounds(num_photos as nat) * per
            &&& forall|t: int|
                0 <= t < seed_rounds(num_photos as nat) ==> #[trigger] is_seed_round(
                    r@,
                    t,
                    per,
                    num_photos as nat,
                    matchup_size as nat,
                )
        },
{
    if (num_photos as usize) < matchup_size || num_photos == 0 {
        return Vec::new();
    }
    let ghost n = num_photos as nat;
    let ghost k = matchup_size as nat;
    let mut indices: Vec<u32> = Vec::new();
    let mut v: u32 = 0;
    while v < num_photos
        invariant
            v <= num_photos,
            indices@.len() == v,
            forall|i: int| 0 <= i < v ==> indices@[i] == i,
        decreases num_photos - v,
    {
        indices.push(v);
        v += 1;
    }
    assert(is_index_permutation(indices@, n));
    let rounds = seed_round_count(num_photos);
    let per: usize = num_photos as usize / matchup_size;
    assert(per * matchup_size <= num_photos) by (nonlinear_arith)
        requires
            per == num_photos as int / matchup_size as int,
            matchup_size > 0,
    ;
    let mut matchups: Vec<Vec<u32>> = Vec::new();
    let ghost mut perms: Seq<Seq<u32>> = seq![];
    let mut t: usize = 0;
    while t < rounds
        invariant
            t <= rounds == seed_rounds(n),
            n == num_photos,
            k == matchup_size > 0,
            per == n / k,
            per * k <= n,
            is_index_permutation(indices@, n),
            perms.len() == t,
            matchups@.len() == t * per,
            forall|i: int| 0 <= i < matchups@.len() ==> (#[trigger] matchups@[i])@.len() == k,
            forall|i: int| 0 <= i < matchups@.len() ==> (#[trigger] matchups@[i])@.no_duplicates(),
            forall|i: int, j: int|
                0 <= i < matchups@.len() && 0 <= j < matchups@[i]@.len() ==> #[trigger] matchups@[i]@[j] < n,
            forall|tt: int|
                0 <= tt < t ==> is_index_permutation(#[trigger] perms[tt], n) && round_of(
                    matchups@,
                    tt * per,
                    perms[tt],
                    k,
                ),
        decreases rounds - t,
    {
        let ghost before = indices@;
        shuffle_in_place(&mut indices);
        proof {
            lemma_permutation_kept(before, indices@, n);
        }
        let ghost start = t * per;
        let ghost done = matchups@;
        let mut c: usize = 0;
        while c < per
            invariant
                c <= per,
                n == num_photos,
                k == matchup_size > 0,
                per == n / k,
                per * k <= n,
                is_index_permutation(indices@, n),
                start == t * per,
                matchups@.len() == start + c,
                matchups@.subrange(0, start) == done,
                forall|i: int| 0 <= i < matchups@.len() ==> (#[trigger] matchups@[i])@.len() == k,
                forall|i: int| 0 <= i < matchups@.len() ==> (#[trigger] matchups@[i])@.no_duplicates(),
                forall|i: int, j: int|
                    0 <= i < matchups@.len() && 0 <= j < matchups@[i]@.len() ==> #[trigger] matchups@[i]@[j] < n,
                forall|cc: int|
                    0 <= cc < c ==> #[trigger] matchups@[start + cc]@ == indices@.subrange(cc * k, cc * k + k),
            decreases per - c,
        {
            assert(c * matchup_size + matchup_size <= per * matchup_size) by (nonlinear_arith)
                requires
                    c < per,
            ;
            let base: usize = c * matchup_size;
            let mut group: Vec<u32> = Vec::with_capacity(matchup_size);
            let mut j: usize = 0;
            while j < matchup_size
                invariant
                    j <= matchup_size,
                    base + matchup_size <= num_photos == indices@.len(),
                    group@ == indices@.subrange(base as int, base + j),
                decreases matchup_size - j,
            {
                group.push(indices[base + j]);
                assert(indices@.subrange(base as int, base + j + 1) =~= indices@.subrange(
                    base as int,
                    base + j,
                ).push(indices@[base + j]));
                j += 1;
            }
            assert forall|a: int, b: int| 0 <= a < b < group@.len() implies group@[a] != group@[b] by {
                assert(group@[a] == indices@[base + a]);
                assert(group@[b] == indices@[base + b]);
            }
            assert forall|j2: int| 0 <= j2 < group@.len() implies group@[j2] < n by {
                assert(group@[j2] == indices@[base + j2]);
            }
            let ghost mid = matchups@;
            matchups.push(group);
            proof {
                assert(matchups@.subrange(0, start) =~= mid.subrange(0, start));
                assert forall|cc: int| 0 <= cc < c + 1 implies #[trigger] matchups@[start + cc]@ == indices@.subrange(
                    cc * k,
                    cc * k + k,
                ) by {
                    if cc < c {
                        assert(matchups@[start + cc] == mid[start + cc]);
                    } else {
                        assert(cc * k == base);
                    }
                }
            }
            c += 1;
        }
        proof {
            let p = indices@;
            assert(p.len() as int / k as int == per);
            assert forall|tt: int| 0 <= tt < t + 1 implies is_index_permutation(#[trigger] perms.push(p)[tt], n)
                && round_of(matchups@, tt * per, perms.push(p)[tt], k) by {
                if tt < t {
                    assert(perms.push(p)[tt] == perms[tt]);
                    assert(round_of(done, tt * per, perms[tt], k));
                    assert forall|c2: int| 0 <= c2 < per implies #[trigger] matchups@[tt * per + c2]@
                        == perms[tt].subrange(c2 * k, c2 * k + k) by {
                        assert((tt + 1) * per <= t * per) by (nonlinear_arith)
                            requires
                                tt < t,
                                per >= 0,
                        ;
                        assert(tt * per + c2 < start) by (nonlinear_arith)
                            requires
                                c2 < per,
                                (tt + 1) * per <= t * per,
                                start == t * per,
                        ;
                        assert(matchups@[tt * per + c2] == matchups@.subrange(0, start)[tt * per + c2]);
                        assert(done[tt * per + c2]@ == perms[tt].subrange(c2 * k, c2 * k + k));
                    }
                } else {
                    assert(perms.push(p)[tt] == p);
                }
            }
            perms = perms.push(p);
            assert((t + 1) * per == t * per + per) by (nonlinear_arith);
        }
        t += 1;
    }
    proof {
        assert forall|t2: int| 0 <= t2 < seed_rounds(n) implies #[trigger] is_seed_round(
            matchups@,
            t2,
            per as int,
            n,
            k,
        ) by {
            assert(is_index_permutation(perms[t2], n) && round_of(matchups@, t2 * per, perms[t2], k));
        }
    }
    matchups
}

} // verus!
