use chrono::Utc;
use uuid::Uuid;
use vstd::prelude::*;

verus! {

#[verifier::external_type_specification]
#[verifier::external_body]
pub struct ExUuid(Uuid);

/// Relies on uuid's `Uuid::new_v4`: a fresh random identifier, of which
/// nothing is promised.
pub assume_specification[ Uuid::new_v4 ]() -> Uuid;

/// Relies on chrono's `Utc::now` and `DateTime::timestamp_micros`: the
/// current time in microseconds since the Unix epoch, of which nothing is
/// promised.
#[verifier::external_body]
fn now_micros() -> (r: i64) {
    Utc::now().timestamp_micros()
}

// Times are held as microseconds since the Unix epoch, in UTC.

/// A photo in the collection.
pub struct Photo {
    pub id: Uuid,
    pub filename: String,
    pub width: u32,
    pub height: u32,
    pub file_hash: String,
    /// Position in the ordered collection, from 0.
    pub position: u32,
    pub created_at: i64,
}

/// An anonymous user session.
pub struct Session {
    pub id: Uuid,
    pub created_at: i64,
    pub last_active_at: i64,
}

impl Session {
    /// A fresh session, created and last active now.
    pub fn new() -> (r: Self)
        ensures
            r.created_at == r.last_active_at,
    {
        let now = now_micros();
        Session { id: Uuid::new_v4(), created_at: now, last_active_at: now }
    }
}

impl Default for Session {
    fn default() -> (r: Self)
        ensures
            r.created_at == r.last_active_at,
    {
        Session::new()
    }
}

/// A group of photos shown together for ranking.
pub struct Matchup {
    pub id: Uuid,
    pub session_id: Uuid,
    /// Indices into the photo collection.
    pub photo_indices: Vec<u32>,
    /// Whether the matchup was drawn in the initial seeding.
    pub is_seed: bool,
    pub created_at: i64,
}

impl Matchup {
    /// A fresh matchup of `photo_indices` for the given session.
    pub fn new(session_id: Uuid, photo_indices: Vec<u32>, is_seed: bool) -> (r: Self)
        ensures
            r.session_id == session_id,
            r.photo_indices@ == photo_indices@,
            r.is_seed == is_seed,
    {
        Matchup { id: Uuid::new_v4(), session_id, photo_indices, is_seed, created_at: now_micros() }
    }
}

/// The facts of the first `i` places of `ranked`: for each place in turn,
/// the item there beats every item ranked after it.
pub open spec fn facts_through(ranked: Seq<u32>, i: int) -> Seq<(u32, u32)>
    decreases i,
{
    if i <= 0 {
        seq![]
    } else {
        facts_through(ranked, i - 1) + Seq::new(
            (ranked.len() - i) as nat,
            |j: int| (ranked[i - 1], ranked[i + j]),
        )
    }
}

/// The (winner, loser) facts of a ranking from best to worst.
pub open spec fn pairwise_facts(ranked: Seq<u32>) -> Seq<(u32, u32)> {
    facts_through(ranked, ranked.len() as int)
}

/// Expands a judged group, ordered from best to worst, into one
/// (winner, loser) fact for every earlier-ranked and later-ranked item.
pub fn expand_ranking(ranked: &Vec<u32>) -> (r: Vec<(u32, u32)>)
    ensures
        r@ == pairwise_facts(ranked@),
{
    let m = ranked.len();
    let mut pairs: Vec<(u32, u32)> = Vec::new();
    let mut i: usize = 0;
    while i < m
        invariant
            i <= m == ranked@.len(),
            pairs@ == facts_through(ranked@, i as int),
        decreases m - i,
    {
        let winner = ranked[i];
        let ghost before = pairs@;
        let mut j: usize = i + 1;
        while j < m
            invariant
                i < j <= m == ranked@.len(),
                winner == ranked@[i as int],
                pairs@ == before + Seq::new((j - i - 1) as nat, |k: int| (ranked@[i as int], ranked@[i + 1 + k])),
            decreases m - j,
        {
            pairs.push((winner, ranked[j]));
            assert(pairs@ =~= before + Seq::new((j + 1 - i - 1) as nat, |k: int| (ranked@[i as int], ranked@[i + 1 + k])));
            j += 1;
        }
        assert(pairs@ =~= facts_through(ranked@, i + 1));
        i += 1;
    }
    pairs
}

/// The fact `f` pairs an item of `ranked` with one ranked below it.
pub open spec fn ranked_above(ranked: Seq<u32>, f: (u32, u32)) -> bool {
    exists|a: int, b: int| 0 <= a < b < ranked.len() && f == (ranked[a], ranked[b])
}

proof fn lemma_facts_through(ranked: Seq<u32>, i: int)
    requires
        0 <= i <= ranked.len(),
    ensures
        2 * facts_through(ranked, i).len() == i * (2 * ranked.len() - i - 1),
        forall|k: int|
            0 <= k < facts_through(ranked, i).len() ==> ranked_above(ranked, #[trigger] facts_through(ranked, i)[k]),
    decreases i,
{
    if i > 0 {
        lemma_facts_through(ranked, i - 1);
        let prev = facts_through(ranked, i - 1);
        let cur = facts_through(ranked, i);
        let m = ranked.len() as int;
        assert(2 * cur.len() == i * (2 * m - i - 1)) by (nonlinear_arith)
            requires
                cur.len() == prev.len() + (m - i),
                2 * prev.len() == (i - 1) * (2 * m - (i - 1) - 1),
        ;
        assert forall|k: int| 0 <= k < cur.len() implies ranked_above(ranked, #[trigger] cur[k]) by {
            if k < prev.len() {
                assert(cur[k] == prev[k]);
                assert(ranked_above(ranked, prev[k]));
            } else {
                let j = k - prev.len();
                assert(cur[k] == (ranked[i - 1], ranked[i + j]));
            }
        }
    }
}

/// A ranking of `m` items yields exactly `m * (m - 1) / 2` facts, and in
/// each the winner stands before the loser in the ranking.
pub proof fn lemma_pairwise_facts(ranked: Seq<u32>)
    ensures
        pairwise_facts(ranked).len() == ranked.len() * (ranked.len() - 1) / 2,
        forall|k: int|
            0 <= k < pairwise_facts(ranked).len() ==> ranked_above(ranked, #[trigger] pairwise_facts(ranked)[k]),
{
    let m = ranked.len() as int;
    lemma_facts_through(ranked, m);
    assert(m * (m - 1) == 2 * pairwise_facts(ranked).len());
}

/// A judged ranking of a matchup, ordered from best to worst.
pub struct ComparisonResult {
    pub id: Uuid,
    pub matchup_id: Uuid,
    pub session_id: Uuid,
    /// From best (first) to worst (last).
    pub ranked_photo_indices: Vec<u32>,
    pub created_at: i64,
}

impl ComparisonResult {
    /// A fresh result recording `ranked_photo_indices` for a matchup.
    pub fn new(matchup_id: Uuid, session_id: Uuid, ranked_photo_indices: Vec<u32>) -> (r: Self)
        ensures
            r.matchup_id == matchup_id,
            r.session_id == session_id,
            r.ranked_photo_indices@ == ranked_photo_indices@,
    {
        ComparisonResult {
            id: Uuid::new_v4(),
            matchup_id,
            session_id,
            ranked_photo_indices,
            created_at: now_micros(),
        }
    }

    /// The (winner, loser) facts of this ranking.
    pub fn to_pairwise(&self) -> (r: Vec<(u32, u32)>)
        ensures
            r@ == pairwise_facts(self.ranked_photo_indices@),
    {
        expand_ranking(&self.ranked_photo_indices)
    }
}

} // verus!
