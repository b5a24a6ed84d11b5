use vstd::prelude::*;

use crate::life::{
    insert_cell, lemma_prefix_to_set, neighbor_count, next_generation, GameOfLife,
};

verus! {

/// The observed states of a sequence, each as the set of its living cells.
pub open spec fn states_of(seq: Seq<Vec<(i32, i32)>>) -> Seq<Set<(i32, i32)>> {
    seq.map_values(|v: Vec<(i32, i32)>| v@.to_set())
}

/// Number of cells listed in the first `n` states of `seq`.
pub open spec fn cells_in(seq: Seq<Vec<(i32, i32)>>, n: int) -> int
    decreases n,
{
    if n <= 0 {
        0
    } else if n > seq.len() {
        cells_in(seq, n - 1)
    } else {
        cells_in(seq, n - 1) + seq[n - 1].len()
    }
}

proof fn lemma_cells_in_monotone(seq: Seq<Vec<(i32, i32)>>, a: int, b: int)
    requires
        a <= b,
    ensures
        cells_in(seq, a) <= cells_in(seq, b),
    decreases b - a,
{
    if a < b {
        lemma_cells_in_monotone(seq, a, b - 1);
    }
}

/// Records for the cells of `cells`, each tagged with step `t`.
pub open spec fn stamped(cells: Set<(i32, i32)>, t: int) -> Set<((i32, i32), usize)> {
    Set::new(|r: ((i32, i32), usize)| r.1 == t && cells.contains(r.0))
}

/// The exception records found while processing step `s`: the cells of
/// state `s + 1` that the rule does not predict from state `s`. A cell
/// predicted but missing makes no record.
pub open spec fn discovered(st: Seq<Set<(i32, i32)>>, s: int) -> Set<((i32, i32), usize)> {
    if 0 <= s && s + 1 < st.len() {
        stamped(st[s + 1].difference(next_generation(st[s])), s + 1)
    } else {
        Set::empty()
    }
}

/// Whether a record comes due at step `s`, `k` steps after its creation.
pub open spec fn is_due(r: ((i32, i32), usize), s: int, k: usize) -> bool {
    s - r.1 == k
}

/// Whether the cell of record `r` has exactly `n` live neighbours in `state`.
pub open spec fn justified(state: Set<(i32, i32)>, r: ((i32, i32), usize), n: usize) -> bool {
    neighbor_count(state, r.0.0 as int, r.0.1 as int) == n
}

/// Where a scan stands: the records still pending, every record created so
/// far, and whether no record has failed its check.
pub struct ScanState {
    pub active: Set<((i32, i32), usize)>,
    pub created: Set<((i32, i32), usize)>,
    pub valid: bool,
}

/// Processing step `s`: resolve the records due now against state `s`,
/// then record the cells of state `s + 1` that the rule does not explain.
pub open spec fn scan_step(
    st: Seq<Set<(i32, i32)>>,
    n: usize,
    k: usize,
    s: int,
    sc: ScanState,
) -> ScanState {
    ScanState {
        active: sc.active.filter(|r: ((i32, i32), usize)| !is_due(r, s, k)).union(
            discovered(st, s),
        ),
        created: sc.created.union(discovered(st, s)),
        valid: sc.valid && forall|r: ((i32, i32), usize)|
            #[trigger] sc.active.contains(r) && is_due(r, s, k) ==> justified(st[s], r, n),
    }
}

/// The scan after its first `m` steps; it stops at the first invalid step.
pub open spec fn scan(st: Seq<Set<(i32, i32)>>, n: usize, k: usize, m: nat) -> ScanState
    decreases m,
{
    if m == 0 {
        ScanState { active: Set::empty(), created: Set::empty(), valid: true }
    } else {
        let prev = scan(st, n, k, (m - 1) as nat);
        if prev.valid {
            scan_step(st, n, k, m - 1, prev)
        } else {
            prev
        }
    }
}

/// Once a scan is invalid it stays where it is.
proof fn lemma_scan_stops(st: Seq<Set<(i32, i32)>>, n: usize, k: usize, a: nat, b: nat)
    requires
        a <= b,
        !scan(st, n, k, a).valid,
    ensures
        scan(st, n, k, b) == scan(st, n, k, a),
    decreases b - a,
{
    if a < b {
        lemma_scan_stops(st, n, k, a, (b - 1) as nat);
    }
}

/// Checks sequences of states against the rule, allowing a cell that
/// appears unpredicted if, `special_steps_back` steps later, it has exactly
/// `special_neighbors` live neighbours.
pub struct SequenceValidator {
    pub special_neighbors: usize,
    pub special_steps_back: usize,
}

/// The verdict on a sequence and the number of exception records created.
#[derive(Clone, Copy, Debug, PartialEq, Eq)]
pub struct SequenceStatus {
    pub is_valid: bool,
    pub exceptions: usize,
}

impl SequenceValidator {
    /// The scan of the whole sequence `st`.
    pub open spec fn final_scan(&self, st: Seq<Set<(i32, i32)>>) -> ScanState {
        scan(st, self.special_neighbors, self.special_steps_back, st.len())
    }

    /// `st` is valid: no record failed its check and none is left pending.
    pub open spec fn accepts(&self, st: Seq<Set<(i32, i32)>>) -> bool {
        let f = self.final_scan(st);
        f.valid && f.active.is_empty()
    }

    /// How many exception records the scan of `st` created.
    pub open spec fn exception_count(&self, st: Seq<Set<(i32, i32)>>) -> nat {
        self.final_scan(st).created.len()
    }

    /// A validator that justifies an exception `ssb` steps after it appears,
    /// when its cell then has exactly `sn` live neighbours.
    pub fn new(sn: usize, ssb: usize) -> (r: Self)
        ensures
            r.special_neighbors == sn,
            r.special_steps_back == ssb,
    {
        SequenceValidator { special_neighbors: sn, special_steps_back: ssb }
    }

    /// Splits off the records due at `step`; the flag tells whether each of
    /// them has exactly `special_neighbors` live neighbours in `state`.
    fn resolve_due(
        &self,
        active: &Vec<((i32, i32), usize)>,
        state: &GameOfLife,
        step: usize,
    ) -> (r: (Vec<((i32, i32), usize)>, bool))
        requires
            forall|i: int| 0 <= i < active.len() ==> active@[i].1 <= step,
        ensures
            forall|i: int| 0 <= i < r.0.len() ==> r.0@[i].1 <= step,
            r.0@.to_set() == active@.to_set().filter(
                |x: ((i32, i32), usize)| !is_due(x, step as int, self.special_steps_back),
            ),
            r.1 == forall|x: ((i32, i32), usize)|
                #[trigger] active@.to_set().contains(x) && is_due(
                    x,
                    step as int,
                    self.special_steps_back,
                ) ==> justified(state@, x, self.special_neighbors),
    {
        let mut kept: Vec<((i32, i32), usize)> = Vec::new();
        let mut ok = true;
        let mut i: usize = 0;
        while i < active.len()
            invariant
                i <= active.len(),
                forall|i: int| 0 <= i < active.len() ==> active@[i].1 <= step,
                forall|i: int| 0 <= i < kept.len() ==> kept@[i].1 <= step,
                kept@.to_set() == active@.subrange(0, i as int).to_set().filter(
                    |x: ((i32, i32), usize)| !is_due(x, step as int, self.special_steps_back),
                ),
                ok == forall|j: int|
                    0 <= j < i && is_due(#[trigger] active@[j], step as int, self.special_steps_back)
                        ==> justified(state@, active@[j], self.special_neighbors),
            decreases active.len() - i,
        {
            let rec = active[i];
            proof {
                lemma_prefix_to_set(active@, i as int);
            }
            if step - rec.1 == self.special_steps_back {
                if state.alive_neighbors_count(rec.0.0, rec.0.1) != self.special_neighbors {
                    ok = false;
                }
            } else {
                proof {
                    kept@.lemma_push_to_set_commute(rec);
                }
                kept.push(rec);
            }
            assert(kept@.to_set() =~= active@.subrange(0, i + 1).to_set().filter(
                |x: ((i32, i32), usize)| !is_due(x, step as int, self.special_steps_back),
            ));
            i += 1;
        }
        assert(active@.subrange(0, active.len() as int) =~= active@);
        proof {
            if ok {
                assert forall|x: ((i32, i32), usize)|
                    #[trigger] active@.to_set().contains(x) && is_due(
                        x,
                        step as int,
                        self.special_steps_back,
                    ) implies justified(state@, x, self.special_neighbors) by {
                    let j = choose|j: int| 0 <= j < active.len() && active@[j] == x;
                }
            } else {
                let j = choose|j: int|
                    0 <= j < active.len() && is_due(
                        #[trigger] active@[j],
                        step as int,
                        self.special_steps_back,
                    ) && !justified(state@, active@[j], self.special_neighbors);
                assert(active@.to_set().contains(active@[j]));
            }
        }
        (kept, ok)
    }

    /// Decides whether `sequence` follows the rule up to justified
    /// exceptions, and counts the exception records created. The count of
    /// all listed cells must fit in a `usize`.
    pub fn validate(&self, sequence: Vec<Vec<(i32, i32)>>) -> (r: SequenceStatus)
        requires
            cells_in(sequence@, sequence@.len() as int) <= usize::MAX,
        ensures
            r.is_valid == self.accepts(states_of(sequence@)),
            r.exceptions == self.exception_count(states_of(sequence@)),
    {
        let ghost st = states_of(sequence@);
        let ghost n = self.special_neighbors;
        let ghost k = self.special_steps_back;
        let mut valid = true;
        let mut total_exceptions: usize = 0;
        let mut active: Vec<((i32, i32), usize)> = Vec::new();
        let ghost mut created: Set<((i32, i32), usize)> = Set::empty();
        let mut step: usize = 0;
        assert(active@.to_set() =~= Set::<((i32, i32), usize)>::empty());
        proof {
            lemma_cells_in_monotone(sequence@, 0, 1);
        }
        while valid && step < sequence.len()
            invariant
                step <= sequence.len(),
                st == states_of(sequence@),
                n == self.special_neighbors,
                k == self.special_steps_back,
                cells_in(sequence@, sequence@.len() as int) <= usize::MAX,
                scan(st, n, k, step as nat) == (ScanState {
                    active: active@.to_set(),
                    created,
                    valid,
                }),
                forall|i: int| 0 <= i < active.len() ==> active@[i].1 <= step,
                forall|x: ((i32, i32), usize)| created.contains(x) ==> x.1 <= step,
                created.finite(),
                total_exceptions == created.len(),
                total_exceptions <= cells_in(sequence@, step + 1),
            decreases sequence.len() - step,
        {
            let game = GameOfLife::from_cells(&sequence[step]);
            let (kept, ok) = self.resolve_due(&active, &game, step);
            let mut predicted = game;
            predicted.update();
            active = kept;
            let ghost kept_set = active@.to_set();
            let ghost created0 = created;
            proof {
                lemma_cells_in_monotone(sequence@, step + 1, step + 2);
            }
            if step + 1 < sequence.len() {
                proof {
                    lemma_cells_in_monotone(sequence@, step + 2, sequence@.len() as int);
                }
                let fresh = new_exceptions(&predicted, &sequence[step + 1]);
                let ghost t = step + 1;
                let mut j: usize = 0;
                while j < fresh.len()
                    invariant
                        j <= fresh.len(),
                        t == step + 1,
                        step + 1 < sequence.len(),
                        fresh@.no_duplicates(),
                        fresh.len() <= sequence@[t].len(),
                        cells_in(sequence@, step + 2) <= usize::MAX,
                        cells_in(sequence@, step + 2) == cells_in(sequence@, step + 1)
                            + sequence@[t].len(),
                        active@.to_set() == kept_set.union(
                            stamped(fresh@.subrange(0, j as int).to_set(), t),
                        ),
                        created == created0.union(
                            stamped(fresh@.subrange(0, j as int).to_set(), t),
                        ),
                        forall|x: ((i32, i32), usize)| created0.contains(x) ==> x.1 <= step,
                        forall|i: int| 0 <= i < active.len() ==> active@[i].1 <= t,
                        created.finite(),
                        total_exceptions == created.len(),
                        total_exceptions <= cells_in(sequence@, step + 1) + j,
                    decreases fresh.len() - j,
                {
                    let rec = (fresh[j], step + 1);
                    proof {
                        lemma_prefix_to_set(fresh@, j as int);
                        assert(!fresh@.subrange(0, j as int).contains(fresh@[j as int]));
                        assert(!created.contains(rec));
                        assert(stamped(fresh@.subrange(0, j + 1).to_set(), t) =~= stamped(
                            fresh@.subrange(0, j as int).to_set(),
                            t,
                        ).insert(rec));
                        active@.lemma_push_to_set_commute(rec);
                        created = created.insert(rec);
                    }
                    active.push(rec);
                    total_exceptions += 1;
                    j += 1;
                }
                proof {
                    assert(fresh@.subrange(0, fresh.len() as int) =~= fresh@);
                    assert(sequence@[t]@.to_set() == st[t]);
                    assert(discovered(st, step as int) =~= stamped(fresh@.to_set(), t));
                }
            } else {
                assert(discovered(st, step as int) =~= Set::empty());
                assert(active@.to_set() =~= kept_set.union(discovered(st, step as int)));
                assert(created =~= created0.union(discovered(st, step as int)));
            }
            if !ok {
                valid = false;
            }
            step += 1;
        }
        proof {
            if step < sequence.len() {
                lemma_scan_stops(st, n, k, step as nat, sequence.len() as nat);
            }
            if active.len() > 0 {
                assert(active@.to_set().contains(active@[0]));
            } else {
                assert(active@.to_set() =~= Set::<((i32, i32), usize)>::empty());
            }
        }
        SequenceStatus { is_valid: valid && active.len() == 0, exceptions: total_exceptions }
    }
}

/// The cells of `actual` that `predicted` does not hold, each listed once.
fn new_exceptions(predicted: &GameOfLife, actual: &Vec<(i32, i32)>) -> (r: Vec<(i32, i32)>)
    ensures
        r@.no_duplicates(),
        r@.to_set() == actual@.to_set().difference(predicted@),
        r.len() <= actual.len(),
{
    let mut fresh: Vec<(i32, i32)> = Vec::new();
    let mut i: usize = 0;
    while i < actual.len()
        invariant
            i <= actual.len(),
            fresh@.no_duplicates(),
            fresh.len() <= i,
            fresh@.to_set() == actual@.subrange(0, i as int).to_set().difference(predicted@),
        decreases actual.len() - i,
    {
        let (x, y) = actual[i];
        if !predicted.is_alive(x, y) {
            insert_cell(&mut fresh, (x, y));
        }
        proof {
            lemma_prefix_to_set(actual@, i as int);
        }
        assert(fresh@.to_set() =~= actual@.subrange(0, i + 1).to_set().difference(predicted@));
        i += 1;
    }
    assert(actual@.subrange(0, actual.len() as int) =~= actual@);
    fresh
}

/// The scan of a sequence in which no state holds a cell that the rule
/// does not predict from the state before never leaves its start.
proof fn lemma_scan_clean(st: Seq<Set<(i32, i32)>>, n: usize, k: usize, m: nat)
    requires
        m <= st.len(),
        forall|i: int| 0 <= i < st.len() - 1 ==> st[i + 1].subset_of(next_generation(st[i])),
    ensures
        scan(st, n, k, m) == (ScanState {
            active: Set::empty(),
            created: Set::empty(),
            valid: true,
        }),
    decreases m,
{
    if m > 0 {
        lemma_scan_clean(st, n, k, (m - 1) as nat);
        let s = m - 1;
        assert(discovered(st, s) =~= Set::empty());
        let prev = scan(st, n, k, (m - 1) as nat);
        assert(prev.active.filter(|r: ((i32, i32), usize)| !is_due(r, s, k)).union(
            discovered(st, s),
        ) =~= Set::empty());
        assert(prev.created.union(discovered(st, s)) =~= Set::empty());
    }
}

/// Cells that vanish against the rule are never recorded: a sequence whose
/// every state holds only cells predicted from the state before is valid
/// and creates no exception record.
pub proof fn lemma_vanishing_cells_ignored(v: SequenceValidator, st: Seq<Set<(i32, i32)>>)
    requires
        forall|i: int| 0 <= i < st.len() - 1 ==> st[i + 1].subset_of(next_generation(st[i])),
    ensures
        v.accepts(st),
        v.exception_count(st) == 0,
{
    lemma_scan_clean(st, v.special_neighbors, v.special_steps_back, st.len());
}

/// A sequence made by applying the rule over and over is valid and creates
/// no exception record.
pub proof fn lemma_generated_sequence_valid(v: SequenceValidator, st: Seq<Set<(i32, i32)>>)
    requires
        forall|i: int| 0 <= i < st.len() - 1 ==> st[i + 1] == next_generation(st[i]),
    ensures
        v.accepts(st),
        v.exception_count(st) == 0,
{
    lemma_vanishing_cells_ignored(v, st);
}

/// A sequence of no state or of one state is valid and creates no
/// exception record.
pub proof fn lemma_short_sequence_valid(v: SequenceValidator, st: Seq<Set<(i32, i32)>>)
    requires
        st.len() <= 1,
    ensures
        v.accepts(st),
        v.exception_count(st) == 0,
{
    lemma_vanishing_cells_ignored(v, st);
}

/// The verdict and the count depend on the sets of living cells alone, and
/// not on the order or repetition of cells in the lists: two sequences
/// listing the same sets get the same result.
pub proof fn lemma_result_depends_on_sets(
    v: SequenceValidator,
    a: Seq<Vec<(i32, i32)>>,
    b: Seq<Vec<(i32, i32)>>,
)
    requires
        a.len() == b.len(),
        forall|i: int| 0 <= i < a.len() ==> a[i]@.to_set() == b[i]@.to_set(),
    ensures
        v.accepts(states_of(a)) == v.accepts(states_of(b)),
        v.exception_count(states_of(a)) == v.exception_count(states_of(b)),
{
    assert(states_of(a) =~= states_of(b));
}

/// Only appearances are recorded: each record created names a cell that is
/// alive in the state of its step and not predicted from the state before.
pub proof fn lemma_records_are_appearances(
    st: Seq<Set<(i32, i32)>>,
    n: usize,
    k: usize,
    m: nat,
    r: ((i32, i32), usize),
)
    requires
        scan(st, n, k, m).created.contains(r),
    ensures
        1 <= r.1 < st.len(),
        st[r.1 as int].contains(r.0),
        !next_generation(st[r.1 - 1]).contains(r.0),
    decreases m,
{
    if m > 0 {
        let prev = scan(st, n, k, (m - 1) as nat);
        if prev.created.contains(r) {
            lemma_records_are_appearances(st, n, k, (m - 1) as nat, r);
        }
    }
}

/// Records are only ever added to the count: every record created in the
/// first `a` steps is still counted after `b >= a` steps, whether it was
/// later justified or not, and every pending record has been counted.
pub proof fn lemma_created_records_stay_counted(
    st: Seq<Set<(i32, i32)>>,
    n: usize,
    k: usize,
    a: nat,
    b: nat,
)
    requires
        a <= b,
        forall|i: int| 0 <= i < st.len() ==> #[trigger] st[i].finite(),
    ensures
        scan(st, n, k, a).created.subset_of(scan(st, n, k, b).created),
        scan(st, n, k, b).active.subset_of(scan(st, n, k, b).created),
        scan(st, n, k, b).created.finite(),
    decreases b,
{
    if b > 0 {
        if a < b {
            lemma_created_records_stay_counted(st, n, k, a, (b - 1) as nat);
        } else {
            lemma_created_records_stay_counted(st, n, k, 0, (b - 1) as nat);
        }
        let s = b - 1;
        if s + 1 < st.len() {
            let fresh = st[s + 1].difference(next_generation(st[s]));
            assert(fresh.subset_of(st[s + 1]));
            vstd::set_lib::lemma_len_subset(fresh, st[s + 1]);
            lemma_stamped_finite(fresh, s + 1);
        }
    }
}

/// Finitely many cells give finitely many records.
proof fn lemma_stamped_finite(cells: Set<(i32, i32)>, t: int)
    requires
        cells.finite(),
    ensures
        stamped(cells, t).finite(),
{
    let f = |c: (i32, i32)| (c, t as usize);
    cells.lemma_map_finite(f);
    assert forall|r: ((i32, i32), usize)| #[trigger]
        stamped(cells, t).contains(r) implies cells.map(f).contains(r) by {
        assert(cells.contains(r.0) && f(r.0) == r);
    }
    vstd::set_lib::lemma_len_subset(stamped(cells, t), cells.map(f));
}

} // verus!
