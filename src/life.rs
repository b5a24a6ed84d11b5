use vstd::prelude::*;

verus! {

/// Whether `(x, y)` lies on the `i32` grid and is alive in `s`.
/// Coordinates off the grid are dead.
pub open spec fn alive_at(s: Set<(i32, i32)>, x: int, y: int) -> bool {
    &&& i32::MIN <= x <= i32::MAX
    &&& i32::MIN <= y <= i32::MAX
    &&& s.contains((x as i32, y as i32))
}

/// One for true, zero for false.
pub open spec fn bit(b: bool) -> nat {
    if b {
        1
    } else {
        0
    }
}

/// How many of the eight cells around `(x, y)` are alive in `s`.
pub open spec fn neighbor_count(s: Set<(i32, i32)>, x: int, y: int) -> nat {
    bit(alive_at(s, x - 1, y - 1)) + bit(alive_at(s, x - 1, y)) + bit(alive_at(s, x - 1, y + 1))
        + bit(alive_at(s, x, y - 1)) + bit(alive_at(s, x, y + 1)) + bit(alive_at(s, x + 1, y - 1))
        + bit(alive_at(s, x + 1, y)) + bit(alive_at(s, x + 1, y + 1))
}

/// The standard rule: a live cell survives with two or three live
/// neighbours, a dead cell is born with exactly three.
pub open spec fn lives_next(s: Set<(i32, i32)>, c: (i32, i32)) -> bool {
    let n = neighbor_count(s, c.0 as int, c.1 as int);
    if s.contains(c) {
        n == 2 || n == 3
    } else {
        n == 3
    }
}

/// The generation that follows `s`.
pub open spec fn next_generation(s: Set<(i32, i32)>) -> Set<(i32, i32)> {
    Set::new(|c: (i32, i32)| lives_next(s, c))
}

/// `c` is `d` or one of its eight neighbours.
pub open spec fn near(c: (i32, i32), d: (i32, i32)) -> bool {
    &&& -1 <= c.0 - d.0 <= 1
    &&& -1 <= c.1 - d.1 <= 1
}

/// Every living cell of `s` together with its neighbours.
pub open spec fn candidates(s: Set<(i32, i32)>) -> Set<(i32, i32)> {
    Set::new(|c: (i32, i32)| exists|d: (i32, i32)| #[trigger] s.contains(d) && near(c, d))
}

/// A cell that is not a candidate stays dead: restricting the next
/// generation to the candidates loses nothing.
pub proof fn lemma_non_candidate_stays_dead(s: Set<(i32, i32)>, c: (i32, i32))
    requires
        !candidates(s).contains(c),
    ensures
        !next_generation(s).contains(c),
{
    if lives_next(s, c) {
        lemma_lives_next_is_candidate(s, c);
    }
}

proof fn lemma_lives_next_is_candidate(s: Set<(i32, i32)>, c: (i32, i32))
    requires
        lives_next(s, c),
    ensures
        candidates(s).contains(c),
{
    let x = c.0 as int;
    let y = c.1 as int;
    if s.contains(c) {
        assert(near(c, c));
    } else {
        let dx: int = if alive_at(s, x - 1, y - 1) || alive_at(s, x - 1, y) || alive_at(s, x - 1, y + 1) {
            -1
        } else if alive_at(s, x, y - 1) || alive_at(s, x, y + 1) {
            0
        } else {
            1
        };
        let dy: int = if alive_at(s, x + dx, y - 1) {
            -1
        } else if dx != 0 && alive_at(s, x + dx, y) {
            0
        } else {
            1
        };
        assert(alive_at(s, x + dx, y + dy));
        let d = ((x + dx) as i32, (y + dy) as i32);
        assert(s.contains(d) && near(c, d));
    }
}

pub(crate) proof fn lemma_prefix_to_set<A>(s: Seq<A>, i: int)
    requires
        0 <= i < s.len(),
    ensures
        s.subrange(0, i + 1).to_set() == s.subrange(0, i).to_set().insert(s[i]),
{
    assert(s.subrange(0, i + 1) =~= s.subrange(0, i).push(s[i]));
    s.subrange(0, i).lemma_push_to_set_commute(s[i]);
}

/// Whether `v` holds `c`.
fn holds_cell(v: &Vec<(i32, i32)>, c: (i32, i32)) -> (r: bool)
    ensures
        r == v@.contains(c),
{
    let mut i: usize = 0;
    while i < v.len()
        invariant
            i <= v.len(),
            forall|j: int| 0 <= j < i ==> v@[j] != c,
        decreases v.len() - i,
    {
        let d = v[i];
        if d.0 == c.0 && d.1 == c.1 {
            assert(v@[i as int] == c);
            return true;
        }
        i += 1;
    }
    false
}

/// Adds `c` to `v` unless it is already there.
pub(crate) fn insert_cell(v: &mut Vec<(i32, i32)>, c: (i32, i32))
    ensures
        final(v).len() <= old(v).len() + 1,
        final(v)@.to_set() == old(v)@.to_set().insert(c),
        old(v)@.no_duplicates() ==> final(v)@.no_duplicates(),
{
    if !holds_cell(v, c) {
        proof {
            v@.lemma_push_to_set_commute(c);
        }
        v.push(c);
    } else {
        assert(v@.to_set() =~= v@.to_set().insert(c));
    }
}

/// Adds to `v` each cell of the grid that is `(x, y)` or one of its neighbours.
fn insert_block(v: &mut Vec<(i32, i32)>, x: i32, y: i32)
    ensures
        final(v)@.to_set() == old(v)@.to_set().union(
            Set::new(|c: (i32, i32)| near(c, (x, y))),
        ),
        old(v)@.no_duplicates() ==> final(v)@.no_duplicates(),
{
    let ghost start = v@.to_set();
    let ghost distinct = v@.no_duplicates();
    let mut dx: i64 = -1;
    while dx <= 1
        invariant
            -1 <= dx <= 2,
            distinct ==> v@.no_duplicates(),
            v@.to_set() == start.union(
                Set::new(|c: (i32, i32)| near(c, (x, y)) && c.0 - x < dx),
            ),
        decreases 2 - dx,
    {
        let mut dy: i64 = -1;
        while dy <= 1
            invariant
                -1 <= dx <= 1,
                -1 <= dy <= 2,
                distinct ==> v@.no_duplicates(),
                v@.to_set() == start.union(
                    Set::new(
                        |c: (i32, i32)|
                            near(c, (x, y)) && (c.0 - x < dx || (c.0 - x == dx && c.1 - y < dy)),
                    ),
                ),
            decreases 2 - dy,
        {
            let nx = x as i64 + dx;
            let ny = y as i64 + dy;
            if i32::MIN as i64 <= nx && nx <= i32::MAX as i64 && i32::MIN as i64 <= ny && ny
                <= i32::MAX as i64 {
                insert_cell(v, (nx as i32, ny as i32));
            }
            assert(v@.to_set() =~= start.union(
                Set::new(
                    |c: (i32, i32)|
                        near(c, (x, y)) && (c.0 - x < dx || (c.0 - x == dx && c.1 - y < dy + 1)),
                ),
            ));
            dy += 1;
        }
        assert(v@.to_set() =~= start.union(
            Set::new(|c: (i32, i32)| near(c, (x, y)) && c.0 - x < dx + 1),
        ));
        dx += 1;
    }
    assert(v@.to_set() =~= start.union(Set::new(|c: (i32, i32)| near(c, (x, y)))));
}

/// A board of living cells on the grid of `i32` coordinates; every cell
/// off the board is dead.
pub struct GameOfLife {
    pub living_cells: Vec<(i32, i32)>,
}

impl View for GameOfLife {
    type V = Set<(i32, i32)>;

    open spec fn view(&self) -> Set<(i32, i32)> {
        self.living_cells@.to_set()
    }
}

impl GameOfLife {
    /// No cell is listed twice.
    pub open spec fn wf(&self) -> bool {
        self.living_cells@.no_duplicates()
    }

    /// An empty board.
    pub fn new() -> (r: Self)
        ensures
            r@ == Set::<(i32, i32)>::empty(),
            r.wf(),
    {
        let r = GameOfLife { living_cells: Vec::new() };
        assert(r@ =~= Set::<(i32, i32)>::empty());
        r
    }

    /// A board holding exactly the cells listed in `cells`.
    pub fn from_cells(cells: &Vec<(i32, i32)>) -> (r: Self)
        ensures
            r@ == cells@.to_set(),
            r.wf(),
    {
        let mut living_cells: Vec<(i32, i32)> = Vec::new();
        let mut i: usize = 0;
        while i < cells.len()
            invariant
                i <= cells.len(),
                living_cells@.no_duplicates(),
                living_cells@.to_set() == cells@.subrange(0, i as int).to_set(),
            decreases cells.len() - i,
        {
            insert_cell(&mut living_cells, cells[i]);
            proof {
                lemma_prefix_to_set(cells@, i as int);
            }
            i += 1;
        }
        assert(cells@.subrange(0, cells.len() as int) =~= cells@);
        GameOfLife { living_cells }
    }

    /// Makes `(x, y)` alive; adding a living cell changes nothing.
    pub fn add_cell(&mut self, x: i32, y: i32)
        ensures
            final(self)@ == old(self)@.insert((x, y)),
            old(self).wf() ==> final(self).wf(),
    {
        insert_cell(&mut self.living_cells, (x, y));
    }

    /// Whether `(x, y)` is alive.
    pub fn is_alive(&self, x: i32, y: i32) -> (r: bool)
        ensures
            r == self@.contains((x, y)),
    {
        holds_cell(&self.living_cells, (x, y))
    }

    /// Whether the cell at offset `(dx, dy)` from `(x, y)` is on the grid and alive.
    fn is_alive_at_offset(&self, x: i32, y: i32, dx: i64, dy: i64) -> (r: bool)
        requires
            -1 <= dx <= 1,
            -1 <= dy <= 1,
        ensures
            r == alive_at(self@, x + dx, y + dy),
    {
        let nx = x as i64 + dx;
        let ny = y as i64 + dy;
        if i32::MIN as i64 <= nx && nx <= i32::MAX as i64 && i32::MIN as i64 <= ny && ny
            <= i32::MAX as i64 {
            self.is_alive(nx as i32, ny as i32)
        } else {
            false
        }
    }

    /// Number of living cells among the eight around `(x, y)`.
    pub fn alive_neighbors_count(&self, x: i32, y: i32) -> (r: usize)
        ensures
            r == neighbor_count(self@, x as int, y as int),
            r <= 8,
    {
        let mut count: usize = 0;
        if self.is_alive_at_offset(x, y, -1, -1) {
            count += 1;
        }
        if self.is_alive_at_offset(x, y, -1, 0) {
            count += 1;
        }
        if self.is_alive_at_offset(x, y, -1, 1) {
            count += 1;
        }
        if self.is_alive_at_offset(x, y, 0, -1) {
            count += 1;
        }
        if self.is_alive_at_offset(x, y, 0, 1) {
            count += 1;
        }
        if self.is_alive_at_offset(x, y, 1, -1) {
            count += 1;
        }
        if self.is_alive_at_offset(x, y, 1, 0) {
            count += 1;
        }
        if self.is_alive_at_offset(x, y, 1, 1) {
            count += 1;
        }
        count
    }

    /// The living cells and their neighbours, each listed once: the only
    /// cells that can be alive in the next generation.
    pub fn candidate_cells(&self) -> (r: Vec<(i32, i32)>)
        ensures
            r@.to_set() == candidates(self@),
            r@.no_duplicates(),
    {
        let mut result: Vec<(i32, i32)> = Vec::new();
        let mut i: usize = 0;
        while i < self.living_cells.len()
            invariant
                i <= self.living_cells.len(),
                result@.no_duplicates(),
                result@.to_set() == candidates(self.living_cells@.subrange(0, i as int).to_set()),
            decreases self.living_cells.len() - i,
        {
            let (x, y) = self.living_cells[i];
            insert_block(&mut result, x, y);
            proof {
                let before = self.living_cells@.subrange(0, i as int).to_set();
                let after = self.living_cells@.subrange(0, i + 1).to_set();
                lemma_prefix_to_set(self.living_cells@, i as int);
                assert forall|c: (i32, i32)| #[trigger]
                    candidates(after).contains(c) implies result@.to_set().contains(c) by {
                    let d = choose|d: (i32, i32)| after.contains(d) && near(c, d);
                    if d != (x, y) {
                        assert(before.contains(d));
                    }
                }
                assert forall|c: (i32, i32)| #[trigger]
                    result@.to_set().contains(c) implies candidates(after).contains(c) by {
                    if candidates(before).contains(c) {
                        let d = choose|d: (i32, i32)| before.contains(d) && near(c, d);
                        assert(after.contains(d));
                    } else {
                        assert(after.contains((x, y)));
                    }
                }
                assert(result@.to_set() =~= candidates(after));
            }
            i += 1;
        }
        assert(self.living_cells@.subrange(0, self.living_cells.len() as int)
            =~= self.living_cells@);
        result
    }

    /// Replaces the board by its next generation.
    pub fn update(&mut self)
        ensures
            final(self)@ == next_generation(old(self)@),
            final(self).wf(),
    {
        let cands = self.candidate_cells();
        let mut next_state: Vec<(i32, i32)> = Vec::new();
        let mut i: usize = 0;
        while i < cands.len()
            invariant
                i <= cands.len(),
                cands@.to_set() == candidates(self@),
                next_state@.no_duplicates(),
                next_state@.to_set() == cands@.subrange(0, i as int).to_set().filter(
                    |c: (i32, i32)| lives_next(self@, c),
                ),
            decreases cands.len() - i,
        {
            let (x, y) = cands[i];
            let alive_neighbors = self.alive_neighbors_count(x, y);
            let alive = self.is_alive(x, y);
            if (alive && (alive_neighbors == 2 || alive_neighbors == 3)) || (!alive
                && alive_neighbors == 3) {
                insert_cell(&mut next_state, (x, y));
            }
            proof {
                lemma_prefix_to_set(cands@, i as int);
            }
            assert(next_state@.to_set() =~= cands@.subrange(0, i + 1).to_set().filter(
                |c: (i32, i32)| lives_next(self@, c),
            ));
            i += 1;
        }
        proof {
            assert(cands@.subrange(0, cands.len() as int) =~= cands@);
            assert forall|c: (i32, i32)| #[trigger]
                next_generation(self@).contains(c) implies next_state@.to_set().contains(c) by {
                lemma_lives_next_is_candidate(self@, c);
            }
            assert(next_state@.to_set() =~= next_generation(self@));
        }
        self.living_cells = next_state;
    }
}

} // verus!
