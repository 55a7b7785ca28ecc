//! The spatial hash grid: agents bucketed by the cell of their position.
use std::collections::HashMap;
use vstd::prelude::*;
use vstd::set_lib::lemma_len_subset;

use crate::geometry::Point;
use crate::grid_info::{cells_for_extent, cells_to_cover, CellCoord, CellId, GridInfo};
use crate::query::GridQuery;

verus! {

broadcast use vstd::std_specs::hash::group_hash_axioms;

/// Why a grid could not be built or resized.
#[derive(Clone, Copy, Debug, PartialEq, Eq, Structural)]
pub enum GridError {
    /// The cell size is zero.
    ZeroCellSize,
    /// The world has no extent in one direction.
    EmptyWorld,
}

/// Agents of the bucket keyed `c`, as a set.
pub open spec fn members(m: Map<CellId, Vec<u64>>, c: CellId) -> Set<u64> {
    if m.contains_key(c) {
        m[c]@.to_set()
    } else {
        Set::empty()
    }
}

/// No bucket lists an agent twice.
pub open spec fn buckets_distinct(m: Map<CellId, Vec<u64>>) -> bool {
    forall|c: CellId| #[trigger] m.contains_key(c) ==> m[c]@.no_duplicates()
}

/// Bucket key of a position under `info`.
pub open spec fn key_of(info: GridInfo, p: Point) -> CellId {
    info.spec_cell_id(p) as CellId
}

proof fn lemma_remove_to_set(s: Seq<u64>, i: int)
    requires
        s.no_duplicates(),
        0 <= i < s.len(),
    ensures
        s.remove(i).to_set() == s.to_set().remove(s[i]),
        s.remove(i).no_duplicates(),
{
    let t = s.remove(i);
    assert forall|x: u64| t.to_set().contains(x) <==> s.to_set().remove(s[i]).contains(x) by {
        if t.contains(x) {
            let j = choose|j: int| 0 <= j < t.len() && t[j] == x;
            if j < i {
                assert(s[j] == x);
            } else {
                assert(s[j + 1] == x);
            }
        }
        if s.contains(x) && x != s[i] {
            let j = choose|j: int| 0 <= j < s.len() && s[j] == x;
            if j < i {
                assert(t[j] == x);
            } else {
                assert(t[j - 1] == x);
            }
        }
    }
    assert(t.to_set() =~= s.to_set().remove(s[i]));
}

proof fn lemma_push_to_set(s: Seq<u64>, a: u64)
    requires
        s.no_duplicates(),
        !s.contains(a),
    ensures
        s.push(a).to_set() == s.to_set().insert(a),
        s.push(a).no_duplicates(),
{
    let t = s.push(a);
    assert forall|x: u64| t.to_set().contains(x) <==> s.to_set().insert(a).contains(x) by {
        if t.contains(x) {
            let j = choose|j: int| 0 <= j < t.len() && t[j] == x;
            if j < s.len() {
                assert(s[j] == x);
            }
        }
        if s.contains(x) {
            let j = choose|j: int| 0 <= j < s.len() && s[j] == x;
            assert(t[j] == x);
        }
        if x == a {
            assert(t[s.len() as int] == a);
        }
    }
    assert(t.to_set() =~= s.to_set().insert(a));
}

proof fn lemma_push_contains<T>(s: Seq<T>, a: T)
    ensures
        forall|x: T| #[trigger] s.push(a).contains(x) <==> (s.contains(x) || x == a),
{
    assert forall|x: T| #[trigger] s.push(a).contains(x) <==> (s.contains(x) || x == a) by {
        if s.push(a).contains(x) {
            let j = choose|j: int| 0 <= j < s.push(a).len() && s.push(a)[j] == x;
            if j < s.len() {
                assert(s[j] == x);
            }
        }
        if s.contains(x) {
            let j = choose|j: int| 0 <= j < s.len() && s[j] == x;
            assert(s.push(a)[j] == x);
        }
        if x == a {
            assert(s.push(a)[s.len() as int] == a);
        }
    }
}

/// Position of `agent` in `v`, if it is there.
fn find_agent(v: &Vec<u64>, agent: u64) -> (r: Option<usize>)
    ensures
        r matches Some(i) ==> i < v@.len() && v@[i as int] == agent,
        r is None ==> !v@.contains(agent),
{
    let mut i: usize = 0;
    while i < v.len()
        invariant
            i <= v@.len(),
            forall|j: int| 0 <= j < i ==> v@[j] != agent,
        decreases v@.len() - i,
    {
        if v[i] == agent {
            return Some(i);
        }
        i = i + 1;
    }
    None
}

/// Drops `agent` from the bucket keyed `cell`; an empty bucket stays.
fn bucket_remove(buckets: &mut HashMap<CellId, Vec<u64>>, cell: CellId, agent: u64)
    requires
        buckets_distinct(old(buckets)@),
    ensures
        buckets_distinct(final(buckets)@),
        forall|c: CellId|
            #![trigger members(final(buckets)@, c)]
            members(final(buckets)@, c) == if c == cell {
                members(old(buckets)@, c).remove(agent)
            } else {
                members(old(buckets)@, c)
            },
{
    match buckets.remove(&cell) {
        Some(mut v) => {
            let ghost before = v@;
            match find_agent(&v, agent) {
                Some(i) => {
                    proof {
                        lemma_remove_to_set(before, i as int);
                    }
                    v.remove(i);
                },
                None => {
                    assert(v@.to_set() =~= before.to_set().remove(agent));
                },
            }
            buckets.insert(cell, v);
        },
        None => {
            assert forall|c: CellId| #[trigger]
                members(buckets@, c) == if c == cell {
                    members(old(buckets)@, c).remove(agent)
                } else {
                    members(old(buckets)@, c)
                } by {
                if c == cell {
                    assert(members(old(buckets)@, c).remove(agent) =~= Set::empty());
                }
            }
        },
    }
}

/// Adds `agent` to the bucket keyed `cell`, making the bucket if needed.
fn bucket_add(buckets: &mut HashMap<CellId, Vec<u64>>, cell: CellId, agent: u64)
    requires
        buckets_distinct(old(buckets)@),
    ensures
        buckets_distinct(final(buckets)@),
        forall|c: CellId|
            #![trigger members(final(buckets)@, c)]
            members(final(buckets)@, c) == if c == cell {
                members(old(buckets)@, c).insert(agent)
            } else {
                members(old(buckets)@, c)
            },
{
    let mut v = match buckets.remove(&cell) {
        Some(v) => v,
        None => {
            assert(Seq::<u64>::empty().to_set() =~= Set::empty());
            Vec::new()
        },
    };
    let ghost before = v@;
    match find_agent(&v, agent) {
        Some(i) => {
            assert(before.to_set().insert(agent) =~= before.to_set());
        },
        None => {
            proof {
                lemma_push_to_set(before, agent);
            }
            v.push(agent);
        },
    }
    buckets.insert(cell, v);
}

/// The agents of a query result, in order.
pub open spec fn agents_of(r: Seq<(u64, Point)>) -> Seq<u64> {
    r.map_values(|e: (u64, Point)| e.0)
}

/// `r` is an answer to `q` over the positions `m` on a grid laid out by
/// `info`: it lists every agent whose position lies inside the world and in
/// `q`, with that position, exactly once, and nothing else.
pub open spec fn is_query_result<Q: GridQuery>(
    m: Map<u64, Point>,
    info: GridInfo,
    q: Q,
    r: Seq<(u64, Point)>,
) -> bool {
    &&& forall|i: int|
        0 <= i < r.len() ==> m.contains_key(#[trigger] r[i].0) && m[r[i].0] == r[i].1
            && q.spec_in_range(r[i].1)
    &&& agents_of(r).no_duplicates()
    &&& forall|a: u64| #[trigger]
        agents_of(r).contains(a) <==> (m.contains_key(a) && q.spec_in_range(m[a]) && info.in_world(
            m[a],
        ))
}

/// Agent `a` is in range of `q` and its cell comes before `cur` on the walk
/// (every cell does once the walk is over).
spec fn walked_past<Q: GridQuery>(m: Map<u64, Point>, info: GridInfo, q: Q, a: u64, cur: Option<CellCoord>) -> bool {
    &&& m.contains_key(a)
    &&& q.spec_in_range(m[a])
    &&& info.in_world(m[a])
    &&& (cur matches Some(c) ==> q.walk_index(info, info.spec_col(m[a].x as int), info.spec_col(m[a].y as int))
        < q.walk_index(info, c.col as int, c.row as int))
}

/// Agent `a` is in range of `q` and its position lies in cell `c`.
spec fn in_cell<Q: GridQuery>(m: Map<u64, Point>, info: GridInfo, q: Q, a: u64, c: CellCoord) -> bool {
    &&& m.contains_key(a)
    &&& q.spec_in_range(m[a])
    &&& info.in_world(m[a])
    &&& info.spec_col(m[a].x as int) == c.col
    &&& info.spec_col(m[a].y as int) == c.row
}

/// Grid information after each of `events` (world sizes) in turn; an empty
/// world leaves the dimensions as they were.
pub open spec fn info_after_resizes(info: GridInfo, events: Seq<(u32, u32)>) -> GridInfo
    decreases events.len(),
{
    if events.len() == 0 {
        info
    } else {
        let prev = info_after_resizes(info, events.drop_last());
        let (w, h) = events.last();
        if w == 0 || h == 0 {
            prev
        } else {
            GridInfo {
                cell_size: prev.cell_size,
                width: cells_to_cover(w as int, prev.cell_size as int) as u32,
                height: cells_to_cover(h as int, prev.cell_size as int) as u32,
            }
        }
    }
}

/// Once an agent is removed, no answer to any query over the remaining
/// positions reports it.
pub proof fn lemma_removed_agent_not_reported<Q: GridQuery>(
    m: Map<u64, Point>,
    agent: u64,
    info: GridInfo,
    q: Q,
    r: Seq<(u64, Point)>,
)
    requires
        is_query_result(m.remove(agent), info, q, r),
    ensures
        !agents_of(r).contains(agent),
{
}

/// An answer depends on the positions and the query alone, not on how the
/// agents are spread over buckets: two answers report the same agents, with
/// the same positions, and as many.
pub proof fn lemma_query_result_determined<Q: GridQuery>(
    m: Map<u64, Point>,
    info: GridInfo,
    q: Q,
    r1: Seq<(u64, Point)>,
    r2: Seq<(u64, Point)>,
)
    requires
        is_query_result(m, info, q, r1),
        is_query_result(m, info, q, r2),
    ensures
        agents_of(r1).to_set() == agents_of(r2).to_set(),
        r1.len() == r2.len(),
{
    assert(agents_of(r1).to_set() =~= agents_of(r2).to_set());
    agents_of(r1).unique_seq_to_set();
    agents_of(r2).unique_seq_to_set();
}

/// A uniform spatial hash grid over agents identified by `u64` handles.
pub struct Grid {
    grid_info: GridInfo,
    positions: HashMap<u64, Point>,
    agents: Vec<u64>,
    hash_grid: HashMap<CellId, Vec<u64>>,
}

impl View for Grid {
    type V = Map<u64, Point>;

    /// The last reported position of each indexed agent.
    closed spec fn view(&self) -> Map<u64, Point> {
        self.positions@
    }
}

impl Grid {
    /// Cell size and dimensions in use.
    pub closed spec fn info(&self) -> GridInfo {
        self.grid_info
    }

    /// The agents that the bucket keyed `c` holds.
    pub closed spec fn bucket(&self, c: CellId) -> Set<u64> {
        members(self.hash_grid@, c)
    }

    /// Well-formed: valid addressing, and each agent sits exactly in the
    /// bucket of its position's cell, once.
    pub closed spec fn wf(&self) -> bool {
        &&& self.grid_info.wf()
        &&& self.agents@.no_duplicates()
        &&& forall|a: u64| #[trigger] self.agents@.contains(a) <==> self.positions@.contains_key(a)
        &&& buckets_distinct(self.hash_grid@)
        &&& forall|c: CellId, a: u64| #[trigger]
            members(self.hash_grid@, c).contains(a) <==> (self.positions@.contains_key(a)
                && key_of(self.grid_info, self.positions@[a]) == c)
    }

    /// In a well-formed grid the bucket keyed `c` holds exactly the agents
    /// whose position lies in a cell with identifier `c`.
    pub proof fn lemma_bucket_contents(&self, c: CellId)
        requires
            self.wf(),
        ensures
            self.info().wf(),
            self@.dom().finite(),
            self.bucket(c) == Set::new(
                |a: u64| self@.contains_key(a) && key_of(self.info(), self@[a]) == c,
            ),
    {
        assert(self.bucket(c) =~= Set::new(
            |a: u64| self@.contains_key(a) && key_of(self.info(), self@[a]) == c,
        ));
    }

    /// A grid of `ceil(world / cell_size)` cells in each direction, with no
    /// agents. A zero cell size or an empty world is refused.
    pub fn new(world_width: u32, world_height: u32, cell_size: u32) -> (r: Result<Grid, GridError>)
        ensures
            r is Ok <==> (cell_size > 0 && world_width > 0 && world_height > 0),
            cell_size == 0 <==> r == Err::<Grid, GridError>(GridError::ZeroCellSize),
            (cell_size > 0 && (world_width == 0 || world_height == 0)) <==> r == Err::<
                Grid,
                GridError,
            >(GridError::EmptyWorld),
            r matches Ok(g) ==> {
                &&& g.wf()
                &&& g@ == Map::<u64, Point>::empty()
                &&& g.info().cell_size == cell_size
                &&& g.info().width as int == cells_to_cover(world_width as int, cell_size as int)
                &&& g.info().height as int == cells_to_cover(world_height as int, cell_size as int)
            },
    {
        if cell_size == 0 {
            return Err(GridError::ZeroCellSize);
        }
        if world_width == 0 || world_height == 0 {
            return Err(GridError::EmptyWorld);
        }
        let width = cells_for_extent(world_width, cell_size);
        let height = cells_for_extent(world_height, cell_size);
        let g = Grid {
            grid_info: GridInfo::new(cell_size, width, height),
            positions: HashMap::new(),
            agents: Vec::new(),
            hash_grid: HashMap::new(),
        };
        assert(g.agents@.to_set() =~= Set::empty());
        Ok(g)
    }
    /// Cell size and dimensions in use.
    pub fn grid_info(&self) -> (r: GridInfo)
        ensures
            r == self.info(),
    {
        self.grid_info
    }

    /// Bucket key of `position` in this grid.
    fn key(&self, position: Point) -> (r: CellId)
        requires
            self.grid_info.wf(),
        ensures
            r == key_of(self.grid_info, position),
    {
        self.grid_info.get_grid_id(position)
    }

    /// Adds an agent that is not yet listed to the list of indexed agents.
    fn record_agent(&mut self, agent: u64)
        requires
            old(self).agents@.no_duplicates(),
            !old(self).agents@.contains(agent),
        ensures
            final(self).agents@.no_duplicates(),
            forall|a: u64| #[trigger]
                final(self).agents@.contains(a) <==> (old(self).agents@.contains(a) || a == agent),
            final(self).positions == old(self).positions,
            final(self).hash_grid == old(self).hash_grid,
            final(self).grid_info == old(self).grid_info,
    {
        proof {
            lemma_push_to_set(self.agents@, agent);
        }
        let ghost before = self.agents@;
        self.agents.push(agent);
        assert forall|a: u64| #[trigger]
            self.agents@.contains(a) <==> (before.contains(a) || a == agent) by {
            assert(self.agents@.to_set().contains(a) == self.agents@.contains(a));
            assert(before.to_set().contains(a) == before.contains(a));
        }
    }

    /// Drops `agent` from the list of indexed agents.
    fn forget_agent(&mut self, agent: u64)
        requires
            old(self).agents@.no_duplicates(),
        ensures
            final(self).agents@.no_duplicates(),
            forall|a: u64| #[trigger]
                final(self).agents@.contains(a) <==> (old(self).agents@.contains(a) && a != agent),
            final(self).positions == old(self).positions,
            final(self).hash_grid == old(self).hash_grid,
            final(self).grid_info == old(self).grid_info,
    {
        match find_agent(&self.agents, agent) {
            Some(i) => {
                proof {
                    lemma_remove_to_set(self.agents@, i as int);
                }
                let ghost before = self.agents@;
                self.agents.remove(i);
                assert forall|a: u64| #[trigger]
                    self.agents@.contains(a) <==> (before.contains(a) && a != agent) by {
                    assert(self.agents@.to_set().contains(a) == self.agents@.contains(a));
                    assert(before.to_set().contains(a) == before.contains(a));
                }
            },
            None => {},
        }
    }

    /// Places `agent` at `position`. An agent that is already indexed is
    /// moved: it leaves the bucket of its former position.
    pub fn insert(&mut self, agent: u64, position: Point)
        requires
            old(self).wf(),
        ensures
            final(self).wf(),
            final(self).info() == old(self).info(),
            final(self)@ == old(self)@.insert(agent, position),
    {
        let new_id = self.key(position);
        match self.positions.get(&agent) {
            Some(p) => {
                let old_id = self.key(*p);
                bucket_remove(&mut self.hash_grid, old_id, agent);
            },
            None => {
                self.record_agent(agent);
            },
        }
        self.positions.insert(agent, position);
        bucket_add(&mut self.hash_grid, new_id, agent);
    }

    /// Takes `agent` out of the grid; an absent agent is left alone.
    pub fn remove(&mut self, agent: u64)
        requires
            old(self).wf(),
        ensures
            final(self).wf(),
            final(self).info() == old(self).info(),
            final(self)@ == old(self)@.remove(agent),
            forall|c: CellId| !(#[trigger] final(self).bucket(c)).contains(agent),
    {
        match self.positions.remove(&agent) {
            Some(p) => {
                let id = self.key(p);
                bucket_remove(&mut self.hash_grid, id, agent);
                self.forget_agent(agent);
            },
            None => {
                assert(self.positions@ =~= old(self).positions@.remove(agent));
            },
        }
    }

    /// Reports that `agent` moved from `previous_position` to `new_position`.
    /// When the two cells differ the agent leaves the old bucket; the stored
    /// position becomes `new_position` either way. An agent not yet indexed
    /// is placed. The caller keeps `previous_position` in the cell of the
    /// agent's last reported position.
    pub fn update(&mut self, agent: u64, previous_position: Point, new_position: Point)
        requires
            old(self).wf(),
            old(self)@.contains_key(agent) ==> key_of(old(self).info(), old(self)@[agent])
                == key_of(old(self).info(), previous_position),
        ensures
            final(self).wf(),
            final(self).info() == old(self).info(),
            final(self)@ == old(self)@.insert(agent, new_position),
            key_of(old(self).info(), previous_position) != key_of(old(self).info(), new_position)
                ==> {
                &&& !final(self).bucket(key_of(old(self).info(), previous_position)).contains(agent)
                &&& final(self).bucket(key_of(old(self).info(), new_position)).contains(agent)
                &&& final(self)@[agent] == new_position
            },
            old(self)@.contains_key(agent) && old(self)@[agent] == previous_position
                && previous_position == new_position ==> {
                &&& final(self)@ == old(self)@
                &&& forall|c: CellId| #[trigger] final(self).bucket(c) == old(self).bucket(c)
            },
    {
        let previous_id = self.key(previous_position);
        let new_id = self.key(new_position);
        let known = self.positions.contains_key(&agent);
        if !known {
            self.record_agent(agent);
        }
        if previous_id != new_id {
            bucket_remove(&mut self.hash_grid, previous_id, agent);
            bucket_add(&mut self.hash_grid, new_id, agent);
        } else if !known {
            bucket_add(&mut self.hash_grid, new_id, agent);
        }
        // Within one cell the agent keeps its bucket; only the position changes.
        self.positions.insert(agent, new_position);
        proof {
            assert forall|c: CellId, a: u64| #[trigger] members(self.hash_grid@, c).contains(a) <==> (
                self.positions@.contains_key(a) && key_of(self.grid_info, self.positions@[a]) == c) by {
                if a == agent && known && previous_id == new_id {
                    assert(members(old(self).hash_grid@, new_id).contains(agent));
                }
            }
            if old(self)@.contains_key(agent) && old(self)@[agent] == previous_position
                && previous_position == new_position {
                assert(self@ =~= old(self)@);
                assert forall|c: CellId| #[trigger] self.bucket(c) == old(self).bucket(c) by {
                    assert(self.bucket(c) =~= old(self).bucket(c));
                }
            }
        }
    }

    /// Empties every bucket.
    pub fn clear(&mut self)
        requires
            old(self).wf(),
        ensures
            final(self).wf(),
            final(self).info() == old(self).info(),
            final(self)@ == Map::<u64, Point>::empty(),
    {
        self.positions.clear();
        self.hash_grid.clear();
        self.agents = Vec::new();
        assert(self.positions@ =~= Map::<u64, Point>::empty());
        assert(self.hash_grid@ =~= Map::<CellId, Vec<u64>>::empty());
    }

    /// The last reported position of `agent`.
    pub fn position_of(&self, agent: u64) -> (r: Option<Point>)
        requires
            self.wf(),
        ensures
            r == (if self@.contains_key(agent) { Some(self@[agent]) } else { None::<Point> }),
    {
        match self.positions.get(&agent) {
            Some(p) => Some(*p),
            None => None,
        }
    }

    /// Number of indexed agents.
    pub fn len(&self) -> (r: usize)
        requires
            self.wf(),
        ensures
            r == self@.len(),
    {
        self.positions.len()
    }

    /// The agents of the bucket keyed `cell`, each once.
    pub fn bucket_agents(&self, cell: CellId) -> (r: Vec<u64>)
        requires
            self.wf(),
        ensures
            r@.no_duplicates(),
            r@.to_set() == self.bucket(cell),
    {
        match self.hash_grid.get(&cell) {
            Some(v) => v.clone(),
            None => {
                assert(Seq::<u64>::empty().to_set() =~= Set::empty());
                Vec::new()
            },
        }
    }
    /// A lazy walk over the agents whose position `query` contains. It reads
    /// the grid as it stands when each item is pulled.
    pub fn query<Q: GridQuery>(&self, query: Q) -> (r: NeighborIterator<'_, Q>)
        requires
            self.wf(),
        ensures
            r.wf(),
            r.grid_view() == self@,
            r.grid_info() == self.info(),
            r.spec_query() == query,
            self@.dom().finite(),
            r.produced() == Seq::<u64>::empty(),
    {
        let first = query.first_cell(self.grid_info);
        let ghost q = query;
        let it = NeighborIterator {
            grid: self,
            query,
            info: self.grid_info,
            current_cell: first,
            cursor: 0,
            produced: Ghost(Seq::empty()),
        };
        proof {
            assert forall|a: u64| #[trigger] it.produced@.contains(a) <==> it.seen(a) by {
                let m = self.positions@;
                let info = self.grid_info;
                if m.contains_key(a) && q.spec_in_range(m[a]) && info.in_world(m[a]) {
                    let (ca, ra) = (info.spec_col(m[a].x as int), info.spec_col(m[a].y as int));
                    q.lemma_in_range_on_walk(info, m[a]);
                    q.lemma_walk_index(info, ca, ra, ca, ra);
                }
            }
            if let Some(c) = first {
                q.lemma_walk_index(self.grid_info, c.col as int, c.row as int, c.col as int, c.row as int);
            }
        }
        it
    }

    /// The agents whose position `query` contains, each once with its
    /// position.
    pub fn query_all<Q: GridQuery>(&self, query: Q) -> (r: Vec<(u64, Point)>)
        requires
            self.wf(),
        ensures
            is_query_result(self@, self.info(), query, r@),
    {
        let ghost q = query;
        let ghost info = self.info();
        let ghost hits = Set::new(
            |a: u64| self@.contains_key(a) && q.spec_in_range(self@[a]) && info.in_world(self@[a]),
        );
        proof {
            lemma_len_subset(hits, self@.dom());
        }
        let mut it = self.query(query);
        let mut res: Vec<(u64, Point)> = Vec::new();
        loop
            invariant_except_break
                it.wf(),
                it.grid_view() == self@,
                it.grid_info() == info,
                it.spec_query() == q,
                agents_of(res@) == it.produced(),
                hits.finite(),
                hits == Set::new(
                    |a: u64| self@.contains_key(a) && q.spec_in_range(self@[a]) && info.in_world(self@[a]),
                ),
                forall|i: int|
                    0 <= i < res@.len() ==> self@.contains_key(#[trigger] res@[i].0) && self@[res@[i].0]
                        == res@[i].1 && q.spec_in_range(res@[i].1),
            ensures
                is_query_result(self@, info, q, res@),
            decreases hits.len() - it.produced().len(),
        {
            let ghost before = res@;
            match it.next() {
                Some(e) => {
                    res.push(e);
                    proof {
                        assert(agents_of(res@) =~= agents_of(before).push(e.0));
                        assert forall|i: int| 0 <= i < res@.len() implies self@.contains_key(#[trigger] res@[i].0)
                            && self@[res@[i].0] == res@[i].1 && q.spec_in_range(res@[i].1) by {
                            if i < before.len() {
                                assert(res@[i] == before[i]);
                            }
                        }
                        it.produced().unique_seq_to_set();
                        assert(it.produced().to_set().subset_of(hits));
                        lemma_len_subset(it.produced().to_set(), hits);
                    }
                },
                None => {
                    break;
                },
            }
        }
        res
    }

    /// Recomputes the dimensions for a world of `world_width` by
    /// `world_height` units (the cell size stays) and files every agent anew
    /// under the new addressing. An empty world is refused and changes nothing.
    pub fn update_grid_dimensions(&mut self, world_width: u32, world_height: u32) -> (r: Result<(), GridError>)
        requires
            old(self).wf(),
        ensures
            final(self).wf(),
            final(self)@ == old(self)@,
            (world_width == 0 || world_height == 0) <==> r == Err::<(), GridError>(GridError::EmptyWorld),
            r is Ok || r == Err::<(), GridError>(GridError::EmptyWorld),
            r is Ok ==> final(self).info() == (GridInfo {
                cell_size: old(self).info().cell_size,
                width: cells_to_cover(world_width as int, old(self).info().cell_size as int) as u32,
                height: cells_to_cover(world_height as int, old(self).info().cell_size as int) as u32,
            }),
            r is Err ==> final(self).info() == old(self).info(),
    {
        if world_width == 0 || world_height == 0 {
            return Err(GridError::EmptyWorld);
        }
        let width = cells_for_extent(world_width, self.grid_info.cell_size);
        let height = cells_for_extent(world_height, self.grid_info.cell_size);
        self.grid_info.update_grid_dimensions(width, height);
        let mut buckets: HashMap<CellId, Vec<u64>> = HashMap::new();
        let mut i: usize = 0;
        proof {
            assert forall|c: CellId, a: u64| #[trigger] members(buckets@, c).contains(a) <==> (self.agents@.take(0).contains(a)
                && self.positions@.contains_key(a) && key_of(self.grid_info, self.positions@[a]) == c) by {
                assert(self.agents@.take(0) =~= Seq::<u64>::empty());
            }
        }
        while i < self.agents.len()
            invariant
                self.grid_info.wf(),
                self.agents@.no_duplicates(),
                forall|a: u64| #[trigger] self.agents@.contains(a) <==> self.positions@.contains_key(a),
                self.positions@ == old(self).positions@,
                i <= self.agents@.len(),
                buckets_distinct(buckets@),
                forall|c: CellId, a: u64| #[trigger]
                    members(buckets@, c).contains(a) <==> (self.agents@.take(i as int).contains(a)
                        && self.positions@.contains_key(a) && key_of(self.grid_info, self.positions@[a]) == c),
            decreases self.agents@.len() - i,
        {
            let a = self.agents[i];
            proof {
                assert(self.agents@.take(i as int + 1) =~= self.agents@.take(i as int).push(a));
                lemma_push_contains(self.agents@.take(i as int), a);
                assert(self.agents@.contains(a));
            }
            match self.positions.get(&a) {
                Some(p) => {
                    let id = self.key(*p);
                    bucket_add(&mut buckets, id, a);
                },
                None => {},
            }
            i = i + 1;
        }
        proof {
            assert(self.agents@.take(self.agents@.len() as int) =~= self.agents@);
        }
        self.hash_grid = buckets;
        Ok(())
    }
}

/// Applies each world size of `events` in turn, as a window-resize handler
/// does; an empty world is skipped.
pub fn update_grid_dimensions_on_window_resize(spatial_grid: &mut Grid, events: &Vec<(u32, u32)>)
    requires
        old(spatial_grid).wf(),
    ensures
        final(spatial_grid).wf(),
        final(spatial_grid)@ == old(spatial_grid)@,
        final(spatial_grid).info() == info_after_resizes(old(spatial_grid).info(), events@),
{
    let mut i: usize = 0;
    while i < events.len()
        invariant
            spatial_grid.wf(),
            spatial_grid@ == old(spatial_grid)@,
            i <= events@.len(),
            spatial_grid.info() == info_after_resizes(old(spatial_grid).info(), events@.take(i as int)),
        decreases events@.len() - i,
    {
        let (w, h) = events[i];
        proof {
            assert(events@.take(i as int + 1).drop_last() =~= events@.take(i as int));
        }
        let _ = spatial_grid.update_grid_dimensions(w, h);
        i = i + 1;
    }
    proof {
        assert(events@.take(events@.len() as int) =~= events@);
    }
}

/// Agents of the bucket keyed `c`, in stored order; empty when there is none.
spec fn bucket_seq(m: Map<CellId, Vec<u64>>, c: CellId) -> Seq<u64> {
    if m.contains_key(c) {
        m[c]@
    } else {
        Seq::empty()
    }
}

/// A lazy range query: the cell being scanned and how far into its bucket.
/// Pulling an item resumes the scan; an exhausted bucket moves the walk to the
/// next cell, and buckets that are absent are skipped.
pub struct NeighborIterator<'a, Q: GridQuery> {
    grid: &'a Grid,
    query: Q,
    info: GridInfo,
    current_cell: Option<CellCoord>,
    cursor: usize,
    produced: Ghost<Seq<u64>>,
}

impl<'a, Q: GridQuery> NeighborIterator<'a, Q> {
    /// Positions of the grid being walked.
    pub closed spec fn grid_view(&self) -> Map<u64, Point> {
        self.grid@
    }

    /// Layout of the grid being walked.
    pub closed spec fn grid_info(&self) -> GridInfo {
        self.info
    }

    /// The query being answered.
    pub closed spec fn spec_query(&self) -> Q {
        self.query
    }

    /// The agents handed out so far, in order.
    pub closed spec fn produced(&self) -> Seq<u64> {
        self.produced@
    }

    /// Agent `a` lies in range and the walk has passed it.
    spec fn seen(&self, a: u64) -> bool {
        ||| walked_past(self.grid.positions@, self.info, self.query, a, self.current_cell)
        ||| (self.current_cell matches Some(c) && in_cell(self.grid.positions@, self.info, self.query, a, c)
            && bucket_seq(self.grid.hash_grid@, self.info.spec_id_of_coord(c.col as int, c.row as int) as CellId)
                .take(self.cursor as int).contains(a))
    }

    /// Ranks of the walk's progress, largest first.
    spec fn rank_walk(&self) -> int {
        match self.current_cell {
            Some(c) => self.query.walk_len(self.info) - self.query.walk_index(self.info, c.col as int, c.row as int),
            None => 0,
        }
    }

    spec fn rank_cursor(&self) -> int {
        match self.current_cell {
            Some(c) => bucket_seq(
                self.grid.hash_grid@,
                self.info.spec_id_of_coord(c.col as int, c.row as int) as CellId,
            ).len() - self.cursor,
            None => 0,
        }
    }

    /// The walk's state is consistent: the agents handed out are exactly
    /// those in range that it has passed, each once.
    pub closed spec fn wf(&self) -> bool {
        &&& self.grid.wf()
        &&& self.info == self.grid.grid_info
        &&& (self.current_cell matches Some(c) ==> {
            &&& self.query.on_walk(self.info, c.col as int, c.row as int)
            &&& self.info.in_grid(c.col as int, c.row as int)
            &&& 0 <= self.query.walk_index(self.info, c.col as int, c.row as int) < self.query.walk_len(self.info)
            &&& self.cursor <= bucket_seq(
                self.grid.hash_grid@,
                self.info.spec_id_of_coord(c.col as int, c.row as int) as CellId,
            ).len()
        })
        &&& self.produced@.no_duplicates()
        &&& forall|a: u64| #[trigger] self.produced@.contains(a) <==> self.seen(a)
    }

    /// The next agent in range, with its position; `None` once every agent in
    /// range has been handed out.
    pub fn next(&mut self) -> (r: Option<(u64, Point)>)
        requires
            old(self).wf(),
        ensures
            final(self).wf(),
            final(self).grid_view() == old(self).grid_view(),
            final(self).grid_info() == old(self).grid_info(),
            final(self).spec_query() == old(self).spec_query(),
            forall|a: u64| #[trigger]
                final(self).produced().contains(a) ==> final(self).grid_view().contains_key(a)
                    && final(self).spec_query().spec_in_range(final(self).grid_view()[a])
                    && final(self).grid_info().in_world(final(self).grid_view()[a]),
            match r {
                Some(e) => {
                    &&& old(self).grid_view().contains_key(e.0)
                    &&& old(self).grid_view()[e.0] == e.1
                    &&& old(self).spec_query().spec_in_range(e.1)
                    &&& !old(self).produced().contains(e.0)
                    &&& final(self).produced() == old(self).produced().push(e.0)
                },
                None => {
                    &&& final(self).produced() == old(self).produced()
                    &&& forall|a: u64|
                        old(self).grid_view().contains_key(a) && old(self).spec_query().spec_in_range(
                            old(self).grid_view()[a],
                        ) && old(self).grid_info().in_world(old(self).grid_view()[a])
                            ==> #[trigger] old(self).produced().contains(a)
                },
            },
    {
        let info = self.info;
        let ghost q = self.query;
        let ghost m = self.grid.positions@;
        let ghost start = self.produced@;
        loop
            invariant
                self.wf(),
                self.grid == old(self).grid,
                self.query == q,
                self.info == info,
                m == self.grid.positions@,
                self.produced@ == start,
                start == old(self).produced@,
                q == old(self).query,
                info == old(self).info,
                m == old(self).grid.positions@,
            decreases self.rank_walk(), self.rank_cursor(),
        {
            match self.current_cell {
                None => {
                    return None;
                },
                Some(c) => {
                    let id = info.id_of_coord(c);
                    let grid = self.grid;
                    let ghost before_cursor = self.cursor;
                    match grid.hash_grid.get(&id) {
                        Some(bucket) => {
                            if self.cursor < bucket.len() {
                                let a = bucket[self.cursor];
                                proof {
                                    assert(bucket@.take(self.cursor as int + 1) =~= bucket@.take(
                                        self.cursor as int,
                                    ).push(a));
                                    lemma_push_contains(bucket@.take(self.cursor as int), a);
                                    lemma_push_contains(start, a);
                                }
                                self.cursor = self.cursor + 1;
                                match grid.positions.get(&a) {
                                    Some(p) => {
                                        let p = *p;
                                        let pc = info.coord_of(p.x as i64, p.y as i64);
                                        if pc.col == c.col && pc.row == c.row && self.query.in_range(p) {
                                            proof {
                                                assert(!start.contains(a)) by {
                                                    if start.contains(a) {
                                                        let t = bucket@.take(before_cursor as int);
                                                        if t.contains(a) {
                                                            let j = choose|j: int| 0 <= j < t.len() && t[j] == a;
                                                            assert(bucket@[j] == bucket@[before_cursor as int]);
                                                        }
                                                    }
                                                }
                                                lemma_push_contains(start, a);
                                            }
                                            self.produced = Ghost(start.push(a));
                                            return Some((a, p));
                                        }
                                    },
                                    None => {},
                                }
                                continue;
                            }
                            proof {
                                assert(bucket@.take(bucket@.len() as int) =~= bucket@);
                                assert forall|a: u64| #[trigger] in_cell(m, info, q, a, c) implies bucket@.contains(a) by {
                                    assert(members(grid.hash_grid@, id).contains(a));
                                }
                            }
                        },
                        None => {
                            proof {
                                assert forall|a: u64| !(#[trigger] in_cell(m, info, q, a, c)) by {
                                    if in_cell(m, info, q, a, c) {
                                        assert(members(grid.hash_grid@, id).contains(a));
                                    }
                                }
                            }
                        },
                    }
                    let next = self.query.next_cell(c, info);
                    proof {
                        assert forall|a: u64| #[trigger]
                            walked_past(m, info, q, a, next) <==> (walked_past(m, info, q, a, Some(c))
                                || in_cell(m, info, q, a, c)) by {
                            if m.contains_key(a) && q.spec_in_range(m[a]) && info.in_world(m[a]) {
                                q.lemma_in_range_on_walk(info, m[a]);
                                q.lemma_walk_index(
                                    info,
                                    info.spec_col(m[a].x as int),
                                    info.spec_col(m[a].y as int),
                                    c.col as int,
                                    c.row as int,
                                );
                            }
                        }
                        if let Some(n) = next {
                            q.lemma_walk_index(info, n.col as int, n.row as int, n.col as int, n.row as int);
                        }
                    }
                    self.current_cell = next;
                    self.cursor = 0;
                    proof {
                        assert forall|a: u64| #[trigger] self.produced@.contains(a) <==> self.seen(a) by {
                            if let Some(n) = next {
                                assert(bucket_seq(grid.hash_grid@, info.spec_id_of_coord(n.col as int, n.row as int) as CellId).take(0) =~= Seq::<u64>::empty());
                            }
                        }
                    }
                },
            }
        }
    }
}

} // verus!
