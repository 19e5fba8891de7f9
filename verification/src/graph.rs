use vstd::prelude::*;
use std::collections::HashMap;
use crate::errors::BuildError;
use crate::geometry::{
    coord_ok, cost_from_distance, cost_seconds, dist_sq, planar_distance, sqrt_floor, Point,
    DIST_LIMIT,
};

verus! {

broadcast use vstd::std_specs::hash::group_hash_axioms;

/// A directed edge record: target internal index and travel cost in whole
/// seconds. Arcs are always created in symmetric pairs.
#[derive(Clone, Copy, PartialEq, Eq, Structural, Debug)]
pub struct Arc {
    pub index: usize,
    pub cost: u64,
}

/// The mathematical image of a [`RoadNetwork`].
#[verifier::ext_equal]
pub ghost struct NetModel {
    /// Every declared point, by external identifier.
    pub points: Map<i64, Point>,
    /// Internal index for each external identifier that has an arc.
    pub ids: Map<i64, usize>,
    /// Adjacency lists, addressed by internal index.
    pub adj: Seq<Seq<Arc>>,
}

/// `x` is an arc to index `v` with cost `c`.
pub open spec fn arc_matches(x: Arc, v: int, c: int) -> bool {
    x.index == v && x.cost == c
}

/// How many arcs to index `v` with cost `c` the list `s` holds.
pub open spec fn count_arcs(s: Seq<Arc>, v: int, c: int) -> int
    decreases s.len(),
{
    if s.len() == 0 {
        0
    } else {
        count_arcs(s.drop_last(), v, c) + if arc_matches(s.last(), v, c) {
            1int
        } else {
            0int
        }
    }
}

pub proof fn lemma_count_arcs_nonneg(s: Seq<Arc>, v: int, c: int)
    ensures
        count_arcs(s, v, c) >= 0,
    decreases s.len(),
{
    if s.len() > 0 {
        lemma_count_arcs_nonneg(s.drop_last(), v, c);
    }
}

pub proof fn lemma_count_arcs_push(s: Seq<Arc>, x: Arc, v: int, c: int)
    ensures
        count_arcs(s.push(x), v, c) == count_arcs(s, v, c) + if arc_matches(x, v, c) {
            1int
        } else {
            0int
        },
{
    assert(s.push(x).drop_last() =~= s);
    assert(s.push(x).last() == x);
}

/// A list whose arcs all point below `n` holds no arc to an index at or
/// beyond `n`.
pub proof fn lemma_count_arcs_zero(s: Seq<Arc>, n: int, v: int, c: int)
    requires
        forall|j: int| 0 <= j < s.len() ==> (#[trigger] s[j]).index < n,
        v >= n,
    ensures
        count_arcs(s, v, c) == 0,
    decreases s.len(),
{
    if s.len() > 0 {
        assert forall|j: int| 0 <= j < s.drop_last().len() implies (#[trigger] s.drop_last()[j]).index < n by {
            assert(s.drop_last()[j] == s[j]);
        }
        lemma_count_arcs_zero(s.drop_last(), n, v, c);
        assert(s.last() == s[s.len() - 1]);
    }
}

pub proof fn lemma_count_arcs_at_least_one(s: Seq<Arc>, j: int, v: int, c: int)
    requires
        0 <= j < s.len(),
        arc_matches(s[j], v, c),
    ensures
        count_arcs(s, v, c) >= 1,
    decreases s.len(),
{
    lemma_count_arcs_nonneg(s.drop_last(), v, c);
    if j == s.len() - 1 {
        assert(s.last() == s[j]);
    } else {
        assert(s.drop_last()[j] == s[j]);
        lemma_count_arcs_at_least_one(s.drop_last(), j, v, c);
    }
}

pub proof fn lemma_count_arcs_pos_exists(s: Seq<Arc>, v: int, c: int)
    requires
        count_arcs(s, v, c) >= 1,
    ensures
        exists|j: int| 0 <= j < s.len() && arc_matches(#[trigger] s[j], v, c),
    decreases s.len(),
{
    if arc_matches(s.last(), v, c) {
        assert(arc_matches(s[s.len() - 1], v, c));
    } else {
        lemma_count_arcs_pos_exists(s.drop_last(), v, c);
        let j = choose|j: int| 0 <= j < s.drop_last().len() && arc_matches(
            #[trigger] s.drop_last()[j],
            v,
            c,
        );
        assert(s.drop_last()[j] == s[j]);
    }
}

impl NetModel {
    pub open spec fn empty() -> NetModel {
        NetModel { points: Map::empty(), ids: Map::empty(), adj: Seq::empty() }
    }

    /// No two external identifiers share an internal index.
    pub open spec fn ids_injective(self) -> bool {
        forall|k1: i64, k2: i64|
            #![trigger self.ids[k1], self.ids[k2]]
            self.ids.dom().contains(k1) && self.ids.dom().contains(k2) && self.ids[k1]
                == self.ids[k2] ==> k1 == k2
    }

    /// Every assigned index addresses an adjacency list.
    pub open spec fn ids_in_range(self) -> bool {
        forall|k: i64| #[trigger] self.ids.dom().contains(k) ==> self.ids[k] < self.adj.len()
    }

    /// Some external identifier maps to internal index `i`.
    pub open spec fn index_assigned(self, i: int) -> bool {
        exists|k: i64| #[trigger] self.ids.dom().contains(k) && self.ids[k] == i
    }

    /// Every adjacency list is addressed by some identifier.
    pub open spec fn ids_cover(self) -> bool {
        forall|i: int| 0 <= i < self.adj.len() ==> #[trigger] self.index_assigned(i)
    }

    /// Arcs only target indices that address adjacency lists.
    pub open spec fn arcs_in_range(self) -> bool {
        forall|i: int, j: int|
            0 <= i < self.adj.len() && 0 <= j < self.adj[i].len() ==> (
            #[trigger] self.adj[i][j]).index < self.adj.len()
    }

    /// Arcs come in symmetric pairs: each list holds as many arcs to `v`
    /// with cost `c` as `v`'s list holds back to it with cost `c`.
    pub open spec fn symmetric(self) -> bool {
        forall|u: int, v: int, c: int|
            0 <= u < self.adj.len() && 0 <= v < self.adj.len() ==> #[trigger] count_arcs(
                self.adj[u],
                v,
                c,
            ) == count_arcs(self.adj[v], u, c)
    }

    /// Every stored point is within the supported coordinate magnitude.
    pub open spec fn points_bounded(self) -> bool {
        forall|k: i64| self.points.dom().contains(k) ==> coord_ok(#[trigger] self.points[k])
    }

    /// The structural invariant of a road network.
    pub open spec fn wf(self) -> bool {
        &&& self.ids_injective()
        &&& self.ids_in_range()
        &&& self.ids_cover()
        &&& self.arcs_in_range()
        &&& self.symmetric()
        &&& self.points_bounded()
    }
}

/// The aggregate graph: all declared points, the identifier-to-index
/// mapping for points that participate in an edge, and the adjacency
/// lists addressed by internal index.
#[derive(Debug)]
pub struct RoadNetwork {
    pub nodes: HashMap<i64, Point>,
    pub osm_id_map: HashMap<i64, usize>,
    pub adjacent_arcs: Vec<Vec<Arc>>,
}

/// The adjacency lists as a sequence of sequences.
pub open spec fn adj_view(rows: Seq<Vec<Arc>>) -> Seq<Seq<Arc>> {
    rows.map_values(|row: Vec<Arc>| row@)
}

impl View for RoadNetwork {
    type V = NetModel;

    open spec fn view(&self) -> NetModel {
        NetModel {
            points: self.nodes@,
            ids: self.osm_id_map@,
            adj: adj_view(self.adjacent_arcs@),
        }
    }
}

/// The index resolved for `id`, creating a fresh one (with an empty
/// adjacency list) if `id` has none yet; first-encounter order.
pub open spec fn resolve_spec(m: NetModel, id: i64) -> (NetModel, usize) {
    if m.ids.dom().contains(id) {
        (m, m.ids[id])
    } else {
        (
            NetModel {
                points: m.points,
                ids: m.ids.insert(id, m.adj.len() as usize),
                adj: m.adj.push(Seq::empty()),
            },
            m.adj.len() as usize,
        )
    }
}

/// The distance looked up between two declared points, or the dangling
/// identifier (first `a`, then `b`) if one has no stored coordinate.
pub open spec fn dist_result_spec(m: NetModel, a: i64, b: i64) -> Result<u64, BuildError> {
    if !m.points.dom().contains(a) {
        Err(BuildError::DanglingReference { id: a })
    } else if !m.points.dom().contains(b) {
        Err(BuildError::DanglingReference { id: b })
    } else {
        Ok(sqrt_floor(dist_sq(m.points[a], m.points[b])) as u64)
    }
}

/// What adding one bidirectional edge does: fail on a dangling endpoint,
/// else resolve both indices (in argument order) and append the forward
/// and reverse arcs, both costed at the segment speed over the distance.
pub open spec fn add_arc_spec(m: NetModel, a: i64, b: i64, kmh: u32) -> Result<
    NetModel,
    BuildError,
> {
    if !m.points.dom().contains(a) {
        Err(BuildError::DanglingReference { id: a })
    } else if !m.points.dom().contains(b) {
        Err(BuildError::DanglingReference { id: b })
    } else {
        let cost = cost_seconds(m.points[a], m.points[b], kmh as int) as u64;
        let (m1, ia) = resolve_spec(m, a);
        let (m2, ib) = resolve_spec(m1, b);
        let adj1 = m2.adj.update(ia as int, m2.adj[ia as int].push(Arc { index: ib, cost }));
        let adj2 = adj1.update(ib as int, adj1[ib as int].push(Arc { index: ia, cost }));
        Ok(NetModel { points: m2.points, ids: m2.ids, adj: adj2 })
    }
}

/// The change and the preserved invariant of appending the two arcs of
/// one edge to the lists of two existing indices.
proof fn lemma_double_push_preserves_wf(m2: NetModel, ia: usize, ib: usize, cost: u64)
    requires
        m2.wf(),
        ia < m2.adj.len(),
        ib < m2.adj.len(),
    ensures
        ({
            let adj1 = m2.adj.update(ia as int, m2.adj[ia as int].push(Arc { index: ib, cost }));
            let adj2 = adj1.update(ib as int, adj1[ib as int].push(Arc { index: ia, cost }));
            NetModel { points: m2.points, ids: m2.ids, adj: adj2 }.wf()
        }),
{
    let arc1 = Arc { index: ib, cost };
    let arc2 = Arc { index: ia, cost };
    let adj1 = m2.adj.update(ia as int, m2.adj[ia as int].push(arc1));
    let adj2 = adj1.update(ib as int, adj1[ib as int].push(arc2));
    let mr = NetModel { points: m2.points, ids: m2.ids, adj: adj2 };
    assert(adj2.len() == m2.adj.len());
    assert(mr.ids_injective());
    assert(mr.ids_in_range());
    assert(mr.ids_cover()) by {
        assert forall|i: int| 0 <= i < mr.adj.len() implies #[trigger] mr.index_assigned(i) by {
            assert(m2.index_assigned(i));
            let k = choose|k: i64| #[trigger] m2.ids.dom().contains(k) && m2.ids[k] == i;
            assert(mr.ids.dom().contains(k) && mr.ids[k] == i);
        }
    }
    assert(mr.arcs_in_range()) by {
        assert forall|i: int, j: int|
            0 <= i < adj2.len() && 0 <= j < adj2[i].len() implies (#[trigger] adj2[i][j]).index
            < adj2.len() by {
            if i == ib as int {
                let base = adj1[ib as int];
                if j < base.len() {
                    assert(adj2[i][j] == base[j]);
                    if ib == ia {
                        if j < m2.adj[ia as int].len() {
                            assert(base[j] == m2.adj[ia as int][j]);
                        } else {
                            assert(base[j] == arc1);
                        }
                    } else {
                        assert(base == m2.adj[ib as int]);
                    }
                } else {
                    assert(adj2[i][j] == arc2);
                }
            } else if i == ia as int {
                assert(adj2[i] == m2.adj[ia as int].push(arc1));
                if j < m2.adj[ia as int].len() {
                    assert(adj2[i][j] == m2.adj[ia as int][j]);
                } else {
                    assert(adj2[i][j] == arc1);
                }
            } else {
                assert(adj2[i] == m2.adj[i]);
            }
        }
    }
    assert forall|u: int, v: int, c: int|
        0 <= u < adj2.len() && 0 <= v < adj2.len() implies #[trigger] count_arcs(adj2[u], v, c)
        == count_arcs(m2.adj[u], v, c) + arc_delta(u, v, ia as int, ib as int, c, cost as int) by {
        if u == ia as int && u == ib as int {
            assert(adj1[u] == m2.adj[u].push(arc1));
            assert(adj2[u] == m2.adj[u].push(arc1).push(arc2));
            lemma_count_arcs_push(m2.adj[u], arc1, v, c);
            lemma_count_arcs_push(m2.adj[u].push(arc1), arc2, v, c);
        } else if u == ia as int {
            assert(adj2[u] == adj1[u]);
            assert(adj1[u] == m2.adj[u].push(arc1));
            lemma_count_arcs_push(m2.adj[u], arc1, v, c);
        } else if u == ib as int {
            assert(adj1[u] == m2.adj[u]);
            assert(adj2[u] == m2.adj[u].push(arc2));
            lemma_count_arcs_push(m2.adj[u], arc2, v, c);
        } else {
            assert(adj2[u] == m2.adj[u]);
        }
    }
    assert(mr.symmetric()) by {
        assert forall|u: int, v: int, c: int|
            0 <= u < adj2.len() && 0 <= v < adj2.len() implies #[trigger] count_arcs(
            adj2[u],
            v,
            c,
        ) == count_arcs(adj2[v], u, c) by {
            assert(count_arcs(adj2[u], v, c) == count_arcs(m2.adj[u], v, c) + arc_delta(
                u,
                v,
                ia as int,
                ib as int,
                c,
                cost as int,
            ));
            assert(count_arcs(adj2[v], u, c) == count_arcs(m2.adj[v], u, c) + arc_delta(
                v,
                u,
                ia as int,
                ib as int,
                c,
                cost as int,
            ));
            assert(count_arcs(m2.adj[u], v, c) == count_arcs(m2.adj[v], u, c));
        }
    }
    assert(mr.points_bounded());
}

/// The two summands an edge between `ia` and `ib` with cost `cost` adds
/// to the count of arcs from `u` to `v` with cost `c`.
pub open spec fn arc_delta(u: int, v: int, ia: int, ib: int, c: int, cost: int) -> int {
    (if u == ia && v == ib && c == cost {
        1int
    } else {
        0int
    }) + (if u == ib && v == ia && c == cost {
        1int
    } else {
        0int
    })
}

impl RoadNetwork {
    /// An empty network: no points, no indices, no arcs.
    pub fn new() -> (n: RoadNetwork)
        ensures
            n@ == NetModel::empty(),
            n@.wf(),
    {
        let n = RoadNetwork {
            osm_id_map: HashMap::new(),
            nodes: HashMap::new(),
            adjacent_arcs: Vec::new(),
        };
        proof {
            assert(adj_view(n.adjacent_arcs@) =~= Seq::<Seq<Arc>>::empty());
            assert(n@ =~~= NetModel::empty());
        }
        n
    }

    /// Upserts the coordinate stored for `osm_id`: a later declaration of
    /// the same identifier silently replaces the earlier one.
    pub fn add_node(&mut self, osm_id: i64, location: Point)
        requires
            old(self)@.wf(),
            coord_ok(location),
        ensures
            final(self)@.wf(),
            final(self)@.points == old(self)@.points.insert(osm_id, location),
            final(self)@.ids == old(self)@.ids,
            final(self)@.adj == old(self)@.adj,
    {
        self.nodes.insert(osm_id, location);
        proof {
            let m0 = old(self)@;
            let m = self@;
            assert(m.ids == m0.ids);
            assert(m.adj == m0.adj);
            assert(m.ids_injective());
            assert(m.ids_in_range());
            assert(m.ids_cover()) by {
                assert forall|i: int| 0 <= i < m.adj.len() implies #[trigger] m.index_assigned(
                    i,
                ) by {
                    assert(m0.index_assigned(i));
                    let k = choose|k: i64| #[trigger] m0.ids.dom().contains(k) && m0.ids[k] == i;
                    assert(m.ids.dom().contains(k) && m.ids[k] == i);
                }
            }
            assert(m.arcs_in_range());
            assert(m.symmetric());
            assert forall|k: i64| m.points.dom().contains(k) implies coord_ok(
                #[trigger] m.points[k],
            ) by {
                if k != osm_id {
                    assert(m.points[k] == m0.points[k]);
                }
            }
        }
    }

    /// The internal index assigned to `osm_id`, if any.
    pub fn get_index(&self, osm_id: i64) -> (r: Option<usize>)
        ensures
            r == if self@.ids.dom().contains(osm_id) {
                Some(self@.ids[osm_id])
            } else {
                None::<usize>
            },
    {
        match self.osm_id_map.get(&osm_id) {
            Some(index) => Some(*index),
            None => None,
        }
    }

    /// The internal index for `osm_id`, assigning the next free one (and
    /// an empty adjacency list) on first encounter.
    pub fn get_or_create_index(&mut self, osm_id: i64) -> (index: usize)
        requires
            old(self)@.wf(),
        ensures
            final(self)@.wf(),
            final(self)@ == resolve_spec(old(self)@, osm_id).0,
            index == resolve_spec(old(self)@, osm_id).1,
            final(self)@.points == old(self)@.points,
            final(self)@.adj.len() >= old(self)@.adj.len(),
            index < final(self)@.adj.len(),
            final(self)@.adj.len() <= old(self)@.adj.len() + 1,
    {
        match self.get_index(osm_id) {
            Some(index) => index,
            None => {
                let index = self.adjacent_arcs.len();
                self.adjacent_arcs.push(Vec::new());
                self.osm_id_map.insert(osm_id, index);
                proof {
                    let m0 = old(self)@;
                    let m1 = resolve_spec(m0, osm_id).0;
                    assert(adj_view(self.adjacent_arcs@) =~= m0.adj.push(Seq::empty()));
                    assert(self@ =~~= m1);
                    assert(m1.ids_injective()) by {
                        assert forall|k1: i64, k2: i64|
                            #![trigger m1.ids[k1], m1.ids[k2]]
                            m1.ids.dom().contains(k1) && m1.ids.dom().contains(k2) && m1.ids[k1]
                                == m1.ids[k2] implies k1 == k2 by {
                            if k1 != osm_id && k2 != osm_id {
                                assert(m1.ids[k1] == m0.ids[k1]);
                                assert(m1.ids[k2] == m0.ids[k2]);
                            }
                        }
                    }
                    assert(m1.ids_cover()) by {
                        assert forall|i: int|
                            0 <= i < m1.adj.len() implies #[trigger] m1.index_assigned(i) by {
                            if i < m0.adj.len() {
                                assert(m0.index_assigned(i));
                                let k = choose|k: i64|
                                    #[trigger] m0.ids.dom().contains(k) && m0.ids[k] == i;
                                assert(m1.ids.dom().contains(k) && m1.ids[k] == i);
                            } else {
                                assert(m1.ids.dom().contains(osm_id) && m1.ids[osm_id] == i);
                            }
                        }
                    }
                    assert(m1.arcs_in_range()) by {
                        assert forall|i: int, j: int|
                            0 <= i < m1.adj.len() && 0 <= j < m1.adj[i].len() implies (
                        #[trigger] m1.adj[i][j]).index < m1.adj.len() by {
                            if i < m0.adj.len() {
                                assert(m1.adj[i] == m0.adj[i]);
                            }
                        }
                    }
                    assert(m1.symmetric()) by {
                        assert forall|u: int, v: int, c: int|
                            0 <= u < m1.adj.len() && 0 <= v < m1.adj.len() implies #[trigger] count_arcs(
                            m1.adj[u],
                            v,
                            c,
                        ) == count_arcs(m1.adj[v], u, c) by {
                            let n0 = m0.adj.len() as int;
                            if u < n0 && v < n0 {
                                assert(m1.adj[u] == m0.adj[u]);
                                assert(m1.adj[v] == m0.adj[v]);
                            } else if u < n0 && v >= n0 {
                                assert(m1.adj[u] == m0.adj[u]);
                                assert(m1.adj[v] =~= Seq::<Arc>::empty());
                                lemma_count_arcs_zero(m0.adj[u], n0, v, c);
                            } else if u >= n0 && v < n0 {
                                assert(m1.adj[v] == m0.adj[v]);
                                assert(m1.adj[u] =~= Seq::<Arc>::empty());
                                lemma_count_arcs_zero(m0.adj[v], n0, u, c);
                            } else {
                                assert(m1.adj[u] =~= Seq::<Arc>::empty());
                                assert(m1.adj[v] =~= Seq::<Arc>::empty());
                            }
                        }
                    }
                }
                index
            },
        }
    }

    /// The planar distance in tenth-micrometres between the stored points
    /// of `osm_id_a` and `osm_id_b`; a dangling identifier is a hard,
    /// explicitly reported error, never a silent default distance.
    pub fn distance(&self, osm_id_a: i64, osm_id_b: i64) -> (r: Result<u64, BuildError>)
        requires
            self@.wf(),
        ensures
            r == dist_result_spec(self@, osm_id_a, osm_id_b),
            (r matches Ok(d) ==> self@.points.dom().contains(osm_id_a)
                && self@.points.dom().contains(osm_id_b)
                && d == sqrt_floor(dist_sq(self@.points[osm_id_a], self@.points[osm_id_b]))
                && d < DIST_LIMIT),
    {
        let location_a = match self.nodes.get(&osm_id_a) {
            Some(p) => *p,
            None => {
                return Err(BuildError::DanglingReference { id: osm_id_a });
            },
        };
        let location_b = match self.nodes.get(&osm_id_b) {
            Some(p) => *p,
            None => {
                return Err(BuildError::DanglingReference { id: osm_id_b });
            },
        };
        Ok(planar_distance(location_a, location_b))
    }

    fn _push_arc_at_index(&mut self, index: usize, arc: Arc)
        requires
            index < old(self)@.adj.len(),
        ensures
            final(self)@.adj == old(self)@.adj.update(
                index as int,
                old(self)@.adj[index as int].push(arc),
            ),
            final(self)@.points == old(self)@.points,
            final(self)@.ids == old(self)@.ids,
    {
        let node = &mut self.adjacent_arcs[index];
        node.push(arc);
        proof {
            assert(adj_view(self.adjacent_arcs@) =~= old(self)@.adj.update(
                index as int,
                old(self)@.adj[index as int].push(arc),
            ));
        }
    }

    /// Adds the symmetric arc pair for one road segment edge between
    /// `osm_id_a` and `osm_id_b` at `speed_kmh`, resolving (or creating,
    /// in that order) both internal indices; fails without any change on
    /// a dangling endpoint.
    pub fn add_arc(&mut self, osm_id_a: i64, osm_id_b: i64, speed_kmh: u32) -> (r: Result<
        (),
        BuildError,
    >)
        requires
            old(self)@.wf(),
            speed_kmh >= 1,
        ensures
            final(self)@.wf(),
            (r matches Ok(u) ==> add_arc_spec(old(self)@, osm_id_a, osm_id_b, speed_kmh)
                == Ok::<NetModel, BuildError>(final(self)@)),
            (r matches Err(e) ==> add_arc_spec(old(self)@, osm_id_a, osm_id_b, speed_kmh)
                == Err::<NetModel, BuildError>(e) && final(self)@ == old(self)@),
    {
        let d = match self.distance(osm_id_a, osm_id_b) {
            Ok(d) => d,
            Err(e) => {
                return Err(e);
            },
        };
        let cost = cost_from_distance(d, speed_kmh);
        let ghost m0 = self@;
        let index_a = self.get_or_create_index(osm_id_a);
        let ghost m1 = self@;
        let index_b = self.get_or_create_index(osm_id_b);
        let ghost m2 = self@;
        self._push_arc_at_index(index_a, Arc { index: index_b, cost });
        self._push_arc_at_index(index_b, Arc { index: index_a, cost });
        proof {
            let pa = m0.points[osm_id_a];
            let pb = m0.points[osm_id_b];
            assert(cost == cost_seconds(pa, pb, speed_kmh as int));
            let adj1 = m2.adj.update(
                index_a as int,
                m2.adj[index_a as int].push(Arc { index: index_b, cost }),
            );
            let adj2 = adj1.update(
                index_b as int,
                adj1[index_b as int].push(Arc { index: index_a, cost }),
            );
            assert(self@ =~~= NetModel { points: m2.points, ids: m2.ids, adj: adj2 });
            lemma_double_push_preserves_wf(m2, index_a, index_b, cost);
            assert(add_arc_spec(m0, osm_id_a, osm_id_b, speed_kmh) == Ok::<NetModel, BuildError>(
                self@,
            ));
        }
        Ok(())
    }
}

/// No two distinct external identifiers map to the same internal index,
/// and every index below the number of adjacency lists is assigned.
pub proof fn lemma_index_injective(m: NetModel, k1: i64, k2: i64)
    requires
        m.wf(),
        m.ids.dom().contains(k1),
        m.ids.dom().contains(k2),
        m.ids[k1] == m.ids[k2],
    ensures
        k1 == k2,
{
}

/// Every internal index in `[0, adj.len())` is the image of some external
/// identifier (exactly one, by [`lemma_index_injective`]).
pub proof fn lemma_every_index_assigned(m: NetModel, i: int)
    requires
        m.wf(),
        0 <= i < m.adj.len(),
    ensures
        exists|k: i64| #[trigger] m.ids.dom().contains(k) && m.ids[k] == i,
{
    assert(m.index_assigned(i));
}

/// For every arc (u -> v, cost c) in a well-formed network there is an
/// arc (v -> u, cost c).
pub proof fn lemma_arc_symmetry(m: NetModel, u: int, j: int)
    requires
        m.wf(),
        0 <= u < m.adj.len(),
        0 <= j < m.adj[u].len(),
    ensures
        ({
            let v = m.adj[u][j].index as int;
            let c = m.adj[u][j].cost as int;
            exists|k: int|
                0 <= k < m.adj[v].len() && arc_matches(#[trigger] m.adj[v][k], u, c)
        }),
{
    let v = m.adj[u][j].index as int;
    let c = m.adj[u][j].cost as int;
    lemma_count_arcs_at_least_one(m.adj[u], j, v, c);
    assert(count_arcs(m.adj[v], u, c) >= 1);
    lemma_count_arcs_pos_exists(m.adj[v], u, c);
}

/// Declaring the same external identifier twice keeps only the most
/// recent coordinate: upserting is last-write-wins.
pub proof fn lemma_point_upsert_last_wins(
    points: Map<i64, Point>,
    id: i64,
    first: Point,
    second: Point,
)
    ensures
        points.insert(id, first).insert(id, second) == points.insert(id, second),
{
    assert(points.insert(id, first).insert(id, second) =~= points.insert(id, second));
}

} // verus!
