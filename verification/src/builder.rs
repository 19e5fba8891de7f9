use vstd::prelude::*;
use crate::classify::{
    classify_line, classify_spec, lemma_classify_point_bounded, Event, EventModel,
};
use crate::errors::BuildError;
use crate::graph::{add_arc_spec, NetModel, RoadNetwork};
use crate::speeds::{speed_for_category, speed_spec};

verus! {

/// Transient state while a segment element is open: the hops accumulated
/// so far, whether a usable road tag has been seen, and the derived speed.
pub struct SegmentState {
    pub active: bool,
    pub hops: Vec<i64>,
    pub road_ok: bool,
    pub speed_kmh: u32,
}

/// The mathematical image of a [`SegmentState`].
#[verifier::ext_equal]
pub ghost struct SegModel {
    pub active: bool,
    pub hops: Seq<i64>,
    pub road_ok: bool,
    pub speed_kmh: u32,
}

impl View for SegmentState {
    type V = SegModel;

    open spec fn view(&self) -> SegModel {
        SegModel {
            active: self.active,
            hops: self.hops@,
            road_ok: self.road_ok,
            speed_kmh: self.speed_kmh,
        }
    }
}

/// The graph builder: the persistent network plus the segment state
/// machine, fed one event per input line.
pub struct Builder {
    pub network: RoadNetwork,
    pub seg: SegmentState,
}

/// The mathematical image of a [`Builder`].
#[verifier::ext_equal]
pub ghost struct BuilderModel {
    pub net: NetModel,
    pub seg: SegModel,
}

impl View for Builder {
    type V = BuilderModel;

    open spec fn view(&self) -> BuilderModel {
        BuilderModel { net: self.network@, seg: self.seg@ }
    }
}

impl BuilderModel {
    /// The starting state: an empty network, no segment open.
    pub open spec fn init() -> BuilderModel {
        BuilderModel {
            net: NetModel::empty(),
            seg: SegModel { active: false, hops: Seq::empty(), road_ok: false, speed_kmh: 0u32 },
        }
    }
}

/// One edge per consecutive hop pair, added in list order; the edge
/// operation takes the current hop first and the previous one second.
pub open spec fn add_seg_edges(net: NetModel, hops: Seq<i64>, kmh: u32) -> Result<
    NetModel,
    BuildError,
>
    decreases hops.len(),
{
    if hops.len() <= 1 {
        Ok(net)
    } else {
        match add_seg_edges(net, hops.drop_last(), kmh) {
            Ok(n) => add_arc_spec(n, hops.last(), hops[hops.len() - 2], kmh),
            Err(e) => Err(e),
        }
    }
}

/// An error met on a prefix of the hop list is the error of the whole
/// list: edges are added in order and the first failure aborts.
pub proof fn lemma_add_seg_edges_err_extends(net: NetModel, hops: Seq<i64>, j: int, kmh: u32)
    requires
        2 <= j <= hops.len(),
        add_seg_edges(net, hops.take(j), kmh) is Err,
    ensures
        add_seg_edges(net, hops, kmh) == add_seg_edges(net, hops.take(j), kmh),
    decreases hops.len(),
{
    if j == hops.len() {
        assert(hops.take(j) =~= hops);
    } else {
        assert(hops.drop_last().take(j) =~= hops.take(j));
        lemma_add_seg_edges_err_extends(net, hops.drop_last(), j, kmh);
    }
}

/// One transition of the graph builder, driven by one classified event.
pub open spec fn step_spec(m: BuilderModel, ev: EventModel) -> Result<BuilderModel, BuildError> {
    match ev {
        EventModel::PointDeclared { id, point } => Ok(
            BuilderModel {
                net: NetModel {
                    points: m.net.points.insert(id, point),
                    ids: m.net.ids,
                    adj: m.net.adj,
                },
                seg: m.seg,
            },
        ),
        EventModel::SegmentStart => Ok(
            BuilderModel {
                net: m.net,
                seg: SegModel { active: true, hops: Seq::empty(), road_ok: false, speed_kmh: 0u32 },
            },
        ),
        EventModel::HopReference { id } => if m.seg.active {
            Ok(
                BuilderModel {
                    net: m.net,
                    seg: SegModel {
                        active: true,
                        hops: m.seg.hops.push(id),
                        road_ok: m.seg.road_ok,
                        speed_kmh: m.seg.speed_kmh,
                    },
                },
            )
        } else {
            Ok(m)
        },
        EventModel::RoadClassTag { category } => if m.seg.active {
            match speed_spec(category) {
                Some(v) => Ok(
                    BuilderModel {
                        net: m.net,
                        seg: SegModel {
                            active: true,
                            hops: m.seg.hops,
                            road_ok: true,
                            speed_kmh: v,
                        },
                    },
                ),
                None => Ok(
                    BuilderModel {
                        net: m.net,
                        seg: SegModel {
                            active: true,
                            hops: m.seg.hops,
                            road_ok: false,
                            speed_kmh: 0u32,
                        },
                    },
                ),
            }
        } else {
            Ok(m)
        },
        EventModel::SegmentEnd => if m.seg.active {
            if m.seg.road_ok && m.seg.speed_kmh >= 1 {
                match add_seg_edges(m.net, m.seg.hops, m.seg.speed_kmh) {
                    Ok(n) => Ok(
                        BuilderModel {
                            net: n,
                            seg: SegModel {
                                active: false,
                                hops: m.seg.hops,
                                road_ok: m.seg.road_ok,
                                speed_kmh: m.seg.speed_kmh,
                            },
                        },
                    ),
                    Err(e) => Err(e),
                }
            } else {
                Ok(
                    BuilderModel {
                        net: m.net,
                        seg: SegModel {
                            active: false,
                            hops: m.seg.hops,
                            road_ok: m.seg.road_ok,
                            speed_kmh: m.seg.speed_kmh,
                        },
                    },
                )
            }
        } else {
            Ok(m)
        },
        EventModel::Inert => Ok(m),
    }
}

/// One line's worth of work: classify, then step.
pub open spec fn line_step_spec(m: BuilderModel, s: Seq<char>) -> Result<
    BuilderModel,
    BuildError,
> {
    match classify_spec(s) {
        Ok(ev) => step_spec(m, ev),
        Err(e) => Err(e),
    }
}

/// The whole run over a sequence of lines, stopping at the first error.
pub open spec fn run_lines(m: BuilderModel, lines: Seq<Seq<char>>) -> Result<
    BuilderModel,
    BuildError,
>
    decreases lines.len(),
{
    if lines.len() == 0 {
        Ok(m)
    } else {
        match line_step_spec(m, lines[0]) {
            Ok(m2) => run_lines(m2, lines.skip(1)),
            Err(e) => Err(e),
        }
    }
}

/// The views of a vector of lines.
pub open spec fn line_views(lines: Seq<String>) -> Seq<Seq<char>> {
    lines.map_values(|s: String| s@)
}

/// The whole construction as a function of the input text alone: a
/// deterministic result — identical lines give identical graphs — or the
/// first fatal error.
pub open spec fn build_spec(lines: Seq<Seq<char>>) -> Result<NetModel, BuildError> {
    match run_lines(BuilderModel::init(), lines) {
        Ok(m) => Ok(m.net),
        Err(e) => Err(e),
    }
}

impl Builder {
    /// A fresh builder over an empty network, outside any segment.
    pub fn new() -> (b: Builder)
        ensures
            b@ == BuilderModel::init(),
            b@.net.wf(),
    {
        let b = Builder {
            network: RoadNetwork::new(),
            seg: SegmentState { active: false, hops: Vec::new(), road_ok: false, speed_kmh: 0 },
        };
        proof {
            assert(b@ =~~= BuilderModel::init());
        }
        b
    }

    /// Applies one event, exactly as [`step_spec`] says.
    pub fn step(&mut self, ev: Event) -> (r: Result<(), BuildError>)
        requires
            old(self)@.net.wf(),
            (ev@ matches EventModel::PointDeclared { point, .. } ==> crate::geometry::coord_ok(
                point,
            )),
        ensures
            final(self)@.net.wf(),
            (r matches Ok(u) ==> step_spec(old(self)@, ev@) == Ok::<BuilderModel, BuildError>(
                final(self)@,
            )),
            (r matches Err(e) ==> step_spec(old(self)@, ev@) == Err::<BuilderModel, BuildError>(
                e,
            )),
    {
        match ev {
            Event::PointDeclared { id, point } => {
                self.network.add_node(id, point);
                proof {
                    let expected = BuilderModel {
                        net: NetModel {
                            points: old(self)@.net.points.insert(id, point),
                            ids: old(self)@.net.ids,
                            adj: old(self)@.net.adj,
                        },
                        seg: old(self)@.seg,
                    };
                    assert(self@ =~~= expected);
                }
                Ok(())
            },
            Event::SegmentStart => {
                self.seg.active = true;
                self.seg.hops = Vec::new();
                self.seg.road_ok = false;
                self.seg.speed_kmh = 0;
                proof {
                    let expected = BuilderModel {
                        net: old(self)@.net,
                        seg: SegModel {
                            active: true,
                            hops: Seq::empty(),
                            road_ok: false,
                            speed_kmh: 0u32,
                        },
                    };
                    assert(self@ =~~= expected);
                }
                Ok(())
            },
            Event::HopReference { id } => {
                if self.seg.active {
                    self.seg.hops.push(id);
                    proof {
                        let expected = BuilderModel {
                            net: old(self)@.net,
                            seg: SegModel {
                                active: true,
                                hops: old(self)@.seg.hops.push(id),
                                road_ok: old(self)@.seg.road_ok,
                                speed_kmh: old(self)@.seg.speed_kmh,
                            },
                        };
                        assert(self@ =~~= expected);
                    }
                }
                Ok(())
            },
            Event::RoadClassTag { category } => {
                if self.seg.active {
                    match speed_for_category(category.as_str()) {
                        Some(v) => {
                            self.seg.road_ok = true;
                            self.seg.speed_kmh = v;
                        },
                        None => {
                            self.seg.road_ok = false;
                            self.seg.speed_kmh = 0;
                        },
                    }
                    proof {
                        match speed_spec(category@) {
                            Some(v) => {
                                let expected = BuilderModel {
                                    net: old(self)@.net,
                                    seg: SegModel {
                                        active: true,
                                        hops: old(self)@.seg.hops,
                                        road_ok: true,
                                        speed_kmh: v,
                                    },
                                };
                                assert(self@ =~~= expected);
                            },
                            None => {
                                let expected = BuilderModel {
                                    net: old(self)@.net,
                                    seg: SegModel {
                                        active: true,
                                        hops: old(self)@.seg.hops,
                                        road_ok: false,
                                        speed_kmh: 0u32,
                                    },
                                };
                                assert(self@ =~~= expected);
                            },
                        }
                    }
                }
                Ok(())
            },
            Event::SegmentEnd => {
                if self.seg.active {
                    if self.seg.road_ok && self.seg.speed_kmh >= 1 {
                        let ghost net0 = self.network@;
                        let ghost hops_seq = self.seg.hops@;
                        let ghost kmh = self.seg.speed_kmh;
                        if self.seg.hops.len() >= 2 {
                            let mut i: usize = 1;
                            while i < self.seg.hops.len()
                                invariant
                                    self.network@.wf(),
                                    1 <= i <= self.seg.hops.len(),
                                    self.seg.hops@ == hops_seq,
                                    hops_seq.len() >= 2,
                                    self.seg.active == true,
                                    self.seg.road_ok == true,
                                    self.seg.speed_kmh == kmh,
                                    kmh >= 1,
                                    old(self)@.seg.active,
                                    old(self)@.seg.road_ok,
                                    old(self)@.seg.speed_kmh == kmh,
                                    old(self)@.net == net0,
                                    old(self)@.seg.hops == hops_seq,
                                    ev@ == EventModel::SegmentEnd,
                                    add_seg_edges(net0, hops_seq.take(i as int), kmh) == Ok::<
                                        NetModel,
                                        BuildError,
                                    >(self.network@),
                                decreases self.seg.hops.len() - i,
                            {
                                let a = self.seg.hops[i];
                                let b = self.seg.hops[i - 1];
                                let ghost pre = self.network@;
                                let res = self.network.add_arc(a, b, self.seg.speed_kmh);
                                proof {
                                    assert(hops_seq.take(i as int + 1).drop_last() =~= hops_seq.take(
                                        i as int,
                                    ));
                                    assert(hops_seq.take(i as int + 1).last() == hops_seq[i as int]);
                                    assert(hops_seq.take(i as int + 1)[i as int - 1]
                                        == hops_seq[i as int - 1]);
                                }
                                match res {
                                    Ok(_) => {
                                        proof {
                                            assert(add_seg_edges(net0, hops_seq.take(i as int + 1), kmh)
                                                == Ok::<NetModel, BuildError>(self.network@));
                                        }
                                    },
                                    Err(e) => {
                                        proof {
                                            assert(add_seg_edges(net0, hops_seq.take(i as int + 1), kmh)
                                                == Err::<NetModel, BuildError>(e));
                                            lemma_add_seg_edges_err_extends(
                                                net0,
                                                hops_seq,
                                                i as int + 1,
                                                kmh,
                                            );
                                            assert(add_seg_edges(net0, hops_seq, kmh) == Err::<
                                                NetModel,
                                                BuildError,
                                            >(e));
                                            assert(old(self)@.seg.active);
                                            assert(old(self)@.seg.road_ok);
                                            assert(old(self)@.seg.speed_kmh == kmh);
                                            assert(old(self)@.net == net0);
                                            assert(old(self)@.seg.hops == hops_seq);
                                            assert(ev@ == EventModel::SegmentEnd);
                                            assert(step_spec(old(self)@, ev@) == Err::<
                                                BuilderModel,
                                                BuildError,
                                            >(e));
                                        }
                                        return Err(e);
                                    },
                                }
                                i = i + 1;
                            }
                            proof {
                                assert(hops_seq.take(hops_seq.len() as int) =~= hops_seq);
                            }
                        }
                        self.seg.active = false;
                        proof {
                            assert(add_seg_edges(net0, hops_seq, kmh) == Ok::<NetModel, BuildError>(
                                self.network@,
                            ));
                            let expected = BuilderModel {
                                net: self.network@,
                                seg: SegModel {
                                    active: false,
                                    hops: hops_seq,
                                    road_ok: true,
                                    speed_kmh: kmh,
                                },
                            };
                            assert(self@ =~~= expected);
                        }
                        Ok(())
                    } else {
                        self.seg.active = false;
                        proof {
                            let expected = BuilderModel {
                                net: old(self)@.net,
                                seg: SegModel {
                                    active: false,
                                    hops: old(self)@.seg.hops,
                                    road_ok: old(self)@.seg.road_ok,
                                    speed_kmh: old(self)@.seg.speed_kmh,
                                },
                            };
                            assert(self@ =~~= expected);
                        }
                        Ok(())
                    }
                } else {
                    Ok(())
                }
            },
            Event::Inert => Ok(()),
        }
    }

    /// Classifies one line and applies its event, exactly as
    /// [`line_step_spec`] says.
    pub fn process_line(&mut self, line: &str) -> (r: Result<(), BuildError>)
        requires
            old(self)@.net.wf(),
        ensures
            final(self)@.net.wf(),
            (r matches Ok(u) ==> line_step_spec(old(self)@, line@) == Ok::<
                BuilderModel,
                BuildError,
            >(final(self)@)),
            (r matches Err(e) ==> line_step_spec(old(self)@, line@) == Err::<
                BuilderModel,
                BuildError,
            >(e)),
    {
        match classify_line(line) {
            Err(e) => Err(e),
            Ok(ev) => {
                proof {
                    lemma_classify_point_bounded(line@);
                }
                self.step(ev)
            },
        }
    }
}

/// Builds the road network from the input lines in a single pass: the
/// result is [`build_spec`] of the lines' characters, so identical input
/// text always produces the identical graph, and the first malformed
/// number or dangling reference aborts with that error and no graph.
pub fn build_from_lines(lines: &Vec<String>) -> (r: Result<RoadNetwork, BuildError>)
    ensures
        (r matches Ok(net) ==> build_spec(line_views(lines@)) == Ok::<NetModel, BuildError>(net@)
            && net@.wf()),
        (r matches Err(e) ==> build_spec(line_views(lines@)) == Err::<NetModel, BuildError>(e)),
{
    let mut b = Builder::new();
    let ghost all = line_views(lines@);
    proof {
        assert(all.skip(0) =~= all);
    }
    let mut i: usize = 0;
    while i < lines.len()
        invariant
            b@.net.wf(),
            i <= lines.len(),
            all == line_views(lines@),
            all.len() == lines@.len(),
            run_lines(BuilderModel::init(), all) == run_lines(b@, all.skip(i as int)),
        decreases lines.len() - i,
    {
        let ghost bpre = b@;
        let line: &String = &lines[i];
        let res = b.process_line(line.as_str());
        proof {
            assert(all.skip(i as int).len() > 0);
            assert(all.skip(i as int)[0] == all[i as int]);
            assert(all[i as int] == lines@[i as int]@);
            assert(all.skip(i as int).skip(1) =~= all.skip(i as int + 1));
        }
        match res {
            Ok(_) => {},
            Err(e) => {
                proof {
                    assert(run_lines(bpre, all.skip(i as int)) == Err::<BuilderModel, BuildError>(
                        e,
                    ));
                }
                return Err(e);
            },
        }
        i = i + 1;
    }
    proof {
        assert(all.skip(lines@.len() as int) =~= Seq::<Seq<char>>::empty());
    }
    Ok(b.network)
}

/// The run over a sequence of already-classified events.
pub open spec fn run_events(m: BuilderModel, evs: Seq<EventModel>) -> Result<
    BuilderModel,
    BuildError,
>
    decreases evs.len(),
{
    if evs.len() == 0 {
        Ok(m)
    } else {
        match step_spec(m, evs[0]) {
            Ok(m2) => run_events(m2, evs.skip(1)),
            Err(e) => Err(e),
        }
    }
}

pub proof fn lemma_run_events_append(m: BuilderModel, e1: Seq<EventModel>, e2: Seq<EventModel>)
    ensures
        run_events(m, e1 + e2) == (match run_events(m, e1) {
            Ok(m2) => run_events(m2, e2),
            Err(e) => Err(e),
        }),
    decreases e1.len(),
{
    if e1.len() == 0 {
        assert(e1 + e2 =~= e2);
    } else {
        assert((e1 + e2)[0] == e1[0]);
        assert((e1 + e2).skip(1) =~= e1.skip(1) + e2);
        match step_spec(m, e1[0]) {
            Ok(m2) => {
                lemma_run_events_append(m2, e1.skip(1), e2);
            },
            Err(e) => {},
        }
    }
}

proof fn lemma_run_single(m: BuilderModel, ev: EventModel)
    ensures
        run_events(m, seq![ev]) == step_spec(m, ev),
{
    assert(seq![ev][0] == ev);
    assert(seq![ev].skip(1) =~= Seq::<EventModel>::empty());
    match step_spec(m, ev) {
        Ok(m2) => {
            assert(run_events(m2, seq![ev].skip(1)) == Ok::<BuilderModel, BuildError>(m2));
        },
        Err(e) => {},
    }
}

/// The hop-reference events for a list of hop identifiers.
pub open spec fn hop_events(hops: Seq<i64>) -> Seq<EventModel> {
    hops.map_values(|h: i64| EventModel::HopReference { id: h })
}

/// The classification-tag events for a list of category names.
pub open spec fn tag_events(tags: Seq<Seq<char>>) -> Seq<EventModel> {
    tags.map_values(|c: Seq<char>| EventModel::RoadClassTag { category: c })
}

/// The events of one whole segment: it opens, references its hops, is
/// tagged, and closes.
pub open spec fn segment_events(hops: Seq<i64>, tags: Seq<Seq<char>>) -> Seq<EventModel> {
    seq![EventModel::SegmentStart] + hop_events(hops) + tag_events(tags) + seq![
        EventModel::SegmentEnd,
    ]
}

/// Hop references only accumulate: they touch neither the network nor the
/// road tag state.
proof fn lemma_run_hops(m: BuilderModel, hops: Seq<i64>)
    requires
        m.seg.active,
    ensures
        run_events(m, hop_events(hops)) == Ok::<BuilderModel, BuildError>(
            BuilderModel {
                net: m.net,
                seg: SegModel {
                    active: true,
                    hops: m.seg.hops + hops,
                    road_ok: m.seg.road_ok,
                    speed_kmh: m.seg.speed_kmh,
                },
            },
        ),
    decreases hops.len(),
{
    if hops.len() == 0 {
        assert(hop_events(hops) =~= Seq::<EventModel>::empty());
        assert(BuilderModel {
            net: m.net,
            seg: SegModel {
                active: true,
                hops: m.seg.hops + hops,
                road_ok: m.seg.road_ok,
                speed_kmh: m.seg.speed_kmh,
            },
        } =~~= m);
    } else {
        assert(hop_events(hops)[0] == EventModel::HopReference { id: hops[0] });
        assert(hop_events(hops).skip(1) =~= hop_events(hops.skip(1)));
        let m2 = BuilderModel {
            net: m.net,
            seg: SegModel {
                active: true,
                hops: m.seg.hops.push(hops[0]),
                road_ok: m.seg.road_ok,
                speed_kmh: m.seg.speed_kmh,
            },
        };
        assert(step_spec(m, EventModel::HopReference { id: hops[0] }) == Ok::<
            BuilderModel,
            BuildError,
        >(m2)) by {
            assert(BuilderModel {
                net: m.net,
                seg: SegModel {
                    active: true,
                    hops: m.seg.hops.push(hops[0]),
                    road_ok: m.seg.road_ok,
                    speed_kmh: m.seg.speed_kmh,
                },
            } =~~= m2);
        }
        lemma_run_hops(m2, hops.skip(1));
        assert(m2.seg.hops + hops.skip(1) =~= m.seg.hops + hops);
        assert(BuilderModel {
            net: m2.net,
            seg: SegModel {
                active: true,
                hops: m2.seg.hops + hops.skip(1),
                road_ok: m2.seg.road_ok,
                speed_kmh: m2.seg.speed_kmh,
            },
        } =~~= BuilderModel {
            net: m.net,
            seg: SegModel {
                active: true,
                hops: m.seg.hops + hops,
                road_ok: m.seg.road_ok,
                speed_kmh: m.seg.speed_kmh,
            },
        });
    }
}

/// The state after a segment opens and its hops are referenced.
proof fn lemma_run_segment_prefix(m: BuilderModel, hops: Seq<i64>)
    ensures
        run_events(m, seq![EventModel::SegmentStart] + hop_events(hops)) == Ok::<
            BuilderModel,
            BuildError,
        >(
            BuilderModel {
                net: m.net,
                seg: SegModel { active: true, hops: hops, road_ok: false, speed_kmh: 0u32 },
            },
        ),
{
    let m1 = BuilderModel {
        net: m.net,
        seg: SegModel { active: true, hops: Seq::empty(), road_ok: false, speed_kmh: 0u32 },
    };
    lemma_run_single(m, EventModel::SegmentStart);
    assert(step_spec(m, EventModel::SegmentStart) == Ok::<BuilderModel, BuildError>(m1));
    lemma_run_events_append(m, seq![EventModel::SegmentStart], hop_events(hops));
    lemma_run_hops(m1, hops);
    assert(Seq::<i64>::empty() + hops =~= hops);
    assert(BuilderModel {
        net: m1.net,
        seg: SegModel {
            active: true,
            hops: m1.seg.hops + hops,
            road_ok: m1.seg.road_ok,
            speed_kmh: m1.seg.speed_kmh,
        },
    } =~~= BuilderModel {
        net: m.net,
        seg: SegModel { active: true, hops: hops, road_ok: false, speed_kmh: 0u32 },
    });
}

/// Law: a segment whose only classification tag names an unrecognized
/// category contributes nothing to the graph, however many hops it
/// references — the run succeeds and the network part is unchanged.
pub proof fn lemma_unusable_segment_yields_no_edges(
    m: BuilderModel,
    hops: Seq<i64>,
    category: Seq<char>,
)
    requires
        speed_spec(category) is None,
    ensures
        run_events(m, segment_events(hops, seq![category])) matches Ok(m2) && m2.net == m.net,
{
    let p = seq![EventModel::SegmentStart] + hop_events(hops);
    let m2 = BuilderModel {
        net: m.net,
        seg: SegModel { active: true, hops: hops, road_ok: false, speed_kmh: 0u32 },
    };
    lemma_run_segment_prefix(m, hops);
    assert(tag_events(seq![category]) =~= seq![
        EventModel::RoadClassTag { category: category },
    ]);
    assert(segment_events(hops, seq![category]) == p + tag_events(seq![category]) + seq![
        EventModel::SegmentEnd,
    ]);
    let m3 = BuilderModel {
        net: m.net,
        seg: SegModel { active: true, hops: hops, road_ok: false, speed_kmh: 0u32 },
    };
    lemma_run_single(m2, EventModel::RoadClassTag { category });
    assert(step_spec(m2, EventModel::RoadClassTag { category }) == Ok::<
        BuilderModel,
        BuildError,
    >(m3)) by {
        assert(BuilderModel {
            net: m2.net,
            seg: SegModel {
                active: true,
                hops: m2.seg.hops,
                road_ok: false,
                speed_kmh: 0u32,
            },
        } =~~= m3);
    }
    lemma_run_events_append(m, p, tag_events(seq![category]));
    let m4 = BuilderModel {
        net: m.net,
        seg: SegModel { active: false, hops: hops, road_ok: false, speed_kmh: 0u32 },
    };
    lemma_run_single(m3, EventModel::SegmentEnd);
    assert(step_spec(m3, EventModel::SegmentEnd) == Ok::<BuilderModel, BuildError>(m4)) by {
        assert(BuilderModel {
            net: m3.net,
            seg: SegModel {
                active: false,
                hops: m3.seg.hops,
                road_ok: m3.seg.road_ok,
                speed_kmh: m3.seg.speed_kmh,
            },
        } =~~= m4);
    }
    lemma_run_events_append(m, p + tag_events(seq![category]), seq![EventModel::SegmentEnd]);
}

/// Inside a segment, a later classification tag fully overrides an
/// earlier one: running with two tags equals running with the second
/// alone.
pub proof fn lemma_last_tag_wins(m: BuilderModel, hops: Seq<i64>, t1: Seq<char>, t2: Seq<char>)
    ensures
        run_events(m, segment_events(hops, seq![t1, t2])) == run_events(
            m,
            segment_events(hops, seq![t2]),
        ),
{
    let p = seq![EventModel::SegmentStart] + hop_events(hops);
    let m2 = BuilderModel {
        net: m.net,
        seg: SegModel { active: true, hops: hops, road_ok: false, speed_kmh: 0u32 },
    };
    lemma_run_segment_prefix(m, hops);
    let ev1 = EventModel::RoadClassTag { category: t1 };
    let ev2 = EventModel::RoadClassTag { category: t2 };
    assert(tag_events(seq![t1, t2]) =~= seq![ev1, ev2]);
    assert(tag_events(seq![t2]) =~= seq![ev2]);
    assert(seq![ev1, ev2] =~= seq![ev1] + seq![ev2]);
    // the state after the first tag keeps net and hops, so the second
    // tag lands in the same place either way
    let m3 = match step_spec(m2, ev1) {
        Ok(x) => x,
        Err(_) => m2,
    };
    assert(step_spec(m2, ev1) == Ok::<BuilderModel, BuildError>(m3));
    assert(step_spec(m3, ev2) == step_spec(m2, ev2)) by {
        match speed_spec(t2) {
            Some(v) => {
                assert(BuilderModel {
                    net: m3.net,
                    seg: SegModel { active: true, hops: m3.seg.hops, road_ok: true, speed_kmh: v },
                } =~~= BuilderModel {
                    net: m2.net,
                    seg: SegModel { active: true, hops: m2.seg.hops, road_ok: true, speed_kmh: v },
                });
            },
            None => {
                assert(BuilderModel {
                    net: m3.net,
                    seg: SegModel {
                        active: true,
                        hops: m3.seg.hops,
                        road_ok: false,
                        speed_kmh: 0u32,
                    },
                } =~~= BuilderModel {
                    net: m2.net,
                    seg: SegModel {
                        active: true,
                        hops: m2.seg.hops,
                        road_ok: false,
                        speed_kmh: 0u32,
                    },
                });
            },
        }
    }
    lemma_run_single(m2, ev1);
    lemma_run_single(m3, ev2);
    lemma_run_single(m2, ev2);
    lemma_run_events_append(m2, seq![ev1], seq![ev2]);
    lemma_run_events_append(m, p, seq![ev1] + seq![ev2]);
    lemma_run_events_append(m, p, seq![ev2]);
    lemma_run_events_append(m, p + (seq![ev1] + seq![ev2]), seq![EventModel::SegmentEnd]);
    lemma_run_events_append(m, p + seq![ev2], seq![EventModel::SegmentEnd]);
    assert(segment_events(hops, seq![t1, t2]) =~= p + (seq![ev1] + seq![ev2]) + seq![
        EventModel::SegmentEnd,
    ]);
    assert(segment_events(hops, seq![t2]) =~= p + seq![ev2] + seq![EventModel::SegmentEnd]);
}

/// Law: a recognized category tag followed by an unrecognized one leaves
/// the network unchanged (the revocation wins), while the reverse order
/// behaves exactly as the recognized tag alone — the segment's edges are
/// added at that category's speed.
pub proof fn lemma_tag_revocation(
    m: BuilderModel,
    hops: Seq<i64>,
    good: Seq<char>,
    bad: Seq<char>,
)
    requires
        speed_spec(good) is Some,
        speed_spec(bad) is None,
    ensures
        run_events(m, segment_events(hops, seq![good, bad])) matches Ok(m2) && m2.net == m.net,
        run_events(m, segment_events(hops, seq![bad, good])) == run_events(
            m,
            segment_events(hops, seq![good]),
        ),
{
    lemma_last_tag_wins(m, hops, good, bad);
    lemma_unusable_segment_yields_no_edges(m, hops, bad);
    lemma_last_tag_wins(m, hops, bad, good);
}

} // verus!
