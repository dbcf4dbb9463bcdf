use vstd::prelude::*;

verus! {

/// Identifier of an intersection of the road graph.
#[derive(Clone, Copy, Debug, PartialEq, Eq, Structural, Hash)]
pub struct IntersectionID(pub u32);

/// Identifier of a lane of the road graph.
#[derive(Clone, Copy, Debug, PartialEq, Eq, Structural, Hash)]
pub struct LaneID(pub u32);

/// A turn inside intersection `parent`, from lane `src` to lane `dst`.
#[derive(Clone, Copy, Debug, PartialEq, Eq, Structural, Hash)]
pub struct TurnID {
    pub parent: IntersectionID,
    pub src: LaneID,
    pub dst: LaneID,
}

#[derive(Clone, Copy, Debug, PartialEq, Eq, Structural, Hash)]
pub enum TraverseKind {
    Lane(LaneID),
    Turn(TurnID),
}

#[derive(Clone, Copy, Debug, PartialEq, Eq, Structural, Hash)]
pub enum TraverseDirection {
    Forward,
    Backward,
}

/// A lane or a turn, walked in one direction.
#[derive(Clone, Copy, Debug, PartialEq, Eq, Structural, Hash)]
pub struct Traversable {
    pub kind: TraverseKind,
    pub dir: TraverseDirection,
}

/// Forward when the walk starts from the element's own source, else backward.
pub open spec fn dir_when(from_src: bool) -> TraverseDirection {
    if from_src {
        TraverseDirection::Forward
    } else {
        TraverseDirection::Backward
    }
}

/// Turn `t` taken by a pedestrian standing on lane `l`.
pub open spec fn turn_from_lane(t: TurnID, l: LaneID) -> Traversable {
    Traversable { kind: TraverseKind::Turn(t), dir: dir_when(t.src == l) }
}

/// The lane a pedestrian stands on at the end of turn `t` walked in `dir`.
pub open spec fn spec_arrived_lane(t: TurnID, dir: TraverseDirection) -> LaneID {
    match dir {
        TraverseDirection::Forward => t.dst,
        TraverseDirection::Backward => t.src,
    }
}

/// The turns of `turns` other than `skip`, each taken from lane `l`, in order.
pub open spec fn other_turns(turns: Seq<TurnID>, skip: TurnID, l: LaneID) -> Seq<Traversable>
    decreases turns.len(),
{
    if turns.len() == 0 {
        Seq::empty()
    } else {
        let rest = other_turns(turns.drop_last(), skip, l);
        if turns.last() == skip {
            rest
        } else {
            rest.push(turn_from_lane(turns.last(), l))
        }
    }
}

/// The lane a pedestrian stands on at the end of turn `t` walked in `dir`.
pub fn arrived_lane(t: TurnID, dir: TraverseDirection) -> (r: LaneID)
    ensures
        r == spec_arrived_lane(t, dir),
{
    match dir {
        TraverseDirection::Forward => t.dst,
        TraverseDirection::Backward => t.src,
    }
}

/// Where a pedestrian may go at the end of lane `l`: each of `turns` (the turns
/// touching `l` at the intersection it arrives at), walked forward when it starts
/// from `l`.
pub fn lane_exits(l: LaneID, turns: &Vec<TurnID>) -> (r: Vec<Traversable>)
    ensures
        r@.len() == turns@.len(),
        forall|i: int| 0 <= i < r@.len() ==> #[trigger] r@[i] == turn_from_lane(turns@[i], l),
{
    let mut out: Vec<Traversable> = Vec::new();
    let mut i: usize = 0;
    while i < turns.len()
        invariant
            i <= turns@.len(),
            out@.len() == i,
            forall|j: int| 0 <= j < i ==> #[trigger] out@[j] == turn_from_lane(turns@[j], l),
        decreases turns@.len() - i,
    {
        let t = turns[i];
        let dir = if t.src == l {
            TraverseDirection::Forward
        } else {
            TraverseDirection::Backward
        };
        out.push(Traversable { kind: TraverseKind::Turn(t), dir });
        i += 1;
    }
    out
}

/// Where a pedestrian may go at the end of turn `turn`, having arrived on lane
/// `arrived` whose source intersection is `arrived_src`: first that lane (forward
/// when it starts at the turn's intersection), then every other turn of
/// `inter_turns` (the turns touching `arrived` at that intersection).
pub fn turn_exits(turn: TurnID, arrived: LaneID, arrived_src: IntersectionID, inter_turns: &Vec<TurnID>) -> (r: Vec<
    Traversable,
>)
    ensures
        r@ == seq![Traversable { kind: TraverseKind::Lane(arrived), dir: dir_when(arrived_src == turn.parent) }]
            + other_turns(inter_turns@, turn, arrived),
{
    let first = Traversable {
        kind: TraverseKind::Lane(arrived),
        dir: if arrived_src == turn.parent {
            TraverseDirection::Forward
        } else {
            TraverseDirection::Backward
        },
    };
    let ghost head = seq![first];
    let mut out: Vec<Traversable> = Vec::new();
    out.push(first);
    let mut i: usize = 0;
    proof {
        assert(inter_turns@.subrange(0, 0) =~= Seq::<TurnID>::empty());
        assert(out@ =~= head + other_turns(inter_turns@.subrange(0, 0), turn, arrived));
    }
    while i < inter_turns.len()
        invariant
            i <= inter_turns@.len(),
            head == seq![first],
            out@ == head + other_turns(inter_turns@.subrange(0, i as int), turn, arrived),
        decreases inter_turns@.len() - i,
    {
        let t = inter_turns[i];
        proof {
            assert(inter_turns@.subrange(0, i + 1).drop_last() =~= inter_turns@.subrange(0, i as int));
        }
        if t != turn {
            let dir = if t.src == arrived {
                TraverseDirection::Forward
            } else {
                TraverseDirection::Backward
            };
            out.push(Traversable { kind: TraverseKind::Turn(t), dir });
            proof {
                let rest = other_turns(inter_turns@.subrange(0, i as int), turn, arrived);
                assert(head + rest.push(turn_from_lane(t, arrived)) =~= (head + rest).push(
                    turn_from_lane(t, arrived),
                ));
            }
        }
        i += 1;
    }
    proof {
        assert(inter_turns@.subrange(0, inter_turns@.len() as int) =~= inter_turns@);
    }
    out
}

/// The candidate that a draw `draw` picks: candidate `draw % len`; `None` when
/// there is no candidate.
pub fn pick(candidates: &Vec<Traversable>, draw: usize) -> (r: Option<Traversable>)
    ensures
        candidates@.len() == 0 ==> r is None,
        candidates@.len() > 0 ==> r == Some(candidates@[(draw as int) % (candidates@.len() as int)]),
{
    if candidates.len() == 0 {
        None
    } else {
        Some(candidates[draw % candidates.len()])
    }
}

} // verus!
