use egregoria::pedestrians::{
    arrived_lane, lane_exits, pick, turn_exits, IntersectionID, LaneID, Traversable,
    TraverseDirection, TraverseKind, TurnID,
};

fn turn(p: u32, s: u32, d: u32) -> TurnID {
    TurnID { parent: IntersectionID(p), src: LaneID(s), dst: LaneID(d) }
}

#[test]
fn lane_exits_orient_turns() {
    let l = LaneID(4);
    let ts = vec![turn(1, 4, 5), turn(1, 6, 4)];
    let r = lane_exits(l, &ts);
    assert_eq!(
        r,
        vec![
            Traversable { kind: TraverseKind::Turn(ts[0]), dir: TraverseDirection::Forward },
            Traversable { kind: TraverseKind::Turn(ts[1]), dir: TraverseDirection::Backward },
        ]
    );
    assert!(lane_exits(l, &vec![]).is_empty());
}

#[test]
fn turn_exits_lane_first_then_other_turns() {
    let t = turn(2, 4, 5);
    assert_eq!(arrived_lane(t, TraverseDirection::Forward), LaneID(5));
    assert_eq!(arrived_lane(t, TraverseDirection::Backward), LaneID(4));
    let inter = vec![turn(2, 5, 9), t, turn(2, 8, 5)];
    let r = turn_exits(t, LaneID(5), IntersectionID(2), &inter);
    assert_eq!(
        r,
        vec![
            Traversable { kind: TraverseKind::Lane(LaneID(5)), dir: TraverseDirection::Forward },
            Traversable { kind: TraverseKind::Turn(inter[0]), dir: TraverseDirection::Forward },
            Traversable { kind: TraverseKind::Turn(inter[2]), dir: TraverseDirection::Backward },
        ]
    );
    let r2 = turn_exits(t, LaneID(5), IntersectionID(3), &vec![t]);
    assert_eq!(
        r2,
        vec![Traversable { kind: TraverseKind::Lane(LaneID(5)), dir: TraverseDirection::Backward }]
    );
}

#[test]
fn pick_wraps_the_draw() {
    let c = lane_exits(LaneID(1), &vec![turn(0, 1, 2), turn(0, 1, 3), turn(0, 1, 4)]);
    assert_eq!(pick(&c, 4), Some(c[1]));
    assert_eq!(pick(&c, 2), Some(c[2]));
    assert_eq!(pick(&vec![], 7), None);
}
