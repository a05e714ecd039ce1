//! End-to-end tests of the collision pipeline: broad phase, narrow phase and
//! the world, on fixed-point coordinates with one thousandth of a unit per
//! step.

use ncollide::broad_phase::{AllPairsFilter, DbvtBroadPhase};
use ncollide::partitioning::{Dbvt, PointDistanceCostFn};
use ncollide::bounding_volume::Aabb;
use ncollide::events::{ContactEvent, Proximity};
use ncollide::math::{Isometry, Vect};
use ncollide::shape::{Ball, Shape};
use ncollide::world::{CollisionGroups, CollisionWorld, GeometricQueryType};

fn ball_aabb(x: i64, y: i64, z: i64, r: i64) -> Aabb {
    Aabb::new(Vect::new(x - r, y - r, z - r), Vect::new(x + r, y + r, z + r))
}

fn at(x: i64, y: i64, z: i64) -> Isometry {
    Isometry::new(Vect::new(x, y, z))
}

#[test]
fn issue_57_object_remove() {
    let mut world: CollisionWorld<()> = CollisionWorld::new(100);
    let contact_query = GeometricQueryType::Contacts(0, 0);
    let object1 = world.add(
        at(1000, 0, 0),
        Shape::Ball(Ball::new(1000)),
        CollisionGroups::new(),
        contact_query,
        (),
    );
    let _object2 = world.add(
        at(1000, 1000, 0),
        Shape::Ball(Ball::new(1000)),
        CollisionGroups::new(),
        contact_query,
        (),
    );
    let _object3 = world.add(
        at(1000, 2000, 0),
        Shape::Ball(Ball::new(1000)),
        CollisionGroups::new(),
        contact_query,
        (),
    );
    world.update();
    let gone = vec![object1];
    world.remove(&gone);
    world.update();
    world.update();
}

#[test]
fn broad_phase_four_balls_then_removal() {
    // Four unit-diameter balls, looseness 0.2: every pair overlaps, giving 6
    // interferences; after removing two of them one pair is left.
    let mut bf = DbvtBroadPhase::new(200);
    let proxy1 = bf.create_proxy(ball_aabb(0, 0, 0, 500), 0);
    let proxy2 = bf.create_proxy(ball_aabb(0, 500, 0, 500), 1);
    let _proxy3 = bf.create_proxy(ball_aabb(500, 0, 0, 500), 2);
    let _proxy4 = bf.create_proxy(ball_aabb(500, 500, 0, 500), 3);

    let _ = bf.update(&AllPairsFilter);
    assert_eq!(bf.num_interferences(), 6);

    let gone1 = vec![proxy1];
    let _ = bf.remove(&gone1);
    let gone2 = vec![proxy2];
    let _ = bf.remove(&gone2);

    let _ = bf.update(&AllPairsFilter);
    assert_eq!(bf.num_interferences(), 1);
}

#[test]
fn world_remove_emits_stopped_once() {
    // Three unit balls in a row with a contact query: the two adjacent pairs
    // start touching; removing the first ball stops its pair; afterwards the
    // world is quiet.
    let mut world: CollisionWorld<()> = CollisionWorld::new(100);
    let q = GeometricQueryType::Contacts(0, 0);
    let groups = CollisionGroups::new();
    let b = Shape::Ball(Ball::new(500));
    let h0 = world.add(at(1000, 0, 0), b, groups, q, ());
    let h1 = world.add(at(1000, 1000, 0), b, groups, q, ());
    let h2 = world.add(at(1000, 2000, 0), b, groups, q, ());

    world.update();
    let events = world.contact_events();
    let mut started: Vec<(u32, u32)> = Vec::new();
    for i in 0..events.len() {
        match events.get(i) {
            ContactEvent::Started(a, b) => started.push((a, b)),
            ContactEvent::Stopped(_, _) => panic!("no pair may stop on the first tick"),
        }
    }
    assert_eq!(started.len(), 2);
    assert!(started.contains(&(h0, h1)));
    assert!(started.contains(&(h1, h2)));
    assert!(!started.contains(&(h0, h2)));

    // Removal publishes the stopped event at once.
    let gone = vec![h0];
    world.remove(&gone);
    let events = world.contact_events();
    let mut stopped: Vec<(u32, u32)> = Vec::new();
    for i in 0..events.len() {
        match events.get(i) {
            ContactEvent::Stopped(a, b) => stopped.push((a, b)),
            ContactEvent::Started(_, _) => {}
        }
    }
    assert_eq!(stopped, vec![(h0, h1)]);

    // The next updates are quiet.
    world.update();
    assert_eq!(world.contact_events().len(), 0);
    assert_eq!(world.proximity_events().len(), 0);
    world.update();
    assert_eq!(world.contact_events().len(), 0);
    assert_eq!(world.proximity_events().len(), 0);
}

#[test]
fn proximity_transitions_on_a_slide() {
    // Two balls on a line, radii summing to 0.5 and margins summing to 1.0:
    // `WithinMargin` starts at distance 1.5 and `Intersecting` at 0.5.
    // Moving one ball inward and back out walks the four transitions.
    let mut world: CollisionWorld<()> = CollisionWorld::new(100);
    let groups = CollisionGroups::new();
    let b = Shape::Ball(Ball::new(250));
    let q = GeometricQueryType::Proximity(500);
    let _fixed = world.add(at(0, 0, 0), b, groups, q, ());
    let mover = world.add(at(2000, 0, 0), b, groups, q, ());
    world.update();
    assert_eq!(world.proximity_events().len(), 0);

    let mut stream: Vec<(Proximity, Proximity)> = Vec::new();
    for x in [1200i64, 400, 1200, 2000] {
        world.set_position(mover, at(x, 0, 0));
        world.update();
        let events = world.proximity_events();
        for i in 0..events.len() {
            let e = events.get(i);
            stream.push((e.prev_status, e.new_status));
        }
    }
    assert_eq!(
        stream,
        vec![
            (Proximity::Disjoint, Proximity::WithinMargin),
            (Proximity::WithinMargin, Proximity::Intersecting),
            (Proximity::Intersecting, Proximity::WithinMargin),
            (Proximity::WithinMargin, Proximity::Disjoint),
        ]
    );
}

#[test]
fn groups_whitelist_filters_pairs() {
    // Membership masks 0x1, 0x2, 0x4; the first object only whitelists 0x2,
    // so only the pair (0, 1) may interact.
    let mut g0 = CollisionGroups::new();
    g0.set_membership(0x1);
    g0.set_whitelist(0x2);
    let mut g1 = CollisionGroups::new();
    g1.set_membership(0x2);
    let mut g2 = CollisionGroups::new();
    g2.set_membership(0x4);

    assert!(g0.can_interact_with_groups(&g1));
    assert!(g1.can_interact_with_groups(&g0));
    assert!(!g0.can_interact_with_groups(&g2));
    assert!(!g2.can_interact_with_groups(&g0));

    // In a world, the filtered pair yields no event even while overlapping.
    let mut world: CollisionWorld<()> = CollisionWorld::new(100);
    let q = GeometricQueryType::Contacts(0, 0);
    let b = Shape::Ball(Ball::new(250));
    let h0 = world.add(at(0, 0, 0), b, g0, q, ());
    let h1 = world.add(at(300, 0, 0), b, g1, q, ());
    let h2 = world.add(at(-300, 0, 0), b, g2, q, ());
    world.update();
    let events = world.contact_events();
    let mut seen: Vec<(u32, u32)> = Vec::new();
    for i in 0..events.len() {
        match events.get(i) {
            ContactEvent::Started(a, b) => seen.push((a, b)),
            ContactEvent::Stopped(_, _) => {}
        }
    }
    assert_eq!(seen, vec![(h0, h1)]);
    let _ = h2;
}

#[test]
fn many_proxies_single_crossing() {
    // A thousand separated boxes raise no pair; sweeping one box through a
    // neighbour and out yields exactly one started and one stopped report.
    let mut bf = DbvtBroadPhase::new(100);
    let mut seed: u64 = 0x2545_F491_4F6C_DD1D;
    let mut ids: Vec<u32> = Vec::new();
    for i in 0..1000u32 {
        // A deterministic jitter keeps the boxes strictly apart.
        seed = seed.wrapping_mul(6364136223846793005).wrapping_add(1442695040888963407);
        let jx = (seed >> 33) as i64 % 400;
        seed = seed.wrapping_mul(6364136223846793005).wrapping_add(1442695040888963407);
        let jy = (seed >> 33) as i64 % 400;
        let gx = (i % 32) as i64 * 3000 + jx;
        let gy = (i / 32) as i64 * 3000 + jy;
        let id = bf.create_proxy(
            Aabb::new(Vect::new(gx - 500, gy - 500, 0), Vect::new(gx + 500, gy + 500, 1000)),
            i,
        );
        ids.push(id);
    }
    let (started, stopped) = bf.update(&AllPairsFilter);
    assert_eq!(started.len(), 0);
    assert_eq!(stopped.len(), 0);
    assert_eq!(bf.num_interferences(), 0);

    // Sweep box 0 onto box 1 (grid position (1, 0)).
    let one = ids[1] as usize;
    let _ = one;
    bf.deferred_set_bounding_volume(
        ids[0],
        Aabb::new(Vect::new(2600, -500, 0), Vect::new(3600, 500, 1000)),
    );
    let (started, stopped) = bf.update(&AllPairsFilter);
    assert_eq!(started.len(), 1);
    assert_eq!(stopped.len(), 0);
    assert_eq!(bf.num_interferences(), 1);

    // And out again, far away from everything.
    bf.deferred_set_bounding_volume(
        ids[0],
        Aabb::new(Vect::new(-9000, -9000, 0), Vect::new(-8000, -8000, 1000)),
    );
    let (started, stopped) = bf.update(&AllPairsFilter);
    assert_eq!(started.len(), 0);
    assert_eq!(stopped.len(), 1);
    assert_eq!(bf.num_interferences(), 0);
}

#[test]
fn repeated_set_position_is_absorbed() {
    // Setting the same position twice: the second update after the repeat
    // publishes nothing.
    let mut world: CollisionWorld<()> = CollisionWorld::new(100);
    let q = GeometricQueryType::Contacts(0, 0);
    let groups = CollisionGroups::new();
    let b = Shape::Ball(Ball::new(500));
    let h0 = world.add(at(0, 0, 0), b, groups, q, ());
    let _h1 = world.add(at(600, 0, 0), b, groups, q, ());
    world.update();
    assert_eq!(world.contact_events().len(), 1);

    let p = at(650, 0, 0);
    world.set_position(h0, p);
    world.update();
    world.set_position(h0, p);
    world.update();
    assert_eq!(world.contact_events().len(), 0);
    assert_eq!(world.proximity_events().len(), 0);
    assert_eq!(world.broad_phase().num_interferences(), 1);
}

#[test]
fn set_query_type_restarts_the_pair() {
    // Changing the query type invalidates the pair's entry, publishing the
    // stopped event its old state owes, and the next tick starts afresh.
    let mut world: CollisionWorld<()> = CollisionWorld::new(100);
    let groups = CollisionGroups::new();
    let b = Shape::Ball(Ball::new(500));
    let h0 = world.add(at(0, 0, 0), b, groups, GeometricQueryType::Contacts(0, 0), ());
    let h1 = world.add(at(600, 0, 0), b, groups, GeometricQueryType::Contacts(0, 0), ());
    world.update();
    assert_eq!(world.contact_events().len(), 1);

    world.set_query_type(h0, GeometricQueryType::Proximity(200));
    let events = world.contact_events();
    let mut saw_stopped = false;
    for i in 0..events.len() {
        if matches!(events.get(i), ContactEvent::Stopped(a, b) if a == h0 && b == h1) {
            saw_stopped = true;
        }
    }
    assert!(saw_stopped);

    // The pair re-forms once the broad phase reports it afresh: move the
    // object away and back.
    world.set_position(h0, at(5000, 0, 0));
    world.update();
    assert_eq!(world.proximity_events().len(), 0);
    world.set_position(h0, at(0, 0, 0));
    world.update();
    let events = world.proximity_events();
    assert_eq!(events.len(), 1);
    let e = events.get(0);
    assert_eq!(e.prev_status, Proximity::Disjoint);
    assert_eq!(e.new_status, Proximity::Intersecting);
}

#[test]
fn best_first_search_finds_nearest_leaf() {
    let mut tree = Dbvt::new();
    tree.insert(ball_aabb(0, 0, 0, 500), 10);
    tree.insert(ball_aabb(4000, 0, 0, 500), 11);
    tree.insert(ball_aabb(0, 4000, 0, 500), 12);
    tree.insert(ball_aabb(4000, 4000, 0, 500), 13);

    let probe = PointDistanceCostFn { point: Vect::new(3000, 100, 0) };
    let found = tree.best_first_search(&probe);
    match found {
        Some((payload, cost)) => {
            assert_eq!(payload, 11);
            // Half a unit short of the box on one axis.
            assert_eq!(cost, 500 * 500);
        }
        None => panic!("a populated tree always yields a nearest leaf"),
    }

    // A point inside a leaf's box costs nothing.
    let probe = PointDistanceCostFn { point: Vect::new(4000, 4000, 0) };
    match tree.best_first_search(&probe) {
        Some((payload, cost)) => {
            assert_eq!(payload, 13);
            assert_eq!(cost, 0);
        }
        None => panic!("a populated tree always yields a nearest leaf"),
    }

    let empty = Dbvt::new();
    assert!(empty.best_first_search(&probe).is_none());
}

#[test]
fn aabb_interference_query() {
    let mut world: CollisionWorld<()> = CollisionWorld::new(100);
    let q = GeometricQueryType::Contacts(0, 0);
    let groups = CollisionGroups::new();
    let b = Shape::Ball(Ball::new(500));
    let h0 = world.add(at(0, 0, 0), b, groups, q, ());
    let h1 = world.add(at(5000, 0, 0), b, groups, q, ());
    world.update();

    let probe = Aabb::new(Vect::new(-100, -100, -100), Vect::new(100, 100, 100));
    let hits = world.interferences_with_aabb(&probe);
    assert!(hits.contains(&h0));
    assert!(!hits.contains(&h1));

    let far = Aabb::new(Vect::new(20000, 0, 0), Vect::new(21000, 100, 100));
    assert!(world.interferences_with_aabb(&far).is_empty());
}

#[test]
fn point_interference_and_self_interaction() {
    let mut world: CollisionWorld<()> = CollisionWorld::new(100);
    let q = GeometricQueryType::Contacts(0, 0);
    let groups = CollisionGroups::new();
    let b = Shape::Ball(Ball::new(500));
    let h0 = world.add(at(0, 0, 0), b, groups, q, ());
    let h1 = world.add(at(5000, 0, 0), b, groups, q, ());
    world.update();

    let hits = world.interferences_with_point(&Vect::new(100, 100, 0));
    assert!(hits.contains(&h0));
    assert!(!hits.contains(&h1));
    assert!(world.interferences_with_point(&Vect::new(2500, 0, 0)).is_empty());

    // The self-interaction flag is off by default and honours the masks.
    let mut g = CollisionGroups::new();
    assert!(!g.can_interact_with_self());
    g.enable_self_interaction(true);
    assert!(g.can_interact_with_self());
    g.set_whitelist(0);
    assert!(!g.can_interact_with_self());
}
