use dining::roster::DEFAULT_RESOURCES;
use dining::roster::Philosopher;
use dining::roster::default_roster;
use dining::sim::ConfigError;
use dining::sim::EventKind;
use dining::sim::Phase;
use dining::sim::Simulation;

/// Whether actor `k` holds resource `r` in the simulation state, read off
/// from the phases exactly as an outside observer would: an actor holds
/// its left slot from acquisition until it finishes, and its right slot
/// only while eating.
fn observed_holds(sim: &Simulation, k: usize, r: usize) -> bool {
    match sim.phases[k] {
        Phase::Hungry => false,
        Phase::HasFirst => r == sim.philosophers[k].left,
        Phase::Eating => r == sim.philosophers[k].left || r == sim.philosophers[k].right,
        Phase::Done => false,
    }
}

/// No resource slot is held by two distinct actors at this instant.
fn assert_mutual_exclusion(sim: &Simulation) {
    for r in 0..sim.n_resources {
        let mut holders = 0;
        for k in 0..sim.philosophers.len() {
            if observed_holds(sim, k, r) {
                holders += 1;
            }
        }
        assert!(holders <= 1, "resource {} held by {} actors at once", r, holders);
    }
}

#[test]
fn default_roster_matches_the_demo() {
    let roster = default_roster();
    assert_eq!(roster.len(), 5);
    assert_eq!(roster[0].name, "Judith Butler");
    assert_eq!(roster[1].name, "Gilles Deleuze");
    assert_eq!(roster[2].name, "Karl Marx");
    assert_eq!(roster[3].name, "Emma Goldman");
    assert_eq!(roster[4].name, "Michel Foucault");
    let indices: Vec<(usize, usize)> = roster.iter().map(|p| (p.left, p.right)).collect();
    assert_eq!(indices, vec![(0, 1), (1, 2), (2, 3), (3, 4), (0, 4)]);
}

#[test]
fn philosopher_new_stores_its_arguments() {
    let p = Philosopher::new("Judith Butler", 0, 1);
    assert_eq!(p.name, "Judith Butler");
    assert_eq!(p.left, 0);
    assert_eq!(p.right, 1);
}

#[test]
fn full_run_completes_with_five_meals() {
    let roster = default_roster();
    let mut sim = Simulation::new(roster, DEFAULT_RESOURCES).unwrap();
    let complete = sim.run(&vec![]);
    assert!(complete);
    assert_eq!(sim.log.len(), 10);
    let begins = sim.log.iter().filter(|e| e.kind == EventKind::Begin).count();
    let ends = sim.log.iter().filter(|e| e.kind == EventKind::End).count();
    assert_eq!(begins, 5);
    assert_eq!(ends, 5);
    for k in 0..5 {
        let begin = sim
            .log
            .iter()
            .position(|e| e.actor == k && e.kind == EventKind::Begin)
            .expect("every actor begins eating");
        let end = sim
            .log
            .iter()
            .position(|e| e.actor == k && e.kind == EventKind::End)
            .expect("every actor finishes eating");
        assert!(begin < end, "actor {} finished before beginning", k);
    }
}

#[test]
fn every_schedule_completes_on_the_default_roster() {
    let schedules: Vec<Vec<usize>> = vec![
        vec![],
        vec![0, 1, 2, 3, 4, 0, 1, 2, 3, 4, 0, 1, 2, 3, 4],
        vec![4, 3, 2, 1, 0, 4, 3, 2, 1, 0],
        vec![4, 4, 4, 2, 2, 2, 0, 0, 0, 99, 7],
        vec![0, 0, 0, 0, 0, 0, 0, 0],
    ];
    for schedule in schedules {
        let mut sim = Simulation::new(default_roster(), DEFAULT_RESOURCES).unwrap();
        assert!(sim.run(&schedule), "schedule {:?} got stuck", schedule);
        assert_eq!(sim.log.len(), 10);
    }
}

#[test]
fn mutual_exclusion_holds_at_every_instant() {
    let roster = default_roster();
    let mut sim = Simulation::new(roster, DEFAULT_RESOURCES).unwrap();
    assert_mutual_exclusion(&sim);
    // Drive the actors round-robin, one transition attempt at a time, and
    // check after each attempt that no slot is doubly held.
    let mut moves = 0;
    while moves < 100 {
        let mut progressed = false;
        for k in 0..5 {
            if sim.step(k) {
                progressed = true;
            }
            assert_mutual_exclusion(&sim);
        }
        if !progressed {
            break;
        }
        moves += 1;
    }
    assert!(sim.is_complete());
}

#[test]
fn ends_never_precede_begins_in_any_interleaving() {
    let roster = default_roster();
    let mut sim = Simulation::new(roster, DEFAULT_RESOURCES).unwrap();
    let complete = sim.run(&vec![2, 2, 4, 0, 3, 1, 4, 4, 2]);
    assert!(complete);
    for (i, e) in sim.log.iter().enumerate() {
        if e.kind == EventKind::End {
            let earlier_begin = sim.log[..i]
                .iter()
                .any(|b| b.actor == e.actor && b.kind == EventKind::Begin);
            assert!(earlier_begin, "end event without an earlier begin at {}", i);
        }
    }
}

#[test]
fn symmetric_roster_can_deadlock() {
    // Without the one flipped actor, every actor takes its clockwise
    // neighbour first: an adversarial schedule in which each actor grabs
    // its first fork leaves everyone waiting on the next in a cycle.
    let mut roster = Vec::new();
    roster.push(Philosopher::new("Judith Butler", 0, 1));
    roster.push(Philosopher::new("Gilles Deleuze", 1, 2));
    roster.push(Philosopher::new("Karl Marx", 2, 3));
    roster.push(Philosopher::new("Emma Goldman", 3, 4));
    roster.push(Philosopher::new("Michel Foucault", 4, 0));
    let mut sim = Simulation::new(roster, DEFAULT_RESOURCES).unwrap();
    for k in 0..5 {
        assert!(sim.step(k), "actor {} should acquire its first fork", k);
    }
    assert!(sim.is_deadlocked());
    // Even letting every actor try again moves nothing.
    let complete = sim.run(&vec![0, 1, 2, 3, 4]);
    assert!(!complete);
    assert_eq!(sim.log.len(), 0);
}

#[test]
fn blocked_actor_changes_nothing() {
    let roster = default_roster();
    let mut sim = Simulation::new(roster, DEFAULT_RESOURCES).unwrap();
    assert!(sim.step(0));
    // The last actor wants resource 0 first, which actor 0 now holds.
    let phases_before = sim.phases.clone();
    let holders_before = sim.holder.clone();
    assert!(!sim.step(4));
    assert_eq!(sim.phases, phases_before);
    assert_eq!(sim.holder, holders_before);
    assert_eq!(sim.log.len(), 0);
}

#[test]
fn out_of_bounds_roster_is_rejected() {
    let mut roster = Vec::new();
    roster.push(Philosopher::new("Judith Butler", 0, 5));
    match Simulation::new(roster, DEFAULT_RESOURCES) {
        Err(ConfigError::ResourceIndexOutOfBounds) => {}
        _ => panic!("expected a configuration error"),
    }
    let mut tall = Vec::new();
    tall.push(Philosopher::new("Gilles Deleuze", 7, 1));
    assert!(Simulation::new(tall, DEFAULT_RESOURCES).is_err());
    // The same indices are fine on a larger ring.
    let mut wide = Vec::new();
    wide.push(Philosopher::new("Karl Marx", 7, 1));
    assert!(Simulation::new(wide, 8).is_ok());
}
