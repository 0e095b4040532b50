use petri_engine::connection::{Connection, ConnectionType, Endpoint, InputFrom};
use petri_engine::net::{NetError, PetriNet};
use petri_engine::place::Place;
use petri_engine::simulation::{SimError, Simulation};
use petri_engine::Connectable;

/// Adds a connection named by its endpoints, as the declarative builder
/// does: if `from` names a place the edge is an input of the transition
/// `to`, otherwise `from` names a transition feeding the place `to`.
fn connect(pn: &mut PetriNet, from: &str, to: &str, weight: i32, con_type: ConnectionType) {
    if let Some(place) = pn.place_with_name(from) {
        let transition = pn
            .transition_with_name(to)
            .expect("Transition does not exist");
        pn.add_connection(place, transition, weight, InputFrom::PLACE, con_type)
            .unwrap();
    } else {
        let transition = pn
            .transition_with_name(from)
            .expect("Transition does not exist");
        let place = pn.place_with_name(to).expect("Place does not exist");
        pn.add_connection(place, transition, weight, InputFrom::TRANSITION, con_type)
            .unwrap();
    }
}

fn big_net() -> PetriNet {
    let mut pn = PetriNet::new();
    let places = [
        ("L1", 0),
        ("L2", 2),
        ("L3", 1),
        ("L4", 0),
        ("L5", 0),
        ("L6", 0),
        ("L7", 10),
        ("L8", 0),
        ("L9", 0),
        ("L10", 0),
        ("L11", 0),
        ("L12", 0),
        ("L13", 0),
    ];
    for (name, tokens) in places {
        let id = pn.add_place(name);
        if tokens != 0 {
            pn.add_tokens(id, tokens);
        }
    }
    for name in ["Ta", "Tb", "Tc", "Td", "Te", "Tf", "Tg"] {
        pn.add_transition(name);
    }
    connect(&mut pn, "L1", "Ta", 2, ConnectionType::NORMAL);
    connect(&mut pn, "Ta", "L4", 1, ConnectionType::NORMAL);
    connect(&mut pn, "L4", "Td", 1, ConnectionType::NORMAL);
    connect(&mut pn, "L7", "Td", 1, ConnectionType::RESET);
    connect(&mut pn, "Td", "L11", 1, ConnectionType::NORMAL);
    connect(&mut pn, "L11", "Tg", 1, ConnectionType::NORMAL);
    connect(&mut pn, "Tg", "L12", 1, ConnectionType::NORMAL);
    connect(&mut pn, "Tb", "L1", 1, ConnectionType::NORMAL);
    connect(&mut pn, "Tb", "L5", 1, ConnectionType::NORMAL);
    connect(&mut pn, "L5", "Te", 1, ConnectionType::NORMAL);
    connect(&mut pn, "Te", "L8", 1, ConnectionType::NORMAL);
    connect(&mut pn, "L8", "Td", 1, ConnectionType::NORMAL);
    connect(&mut pn, "L8", "Tg", 1, ConnectionType::NORMAL);
    connect(&mut pn, "Te", "L9", 1, ConnectionType::NORMAL);
    connect(&mut pn, "L9", "Tg", 1, ConnectionType::NORMAL);
    connect(&mut pn, "Te", "L10", 1, ConnectionType::NORMAL);
    connect(&mut pn, "Tg", "L13", 1, ConnectionType::NORMAL);
    connect(&mut pn, "L13", "Tf", 1, ConnectionType::NORMAL);
    connect(&mut pn, "L10", "Tf", 1, ConnectionType::NORMAL);
    connect(&mut pn, "L2", "Tb", 1, ConnectionType::NORMAL);
    connect(&mut pn, "Tf", "L2", 1, ConnectionType::NORMAL);
    connect(&mut pn, "Tf", "L6", 1, ConnectionType::NORMAL);
    connect(&mut pn, "L6", "Te", 2, ConnectionType::INHIBITOR);
    connect(&mut pn, "L3", "Tc", 1, ConnectionType::NORMAL);
    connect(&mut pn, "Tc", "L6", 1, ConnectionType::NORMAL);
    pn
}

#[test]
fn declare_simple_pn() -> Result<(), String> {
    let mut pn = PetriNet::new();
    pn.add_place("P1");
    pn.add_place("P2");
    pn.add_transition("T1");
    connect(&mut pn, "P1", "T1", 1, ConnectionType::RESET);
    connect(&mut pn, "T1", "P2", 2, ConnectionType::NORMAL);

    assert_eq!(pn.places().len(), 2);
    assert_eq!(pn.transitions().len(), 1);
    assert_eq!(pn.connections().len(), 2);

    Ok(())
}

#[test]
fn run_simulation() -> Result<(), String> {
    let start = std::time::Instant::now();

    let pn = big_net();

    let mut simul = Simulation::new(pn).unwrap();
    simul.run().unwrap();

    let end = std::time::Instant::now();

    println!("Elapsed time: {:?}", end - start);

    Ok(())
}

#[test]
fn concurrency_check() -> Result<(), String> {
    let mut pn = PetriNet::new();
    let l1 = pn.add_place("L1");
    pn.add_tokens(l1, 1);
    pn.add_transition("T1");
    pn.add_transition("T2");
    connect(&mut pn, "L1", "T1", 1, ConnectionType::NORMAL);
    connect(&mut pn, "L1", "T2", 1, ConnectionType::NORMAL);

    let mut simul = Simulation::new(pn).unwrap();
    simul.run().unwrap();

    Ok(())
}

#[test]
fn guard_normal() {
    let sim = Simulation::new(PetriNet::new()).unwrap();
    let mut place = Place::new(0, "P");
    place.add_tokens(3);
    let exactly = Connection::new(0, 0, 3, InputFrom::PLACE, ConnectionType::NORMAL);
    let above = Connection::new(0, 0, 2, InputFrom::PLACE, ConnectionType::NORMAL);
    let below = Connection::new(0, 0, 4, InputFrom::PLACE, ConnectionType::NORMAL);
    assert!(sim.place_matches_requirement(&place, &exactly));
    assert!(sim.place_matches_requirement(&place, &above));
    assert!(!sim.place_matches_requirement(&place, &below));
}

#[test]
fn guard_inhibitor() {
    let sim = Simulation::new(PetriNet::new()).unwrap();
    let mut place = Place::new(0, "P");
    place.add_tokens(3);
    let at_threshold = Connection::new(0, 0, 3, InputFrom::PLACE, ConnectionType::INHIBITOR);
    let above = Connection::new(0, 0, 4, InputFrom::PLACE, ConnectionType::INHIBITOR);
    assert!(!sim.place_matches_requirement(&place, &at_threshold));
    assert!(sim.place_matches_requirement(&place, &above));
}

#[test]
fn guard_reset() {
    let sim = Simulation::new(PetriNet::new()).unwrap();
    let empty = Place::new(0, "P");
    let mut full = Place::new(1, "Q");
    full.add_tokens(7);
    let reset = Connection::new(0, 0, 5, InputFrom::PLACE, ConnectionType::RESET);
    assert!(sim.place_matches_requirement(&empty, &reset));
    assert!(sim.place_matches_requirement(&full, &reset));
}

#[test]
fn scenario_reset_propagate() {
    // P1 holds one token; T1 drains it through a RESET edge and delivers two
    // tokens to P2. A RESET edge is always enabled, so T1 keeps firing in
    // later cycles; the first cycle alone is checked here.
    let mut pn = PetriNet::new();
    let p1 = pn.add_place("P1");
    let p2 = pn.add_place("P2");
    let t1 = pn.add_transition("T1");
    pn.add_connection(p1, t1, 1, InputFrom::PLACE, ConnectionType::RESET)
        .unwrap();
    pn.add_connection(p2, t1, 2, InputFrom::TRANSITION, ConnectionType::NORMAL)
        .unwrap();
    pn.add_tokens(p1, 1);

    let mut sim = Simulation::new(pn).unwrap();
    let fired_any = sim.step().unwrap();

    assert!(fired_any);
    assert_eq!(sim.net().places()[p1].tokens(), 0);
    assert_eq!(sim.net().places()[p2].tokens(), 2);

    let rows = sim.rows();
    assert_eq!(rows.len(), 1);
    assert_eq!(rows[0].cycle, 0);
    assert_eq!(rows[0].marks, vec![1, 0]);
    assert_eq!(rows[0].fired, vec![true]);
}

#[test]
fn scenario_reset_gated_terminates() {
    // As above, with a NORMAL gate on P0 so that T1 fires exactly once: the
    // trace ends with the first all-idle row and holds exactly two rows.
    let mut pn = PetriNet::new();
    let p0 = pn.add_place("P0");
    let p1 = pn.add_place("P1");
    let p2 = pn.add_place("P2");
    let t1 = pn.add_transition("T1");
    pn.add_connection(p0, t1, 1, InputFrom::PLACE, ConnectionType::NORMAL)
        .unwrap();
    pn.add_connection(p1, t1, 1, InputFrom::PLACE, ConnectionType::RESET)
        .unwrap();
    pn.add_connection(p2, t1, 2, InputFrom::TRANSITION, ConnectionType::NORMAL)
        .unwrap();
    pn.add_tokens(p0, 1);
    pn.add_tokens(p1, 1);

    let mut sim = Simulation::new(pn).unwrap();
    sim.run().unwrap();

    assert_eq!(sim.net().places()[p0].tokens(), 0);
    assert_eq!(sim.net().places()[p1].tokens(), 0);
    assert_eq!(sim.net().places()[p2].tokens(), 2);

    let rows = sim.rows();
    assert_eq!(rows.len(), 2);
    assert_eq!(rows[0].cycle, 0);
    assert_eq!(rows[0].marks, vec![1, 1, 0]);
    assert_eq!(rows[0].fired, vec![true]);
    assert_eq!(rows[1].cycle, 1);
    assert_eq!(rows[1].marks, vec![0, 0, 2]);
    assert_eq!(rows[1].fired, vec![false]);
}

#[test]
fn scenario_contention() {
    // One token in L1, claimed by both T1 and T2: exactly one of them fires,
    // and L1 ends the cycle at zero, never negative.
    let mut pn = PetriNet::new();
    let l1 = pn.add_place("L1");
    let t1 = pn.add_transition("T1");
    let t2 = pn.add_transition("T2");
    pn.add_connection(l1, t1, 1, InputFrom::PLACE, ConnectionType::NORMAL)
        .unwrap();
    pn.add_connection(l1, t2, 1, InputFrom::PLACE, ConnectionType::NORMAL)
        .unwrap();
    pn.add_tokens(l1, 1);

    let mut sim = Simulation::new(pn).unwrap();
    sim.run().unwrap();

    assert_eq!(sim.net().places()[l1].tokens(), 0);
    let rows = sim.rows();
    assert_eq!(rows.len(), 2);
    let fired: Vec<bool> = rows[0].fired.clone();
    assert_eq!(fired.iter().filter(|f| **f).count(), 1);
    assert_eq!(rows[1].fired, vec![false, false]);
}

#[test]
fn scenario_contention_chosen_winner() {
    // With an injected choice the winner is deterministic: choice 0 keeps
    // the first connection's transition, choice 1 the second's.
    for (choice, t1_fires) in [(0usize, true), (1usize, false)] {
        let mut pn = PetriNet::new();
        let l1 = pn.add_place("L1");
        let t1 = pn.add_transition("T1");
        let t2 = pn.add_transition("T2");
        pn.add_connection(l1, t1, 1, InputFrom::PLACE, ConnectionType::NORMAL)
            .unwrap();
        pn.add_connection(l1, t2, 1, InputFrom::PLACE, ConnectionType::NORMAL)
            .unwrap();
        pn.add_tokens(l1, 1);

        let mut sim = Simulation::new(pn).unwrap();
        assert_eq!(sim.contested_count(), 1);
        let fired_any = sim.step_with_choices(&vec![choice]).unwrap();
        assert!(fired_any);
        assert_eq!(sim.rows()[0].fired, vec![t1_fires, !t1_fires]);
        assert_eq!(sim.net().places()[l1].tokens(), 0);
    }
}

#[test]
fn scenario_contention_unequal_enablement() {
    // L1 feeds both T1 and T2, but T2 also needs a token from the empty L2:
    // only T1 is enabled, so arbitration has a single candidate and must not
    // starve it.
    let mut pn = PetriNet::new();
    let l1 = pn.add_place("L1");
    let l2 = pn.add_place("L2");
    let t1 = pn.add_transition("T1");
    let t2 = pn.add_transition("T2");
    pn.add_connection(l1, t1, 1, InputFrom::PLACE, ConnectionType::NORMAL)
        .unwrap();
    pn.add_connection(l1, t2, 1, InputFrom::PLACE, ConnectionType::NORMAL)
        .unwrap();
    pn.add_connection(l2, t2, 1, InputFrom::PLACE, ConnectionType::NORMAL)
        .unwrap();
    pn.add_tokens(l1, 1);

    let mut sim = Simulation::new(pn).unwrap();
    sim.run().unwrap();

    assert_eq!(sim.rows()[0].fired, vec![true, false]);
    assert_eq!(sim.net().places()[l1].tokens(), 0);
}

#[test]
fn scenario_inhibitor() {
    // P holds no tokens, so the inhibitor edge P -> T enables T; firing T
    // leaves P untouched.
    let mut pn = PetriNet::new();
    let p = pn.add_place("P");
    let t = pn.add_transition("T");
    pn.add_connection(p, t, 1, InputFrom::PLACE, ConnectionType::INHIBITOR)
        .unwrap();

    let mut sim = Simulation::new(pn).unwrap();
    let fired_any = sim.step().unwrap();

    assert!(fired_any);
    assert_eq!(sim.rows()[0].fired, vec![true]);
    assert_eq!(sim.net().places()[p].tokens(), 0);
}

#[test]
fn inhibitor_blocks_when_tokens_present() {
    // With a token in P, the inhibitor edge disables T: the very first cycle
    // is idle and P keeps its token.
    let mut pn = PetriNet::new();
    let p = pn.add_place("P");
    let t = pn.add_transition("T");
    pn.add_connection(p, t, 1, InputFrom::PLACE, ConnectionType::INHIBITOR)
        .unwrap();
    pn.add_tokens(p, 1);

    let mut sim = Simulation::new(pn).unwrap();
    assert!(!sim.transition_enabled(t));
    sim.run().unwrap();

    assert_eq!(sim.rows().len(), 1);
    assert_eq!(sim.rows()[0].fired, vec![false]);
    assert_eq!(sim.net().places()[p].tokens(), 1);
}

#[test]
fn step_with_choices_without_contention() {
    // A net without contested places takes an empty choice vector.
    let mut pn = PetriNet::new();
    let p = pn.add_place("P");
    let t = pn.add_transition("T");
    pn.add_connection(p, t, 1, InputFrom::PLACE, ConnectionType::NORMAL)
        .unwrap();
    pn.add_tokens(p, 1);

    let mut sim = Simulation::new(pn).unwrap();
    assert_eq!(sim.contested_count(), 0);
    assert_eq!(sim.step_with_choices(&vec![]), Ok(true));
    assert_eq!(sim.net().places()[p].tokens(), 0);
}

#[test]
fn transition_enabled_needs_all_guards() {
    // A transition with one satisfied and one unsatisfied input is not
    // enabled: enablement is the conjunction of all guards.
    let mut pn = PetriNet::new();
    let p = pn.add_place("P");
    let q = pn.add_place("Q");
    let t = pn.add_transition("T");
    pn.add_connection(p, t, 1, InputFrom::PLACE, ConnectionType::NORMAL)
        .unwrap();
    pn.add_connection(q, t, 2, InputFrom::PLACE, ConnectionType::NORMAL)
        .unwrap();
    pn.add_tokens(p, 1);
    pn.add_tokens(q, 1);

    let sim = Simulation::new(pn).unwrap();
    assert!(!sim.transition_enabled(t));
}

#[test]
fn normal_consumption_conserves_tokens() {
    // A NORMAL input loses exactly its weight and the output place gains
    // exactly the output weight.
    let mut pn = PetriNet::new();
    let p = pn.add_place("P");
    let q = pn.add_place("Q");
    let t = pn.add_transition("T");
    pn.add_connection(p, t, 2, InputFrom::PLACE, ConnectionType::NORMAL)
        .unwrap();
    pn.add_connection(q, t, 2, InputFrom::TRANSITION, ConnectionType::NORMAL)
        .unwrap();
    pn.add_tokens(p, 3);

    let mut sim = Simulation::new(pn).unwrap();
    sim.run().unwrap();

    // One firing: P goes 3 -> 1 (below the guard), Q gains 2.
    assert_eq!(sim.net().places()[p].tokens(), 1);
    assert_eq!(sim.net().places()[q].tokens(), 2);
    assert_eq!(sim.rows().len(), 2);
}

#[test]
fn add_connection_unknown_place() {
    let mut pn = PetriNet::new();
    pn.add_transition("T");
    let r = pn.add_connection(7, 0, 1, InputFrom::PLACE, ConnectionType::NORMAL);
    assert_eq!(r, Err(NetError::PlaceNotFound));
}

#[test]
fn add_connection_unknown_transition() {
    let mut pn = PetriNet::new();
    pn.add_place("P");
    let r = pn.add_connection(0, 3, 1, InputFrom::PLACE, ConnectionType::NORMAL);
    assert_eq!(r, Err(NetError::TransitionNotFound));
}

#[test]
fn engine_rejects_inconsistent_net() {
    // A net assembled by hand whose connection points outside the arenas is
    // refused by the engine's eager invariant check.
    let pn = PetriNet {
        places: vec![],
        transitions: vec![],
        connections: vec![Connection::new(
            0,
            0,
            1,
            InputFrom::PLACE,
            ConnectionType::NORMAL,
        )],
    };
    match Simulation::new(pn) {
        Err(SimError::InvariantViolation) => {}
        _ => panic!("expected an invariant violation"),
    }
}

#[test]
fn marking_overflow_aborts_run() {
    // A sourceless transition is always enabled; pushing tokens into a place
    // already at the counter's maximum must abort with an overflow error.
    let mut pn = PetriNet::new();
    let p = pn.add_place("P");
    let t = pn.add_transition("T");
    pn.add_connection(p, t, 1, InputFrom::TRANSITION, ConnectionType::NORMAL)
        .unwrap();
    pn.add_tokens(p, i32::MAX);

    let mut sim = Simulation::new(pn).unwrap();
    assert_eq!(sim.run(), Err(SimError::MarkingOverflow));
}

#[test]
fn lookup_by_name() {
    let mut pn = PetriNet::new();
    pn.add_place("alpha");
    pn.add_place("beta");
    pn.add_transition("gamma");
    assert_eq!(pn.place_with_name("beta"), Some(1));
    assert_eq!(pn.place_with_name("gamma"), None);
    assert_eq!(pn.transition_with_name("gamma"), Some(0));
    assert_eq!(pn.transition_with_name("alpha"), None);
}

#[test]
fn connection_endpoints() {
    let input_edge = Connection::new(3, 5, 2, InputFrom::PLACE, ConnectionType::NORMAL);
    assert_eq!(input_edge.input(), Endpoint::Place(3));
    assert_eq!(input_edge.output(), Endpoint::Transition(5));
    assert_eq!(input_edge.weight(), 2);
    assert_eq!(input_edge.place(), 3);
    assert_eq!(input_edge.transition(), 5);

    let output_edge = Connection::new(3, 5, 2, InputFrom::TRANSITION, ConnectionType::RESET);
    assert_eq!(output_edge.input(), Endpoint::Transition(5));
    assert_eq!(output_edge.output(), Endpoint::Place(3));
    assert_eq!(output_edge.connection_type(), ConnectionType::RESET);
}

#[test]
fn node_titles_and_identity() {
    let place = Place::new(2, "buffer");
    assert_eq!(place.connection_title(), "buffer");
    assert_eq!(place.name(), "buffer");
    assert_eq!(place.tokens(), 0);

    let mut pn = PetriNet::new();
    let t = pn.add_transition("worker");
    assert_eq!(pn.transitions()[t].connection_title(), "worker");
    assert_eq!(pn.transitions()[t].id(), t);
    assert_eq!(pn.transitions()[t].name(), "worker");
}

#[test]
fn place_token_mutation() {
    let mut place = Place::new(0, "P");
    place.add_tokens(5);
    assert_eq!(place.tokens(), 5);
    place.remove_tokens(2);
    assert_eq!(place.tokens(), 3);
    place.clear_tokens();
    assert_eq!(place.tokens(), 0);
}
