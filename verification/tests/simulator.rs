//! The simulator's own behaviour: faults, crashes, disks, and the invariants that
//! it watches.

use std::cell::Cell;
use std::collections::BTreeSet;

use micro_raft::invariants::{
    check_applied_agreement, check_log_matching, check_log_structure, CommittedRegistry, Failure,
    Invariants, Violation,
};
use micro_raft::message::RaftMessage;
use micro_raft::sim::{PartitionError, PersistenceMode, Sim, DROP_ALL};
use micro_raft::types::{Command, Entry, HardState, Role, Term};

fn vote_request(term: Term) -> RaftMessage {
    RaftMessage::RequestVote {
        term,
        candidate_id: 1,
        last_log_index: 0,
        last_log_term: 0,
    }
}

#[test]
fn partition_blocks_a_message_already_in_flight() {
    let mut sim = Sim::new(3, 17);
    sim.faults.delay_min_ms = 100;
    sim.faults.delay_max_ms = 100;
    sim.enqueue(1, 2, vote_request(9)).unwrap();
    sim.set_partitions(vec![BTreeSet::from([1])]).unwrap();

    sim.run_ms(110).unwrap();

    assert_eq!(sim.node(2).hard.current_term, 0);
    assert!(sim.stats().messages_dropped_by_partition >= 1);
}

#[test]
fn crashed_node_rejects_immediate_and_queued_delivery() {
    let mut sim = Sim::new(3, 23);
    sim.faults.delay_min_ms = 100;
    sim.faults.delay_max_ms = 100;
    sim.enqueue(1, 2, vote_request(8)).unwrap();
    assert!(sim.crash(2).unwrap());

    assert!(sim.deliver_now(1, 2, vote_request(9)).unwrap().is_empty());
    sim.run_ms(110).unwrap();

    assert_eq!(sim.durable_hard_state(2).current_term, 0);
    assert!(sim.stats().messages_dropped_to_crashed_nodes >= 2);
}

#[test]
fn a_message_arrives_after_its_delay_and_not_before() {
    let mut sim = Sim::new(3, 17);
    sim.faults.delay_min_ms = 100;
    sim.faults.delay_max_ms = 100;
    sim.enqueue(1, 2, vote_request(9)).unwrap();
    sim.run_ms(100).unwrap();
    assert_eq!(sim.node(2).hard.current_term, 0);
    sim.run_ms(10).unwrap();
    assert_eq!(sim.node(2).hard.current_term, 9);
    assert_eq!(sim.now(), 110);
}

#[test]
fn the_clock_moves_in_whole_ticks() {
    let mut sim = Sim::new(3, 1);
    sim.run_ms(0).unwrap();
    assert_eq!(sim.now(), 0);
    sim.run_ms(1).unwrap();
    assert_eq!(sim.now(), 10);
    sim.run_ms_ticking_only(&[1], 11).unwrap();
    assert_eq!(sim.now(), 30);
    assert_eq!(sim.node(2).now_ms, 0);
    assert_eq!(sim.node(1).now_ms, 20);
    assert!(!sim.run_until(|_| false, 25).unwrap());
    assert_eq!(sim.now(), 60);
    assert!(sim.run_until(|s| s.now() >= 80, 1_000).unwrap());
    assert_eq!(sim.now(), 80);
}

#[test]
fn partitions_name_known_nodes_once() {
    let mut sim = Sim::new(3, 1);
    assert_eq!(
        sim.set_partitions(vec![BTreeSet::from([1, 4])]),
        Err(PartitionError::UnknownNode { id: 4 })
    );
    assert_eq!(
        sim.set_partitions(vec![BTreeSet::from([1, 2]), BTreeSet::from([2, 3])]),
        Err(PartitionError::ListedTwice { id: 2 })
    );
    assert_eq!(
        sim.set_partitions(vec![
            BTreeSet::from([5]),
            BTreeSet::from([1]),
            BTreeSet::from([1])
        ]),
        Err(PartitionError::UnknownNode { id: 5 }),
        "cell by cell"
    );
    assert_eq!(
        sim.set_partitions(vec![
            BTreeSet::from([2]),
            BTreeSet::from([2, 9]),
            BTreeSet::from([0])
        ]),
        Err(PartitionError::ListedTwice { id: 2 })
    );
    assert_eq!(sim.stats().partitions_imposed, 0);
    sim.heal_partitions();
    assert_eq!(sim.stats().partitions_healed, 0);
    assert_eq!(sim.set_partitions(vec![BTreeSet::from([1])]), Ok(()));
    sim.heal_partitions();
    assert_eq!(
        (sim.stats().partitions_imposed, sim.stats().partitions_healed),
        (1, 1)
    );
    sim.reset_stats();
    assert_eq!(sim.stats().partitions_imposed, 0);
}

#[test]
fn an_empty_delay_band_is_reported() {
    let mut sim = Sim::new(3, 5);
    sim.faults.delay_min_ms = 30;
    sim.faults.delay_max_ms = 20;
    assert_eq!(
        sim.enqueue(1, 2, vote_request(9)),
        Err(Failure {
            seed: 5,
            what: Violation::InvalidDelayBand { min: 30, max: 20 },
        })
    );
}

#[test]
fn a_drop_threshold_beyond_all_rolls_is_reported() {
    let mut sim = Sim::new(3, 5);
    let mut faults = sim.faults.clone();
    faults.drop_threshold = DROP_ALL + 1;
    sim.set_faults(faults);
    assert_eq!(
        sim.enqueue(1, 2, vote_request(9)),
        Err(Failure {
            seed: 5,
            what: Violation::InvalidDropThreshold {
                threshold: DROP_ALL + 1
            },
        })
    );
    sim.faults.drop_threshold = DROP_ALL;
    sim.enqueue(1, 2, vote_request(9)).unwrap();
    assert_eq!(sim.stats().messages_dropped_randomly, 1);
}

#[test]
fn waiting_ends_when_the_time_is_up() {
    let mut sim = Sim::new(3, 4);
    let asked = Cell::new(0);
    let never = |_: &Sim| {
        asked.set(asked.get() + 1);
        false
    };
    assert!(!sim.run_until(never, 21).unwrap());
    assert_eq!(asked.get(), 4, "before each of three steps, and once more");
    asked.set(0);
    assert!(!sim.run_until(never, 20).unwrap());
    assert_eq!(asked.get(), 3);
    asked.set(0);
    assert!(!sim.run_until(never, 0).unwrap());
    assert_eq!(asked.get(), 1);

    asked.set(0);
    let third_time = |_: &Sim| {
        asked.set(asked.get() + 1);
        asked.get() == 3
    };
    assert!(sim.run_until(third_time, 1_000).unwrap());
    assert_eq!(asked.get(), 3);
}

#[test]
fn a_node_crashes_and_restarts_once() {
    let mut sim = Sim::new(3, 2);
    assert!(!sim.restart(1).unwrap());
    assert!(sim.crash(1).unwrap());
    assert!(!sim.crash(1).unwrap());
    assert!(!sim.is_alive(1));
    assert!(sim.client_put(1, "k", "v").unwrap().is_empty());
    assert!(sim.restart(1).unwrap());
    assert!(sim.is_alive(1));
    assert!(sim.node(1).election_deadline() > 0);
    assert_eq!((sim.stats().crashes, sim.stats().restarts), (1, 1));
}

#[test]
fn a_crash_without_a_disk_makes_a_term_go_back() {
    let mut sim = Sim::new(3, 2);
    assert_eq!(sim.persistence_mode(), PersistenceMode::Durable);
    sim.set_persistence_mode(PersistenceMode::Negligent);
    sim.deliver_now(2, 1, vote_request(4)).unwrap();
    assert_eq!(sim.node(1).hard.current_term, 4);
    assert!(sim.crash(1).unwrap());
    assert_eq!(
        sim.restart(1),
        Err(Failure {
            seed: 2,
            what: Violation::TermWentBack {
                node: 1,
                from: 4,
                to: 0,
            },
        })
    );
}

#[test]
fn a_disk_that_cannot_be_booted_from_is_reported() {
    let mut sim = Sim::new(3, 2);
    sim.seed_log(1, vec![noop(1, 6)]);
    assert!(sim.crash(1).unwrap());
    assert_eq!(
        sim.restart(1),
        Err(Failure {
            seed: 2,
            what: Violation::RestoreRefused { node: 1 },
        })
    );
}

#[test]
fn a_term_that_cannot_grow_is_reported() {
    let mut sim = Sim::new(3, 2);
    sim.seed_hard_state(
        1,
        HardState {
            current_term: Term::MAX,
            voted_for: None,
        },
    );
    assert_eq!(
        sim.run_ms_ticking_only(&[1], 400),
        Err(Failure {
            seed: 2,
            what: Violation::TermExhausted { node: 1 },
        })
    );
}

#[test]
fn logs_that_do_not_match_are_found() {
    let mut sim = Sim::new(3, 2);
    sim.seed_log(1, vec![noop(1, 1), noop(2, 2)]);
    sim.seed_log(
        2,
        vec![
            Entry {
                index: 1,
                term: 1,
                command: Command::Delete { key: "k".into() },
            },
            noop(2, 2),
        ],
    );
    assert_eq!(
        sim.deliver_now(2, 3, vote_request(1)),
        Err(Failure {
            seed: 2,
            what: Violation::LogMatching { a: 1, b: 2 },
        })
    );
}

fn noop(index: u64, term: u64) -> Entry {
    Entry {
        index,
        term,
        command: Command::NoOp,
    }
}

#[test]
fn two_leaders_of_one_term_are_found() {
    let mut watch = Invariants::default();
    assert_eq!(watch.on_leader_elected(9, 3, 1), Ok(()));
    assert_eq!(watch.on_leader_elected(9, 3, 1), Ok(()));
    assert_eq!(watch.on_leader_elected(9, 4, 2), Ok(()));
    assert_eq!(
        watch.on_leader_elected(9, 3, 2),
        Err(Failure {
            seed: 9,
            what: Violation::ElectionSafety {
                term: 3,
                first: 1,
                second: 2,
            },
        })
    );
    assert_eq!(watch.leaders_by_term().get(&3), Some(&1));
}

#[test]
fn terms_may_stand_still_but_not_go_back() {
    assert_eq!(Invariants::check_term_monotonic(9, 1, 3, 3), Ok(()));
    assert_eq!(Invariants::check_term_monotonic(9, 1, 3, 4), Ok(()));
    assert_eq!(
        Invariants::check_term_monotonic(9, 1, 3, 2),
        Err(Failure {
            seed: 9,
            what: Violation::TermWentBack {
                node: 1,
                from: 3,
                to: 2,
            },
        })
    );
}

#[test]
fn log_structure_wants_contiguous_indices_and_rising_terms() {
    assert_eq!(check_log_structure(9, 1, false, &[noop(1, 1), noop(2, 3)]), Ok(()));
    for bad in [
        vec![noop(2, 1)],
        vec![noop(1, 1), noop(3, 1)],
        vec![noop(1, 2), noop(2, 1)],
    ] {
        assert_eq!(
            check_log_structure(9, 1, true, &bad),
            Err(Failure {
                seed: 9,
                what: Violation::LogStructure {
                    node: 1,
                    durable: true,
                },
            })
        );
    }
}

#[test]
fn log_matching_looks_below_the_last_common_term() {
    let put = Entry {
        index: 1,
        term: 1,
        command: Command::Put {
            key: "k".into(),
            value: "v".into(),
        },
    };
    assert_eq!(
        check_log_matching(9, 1, &[noop(1, 1), noop(2, 2)], 2, &[noop(1, 1), noop(2, 3)]),
        Ok(())
    );
    assert_eq!(
        check_log_matching(9, 1, &[noop(1, 1), noop(2, 2)], 2, &[put, noop(2, 2)]),
        Err(Failure {
            seed: 9,
            what: Violation::LogMatching { a: 1, b: 2 },
        })
    );
}

#[test]
fn applied_histories_agree_as_far_as_both_go() {
    let short = [(1, Command::NoOp)];
    let long = [(1, Command::NoOp), (2, Command::Delete { key: "k".into() })];
    let other = [(1, Command::Delete { key: "k".into() })];
    assert_eq!(check_applied_agreement(9, 1, &short, 2, &long), Ok(()));
    assert_eq!(
        check_applied_agreement(9, 1, &long, 2, &other),
        Err(Failure {
            seed: 9,
            what: Violation::StateMachineSafety { a: 1, b: 2 },
        })
    );
}

#[test]
fn committed_entries_stay_and_leaders_hold_them() {
    let mut registry = CommittedRegistry::default();
    assert!(registry.is_empty());
    assert_eq!(registry.record(9, &noop(1, 1)), Ok(()));
    assert_eq!(registry.record(9, &noop(1, 1)), Ok(()));
    assert_eq!(registry.record(9, &noop(2, 1)), Ok(()));
    assert_eq!(
        registry.record(9, &noop(1, 2)),
        Err(Failure {
            seed: 9,
            what: Violation::RegistryConflict { index: 1 },
        })
    );
    assert_eq!(registry.len(), 2);
    assert_eq!(registry.get(2), Some(&noop(2, 1)));
    assert_eq!(registry.get(3), None);
    assert_eq!(
        registry.assert_all_in_leader_log(9, 2, 5, &[noop(1, 1), noop(2, 1), noop(3, 5)]),
        Ok(())
    );
    assert_eq!(
        registry.assert_all_in_leader_log(9, 2, 5, &[noop(1, 1)]),
        Err(Failure {
            seed: 9,
            what: Violation::LeaderCompleteness {
                leader: 2,
                term: 5,
                index: 2,
            },
        })
    );
}

#[test]
fn a_leader_elected_late_lacks_what_a_newer_term_committed() {
    let mut sim = Sim::new(3, 4);
    // Nothing gets through by itself: the script decides what arrives when.
    sim.faults.drop_threshold = 1 << 32;
    while sim.node(1).hard.current_term < 1 {
        sim.run_ms_ticking_only(&[1], 10).unwrap();
    }
    sim.deliver_now(1, 2, vote_request(1)).unwrap();
    assert_eq!(sim.node(2).hard.voted_for, Some(1));

    while sim.node(3).hard.current_term < 2 {
        sim.run_ms_ticking_only(&[3], 10).unwrap();
    }
    sim.deliver_now(
        3,
        2,
        RaftMessage::RequestVote {
            term: 2,
            candidate_id: 3,
            last_log_index: 0,
            last_log_term: 0,
        },
    )
    .unwrap();
    let granted = |term| RaftMessage::RequestVoteReply {
        term,
        vote_granted: true,
    };
    sim.deliver_now(2, 3, granted(2)).unwrap();
    assert_eq!(sim.leader(), Some(3));
    sim.deliver_now(
        3,
        2,
        RaftMessage::AppendEntries {
            term: 2,
            leader_id: 3,
            prev_log_index: 0,
            prev_log_term: 0,
            entries: vec![noop(1, 2)],
            leader_commit: 0,
        },
    )
    .unwrap();
    sim.deliver_now(
        2,
        3,
        RaftMessage::AppendEntriesReply {
            term: 2,
            success: true,
            match_index: 1,
        },
    )
    .unwrap();
    assert_eq!(sim.registry().get(1), Some(&noop(1, 2)));

    // The vote that node 2 gave in term 1 arrives only now.
    assert_eq!(
        sim.deliver_now(2, 1, granted(1)).unwrap_err(),
        Failure {
            seed: 4,
            what: Violation::LeaderCompleteness {
                leader: 1,
                term: 1,
                index: 1,
            },
        }
    );
}

#[test]
fn everything_is_dropped_at_the_highest_threshold() {
    let mut sim = Sim::new(3, 4);
    sim.faults.drop_threshold = 1 << 32;
    sim.run_ms(1_000).unwrap();
    assert!(sim.stats().messages_attempted > 0);
    assert_eq!(
        sim.stats().messages_dropped_randomly,
        sim.stats().messages_attempted
    );
    assert_eq!(sim.leader(), None);
}

fn entry(term: Term, value: &str) -> Entry {
    Entry {
        index: 1,
        term,
        command: Command::Put {
            key: "k".into(),
            value: value.into(),
        },
    }
}

#[test]
fn what_is_seeded_on_a_crashed_node_is_seen_too() {
    let mut sim = Sim::new(3, 8);
    sim.crash(3).unwrap();
    sim.seed_log(1, vec![entry(1, "one")]);
    sim.seed_log(3, vec![entry(1, "other")]);
    assert_eq!(
        sim.step_once().unwrap_err().what,
        Violation::LogMatching { a: 1, b: 3 }
    );
}

#[test]
fn what_goes_unreported_holds_of_the_whole_world() {
    for seed in 0..5 {
        let mut sim = Sim::new(3, seed);
        sim.faults.drop_threshold = DROP_ALL / 20;
        for round in 0..20 {
            let down = (round % 3 + 1) as u8;
            sim.crash(down).unwrap();
            sim.run_ms(200).unwrap();
            if let Some(leader) = sim.leader() {
                sim.client_put(leader, "k", "v").unwrap();
            }
            sim.restart(down).unwrap();
            sim.run_ms(200).unwrap();

            let mut led = BTreeSet::new();
            for id in 1..=3 {
                let node = sim.node(id);
                assert!(sim.is_alive(id));
                assert_eq!(sim.durable_hard_state(id), &node.hard);
                assert_eq!(sim.durable_log(id), node.log.as_slice());
                assert_eq!(sim.applied(id).len() as u64, node.last_applied);
                assert!(node.last_applied <= node.commit_index);
                assert!(node.commit_index <= node.log.len() as u64);
                if matches!(node.role, Role::Leader { .. }) {
                    assert!(led.insert(node.hard.current_term), "one leader in a term");
                    assert_eq!(sim.leaders_by_term().get(&node.hard.current_term), Some(&id));
                }
            }
            for index in 1..=sim.registry().len() as u64 {
                let held = (1..=3)
                    .filter(|id| sim.durable_log(*id).len() as u64 >= index)
                    .count();
                assert!(held >= 2, "on a majority of the disks");
            }
        }
    }
}
