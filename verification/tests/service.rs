//! The service around the core: the driver's decisions, the state that is read,
//! the answers of the client API, and the command line.

use std::collections::BTreeMap;

use micro_raft::config::{split_peer, validate, ConfigError, PeerError};
use micro_raft::driver::{
    audit_persist_before_send, finish, message_kind, proposal_input, Action, Answer, Batch,
    Client, DriverError, DriverState, ProposalResult,
};
use micro_raft::http::{
    key_fits, read_reply, write_reply, WriteBody, WriteOutcome, MAX_KEY_BYTES,
};
use micro_raft::kv::{NodeRole, SharedReadState};
use micro_raft::message::{Effect, Input, RaftMessage};
use micro_raft::node::RaftNode;
use micro_raft::text::{parse_byte, to_decimal, NumberError};
use micro_raft::types::{Command, Entry, HardState, Role};

fn append_reply() -> RaftMessage {
    RaftMessage::AppendEntriesReply {
        term: 1,
        success: true,
        match_index: 1,
    }
}

#[test]
fn persistence_auditor_rejects_send_before_persist() {
    let bad_vote = vec![
        Effect::Send {
            to: 2,
            msg: RaftMessage::RequestVote {
                term: 1,
                candidate_id: 1,
                last_log_index: 0,
                last_log_term: 0,
            },
        },
        Effect::PersistHardState(HardState {
            current_term: 1,
            voted_for: Some(1),
        }),
    ];
    assert!(audit_persist_before_send(&bad_vote).is_err());

    let bad_append = vec![
        Effect::Send {
            to: 1,
            msg: append_reply(),
        },
        Effect::PersistLogEntries {
            truncate_from: None,
            entries: Vec::new(),
        },
    ];
    assert!(audit_persist_before_send(&bad_append).is_err());
}

#[test]
fn persistence_auditor_accepts_ordered_and_no_change_batches() {
    let ordered = vec![
        Effect::PersistLogEntries {
            truncate_from: None,
            entries: Vec::new(),
        },
        Effect::Send {
            to: 1,
            msg: append_reply(),
        },
    ];
    assert!(audit_persist_before_send(&ordered).is_ok());
    assert!(audit_persist_before_send(&[Effect::Send {
        to: 1,
        msg: append_reply(),
    }])
    .is_ok());
}

#[test]
fn the_auditor_says_what_is_misplaced() {
    let granted = Effect::Send {
        to: 2,
        msg: RaftMessage::RequestVoteReply {
            term: 1,
            vote_granted: true,
        },
    };
    let hard = Effect::PersistHardState(HardState {
        current_term: 1,
        voted_for: Some(2),
    });
    assert_eq!(
        audit_persist_before_send(&[granted, hard]),
        Err("granted RequestVoteReply precedes PersistHardState".to_string())
    );
    assert_eq!(
        audit_persist_before_send(&[
            Effect::Send {
                to: 1,
                msg: append_reply(),
            },
            Effect::PersistLogEntries {
                truncate_from: None,
                entries: Vec::new(),
            },
        ]),
        Err("successful AppendEntriesReply precedes PersistLogEntries".to_string())
    );
    assert_eq!(
        audit_persist_before_send(&[Effect::Send {
            to: 2,
            msg: RaftMessage::RequestVote {
                term: 1,
                candidate_id: 1,
                last_log_index: 0,
                last_log_term: 0,
            },
        }]),
        Err("RequestVote must follow PersistHardState".to_string())
    );
}

fn waiting(ticket: u64) -> Option<Client> {
    Some(Client {
        ticket,
        gone: false,
    })
}

fn put(index: u64) -> Entry {
    Entry {
        index,
        term: 1,
        command: Command::Put {
            key: "k".into(),
            value: "v".into(),
        },
    }
}

#[test]
fn client_completes_only_when_its_entry_is_applied() {
    let node = RaftNode::new(1, vec![2, 3], 3);
    let mut shared = SharedReadState::from_node(&node);
    let mut state = DriverState::new();
    let mut client = waiting(77);

    let accepted = state
        .execute(Effect::ProposeAccepted { index: 1 }, &mut client)
        .expect("accept proposal");
    assert!(matches!(accepted, Action::Respond(answers) if answers.is_empty()));
    assert_eq!(client, None);
    assert_eq!(finish(client), Ok(()));
    assert_eq!(state.pending.get(&1), Some(&77));

    match state
        .execute(Effect::Apply(put(1)), &mut None)
        .expect("apply proposal")
    {
        Action::Apply { entry, answer } => {
            shared.apply(&entry);
            assert_eq!(
                answer,
                Some(Answer {
                    ticket: 77,
                    result: ProposalResult::Applied { index: 1 },
                })
            );
        }
        other => panic!("expected an entry to apply, got {other:?}"),
    }
    assert!(state.pending.is_empty());
    assert_eq!(
        shared.snapshot().values.get("k").map(String::as_str),
        Some("v")
    );
}

#[test]
fn cancelled_client_is_not_retained() {
    let mut state = DriverState::new();
    let mut client = Some(Client {
        ticket: 1,
        gone: true,
    });
    state
        .execute(Effect::ProposeAccepted { index: 4 }, &mut client)
        .expect("accept cancelled proposal");
    assert!(state.pending.is_empty());
    assert_eq!(client, None);
}

#[test]
fn expired_queued_client_is_skipped_before_proposal() {
    let mut node = RaftNode::new(1, vec![2, 3], 3);
    node.hard.current_term = 1;
    node.role = Role::Leader {
        next_index: BTreeMap::from([(2, 1), (3, 1)]),
        match_index: BTreeMap::from([(2, 0), (3, 0)]),
    };
    let command = Command::Put {
        key: "k".into(),
        value: "v".into(),
    };
    let gone = Client {
        ticket: 1,
        gone: true,
    };
    if let Some(input) = proposal_input(command.clone(), gone) {
        node.step(input);
    }
    assert!(node.log.is_empty(), "the command never entered the core");

    let here = Client {
        ticket: 1,
        gone: false,
    };
    let input = proposal_input(command.clone(), here).expect("a waiting client is proposed for");
    assert_eq!(input, Input::ClientPropose { command });
    let effects = node.step(input);
    assert_eq!(node.log.len(), 1);
    let mut state = DriverState::new();
    let mut client = Some(here);
    for effect in effects {
        state.execute(effect, &mut client).unwrap();
    }
    assert_eq!(finish(client), Ok(()));
    assert_eq!(state.pending.get(&1), Some(&1));
}

#[test]
fn stepping_down_marks_pending_outcomes_unknown() {
    let mut state = DriverState::new();
    state.pending.insert(2, 20);
    state.pending.insert(5, 50);
    state.last_known_leader = Some(3);

    let leads = state
        .execute(
            Effect::RoleChanged {
                role_name: "Leader",
                term: 2,
            },
            &mut None,
        )
        .unwrap();
    assert!(matches!(leads, Action::Respond(answers) if answers.is_empty()));
    assert_eq!(state.pending.len(), 2);

    let action = state
        .execute(
            Effect::RoleChanged {
                role_name: "Follower",
                term: 2,
            },
            &mut None,
        )
        .expect("step down");
    assert!(state.pending.is_empty());
    let unknown = ProposalResult::OutcomeUnknown {
        leader_hint: Some(3),
    };
    match action {
        Action::Respond(answers) => assert_eq!(
            answers,
            vec![
                Answer {
                    ticket: 20,
                    result: unknown
                },
                Answer {
                    ticket: 50,
                    result: unknown
                },
            ]
        ),
        other => panic!("expected answers, got {other:?}"),
    }
}

#[test]
fn a_rejected_client_is_answered_at_once() {
    let mut state = DriverState::new();
    let mut client = waiting(8);
    let action = state
        .execute(
            Effect::ProposeRejected {
                leader_hint: Some(2),
            },
            &mut client,
        )
        .unwrap();
    match action {
        Action::Respond(answers) => assert_eq!(
            answers,
            vec![Answer {
                ticket: 8,
                result: ProposalResult::NotLeader {
                    leader_hint: Some(2)
                },
            }]
        ),
        other => panic!("expected an answer, got {other:?}"),
    }
    assert_eq!(client, None);
}

#[test]
fn effects_that_do_not_fit_are_refused() {
    let mut state = DriverState::new();
    assert_eq!(
        state
            .execute(Effect::ProposeAccepted { index: 4 }, &mut None)
            .unwrap_err(),
        DriverError::AcceptedWithoutClient
    );
    assert_eq!(
        state
            .execute(Effect::ProposeRejected { leader_hint: None }, &mut None)
            .unwrap_err(),
        DriverError::RejectedWithoutClient
    );
    assert_eq!(state.last_known_leader, None);
    assert_eq!(
        state
            .execute(
                Effect::ProposeRejected {
                    leader_hint: Some(3)
                },
                &mut None
            )
            .unwrap_err(),
        DriverError::RejectedWithoutClient
    );
    assert_eq!(state.last_known_leader, Some(3), "the hint is kept");
    state.pending.insert(4, 9);
    let mut client = waiting(1);
    let twice = state
        .execute(Effect::ProposeAccepted { index: 4 }, &mut client)
        .unwrap_err();
    assert_eq!(twice, DriverError::DuplicatePending { index: 4 });
    assert_eq!(twice.describe(), "duplicate pending proposal index 4");
    assert_eq!(state.pending.get(&4), Some(&1), "the later client stays");
    assert_eq!(client, None);
    assert_eq!(finish(waiting(1)), Err(DriverError::Unanswered));
    assert_eq!(
        DriverError::Unanswered.describe(),
        "client proposal produced no acceptance or rejection effect"
    );
}

#[test]
fn storage_failure_prevents_later_send() {
    let effects = vec![
        Effect::PersistLogEntries {
            truncate_from: None,
            entries: vec![Entry {
                index: 1,
                term: 1,
                command: Command::NoOp,
            }],
        },
        Effect::Send {
            to: 2,
            msg: append_reply(),
        },
    ];
    let mut state = DriverState::new();
    let mut batch = Batch::start(effects, None).expect("the write comes first");
    assert!(matches!(
        batch.next(&mut state, true),
        Some(Ok(Action::AppendEntries { .. }))
    ));
    assert!(matches!(batch.peek(), Some(Effect::Send { to: 2, .. })));
    assert!(batch.next(&mut state, false).is_none());
    assert!(batch.peek().is_none());
    assert!(batch.next(&mut state, true).is_none(), "it stays stopped");
}

#[test]
fn storage_failure_leaves_in_flight_proposal_outcome_unresolved() {
    let mut node = RaftNode::new(1, vec![2, 3], 3);
    node.hard.current_term = 1;
    node.role = Role::Leader {
        next_index: BTreeMap::from([(2, 1), (3, 1)]),
        match_index: BTreeMap::from([(2, 0), (3, 0)]),
    };
    let client = Client {
        ticket: 6,
        gone: false,
    };
    let command = Command::Put {
        key: "k".into(),
        value: "v".into(),
    };
    let effects = node.step(proposal_input(command, client).expect("the client waits"));
    let mut state = DriverState::new();
    let mut batch = Batch::start(effects, Some(client)).expect("a batch in order");
    assert!(matches!(
        batch.next(&mut state, true),
        Some(Ok(Action::AppendEntries { .. }))
    ));
    assert!(batch.next(&mut state, false).is_none());
    assert_eq!(node.log.len(), 1, "the core already saw the proposal");
    assert!(state.pending.is_empty(), "acceptance was not completed");
    assert_eq!(batch.client(), Some(client), "nobody was answered");
}

#[test]
fn a_batch_in_a_wrong_order_is_not_started() {
    let effects = vec![
        Effect::Send {
            to: 1,
            msg: append_reply(),
        },
        Effect::PersistLogEntries {
            truncate_from: None,
            entries: Vec::new(),
        },
    ];
    assert_eq!(
        Batch::start(effects, None).unwrap_err(),
        "successful AppendEntriesReply precedes PersistLogEntries"
    );
}

#[test]
fn a_batch_gives_one_action_for_each_effect() {
    let mut state = DriverState::new();
    let effects = vec![
        Effect::PersistHardState(HardState {
            current_term: 2,
            voted_for: None,
        }),
        Effect::ProposeAccepted { index: 3 },
        Effect::Apply(put(3)),
    ];
    let mut batch = Batch::start(effects, waiting(7)).unwrap();
    assert!(matches!(
        batch.next(&mut state, true),
        Some(Ok(Action::SaveHardState(_)))
    ));
    assert!(matches!(
        batch.next(&mut state, true),
        Some(Ok(Action::Respond(answers))) if answers.is_empty()
    ));
    assert_eq!(state.pending.get(&3), Some(&7));
    assert_eq!(batch.client(), None);
    assert!(matches!(
        batch.next(&mut state, true),
        Some(Ok(Action::Apply { answer: Some(Answer { ticket: 7, .. }), .. }))
    ));
    assert!(batch.next(&mut state, true).is_none());
    assert!(state.pending.is_empty());
}

#[test]
fn a_client_that_left_meanwhile_is_not_set_to_wait() {
    let mut state = DriverState::new();
    let mut batch = Batch::start(vec![Effect::ProposeAccepted { index: 1 }], waiting(7)).unwrap();
    batch.note_gone(true);
    assert_eq!(
        batch.client(),
        Some(Client {
            ticket: 7,
            gone: true
        })
    );
    assert!(matches!(batch.next(&mut state, true), Some(Ok(Action::Respond(_)))));
    assert!(state.pending.is_empty());
    assert!(batch.next(&mut state, true).is_none());
}

#[test]
fn an_error_ends_a_batch() {
    let mut state = DriverState::new();
    let effects = vec![
        Effect::ProposeAccepted { index: 1 },
        Effect::Send {
            to: 2,
            msg: append_reply(),
        },
    ];
    let mut batch = Batch::start(effects, None).unwrap();
    assert!(matches!(
        batch.next(&mut state, true),
        Some(Err(DriverError::AcceptedWithoutClient))
    ));
    assert!(batch.next(&mut state, true).is_none());

    let mut forgotten = Batch::start(Vec::new(), waiting(7)).unwrap();
    assert!(matches!(
        forgotten.next(&mut state, true),
        Some(Err(DriverError::Unanswered))
    ));
    assert!(forgotten.next(&mut state, true).is_none());
}

#[test]
fn writes_and_sends_are_handed_on_as_they_are() {
    let mut state = DriverState::new();
    let hard = HardState {
        current_term: 3,
        voted_for: Some(1),
    };
    let saved = state
        .execute(Effect::PersistHardState(hard.clone()), &mut None)
        .unwrap();
    assert!(matches!(saved, Action::SaveHardState(h) if h == hard));
    let appended = state
        .execute(
            Effect::PersistLogEntries {
                truncate_from: Some(1),
                entries: vec![put(1)],
            },
            &mut None,
        )
        .unwrap();
    assert!(matches!(
        appended,
        Action::AppendEntries { truncate_from: Some(1), entries } if entries == vec![put(1)]
    ));
    let sent = state
        .execute(
            Effect::Send {
                to: 2,
                msg: append_reply(),
            },
            &mut None,
        )
        .unwrap();
    assert!(matches!(sent, Action::Send { to: 2, msg } if msg == append_reply()));
}

#[test]
fn clients_that_went_away_are_forgotten() {
    let mut state = DriverState::new();
    state.pending.insert(2, 20);
    state.pending.insert(5, 50);
    state.prune(&[2, 9]);
    assert_eq!(state.pending, BTreeMap::from([(5, 50)]));
}

#[test]
fn a_current_append_tells_who_leads() {
    let append = |term, leader_id| RaftMessage::AppendEntries {
        term,
        leader_id,
        prev_log_index: 0,
        prev_log_term: 0,
        entries: Vec::new(),
        leader_commit: 0,
    };
    let mut state = DriverState::new();
    state.observe(3, &append(2, 1));
    assert_eq!(state.last_known_leader, None);
    state.observe(3, &append(3, 1));
    assert_eq!(state.last_known_leader, Some(1));
    state.observe(3, &append_reply());
    assert_eq!(state.last_known_leader, Some(1));
    assert_eq!(message_kind(&append(3, 1)), "append_entries");
    assert_eq!(message_kind(&append_reply()), "append_entries_reply");
}

#[test]
fn commands_update_the_local_state_machine() {
    let node = RaftNode::new(1, vec![2, 3], 7);
    let mut state = SharedReadState::from_node(&node);

    state.apply(&Entry {
        index: 1,
        term: 1,
        command: Command::Put {
            key: "answer".into(),
            value: "42".into(),
        },
    });
    let snapshot = state.snapshot();
    assert_eq!(snapshot.values.get("answer"), Some(&"42".into()));
    assert_eq!(snapshot.status.last_applied, 1);
    assert_eq!(snapshot.status.commit_index, 1);

    state.apply(&Entry {
        index: 2,
        term: 1,
        command: Command::Delete {
            key: "answer".into(),
        },
    });
    assert!(!state.snapshot().values.contains_key("answer"));
}

#[test]
fn the_last_write_to_a_key_is_what_is_read() {
    let node = RaftNode::new(1, vec![2, 3], 7);
    let mut state = SharedReadState::from_node(&node);
    for (index, key, value) in [(1, "a", "1"), (2, "b", "2"), (3, "a", "3")] {
        state.apply(&Entry {
            index,
            term: 1,
            command: Command::Put {
                key: key.into(),
                value: value.into(),
            },
        });
    }
    state.apply(&Entry {
        index: 4,
        term: 1,
        command: Command::NoOp,
    });
    assert_eq!(state.get("a").1, Some("3".to_string()));
    assert_eq!(state.get("b").1, Some("2".to_string()));
    assert_eq!(state.get("c").1, None);
    assert_eq!(state.get("a").0.last_applied, 4);
}

#[test]
fn status_follows_the_node() {
    let mut node = RaftNode::new(1, vec![2, 3], 7);
    let mut state = SharedReadState::from_node(&node);
    assert_eq!(state.status().role, NodeRole::Follower);
    assert_eq!(state.status().leader_hint, None);
    state.refresh_status(&node, Some(3));
    assert_eq!(state.status().leader_hint, Some(3));
    node.hard.current_term = 4;
    node.role = Role::Leader {
        next_index: BTreeMap::new(),
        match_index: BTreeMap::new(),
    };
    state.refresh_status(&node, Some(3));
    let status = state.status();
    assert_eq!((status.node_id, status.role), (1, NodeRole::Leader));
    assert_eq!(status.leader_hint, Some(1));
    assert_eq!(NodeRole::Leader.as_str(), "leader");
    assert_eq!(NodeRole::Candidate.as_str(), "candidate");
}

#[test]
fn put_returns_only_after_apply_confirmation() {
    let reply = write_reply(WriteOutcome::Answered(ProposalResult::Applied { index: 7 }));
    assert_eq!(reply.status, 200);
    assert_eq!(reply.body, WriteBody::Written { index: 7 });
}

#[test]
fn not_leader_response_includes_hint() {
    let reply = write_reply(WriteOutcome::Answered(ProposalResult::NotLeader {
        leader_hint: Some(2),
    }));
    assert_eq!(reply.status, 503);
    assert_eq!(
        reply.body,
        WriteBody::Redirect {
            error: "not_leader",
            leader_hint: Some(2)
        }
    );
}

#[test]
fn a_write_of_unknown_fate_is_not_answered_as_unmade() {
    for (outcome, hint) in [
        (
            WriteOutcome::Answered(ProposalResult::OutcomeUnknown {
                leader_hint: Some(3),
            }),
            Some(3),
        ),
        (WriteOutcome::AnswerLost, None),
    ] {
        let reply = write_reply(outcome);
        assert_eq!(reply.status, 503);
        assert_eq!(
            reply.body,
            WriteBody::Redirect {
                error: "outcome_unknown",
                leader_hint: hint
            }
        );
    }

    let reply = write_reply(WriteOutcome::TimedOut);
    assert_eq!(reply.status, 503);
    assert_eq!(reply.body, WriteBody::Error { error: "timeout" });
}

#[test]
fn oversized_key_is_rejected_before_proposal() {
    assert!(!key_fits(&"k".repeat(MAX_KEY_BYTES + 1)));
    assert!(key_fits(&"k".repeat(MAX_KEY_BYTES)));
    // It is bytes that count.
    assert!(!key_fits(&"\u{e9}".repeat(MAX_KEY_BYTES / 2 + 1)));
    let reply = write_reply(WriteOutcome::KeyTooLarge);
    assert_eq!(reply.status, 413);
    assert_eq!(
        reply.body,
        WriteBody::Error {
            error: "key_too_large"
        }
    );
}

#[test]
fn local_reads_expose_staleness_headers() {
    let node = RaftNode::new(1, vec![2, 3], 9);
    let mut shared = SharedReadState::from_node(&node);
    shared.apply(&put(1));

    let (status, value) = shared.get("k");
    let reply = read_reply(status, value);
    assert_eq!(reply.status, 200);
    assert_eq!(reply.role, "follower");
    assert_eq!(reply.last_applied, "1");
    assert_eq!(reply.value.as_deref(), Some("v"));

    let (status, value) = shared.get("missing");
    let reply = read_reply(status, value);
    assert_eq!(reply.status, 404);
    assert_eq!(reply.value, None);
}

#[test]
fn peers_are_read_as_id_at_address() {
    let peer = split_peer("2@127.0.0.1:7002").unwrap();
    assert_eq!((peer.id, peer.addr.as_str()), (2, "127.0.0.1:7002"));
    let peer = split_peer("3@a@b").unwrap();
    assert_eq!((peer.id, peer.addr.as_str()), (3, "a@b"));
    assert_eq!(split_peer("2"), Err(PeerError::MissingAt));
    assert_eq!(split_peer("@x"), Err(PeerError::BadId(NumberError::Empty)));
    assert_eq!(
        split_peer("x@y"),
        Err(PeerError::BadId(NumberError::InvalidDigit))
    );
    assert_eq!(
        split_peer("256@y"),
        Err(PeerError::BadId(NumberError::TooLarge))
    );
}

#[test]
fn numbers_read_as_the_standard_library_reads_them() {
    for text in ["", "+", "-", "0", "7", "+7", "-7", "007", "255", "256", "2x", " 1", "++1"] {
        assert_eq!(parse_byte(text).ok(), text.parse::<u8>().ok(), "{text:?}");
    }
    for n in [0, 9, 10, 12_345, u64::MAX] {
        assert_eq!(to_decimal(n), n.to_string());
    }
}

#[test]
fn a_node_lists_other_nodes_each_once() {
    assert_eq!(validate(1, &[2, 3]), Ok(()));
    assert_eq!(validate(1, &[]), Ok(()));
    let listed = validate(1, &[2, 2, 1]).unwrap_err();
    assert_eq!(listed, ConfigError::SelfListed { id: 1 });
    assert_eq!(
        listed.describe(),
        "--peers must list only other nodes, but contains this node's id 1"
    );
    let twice = validate(1, &[2, 3, 2]).unwrap_err();
    assert_eq!(twice, ConfigError::DuplicatePeer);
    assert_eq!(twice.describe(), "--peers contains duplicate node ids");
}
