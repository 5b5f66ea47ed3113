use protocol::addr::NodeId;
use protocol::chord::finger_table::{ChordEvent, ChordFingerTable, NodeInfo};

fn info(id: u32) -> NodeInfo {
    NodeInfo {
        node_id: NodeId(id),
        address: format!("node-{}", id),
        created_at: 0,
        last_pong: None,
    }
}

fn drain(table: &mut ChordFingerTable) -> Vec<ChordEvent> {
    let mut out = vec![];
    while let Some(action) = table.pop_action() {
        out.push(action);
    }
    out
}

/// A node that knows `successor` as its first finger, set by answering its own join.
fn with_successor(id: u32, successor: u32) -> ChordFingerTable {
    let mut table = ChordFingerTable::new(info(id));
    table.join(0, NodeId(successor));
    let asked = drain(&mut table);
    assert_eq!(
        asked,
        vec![ChordEvent::FindSuccessor {
            req: 0,
            remote: NodeId(successor),
            key: NodeId(id)
        }]
    );
    let answer = ChordEvent::FoundSuccessor {
        req: 0,
        remote: NodeId(successor),
        key: NodeId(id),
        info: Some(info(successor)),
    };
    assert!(table.accepts(&answer));
    table.on_event(0, answer);
    assert_eq!(table.successor().node_id, NodeId(successor));
    assert_eq!(table.pending_requests(), 0);
    table
}

/// Hands `event` to `table`, as the host would after testing it.
fn deliver(table: &mut ChordFingerTable, now: u64, event: ChordEvent) {
    assert!(table.accepts(&event));
    table.on_event(now, event);
}

#[test]
fn new_table_stands_alone() {
    let mut table = ChordFingerTable::new(info(10));
    assert_eq!(table.node_info(), &info(10));
    assert_eq!(table.successor(), &info(10));
    assert_eq!(table.predecessor(), None);
    assert_eq!(table.pending_requests(), 0);
    assert!(table.has_request_ids());
    for slot in 0..32 {
        assert_eq!(table.finger(slot), None);
    }
    assert_eq!(table.pop_action(), None);
}

#[test]
fn join_asks_the_bootstrap_node_for_the_own_successor() {
    let mut table = ChordFingerTable::new(info(20));
    deliver(&mut table, 0, ChordEvent::Notify { remote: NodeId(5), info: info(5) });
    assert_eq!(table.predecessor(), Some(&info(5)));
    table.join(100, NodeId(10));
    assert_eq!(table.predecessor(), None);
    assert_eq!(table.pending_requests(), 1);
    assert_eq!(
        drain(&mut table),
        vec![ChordEvent::FindSuccessor {
            req: 0,
            remote: NodeId(10),
            key: NodeId(20)
        }]
    );
}

#[test]
fn answer_to_join_sets_the_first_finger() {
    let table = with_successor(20, 30);
    assert_eq!(table.finger(0), Some(&info(30)));
    assert_eq!(table.finger(1), None);
}

#[test]
fn negative_answer_to_join_leaves_the_finger_empty() {
    let mut table = ChordFingerTable::new(info(20));
    table.join(0, NodeId(10));
    drain(&mut table);
    deliver(
        &mut table,
        5,
        ChordEvent::FoundSuccessor {
            req: 0,
            remote: NodeId(10),
            key: NodeId(20),
            info: None,
        },
    );
    assert_eq!(table.finger(0), None);
    assert_eq!(table.pending_requests(), 0);
    assert_eq!(drain(&mut table), vec![]);
}

#[test]
fn answer_to_an_unknown_request_is_dropped() {
    let mut table = with_successor(20, 30);
    deliver(
        &mut table,
        5,
        ChordEvent::FoundSuccessor {
            req: 77,
            remote: NodeId(30),
            key: NodeId(1),
            info: Some(info(1)),
        },
    );
    deliver(
        &mut table,
        5,
        ChordEvent::FoundPredecessor {
            req: 78,
            remote: NodeId(30),
            info: Some(info(25)),
        },
    );
    assert_eq!(table.successor().node_id, NodeId(30));
    assert_eq!(drain(&mut table), vec![]);
}

#[test]
fn lone_node_cannot_answer_for_another_key() {
    let mut table = ChordFingerTable::new(info(10));
    deliver(
        &mut table,
        0,
        ChordEvent::FindSuccessor {
            req: 3,
            remote: NodeId(20),
            key: NodeId(20),
        },
    );
    assert_eq!(drain(&mut table), vec![]);
    assert_eq!(table.pending_requests(), 0);
}

#[test]
fn lone_node_answers_for_its_own_key() {
    let mut table = ChordFingerTable::new(info(10));
    deliver(
        &mut table,
        0,
        ChordEvent::FindSuccessor {
            req: 3,
            remote: NodeId(20),
            key: NodeId(10),
        },
    );
    assert_eq!(
        drain(&mut table),
        vec![ChordEvent::FoundSuccessor {
            req: 3,
            remote: NodeId(20),
            key: NodeId(10),
            info: Some(info(10)),
        }]
    );
}

#[test]
fn key_up_to_the_successor_is_answered_at_once() {
    let mut table = with_successor(20, 30);
    for key in [21, 25, 30] {
        deliver(
            &mut table,
            0,
            ChordEvent::FindSuccessor {
                req: 7,
                remote: NodeId(99),
                key: NodeId(key),
            },
        );
        assert_eq!(
            drain(&mut table),
            vec![ChordEvent::FoundSuccessor {
                req: 7,
                remote: NodeId(99),
                key: NodeId(key),
                info: Some(info(30)),
            }]
        );
    }
    assert_eq!(table.pending_requests(), 0);
}

#[test]
fn key_past_the_successor_is_passed_on_and_the_answer_sent_back() {
    let mut table = with_successor(20, 30);
    deliver(
        &mut table,
        100,
        ChordEvent::FindSuccessor {
            req: 7,
            remote: NodeId(99),
            key: NodeId(5),
        },
    );
    assert_eq!(
        drain(&mut table),
        vec![ChordEvent::FindSuccessor {
            req: 1,
            remote: NodeId(30),
            key: NodeId(5),
        }]
    );
    assert_eq!(table.pending_requests(), 1);
    deliver(
        &mut table,
        110,
        ChordEvent::FoundSuccessor {
            req: 1,
            remote: NodeId(30),
            key: NodeId(5),
            info: Some(info(10)),
        },
    );
    assert_eq!(
        drain(&mut table),
        vec![ChordEvent::FoundSuccessor {
            req: 7,
            remote: NodeId(99),
            key: NodeId(5),
            info: Some(info(10)),
        }]
    );
    assert_eq!(table.pending_requests(), 0);
}

#[test]
fn question_for_the_own_key_finds_nobody_to_ask() {
    let mut table = with_successor(20, 30);
    deliver(
        &mut table,
        0,
        ChordEvent::FindSuccessor {
            req: 7,
            remote: NodeId(99),
            key: NodeId(20),
        },
    );
    // 20 does not fall to the successor, and no finger lies on the arc from 20 to 20
    assert_eq!(drain(&mut table), vec![]);
    assert_eq!(table.pending_requests(), 0);
}

/// Carries what the nodes want sent to the nodes it is meant for, until all are silent.
fn exchange(nodes: &mut Vec<ChordFingerTable>, now: u64) -> usize {
    let mut delivered = 0;
    loop {
        let mut moved = false;
        for i in 0..nodes.len() {
            let sender = nodes[i].node_info().node_id;
            while let Some(action) = nodes[i].pop_action() {
                let (target, event) = readdress(action, sender);
                if let Some(j) = nodes.iter().position(|n| n.node_info().node_id == target) {
                    assert!(nodes[j].accepts(&event));
                    nodes[j].on_event(now, event);
                    delivered += 1;
                    moved = true;
                }
            }
        }
        if !moved {
            return delivered;
        }
    }
}

/// The node an outgoing event goes to, and the event as that node sees it.
fn readdress(action: ChordEvent, sender: NodeId) -> (NodeId, ChordEvent) {
    match action {
        ChordEvent::PingPredecessor { remote, ts } => {
            (remote, ChordEvent::PingPredecessor { remote: sender, ts })
        }
        ChordEvent::PongPredecessor { remote, ts } => {
            (remote, ChordEvent::PongPredecessor { remote: sender, ts })
        }
        ChordEvent::Notify { remote, info } => (remote, ChordEvent::Notify { remote: sender, info }),
        ChordEvent::FindSuccessor { req, remote, key } => {
            (remote, ChordEvent::FindSuccessor { req, remote: sender, key })
        }
        ChordEvent::FindPredecessor { req, remote } => {
            (remote, ChordEvent::FindPredecessor { req, remote: sender })
        }
        ChordEvent::FoundSuccessor { req, remote, key, info } => (
            remote,
            ChordEvent::FoundSuccessor { req, remote: sender, key, info },
        ),
        ChordEvent::FoundPredecessor { req, remote, info } => {
            (remote, ChordEvent::FoundPredecessor { req, remote: sender, info })
        }
    }
}

/// The ring 10 -> 20 -> 30 -> 10, each node with its successor and predecessor.
fn ring_of_three() -> Vec<ChordFingerTable> {
    let mut nodes = vec![with_successor(10, 20), with_successor(20, 30), with_successor(30, 10)];
    deliver(&mut nodes[0], 0, ChordEvent::Notify { remote: NodeId(30), info: info(30) });
    deliver(&mut nodes[1], 0, ChordEvent::Notify { remote: NodeId(10), info: info(10) });
    deliver(&mut nodes[2], 0, ChordEvent::Notify { remote: NodeId(20), info: info(20) });
    nodes
}

/// Has the outside node 99 ask node 20 for the successor of `key`, and says what is sent to
/// nodes outside the ring in the end.
fn lookup(nodes: &mut Vec<ChordFingerTable>, key: u32) -> Vec<(NodeId, ChordEvent)> {
    deliver(
        &mut nodes[1],
        0,
        ChordEvent::FindSuccessor {
            req: 500,
            remote: NodeId(99),
            key: NodeId(key),
        },
    );
    let mut answers = vec![];
    loop {
        let mut moved = false;
        for i in 0..nodes.len() {
            let sender = nodes[i].node_info().node_id;
            while let Some(action) = nodes[i].pop_action() {
                let (target, event) = readdress(action, sender);
                moved = true;
                match nodes.iter().position(|n| n.node_info().node_id == target) {
                    Some(j) => {
                        assert!(nodes[j].accepts(&event));
                        nodes[j].on_event(0, event);
                    }
                    None => answers.push((target, event)),
                }
            }
        }
        if !moved {
            return answers;
        }
    }
}

#[test]
fn lookup_before_the_lowest_node_wraps_to_it() {
    let mut nodes = ring_of_three();
    let answers = lookup(&mut nodes, 5);
    assert_eq!(
        answers,
        vec![(
            NodeId(99),
            ChordEvent::FoundSuccessor {
                req: 500,
                remote: NodeId(20),
                key: NodeId(5),
                info: Some(info(10)),
            }
        )]
    );
}

#[test]
fn lookup_past_the_highest_node_wraps_to_the_lowest() {
    let mut nodes = ring_of_three();
    let answers = lookup(&mut nodes, 35);
    assert_eq!(
        answers,
        vec![(
            NodeId(99),
            ChordEvent::FoundSuccessor {
                req: 500,
                remote: NodeId(20),
                key: NodeId(35),
                info: Some(info(10)),
            }
        )]
    );
    for node in nodes.iter() {
        assert_eq!(node.pending_requests(), 0);
    }
}

#[test]
fn lookup_between_two_nodes_finds_the_next() {
    let mut nodes = ring_of_three();
    let answers = lookup(&mut nodes, 25);
    assert_eq!(
        answers,
        vec![(
            NodeId(99),
            ChordEvent::FoundSuccessor {
                req: 500,
                remote: NodeId(20),
                key: NodeId(25),
                info: Some(info(30)),
            }
        )]
    );
}

#[test]
fn two_nodes_that_know_each_other_stabilise() {
    // A lone node cannot answer a join (see lone_node_cannot_answer_for_another_key),
    // so both successors are set by hand; stabilising then sets the predecessors.
    let mut nodes = vec![with_successor(10, 20), with_successor(20, 10)];
    // first round: neither knows a predecessor to report, so nobody is notified
    nodes[0].stablize(10);
    nodes[1].stablize(10);
    exchange(&mut nodes, 10);
    assert_eq!(nodes[0].predecessor(), None);
    assert_eq!(nodes[1].predecessor(), None);
    // each is told of the other once
    deliver(&mut nodes[0], 20, ChordEvent::Notify { remote: NodeId(20), info: info(20) });
    deliver(&mut nodes[1], 20, ChordEvent::Notify { remote: NodeId(10), info: info(10) });
    for round in 0..3 {
        nodes[0].stablize(30 + round);
        nodes[1].stablize(30 + round);
        exchange(&mut nodes, 30 + round);
    }
    assert_eq!(nodes[0].successor().node_id, NodeId(20));
    assert_eq!(nodes[1].successor().node_id, NodeId(10));
    assert_eq!(nodes[0].predecessor().map(|p| p.node_id), Some(NodeId(20)));
    assert_eq!(nodes[1].predecessor().map(|p| p.node_id), Some(NodeId(10)));
    assert_eq!(nodes[0].pending_requests(), 0);
    assert_eq!(nodes[1].pending_requests(), 0);
}

#[test]
fn third_node_is_found_by_stabilising() {
    // 10 and 30 form a ring; 20 joins with 30 as successor and makes itself known.
    let mut nodes = vec![with_successor(10, 30), with_successor(30, 10), with_successor(20, 30)];
    deliver(&mut nodes[0], 0, ChordEvent::Notify { remote: NodeId(30), info: info(30) });
    deliver(&mut nodes[1], 0, ChordEvent::Notify { remote: NodeId(10), info: info(10) });
    for round in 0..4 {
        for node in nodes.iter_mut() {
            node.stablize(round);
        }
        exchange(&mut nodes, round);
    }
    assert_eq!(nodes[0].successor().node_id, NodeId(20));
    assert_eq!(nodes[2].successor().node_id, NodeId(30));
    assert_eq!(nodes[1].successor().node_id, NodeId(10));
    assert_eq!(nodes[0].predecessor().map(|p| p.node_id), Some(NodeId(30)));
    assert_eq!(nodes[2].predecessor().map(|p| p.node_id), Some(NodeId(10)));
    assert_eq!(nodes[1].predecessor().map(|p| p.node_id), Some(NodeId(20)));
}

#[test]
fn stabilise_asks_the_successor_for_its_predecessor() {
    let mut table = with_successor(20, 30);
    table.stablize(50);
    assert_eq!(
        drain(&mut table),
        vec![ChordEvent::FindPredecessor {
            req: 1,
            remote: NodeId(30)
        }]
    );
    assert_eq!(table.pending_requests(), 1);
}

#[test]
fn stabilise_of_a_lone_node_asks_itself() {
    let mut table = ChordFingerTable::new(info(20));
    table.stablize(50);
    assert_eq!(
        drain(&mut table),
        vec![ChordEvent::FindPredecessor {
            req: 0,
            remote: NodeId(20)
        }]
    );
}

#[test]
fn closer_predecessor_of_the_successor_becomes_the_successor() {
    let mut table = with_successor(20, 30);
    table.stablize(50);
    drain(&mut table);
    deliver(
        &mut table,
        60,
        ChordEvent::FoundPredecessor {
            req: 1,
            remote: NodeId(30),
            info: Some(info(25)),
        },
    );
    assert_eq!(table.successor().node_id, NodeId(25));
    assert_eq!(
        drain(&mut table),
        vec![ChordEvent::Notify {
            remote: NodeId(25),
            info: info(20)
        }]
    );
}

#[test]
fn predecessor_outside_the_arc_leaves_the_successor() {
    for candidate in [20, 30, 35, 10] {
        let mut table = with_successor(20, 30);
        table.stablize(50);
        drain(&mut table);
        deliver(
            &mut table,
            60,
            ChordEvent::FoundPredecessor {
                req: 1,
                remote: NodeId(30),
                info: Some(info(candidate)),
            },
        );
        assert_eq!(table.successor().node_id, NodeId(30));
        assert_eq!(
            drain(&mut table),
            vec![ChordEvent::Notify {
                remote: NodeId(30),
                info: info(20)
            }]
        );
    }
}

#[test]
fn successor_without_predecessor_is_not_notified() {
    let mut table = with_successor(20, 30);
    table.stablize(50);
    drain(&mut table);
    deliver(
        &mut table,
        60,
        ChordEvent::FoundPredecessor {
            req: 1,
            remote: NodeId(30),
            info: None,
        },
    );
    assert_eq!(drain(&mut table), vec![]);
    assert_eq!(table.pending_requests(), 0);
}

#[test]
fn notify_sets_an_empty_predecessor() {
    let mut table = ChordFingerTable::new(info(20));
    deliver(&mut table, 0, ChordEvent::Notify { remote: NodeId(35), info: info(35) });
    assert_eq!(table.predecessor(), Some(&info(35)));
}

#[test]
fn notify_replaces_the_predecessor_only_by_a_closer_one() {
    let mut table = ChordFingerTable::new(info(20));
    deliver(&mut table, 0, ChordEvent::Notify { remote: NodeId(10), info: info(10) });
    deliver(&mut table, 0, ChordEvent::Notify { remote: NodeId(5), info: info(5) });
    assert_eq!(table.predecessor(), Some(&info(10)));
    deliver(&mut table, 0, ChordEvent::Notify { remote: NodeId(25), info: info(25) });
    assert_eq!(table.predecessor(), Some(&info(10)));
    deliver(&mut table, 0, ChordEvent::Notify { remote: NodeId(20), info: info(20) });
    assert_eq!(table.predecessor(), Some(&info(10)));
    deliver(&mut table, 0, ChordEvent::Notify { remote: NodeId(10), info: info(10) });
    assert_eq!(table.predecessor(), Some(&info(10)));
    deliver(&mut table, 0, ChordEvent::Notify { remote: NodeId(15), info: info(15) });
    assert_eq!(table.predecessor(), Some(&info(15)));
}

#[test]
fn find_predecessor_reports_the_predecessor() {
    let mut table = ChordFingerTable::new(info(20));
    deliver(&mut table, 0, ChordEvent::FindPredecessor { req: 4, remote: NodeId(10) });
    deliver(&mut table, 0, ChordEvent::Notify { remote: NodeId(15), info: info(15) });
    deliver(&mut table, 0, ChordEvent::FindPredecessor { req: 5, remote: NodeId(10) });
    assert_eq!(
        drain(&mut table),
        vec![
            ChordEvent::FoundPredecessor {
                req: 4,
                remote: NodeId(10),
                info: None
            },
            ChordEvent::FoundPredecessor {
                req: 5,
                remote: NodeId(10),
                info: Some(info(15))
            },
        ]
    );
}

#[test]
fn ping_is_answered_with_its_own_timestamp() {
    let mut table = ChordFingerTable::new(info(20));
    deliver(&mut table, 900, ChordEvent::PingPredecessor { remote: NodeId(30), ts: 123 });
    assert_eq!(
        drain(&mut table),
        vec![ChordEvent::PongPredecessor {
            remote: NodeId(30),
            ts: 123
        }]
    );
}

#[test]
fn pong_of_the_predecessor_is_recorded() {
    let mut table = ChordFingerTable::new(info(20));
    deliver(&mut table, 0, ChordEvent::Notify { remote: NodeId(10), info: info(10) });
    deliver(&mut table, 50, ChordEvent::PongPredecessor { remote: NodeId(11), ts: 40 });
    assert_eq!(table.predecessor().unwrap().last_pong, None);
    deliver(&mut table, 50, ChordEvent::PongPredecessor { remote: NodeId(10), ts: 40 });
    assert_eq!(table.predecessor().unwrap().last_pong, Some(40));
    assert_eq!(table.predecessor().unwrap().node_id, NodeId(10));
    assert_eq!(table.predecessor().unwrap().address, "node-10");
    let mut lone = ChordFingerTable::new(info(20));
    deliver(&mut lone, 50, ChordEvent::PongPredecessor { remote: NodeId(10), ts: 40 });
    assert_eq!(lone.predecessor(), None);
}

#[test]
fn young_predecessor_is_pinged() {
    let mut table = ChordFingerTable::new(info(20));
    let mut young = info(10);
    young.created_at = 1;
    deliver(&mut table, 0, ChordEvent::Notify { remote: NodeId(10), info: young.clone() });
    table.check_predecessor(10_000);
    assert_eq!(table.predecessor(), Some(&young));
    assert_eq!(
        drain(&mut table),
        vec![ChordEvent::PingPredecessor {
            remote: NodeId(10),
            ts: 10_000
        }]
    );
}

#[test]
fn silent_predecessor_is_forgotten() {
    let mut table = ChordFingerTable::new(info(20));
    deliver(&mut table, 0, ChordEvent::Notify { remote: NodeId(10), info: info(10) });
    table.check_predecessor(9_999);
    assert_eq!(
        drain(&mut table),
        vec![ChordEvent::PingPredecessor {
            remote: NodeId(10),
            ts: 9_999
        }]
    );
    table.check_predecessor(10_000);
    assert_eq!(table.predecessor(), None);
    assert_eq!(drain(&mut table), vec![]);
    table.check_predecessor(10_001);
    assert_eq!(drain(&mut table), vec![]);
}

#[test]
fn predecessor_that_answers_is_kept() {
    let mut table = ChordFingerTable::new(info(20));
    deliver(&mut table, 0, ChordEvent::Notify { remote: NodeId(10), info: info(10) });
    deliver(&mut table, 15_000, ChordEvent::PongPredecessor { remote: NodeId(10), ts: 14_000 });
    table.check_predecessor(23_999);
    assert!(table.predecessor().is_some());
    assert_eq!(
        drain(&mut table),
        vec![ChordEvent::PingPredecessor {
            remote: NodeId(10),
            ts: 23_999
        }]
    );
    table.check_predecessor(24_000);
    assert_eq!(table.predecessor(), None);
}

#[test]
fn pong_from_the_future_counts_as_fresh() {
    let mut table = ChordFingerTable::new(info(20));
    deliver(&mut table, 0, ChordEvent::Notify { remote: NodeId(10), info: info(10) });
    deliver(&mut table, 0, ChordEvent::PongPredecessor { remote: NodeId(10), ts: u64::MAX });
    table.check_predecessor(50_000);
    assert!(table.predecessor().is_some());
}

#[test]
fn check_predecessor_without_predecessor_does_nothing() {
    let mut table = ChordFingerTable::new(info(20));
    table.check_predecessor(50_000);
    assert_eq!(drain(&mut table), vec![]);
}

#[test]
fn timed_out_request_of_another_node_is_answered_in_the_negative() {
    let mut table = with_successor(20, 30);
    deliver(
        &mut table,
        1_000,
        ChordEvent::FindSuccessor {
            req: 7,
            remote: NodeId(99),
            key: NodeId(5),
        },
    );
    drain(&mut table);
    table.check_timeout_requests(10_999);
    assert_eq!(drain(&mut table), vec![]);
    assert_eq!(table.pending_requests(), 1);
    table.check_timeout_requests(11_000);
    assert_eq!(
        drain(&mut table),
        vec![ChordEvent::FoundSuccessor {
            req: 7,
            remote: NodeId(99),
            key: NodeId(5),
            info: None,
        }]
    );
    assert_eq!(table.pending_requests(), 0);
    // the late answer finds no request
    deliver(
        &mut table,
        11_500,
        ChordEvent::FoundSuccessor {
            req: 1,
            remote: NodeId(30),
            key: NodeId(5),
            info: Some(info(10)),
        },
    );
    assert_eq!(drain(&mut table), vec![]);
}

#[test]
fn each_timed_out_request_is_answered_once() {
    let mut table = with_successor(20, 30);
    for (i, now) in [100u64, 200, 300].iter().enumerate() {
        deliver(
            &mut table,
            *now,
            ChordEvent::FindSuccessor {
                req: 40 + i as u32,
                remote: NodeId(90 + i as u32),
                key: NodeId(5),
            },
        );
    }
    table.stablize(150);
    drain(&mut table);
    assert_eq!(table.pending_requests(), 4);
    table.check_timeout_requests(10_200);
    // the answers come in the order in which the map hands the requests out
    let mut answers = drain(&mut table);
    answers.sort_by_key(|answer| match answer {
        ChordEvent::FoundSuccessor { req, .. } => *req,
        other => panic!("unexpected {:?}", other),
    });
    assert_eq!(
        answers,
        vec![
            ChordEvent::FoundSuccessor {
                req: 40,
                remote: NodeId(90),
                key: NodeId(5),
                info: None,
            },
            ChordEvent::FoundSuccessor {
                req: 41,
                remote: NodeId(91),
                key: NodeId(5),
                info: None,
            },
        ]
    );
    assert_eq!(table.pending_requests(), 1);
    table.check_timeout_requests(10_299);
    assert_eq!(drain(&mut table), vec![]);
    table.check_timeout_requests(10_300);
    assert_eq!(
        drain(&mut table),
        vec![ChordEvent::FoundSuccessor {
            req: 42,
            remote: NodeId(92),
            key: NodeId(5),
            info: None,
        }]
    );
    assert_eq!(table.pending_requests(), 0);
}

#[test]
fn own_requests_time_out_silently() {
    let mut table = ChordFingerTable::new(info(20));
    table.join(0, NodeId(10));
    table.stablize(0);
    drain(&mut table);
    assert_eq!(table.pending_requests(), 2);
    table.check_timeout_requests(10_000);
    assert_eq!(table.pending_requests(), 0);
    assert_eq!(drain(&mut table), vec![]);
}

#[test]
fn request_from_the_future_is_kept() {
    let mut table = ChordFingerTable::new(info(20));
    table.join(50_000, NodeId(10));
    drain(&mut table);
    table.check_timeout_requests(20_000);
    assert_eq!(table.pending_requests(), 1);
}

#[test]
fn fix_fingers_goes_round_the_slots() {
    let mut table = with_successor(1000, 1001);
    let mut asked = vec![];
    for _ in 0..32 {
        assert!(table.can_fix_fingers());
        table.fix_fingers(0);
        for action in drain(&mut table) {
            match action {
                ChordEvent::FindSuccessor { key, remote, .. } => {
                    assert_eq!(remote, NodeId(1001));
                    asked.push(key.value());
                }
                other => panic!("unexpected {:?}", other),
            }
        }
    }
    // slot 0 (key 1001) comes last and is answered at once from the successor
    let expected: Vec<u32> = (1..32).map(|i| 1000u32.wrapping_add(1u32 << i)).collect();
    assert_eq!(asked, expected);
    assert_eq!(table.finger(0), Some(&info(1001)));
    assert_eq!(table.pending_requests(), 31);
}

#[test]
fn fix_fingers_fills_the_slot_it_asked_for() {
    let mut table = with_successor(1000, 1001);
    table.fix_fingers(0);
    assert_eq!(
        drain(&mut table),
        vec![ChordEvent::FindSuccessor {
            req: 1,
            remote: NodeId(1001),
            key: NodeId(1002)
        }]
    );
    deliver(
        &mut table,
        1,
        ChordEvent::FoundSuccessor {
            req: 1,
            remote: NodeId(1001),
            key: NodeId(1002),
            info: Some(info(1500)),
        },
    );
    assert_eq!(table.finger(1), Some(&info(1500)));
    assert_eq!(table.finger(0), Some(&info(1001)));
    assert_eq!(table.finger(2), None);
}

#[test]
fn finger_keys_wrap_round_the_ring() {
    let mut table = with_successor(u32::MAX - 1, 5);
    table.fix_fingers(0);
    // slot 1: (MAX - 1) + 2 = 0 on the ring, which falls to the successor 5
    assert_eq!(drain(&mut table), vec![]);
    assert_eq!(table.finger(1), Some(&info(5)));
    table.fix_fingers(0);
    // slot 2: (MAX - 1) + 4 = 2
    assert_eq!(table.finger(2), Some(&info(5)));
    table.fix_fingers(0);
    // slot 3: (MAX - 1) + 8 = 6, past the successor
    assert_eq!(
        drain(&mut table),
        vec![ChordEvent::FindSuccessor {
            req: 1,
            remote: NodeId(5),
            key: NodeId(6)
        }]
    );
}

#[test]
fn highest_finger_before_the_key_is_asked() {
    let mut table = with_successor(1000, 1001);
    // fill finger 1 with 1500 and finger 2 with 3000
    table.fix_fingers(0);
    deliver(
        &mut table,
        0,
        ChordEvent::FoundSuccessor {
            req: 1,
            remote: NodeId(1001),
            key: NodeId(1002),
            info: Some(info(1500)),
        },
    );
    table.fix_fingers(0);
    deliver(
        &mut table,
        0,
        ChordEvent::FoundSuccessor {
            req: 2,
            remote: NodeId(1001),
            key: NodeId(1004),
            info: Some(info(3000)),
        },
    );
    drain(&mut table);
    for (key, expected) in [(5000u32, 3000u32), (3000, 1500), (2000, 1500), (1500, 1001), (10, 3000)] {
        deliver(
            &mut table,
            0,
            ChordEvent::FindSuccessor {
                req: 9,
                remote: NodeId(77),
                key: NodeId(key),
            },
        );
        let sent = drain(&mut table);
        assert_eq!(sent.len(), 1);
        match &sent[0] {
            ChordEvent::FindSuccessor { remote, key: asked, .. } => {
                assert_eq!(*remote, NodeId(expected), "key {}", key);
                assert_eq!(*asked, NodeId(key));
            }
            other => panic!("unexpected {:?}", other),
        }
    }
}

#[test]
fn answers_that_do_not_fit_their_request_are_refused() {
    let mut table = ChordFingerTable::new(info(20));
    table.join(0, NodeId(10));
    table.stablize(0);
    drain(&mut table);
    // request 0 is for a successor, request 1 for a predecessor
    assert!(!table.accepts(&ChordEvent::FoundPredecessor {
        req: 0,
        remote: NodeId(10),
        info: None
    }));
    assert!(!table.accepts(&ChordEvent::FoundSuccessor {
        req: 1,
        remote: NodeId(10),
        key: NodeId(20),
        info: None
    }));
    assert!(table.accepts(&ChordEvent::FoundPredecessor {
        req: 1,
        remote: NodeId(10),
        info: None
    }));
    assert!(table.accepts(&ChordEvent::FoundSuccessor {
        req: 0,
        remote: NodeId(10),
        key: NodeId(20),
        info: None
    }));
    assert!(table.accepts(&ChordEvent::FoundSuccessor {
        req: 9,
        remote: NodeId(10),
        key: NodeId(20),
        info: None
    }));
}

#[test]
fn answer_to_a_request_made_in_the_own_name_is_refused() {
    let mut table = with_successor(20, 30);
    // somebody asks in the name of node 20 itself
    deliver(
        &mut table,
        0,
        ChordEvent::FindSuccessor {
            req: 7,
            remote: NodeId(20),
            key: NodeId(5),
        },
    );
    drain(&mut table);
    assert!(!table.accepts(&ChordEvent::FoundSuccessor {
        req: 1,
        remote: NodeId(30),
        key: NodeId(5),
        info: None
    }));
    let mut other = with_successor(20, 30);
    deliver(
        &mut other,
        0,
        ChordEvent::FindSuccessor {
            req: 7,
            remote: NodeId(40),
            key: NodeId(5),
        },
    );
    drain(&mut other);
    assert!(other.accepts(&ChordEvent::FoundSuccessor {
        req: 1,
        remote: NodeId(30),
        key: NodeId(5),
        info: None
    }));
}

#[test]
fn requests_stay_younger_than_the_timeout_after_each_check() {
    let mut table = with_successor(20, 30);
    let mut now = 0;
    for round in 0..40u64 {
        now = round * 1_000;
        table.check_timeout_requests(now);
        deliver(
            &mut table,
            now,
            ChordEvent::FindSuccessor {
                req: round as u32,
                remote: NodeId(99),
                key: NodeId(5),
            },
        );
        drain(&mut table);
        // one request a second, each kept for ten seconds
        assert!(table.pending_requests() <= 10);
    }
    table.check_timeout_requests(now + 10_000);
    assert_eq!(table.pending_requests(), 0);
}

#[test]
fn first_finger_never_names_the_node_itself() {
    let mut table = ChordFingerTable::new(info(20));
    for round in 0..64u64 {
        assert!(table.can_fix_fingers());
        table.fix_fingers(round);
        table.stablize(round);
        drain(&mut table);
        assert_ne!(table.finger(0).map(|f| f.node_id), Some(NodeId(20)));
    }
    let mut joined = with_successor(20, 30);
    for round in 0..64u64 {
        joined.fix_fingers(round);
        drain(&mut joined);
        assert_eq!(joined.finger(0).map(|f| f.node_id), Some(NodeId(30)));
    }
}

#[test]
fn answer_that_names_the_node_itself_is_not_its_first_finger() {
    let mut table = ChordFingerTable::new(info(20));
    table.join(0, NodeId(10));
    drain(&mut table);
    let answer = ChordEvent::FoundSuccessor {
        req: 0,
        remote: NodeId(10),
        key: NodeId(20),
        info: Some(info(20)),
    };
    assert!(table.accepts(&answer));
    table.on_event(5, answer);
    assert_eq!(table.finger(0), None);
    assert_eq!(table.successor(), &info(20));
    // the request is ended all the same
    assert_eq!(table.pending_requests(), 0);
    assert_eq!(drain(&mut table), vec![]);
}

#[test]
fn answer_that_names_the_node_itself_leaves_the_first_finger_as_it_was() {
    let mut table = with_successor(20, 30);
    table.join(0, NodeId(10));
    drain(&mut table);
    deliver(
        &mut table,
        5,
        ChordEvent::FoundSuccessor {
            req: 1,
            remote: NodeId(10),
            key: NodeId(20),
            info: Some(info(20)),
        },
    );
    assert_eq!(table.finger(0), Some(&info(30)));
    assert_eq!(table.pending_requests(), 0);
}

#[test]
fn higher_finger_may_name_the_node_itself() {
    let mut table = with_successor(1000, 1001);
    table.fix_fingers(0);
    drain(&mut table);
    deliver(
        &mut table,
        1,
        ChordEvent::FoundSuccessor {
            req: 1,
            remote: NodeId(1001),
            key: NodeId(1002),
            info: Some(info(1000)),
        },
    );
    assert_eq!(table.finger(1), Some(&info(1000)));
    assert_eq!(table.finger(0), Some(&info(1001)));
}

#[test]
fn new_request_never_replaces_a_pending_one() {
    let mut table = with_successor(20, 30);
    let mut asked = vec![];
    for round in 0..50u32 {
        deliver(
            &mut table,
            0,
            ChordEvent::FindSuccessor {
                req: 7,
                remote: NodeId(99),
                key: NodeId(5),
            },
        );
        table.stablize(0);
        for action in drain(&mut table) {
            match action {
                ChordEvent::FindSuccessor { req, .. } | ChordEvent::FindPredecessor { req, .. } => {
                    assert!(!asked.contains(&req));
                    asked.push(req);
                }
                other => panic!("unexpected {:?}", other),
            }
        }
        assert_eq!(table.pending_requests(), 2 * (round as usize + 1));
    }
}
