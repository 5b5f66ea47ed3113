use protocol::addr::{ChannelId, NodeId};
use protocol::message::{RouterRow, RouterSync};
use protocol::network::{Connection, ConnectionStats, NetworkMsg};
use protocol::router::channel::ChannelRoute;
use protocol::router::metric::{Float, Metric};
use protocol::router::path::ChannelPath;
use protocol::router::{InputEvent, NextHop, Router};

fn loss(raw: u32) -> Float<2> {
    Float::from_raw(raw)
}

fn stats(rtt_ms: u32, lost: u32, jitter_ms: u32, bandwidth_kbps: u32) -> ConnectionStats {
    ConnectionStats {
        rtt_ms,
        lost_percent: loss(lost),
        jitter_ms,
        bandwidth_kbps,
    }
}

fn metric(rtt: u32, lost: u32, jitter: u32, bandwidth: u32) -> Metric {
    Metric {
        rtt,
        loss: loss(lost),
        jitter,
        bandwidth,
    }
}

fn compose(l1: u32, l2: u32) -> u32 {
    metric(0, l1, 0, 0).add_local(&stats(0, l2, 0, 0)).loss.raw()
}

fn path(rtt: u32, hops: &[u32]) -> ChannelPath {
    ChannelPath {
        last_sync: 0,
        metric: metric(rtt, 0, 0, 1000),
        hops: hops.iter().map(|n| NodeId(*n)).collect(),
    }
}

fn conn(node: u32) -> Connection {
    Connection::from_parts(NodeId(node), 1)
}

fn row(channel: u32, rtt: u32, hops: &[u32]) -> RouterRow {
    RouterRow {
        channel,
        bandwidth: 5000,
        rtt,
        loss: loss(0),
        jitter: 0,
        hops: hops.to_vec(),
    }
}

fn give(router: &mut Router, now: u64, event: InputEvent) {
    assert!(router.accepts(&event));
    router.on_event(now, event);
}

fn measure(router: &mut Router, node: u32, rtt_ms: u32) {
    give(
        router,
        0,
        InputEvent::ConnectionStats(NetworkMsg {
            conn: conn(node),
            msg: stats(rtt_ms, 0, 0, 1_000_000),
        }),
    );
}

fn advertise(router: &mut Router, now: u64, from: u32, rows: Vec<RouterRow>) {
    give(
        router,
        now,
        InputEvent::Recv(NetworkMsg {
            conn: conn(from),
            msg: RouterSync { rows },
        }),
    );
}

#[test]
fn float_holds_hundredths() {
    let f: Float<2> = Float::from_raw(1234);
    assert_eq!(f.raw(), 1234);
    assert_eq!(f, Float::from_raw(1234));
}

#[test]
fn connection_is_made_of_node_and_session() {
    let c = Connection::from_parts(NodeId(7), 3);
    assert_eq!(c.remote(), NodeId(7));
    assert_eq!(c.session(), 3);
    assert_ne!(c, Connection::from_parts(NodeId(7), 4));
    assert_eq!(ChannelId::from(5).value(), 5);
    assert_eq!(NodeId::from(6).value(), 6);
    assert_eq!(*ChannelId::from(5), 5);
    assert_eq!(*NodeId::from(6), 6);
    assert!(NodeId(1) < NodeId(2));
    assert!(NodeId(u32::MAX) > NodeId(0));
    assert_eq!(NodeId(3).max(NodeId(2)), NodeId(3));
}

#[test]
fn score_is_the_round_trip_time() {
    assert_eq!(metric(42, 100, 7, 9).score(), 42);
}

#[test]
fn add_local_adds_delays_and_keeps_the_narrower_bandwidth() {
    let m = metric(30, 0, 4, 800).add_local(&stats(12, 0, 3, 1000));
    assert_eq!(m.rtt, 42);
    assert_eq!(m.jitter, 7);
    assert_eq!(m.bandwidth, 800);
    assert_eq!(m.loss.raw(), 0);
    let n = metric(30, 0, 4, 800).add_local(&stats(12, 0, 3, 100));
    assert_eq!(n.bandwidth, 100);
    let top = metric(u32::MAX - 1, 0, 0, 0).add_local(&stats(1, 0, u32::MAX, 0));
    assert_eq!(top.rtt, u32::MAX);
    assert_eq!(top.jitter, u32::MAX);
}

#[test]
fn metrics_add_like_numbers() {
    let sum = metric(1, 1000, 2, 30) + metric(10, 2000, 20, 40);
    assert_eq!(sum.rtt, 11);
    assert_eq!(sum.loss.raw(), 2800);
    assert_eq!(sum.jitter, 22);
    assert_eq!(sum.bandwidth, 30);
}

#[test]
fn losses_compose_by_survival() {
    // 10 % and 20 %: 1 - 0.9 * 0.8 = 28 %
    assert_eq!(compose(1000, 2000), 2800);
    // 50 % twice: 75 %
    assert_eq!(compose(5000, 5000), 7500);
    assert_eq!(compose(0, 0), 0);
    assert_eq!(compose(0, 1234), 1234);
    assert_eq!(compose(1234, 0), 1234);
    assert_eq!(compose(10_000, 1234), 10_000);
    assert_eq!(compose(10_000, 10_000), 10_000);
    // 0.01 % twice: 0.019999 %, which rounds to 0.02 %
    assert_eq!(compose(1, 1), 2);
    // 33.33 % and 0.5 %: 33.663350 % rounds down
    assert_eq!(compose(3333, 50), 3366);
    // 1.50 % and 1 %: 2.485 % rounds up
    assert_eq!(compose(150, 100), 249);
}

#[test]
fn losses_beyond_all_stay_in_range() {
    // 200 % and 200 %: 1 - (-1)(-1) = 0
    assert_eq!(compose(20_000, 20_000), 0);
    // 300 % and 300 %: negative, held at zero
    assert_eq!(compose(30_000, 30_000), 0);
    // 200 % and 50 %: 1 - (-1)(0.5) = 150 %
    assert_eq!(compose(20_000, 5_000), 15_000);
    assert_eq!(compose(u32::MAX, 0), u32::MAX);
    assert_eq!(compose(u32::MAX, u32::MAX), 0);
}

#[test]
fn loss_composition_is_commutative() {
    let samples: [u32; 9] = [0, 1, 2, 33, 150, 4999, 5000, 9999, 10_000];
    for &a in samples.iter() {
        for &b in samples.iter() {
            assert_eq!(compose(a, b), compose(b, a));
        }
    }
}

#[test]
fn loss_composition_is_associative_within_one_hundredth() {
    let samples: [u32; 10] = [0, 1, 2, 33, 150, 777, 4999, 5000, 9999, 10_000];
    let mut apart = 0;
    for &a in samples.iter() {
        for &b in samples.iter() {
            for &c in samples.iter() {
                let left = compose(compose(a, b), c) as i64;
                let right = compose(a, compose(b, c)) as i64;
                assert!((left - right).abs() <= 1, "{} {} {}", a, b, c);
                if left != right {
                    apart += 1;
                }
            }
        }
    }
    // the grouping does matter now and then
    assert!(apart > 0);
}

#[test]
fn metric_is_read_from_a_row() {
    let m = Metric::from(RouterRow {
        channel: 9,
        bandwidth: 11,
        rtt: 22,
        loss: loss(33),
        jitter: 44,
        hops: vec![1, 2],
    });
    assert_eq!((m.rtt, m.loss.raw(), m.jitter, m.bandwidth), (22, 33, 44, 11));
}

#[test]
fn path_is_written_to_a_row_without_its_bandwidth() {
    let p = ChannelPath {
        last_sync: 77,
        metric: metric(22, 33, 44, 11),
        hops: vec![NodeId(3), NodeId(1), NodeId(2)],
    };
    let r = p.to_row(ChannelId(9));
    assert_eq!(
        r,
        RouterRow {
            channel: 9,
            bandwidth: 0,
            rtt: 22,
            loss: loss(33),
            jitter: 44,
            hops: vec![3, 1, 2],
        }
    );
}

#[test]
fn path_is_read_from_a_row() {
    let p = ChannelPath::from_row(
        500,
        RouterRow {
            channel: 9,
            bandwidth: 11,
            rtt: 22,
            loss: loss(33),
            jitter: 44,
            hops: vec![3, 1],
        },
    );
    assert_eq!(p.last_sync, 500);
    assert_eq!(p.hops, vec![NodeId(3), NodeId(1)]);
    assert_eq!(
        (p.metric.rtt, p.metric.loss.raw(), p.metric.jitter, p.metric.bandwidth),
        (22, 33, 44, 11)
    );
}

#[test]
fn path_survives_the_row_but_for_its_bandwidth() {
    let p = ChannelPath {
        last_sync: 77,
        metric: metric(22, 9999, 44, 11),
        hops: vec![NodeId(3), NodeId(u32::MAX)],
    };
    let back = ChannelPath::from_row(88, p.to_row(ChannelId(9)));
    assert_eq!(back.metric.rtt, 22);
    assert_eq!(back.metric.loss.raw(), 9999);
    assert_eq!(back.metric.jitter, 44);
    assert_eq!(back.metric.bandwidth, 0);
    assert_eq!(back.hops, p.hops);
    assert_eq!(back.last_sync, 88);
    let copy = p.clone();
    assert_eq!(copy.hops, p.hops);
    assert_eq!(copy.last_sync, 77);
    assert_eq!(copy.metric.bandwidth, 11);
}

#[test]
fn route_without_paths_has_no_next_hop() {
    let route = ChannelRoute::new(ChannelId(1));
    assert_eq!(route.next_hop(), None);
    assert!(route.create_sync(NodeId(5)).is_none());
}

#[test]
fn route_takes_the_cheapest_path() {
    let mut route = ChannelRoute::new(ChannelId(1));
    route.on_sync(0, conn(1), path(200, &[9, 1]));
    assert_eq!(route.next_hop(), Some(conn(1)));
    route.on_sync(0, conn(2), path(50, &[9, 2]));
    assert_eq!(route.next_hop(), Some(conn(2)));
    route.on_sync(0, conn(3), path(120, &[9, 3]));
    assert_eq!(route.next_hop(), Some(conn(2)));
    route.on_tick(1);
    assert_eq!(route.next_hop(), Some(conn(2)));
}

#[test]
fn route_keeps_the_earlier_of_two_equal_paths() {
    let mut route = ChannelRoute::new(ChannelId(1));
    route.on_sync(0, conn(1), path(50, &[9, 1]));
    route.on_sync(0, conn(2), path(50, &[9, 2]));
    assert_eq!(route.next_hop(), Some(conn(1)));
    assert_eq!(route.create_sync(NodeId(77)).unwrap().hops, vec![NodeId(9), NodeId(1)]);
    // a new advertisement replaces the old one in its place
    route.on_sync(0, conn(1), path(60, &[9, 1]));
    assert_eq!(route.next_hop(), Some(conn(2)));
    route.on_sync(0, conn(1), path(50, &[9, 8, 1]));
    assert_eq!(route.next_hop(), Some(conn(1)));
    assert_eq!(
        route.create_sync(NodeId(77)).unwrap().hops,
        vec![NodeId(9), NodeId(8), NodeId(1)]
    );
}

#[test]
fn route_forgets_a_neighbour_that_is_gone() {
    let mut route = ChannelRoute::new(ChannelId(1));
    route.on_sync(0, conn(1), path(50, &[9, 1]));
    route.on_sync(0, conn(2), path(70, &[9, 2]));
    route.on_disconnected(conn(1));
    assert_eq!(route.next_hop(), Some(conn(2)));
    route.on_disconnected(conn(1));
    route.on_disconnected(conn(2));
    assert_eq!(route.next_hop(), None);
}

#[test]
fn route_does_not_advertise_a_path_back_through_the_neighbour() {
    let mut route = ChannelRoute::new(ChannelId(1));
    route.on_sync(0, conn(1), path(50, &[9, 4, 1]));
    route.on_sync(0, conn(2), path(70, &[9, 2]));
    route.on_sync(0, conn(3), path(90, &[9, 3]));
    for dest in [1, 4, 9] {
        assert!(route
            .create_sync(NodeId(dest))
            .map_or(true, |p| !p.hops.contains(&NodeId(dest))));
    }
    assert_eq!(route.create_sync(NodeId(5)).unwrap().metric.rtt, 50);
    assert_eq!(route.create_sync(NodeId(1)).unwrap().metric.rtt, 70);
    assert_eq!(route.create_sync(NodeId(4)).unwrap().metric.rtt, 70);
    assert_eq!(route.create_sync(NodeId(2)).unwrap().metric.rtt, 50);
    // every path passes the origin 9
    assert!(route.create_sync(NodeId(9)).is_none());
}

#[test]
fn new_router_knows_nothing() {
    let router = Router::new(NodeId(1));
    assert_eq!(router.node(), NodeId(1));
    assert_eq!(router.next_hop_for(ChannelId(7)), None);
    assert_eq!(router.create_sync(), vec![]);
}

#[test]
fn hosted_channel_is_reached_locally() {
    let mut router = Router::new(NodeId(1));
    router.add_channel(ChannelId(7));
    assert_eq!(router.next_hop_for(ChannelId(7)), Some(NextHop::Local));
    router.remove_channel(ChannelId(7));
    assert_eq!(router.next_hop_for(ChannelId(7)), None);
    router.remove_channel(ChannelId(7));
    assert_eq!(router.next_hop_for(ChannelId(7)), None);
}

#[test]
fn hosted_channel_goes_before_an_advertised_one() {
    let mut router = Router::new(NodeId(1));
    router.watch_channel(ChannelId(7));
    measure(&mut router, 2, 10);
    advertise(&mut router, 0, 2, vec![row(7, 5, &[9])]);
    assert_eq!(router.next_hop_for(ChannelId(7)), Some(NextHop::Remote(conn(2))));
    router.add_channel(ChannelId(7));
    assert_eq!(router.next_hop_for(ChannelId(7)), Some(NextHop::Local));
}

#[test]
fn row_for_an_unknown_channel_is_dropped() {
    let mut router = Router::new(NodeId(1));
    router.watch_channel(ChannelId(7));
    measure(&mut router, 2, 10);
    advertise(&mut router, 0, 2, vec![row(8, 5, &[9]), row(7, 6, &[9]), row(9, 5, &[9])]);
    assert_eq!(router.next_hop_for(ChannelId(8)), None);
    assert_eq!(router.next_hop_for(ChannelId(9)), None);
    assert_eq!(router.next_hop_for(ChannelId(7)), Some(NextHop::Remote(conn(2))));
}

#[test]
fn advertisement_over_an_unmeasured_connection_is_dropped() {
    let mut router = Router::new(NodeId(1));
    router.watch_channel(ChannelId(7));
    advertise(&mut router, 0, 2, vec![row(7, 6, &[9])]);
    assert_eq!(router.next_hop_for(ChannelId(7)), None);
}

#[test]
fn watched_channel_without_paths_has_no_next_hop() {
    let mut router = Router::new(NodeId(1));
    router.watch_channel(ChannelId(7));
    router.watch_channel(ChannelId(7));
    assert_eq!(router.next_hop_for(ChannelId(7)), None);
    measure(&mut router, 2, 10);
    assert_eq!(router.create_sync(), vec![]);
}

#[test]
fn learned_path_carries_the_cost_of_the_connection_and_the_neighbour() {
    let mut router = Router::new(NodeId(1));
    router.watch_channel(ChannelId(7));
    give(
        &mut router,
        0,
        InputEvent::ConnectionStats(NetworkMsg {
            conn: conn(2),
            msg: stats(40, 1000, 3, 500),
        }),
    );
    measure(&mut router, 3, 1);
    advertise(
        &mut router,
        0,
        2,
        vec![RouterRow {
            channel: 7,
            bandwidth: 800,
            rtt: 2,
            loss: loss(2000),
            jitter: 4,
            hops: vec![9, 8],
        }],
    );
    let syncs = router.create_sync();
    // nothing goes back to 2, through which the only path leads
    assert_eq!(
        syncs,
        vec![NetworkMsg {
            conn: conn(3),
            msg: RouterSync {
                rows: vec![RouterRow {
                    channel: 7,
                    bandwidth: 0,
                    rtt: 42,
                    loss: loss(2800),
                    jitter: 7,
                    hops: vec![9, 8, 2],
                }]
            }
        }]
    );
}

#[test]
fn hosted_channels_are_advertised_to_every_neighbour() {
    let mut router = Router::new(NodeId(1));
    router.add_channel(ChannelId(7));
    router.add_channel(ChannelId(5));
    router.add_channel(ChannelId(7));
    assert_eq!(router.create_sync(), vec![]);
    measure(&mut router, 2, 10);
    measure(&mut router, 3, 10);
    let origin = |channel: u32| RouterRow {
        channel,
        bandwidth: 10_000_000,
        rtt: 0,
        loss: loss(0),
        jitter: 0,
        hops: vec![],
    };
    let syncs = router.create_sync();
    assert_eq!(syncs.len(), 2);
    assert_eq!(syncs[0].conn, conn(2));
    assert_eq!(syncs[1].conn, conn(3));
    // the hosted channels come in the order of the map, the same for both
    assert_eq!(syncs[0].msg, syncs[1].msg);
    let mut rows = syncs[0].msg.rows.clone();
    rows.sort_by_key(|r| r.channel);
    assert_eq!(rows, vec![origin(5), origin(7)]);
}

#[test]
fn hosted_channel_is_not_advertised_as_a_remote_one_too() {
    let mut router = Router::new(NodeId(1));
    router.watch_channel(ChannelId(7));
    router.watch_channel(ChannelId(8));
    measure(&mut router, 2, 10);
    measure(&mut router, 3, 10);
    advertise(&mut router, 0, 2, vec![row(7, 5, &[9]), row(8, 5, &[9])]);
    router.add_channel(ChannelId(7));
    let syncs = router.create_sync();
    assert_eq!(syncs.len(), 2);
    assert_eq!(syncs[0].conn, conn(2));
    assert_eq!(syncs[0].msg.rows.len(), 1);
    assert_eq!(syncs[0].msg.rows[0].hops, Vec::<u32>::new());
    assert_eq!(syncs[1].conn, conn(3));
    assert_eq!(syncs[1].msg.rows.len(), 2);
    assert_eq!(syncs[1].msg.rows[0].channel, 7);
    assert_eq!(syncs[1].msg.rows[0].bandwidth, 10_000_000);
    assert_eq!(syncs[1].msg.rows[1].channel, 8);
    assert_eq!(syncs[1].msg.rows[1].hops, vec![9, 2]);
    assert_eq!(syncs[1].msg.rows[1].rtt, 15);
}

#[test]
fn no_row_names_the_neighbour_it_is_sent_to() {
    let mut router = Router::new(NodeId(1));
    for channel in [7, 8, 9] {
        router.watch_channel(ChannelId(channel));
    }
    router.add_channel(ChannelId(100));
    for node in [2, 3, 4] {
        measure(&mut router, node, 10 * node);
    }
    advertise(&mut router, 0, 2, vec![row(7, 5, &[3, 4]), row(8, 5, &[9]), row(9, 1, &[4])]);
    advertise(&mut router, 0, 3, vec![row(7, 50, &[9]), row(8, 1, &[2]), row(9, 2, &[2, 4])]);
    advertise(&mut router, 0, 4, vec![row(7, 90, &[2]), row(9, 3, &[3])]);
    let syncs = router.create_sync();
    assert_eq!(syncs.len(), 3);
    for sync in syncs.iter() {
        assert!(!sync.msg.rows.is_empty());
        for r in sync.msg.rows.iter() {
            assert!(!r.hops.contains(&sync.conn.remote().value()));
        }
    }
    // towards 2 the best path for 7 that avoids 2 comes from 3
    let to_2 = &syncs[0].msg.rows;
    assert_eq!(to_2[1].channel, 7);
    assert_eq!(to_2[1].hops, vec![9, 3]);
    assert_eq!(to_2[1].rtt, 80);
    // channel 9 cannot be offered to 4 at all: every path passes it
    let to_4 = &syncs[2].msg.rows;
    assert!(to_4.iter().all(|r| r.channel != 9));
}

#[test]
fn near_neighbour_is_preferred_until_it_becomes_slow() {
    let mut router = Router::new(NodeId(1));
    router.watch_channel(ChannelId(7));
    measure(&mut router, 11, 50);
    measure(&mut router, 12, 200);
    advertise(&mut router, 0, 11, vec![row(7, 0, &[9])]);
    advertise(&mut router, 0, 12, vec![row(7, 0, &[9])]);
    assert_eq!(router.next_hop_for(ChannelId(7)), Some(NextHop::Remote(conn(11))));
    measure(&mut router, 11, 300);
    // the path keeps the cost it was learned with until it is advertised again
    assert_eq!(router.next_hop_for(ChannelId(7)), Some(NextHop::Remote(conn(11))));
    advertise(&mut router, 100, 11, vec![row(7, 0, &[9])]);
    assert_eq!(router.next_hop_for(ChannelId(7)), Some(NextHop::Remote(conn(12))));
    let syncs = router.create_sync();
    assert_eq!(syncs[0].conn, conn(11));
    assert_eq!(syncs[0].msg.rows[0].rtt, 200);
    assert_eq!(syncs[0].msg.rows[0].hops, vec![9, 12]);
    assert_eq!(syncs[1].conn, conn(12));
    assert_eq!(syncs[1].msg.rows[0].rtt, 300);
}

#[test]
fn later_row_for_a_channel_replaces_the_earlier() {
    let mut router = Router::new(NodeId(1));
    router.watch_channel(ChannelId(7));
    measure(&mut router, 2, 10);
    measure(&mut router, 3, 10);
    advertise(&mut router, 0, 2, vec![row(7, 5, &[9]), row(7, 70, &[8])]);
    let syncs = router.create_sync();
    assert_eq!(syncs.len(), 1);
    assert_eq!(syncs[0].conn, conn(3));
    assert_eq!(syncs[0].msg.rows[0].rtt, 80);
    assert_eq!(syncs[0].msg.rows[0].hops, vec![8, 2]);
}

#[test]
fn disconnect_purges_the_paths_of_the_connection() {
    let mut router = Router::new(NodeId(1));
    router.watch_channel(ChannelId(7));
    router.watch_channel(ChannelId(8));
    measure(&mut router, 2, 10);
    measure(&mut router, 3, 20);
    advertise(&mut router, 0, 2, vec![row(7, 5, &[9]), row(8, 5, &[9])]);
    advertise(&mut router, 0, 3, vec![row(7, 5, &[9])]);
    assert_eq!(router.next_hop_for(ChannelId(7)), Some(NextHop::Remote(conn(2))));
    give(&mut router, 5, InputEvent::ConnectionDisconnected(conn(2)));
    assert_eq!(router.next_hop_for(ChannelId(7)), Some(NextHop::Remote(conn(3))));
    assert_eq!(router.next_hop_for(ChannelId(8)), None);
    let syncs = router.create_sync();
    assert!(syncs.iter().all(|s| s.conn != conn(2)));
    // what the lost connection advertises now is dropped
    advertise(&mut router, 6, 2, vec![row(8, 5, &[9])]);
    assert_eq!(router.next_hop_for(ChannelId(8)), None);
    router.on_tick(7);
    assert_eq!(router.next_hop_for(ChannelId(7)), Some(NextHop::Remote(conn(3))));
}

#[test]
fn row_whose_delay_would_not_fit_is_refused() {
    let mut router = Router::new(NodeId(1));
    router.watch_channel(ChannelId(7));
    measure(&mut router, 2, 10);
    let too_far = InputEvent::Recv(NetworkMsg {
        conn: conn(2),
        msg: RouterSync {
            rows: vec![row(7, 5, &[9]), row(7, u32::MAX - 9, &[9])],
        },
    });
    assert!(!router.accepts(&too_far));
    let just_fits = InputEvent::Recv(NetworkMsg {
        conn: conn(2),
        msg: RouterSync {
            rows: vec![row(7, u32::MAX - 10, &[9])],
        },
    });
    assert!(router.accepts(&just_fits));
    router.on_event(0, just_fits);
    // a row that would be dropped anyway is no obstacle
    let unknown = InputEvent::Recv(NetworkMsg {
        conn: conn(2),
        msg: RouterSync {
            rows: vec![row(8, u32::MAX, &[9])],
        },
    });
    assert!(router.accepts(&unknown));
    let unmeasured = InputEvent::Recv(NetworkMsg {
        conn: conn(3),
        msg: RouterSync {
            rows: vec![row(7, u32::MAX, &[9])],
        },
    });
    assert!(router.accepts(&unmeasured));
    assert!(router.accepts_sync(conn(3), &RouterSync { rows: vec![row(7, u32::MAX, &[9])] }));
    assert!(!router.accepts_sync(conn(2), &RouterSync { rows: vec![row(7, u32::MAX, &[9])] }));
}

#[test]
fn rows_for_unknown_channels_are_reported() {
    let mut router = Router::new(NodeId(1));
    router.watch_channel(ChannelId(7));
    let sync = RouterSync {
        rows: vec![row(8, 5, &[9]), row(7, 6, &[9]), row(9, 5, &[9]), row(8, 1, &[])],
    };
    assert_eq!(router.unknown_channels(&sync), vec![8, 9, 8]);
    assert_eq!(router.unknown_channels(&RouterSync { rows: vec![] }), Vec::<u32>::new());
    router.watch_channel(ChannelId(8));
    assert_eq!(router.unknown_channels(&sync), vec![9]);
    // a channel that is hosted here is not thereby known as a remote one
    router.add_channel(ChannelId(9));
    assert_eq!(router.unknown_channels(&sync), vec![9]);
}
