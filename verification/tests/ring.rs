use protocol::addr::NodeId;
use protocol::chord::finger_table::NodeIdRange;

#[test]
fn node_range() {
    assert_eq!(
        NodeIdRange::new(10, 20).contains(10.into(), true, true),
        true
    );
    assert_eq!(
        NodeIdRange::new(10, 20).contains(20.into(), true, true),
        true
    );
    assert_eq!(
        NodeIdRange::new(10, 20).contains(11.into(), true, true),
        true
    );
    assert_eq!(
        NodeIdRange::new(10, 20).contains(1.into(), true, true),
        false
    );

    assert_eq!(
        NodeIdRange::new(20, 10).contains(10.into(), true, true),
        true
    );
    assert_eq!(
        NodeIdRange::new(20, 10).contains(20.into(), true, true),
        true
    );
    assert_eq!(
        NodeIdRange::new(20, 10).contains(11.into(), true, true),
        false
    );
    assert_eq!(
        NodeIdRange::new(20, 10).contains(1.into(), true, true),
        true
    );
}

#[test]
fn node_range_open_ends() {
    let range = NodeIdRange::new(NodeId(10), NodeId(20));
    assert!(!range.contains(NodeId(10), false, false));
    assert!(!range.contains(NodeId(20), false, false));
    assert!(range.contains(NodeId(10), true, false));
    assert!(!range.contains(NodeId(20), true, false));
    assert!(range.contains(NodeId(20), false, true));
    assert!(range.contains(NodeId(15), false, false));
}

fn reference(key: u32, lo: u32, hi: u32, left: bool, right: bool) -> bool {
    let key = key as u64;
    let lo = lo as u64;
    let hi = hi as u64;
    let ring: u64 = 1 << 32;
    let distance = (key + ring - lo) % ring;
    let width = (hi + ring - lo) % ring;
    (left && key == lo) || (right && key == hi) || (0 < distance && distance < width)
}

#[test]
fn in_range_agrees_with_clockwise_distance() {
    let points: [u32; 11] = [
        0,
        1,
        2,
        9,
        10,
        11,
        20,
        u32::MAX / 2,
        u32::MAX - 2,
        u32::MAX - 1,
        u32::MAX,
    ];
    for &lo in points.iter() {
        for &hi in points.iter() {
            for &key in points.iter() {
                for flags in 0..4 {
                    let left = flags & 1 == 1;
                    let right = flags & 2 == 2;
                    let got = NodeIdRange::new(NodeId(lo), NodeId(hi)).contains(NodeId(key), left, right);
                    assert_eq!(
                        got,
                        reference(key, lo, hi, left, right),
                        "key {} lo {} hi {} left {} right {}",
                        key,
                        lo,
                        hi,
                        left,
                        right
                    );
                }
            }
        }
    }
}

#[test]
fn in_range_from_a_point_to_itself() {
    let range = NodeIdRange::new(NodeId(10), NodeId(10));
    assert!(!range.contains(NodeId(10), false, false));
    assert!(range.contains(NodeId(10), true, false));
    assert!(range.contains(NodeId(10), false, true));
    assert!(!range.contains(NodeId(11), true, true));
    assert!(!range.contains(NodeId(9), true, true));
    assert!(!range.contains(NodeId(0), false, true));
}

#[test]
fn in_range_through_zero() {
    let range = NodeIdRange::new(NodeId(u32::MAX - 1), NodeId(3));
    assert!(range.contains(NodeId(u32::MAX), false, false));
    assert!(range.contains(NodeId(0), false, false));
    assert!(range.contains(NodeId(2), false, false));
    assert!(!range.contains(NodeId(3), false, false));
    assert!(range.contains(NodeId(3), false, true));
    assert!(!range.contains(NodeId(u32::MAX - 1), false, true));
    assert!(range.contains(NodeId(u32::MAX - 1), true, false));
    assert!(!range.contains(NodeId(4), true, true));
    assert!(!range.contains(NodeId(u32::MAX - 2), true, true));
}
