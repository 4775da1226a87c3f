use lifegame::ppair::{add, addself, allaround, around, pack, topack, unpack, NEIGHBOR_OFFSETS_ALL, NEIGHBOR_OFFSETS_AROUND};

#[test]
fn pack_unpack_roundtrip() {
    for &(a, b) in &[(0, 0), (1, 2), (-1, -1), (i32::MIN, i32::MAX), (i32::MAX, i32::MIN), (-7, 12345)] {
        assert_eq!(unpack(pack(a, b)), (a, b));
    }
}

#[test]
fn pack_layout() {
    assert_eq!(pack(0, 0), 0);
    assert_eq!(pack(1, 0), 1i64 << 32);
    assert_eq!(pack(0, 1), 1);
    assert_eq!(pack(0, -1), 0xffff_ffff);
    assert_eq!(pack(-1, -1), -1);
    assert_eq!(pack(2, 3), (2i64 << 32) | 3);
}

#[test]
fn unpack_pack_roundtrip() {
    for &p in &[0i64, 1, -1, i64::MIN, i64::MAX, 0x1234_5678_9abc_def0] {
        let (a, b) = unpack(p);
        assert_eq!(pack(a, b), p);
    }
}

#[test]
fn add_is_componentwise() {
    assert_eq!(unpack(add(pack(1, 2), pack(3, -5))), (4, -3));
    assert_eq!(unpack(add(pack(-1, -1), pack(1, 1))), (0, 0));
    assert_eq!(unpack(add(pack(5, 0), pack(0, -1))), (5, -1));
}

#[test]
fn add_wraps_each_coordinate() {
    assert_eq!(unpack(add(pack(i32::MAX, i32::MAX), pack(1, 1))), (i32::MIN, i32::MIN));
    assert_eq!(unpack(add(pack(i32::MIN, 0), pack(-1, 0))), (i32::MAX, 0));
    // a carry out of the low word does not reach the high word
    assert_eq!(unpack(add(pack(3, -1), pack(0, 1))), (3, 0));
}

#[test]
fn addself_adds_in_place() {
    let mut p = pack(10, 20);
    addself(&mut p, &pack(-3, 4));
    assert_eq!(unpack(p), (7, 24));
}

#[test]
fn topack_packs_pair() {
    assert_eq!(topack(&(9, -9)), pack(9, -9));
}

#[test]
fn around_lists_eight_neighbours_in_order() {
    let got: Vec<(i32, i32)> = around(pack(5, 5)).iter().map(|&p| unpack(p)).collect();
    assert_eq!(got, vec![(4, 4), (5, 4), (6, 4), (4, 5), (6, 5), (4, 6), (5, 6), (6, 6)]);
}

#[test]
fn allaround_includes_centre() {
    let got: Vec<(i32, i32)> = allaround(pack(0, 0)).iter().map(|&p| unpack(p)).collect();
    assert_eq!(got, vec![(-1, -1), (0, -1), (1, -1), (-1, 0), (0, 0), (1, 0), (-1, 1), (0, 1), (1, 1)]);
}

#[test]
fn neighbour_offsets() {
    assert_eq!(unpack(NEIGHBOR_OFFSETS_ALL[4]), (0, 0));
    assert_eq!(unpack(NEIGHBOR_OFFSETS_AROUND[0]), (-1, -1));
    assert_eq!(unpack(NEIGHBOR_OFFSETS_AROUND[7]), (1, 1));
}

#[test]
fn add_is_commutative_associative_with_zero() {
    let ps = [pack(1, 2), pack(-5, i32::MAX), pack(i32::MIN, -1), pack(0, 0), pack(7, -9)];
    for &p in &ps {
        assert_eq!(add(p, pack(0, 0)), p);
        for &q in &ps {
            assert_eq!(add(p, q), add(q, p));
            for &r in &ps {
                assert_eq!(add(add(p, q), r), add(p, add(q, r)));
            }
        }
    }
}
