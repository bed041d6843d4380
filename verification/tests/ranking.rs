use netspectrum::capture::Addr;
use netspectrum::hosts::{
    credit_host, decay_hosts, find_host, find_slot, rank, rank_hosts, refresh_slots, HostTotal,
    SCORE_FLOOR,
};
use netspectrum::number::Double;

fn double(x: f64) -> Double {
    Double::from_bits(x.to_bits()).unwrap()
}

fn host(n: u32, score: f64) -> HostTotal {
    HostTotal { addr: Addr::V4(n), score: double(score), pending: 0 }
}

fn addrs(list: &[u32]) -> Vec<Addr> {
    list.iter().map(|n| Addr::V4(*n)).collect()
}

fn slots(list: &[Option<u32>]) -> Vec<Option<Addr>> {
    list.iter().map(|s| s.map(Addr::V4)).collect()
}

#[test]
fn the_score_floor_is_512() {
    assert_eq!(f64::from_bits(SCORE_FLOOR), 512.0);
}

#[test]
fn bytes_are_credited_to_one_host() {
    let mut hosts = Vec::new();
    credit_host(&mut hosts, Addr::V4(1), 100);
    credit_host(&mut hosts, Addr::V4(2), 7);
    credit_host(&mut hosts, Addr::V4(1), 50);
    credit_host(&mut hosts, Addr::V6(1), 1);
    assert_eq!(hosts.len(), 3);
    assert_eq!(hosts[0].pending, 150);
    assert_eq!(hosts[1].pending, 7);
    assert_eq!(hosts[2].addr, Addr::V6(1));
    assert_eq!(hosts.iter().map(|h| h.pending).sum::<u64>(), 158);
    assert_eq!(find_host(&hosts, Addr::V4(2)), Some(1));
    assert_eq!(find_host(&hosts, Addr::V4(9)), None);
}

#[test]
fn a_full_count_stays_full() {
    let mut hosts = vec![HostTotal { pending: u64::MAX - 3, ..host(1, 0.0) }];
    credit_host(&mut hosts, Addr::V4(1), 10);
    assert_eq!(hosts[0].pending, u64::MAX);
}

#[test]
fn faded_hosts_are_dropped() {
    let hosts = vec![host(1, 900.0), host(2, 600.0), host(3, 520.0)];
    let left = decay_hosts(&hosts, &vec![double(800.0), double(512.0), double(512.5)]);
    assert_eq!(left, vec![host(1, 800.0), host(3, 512.5)]);
}

#[test]
fn ranking_is_from_the_best_down() {
    let order = rank(&vec![double(2.0), double(9.0), double(2.0), double(5.0)]);
    assert_eq!(order, vec![1, 3, 0, 2]);
    assert!(rank(&Vec::new()).is_empty());
    let hosts = vec![host(1, 600.0), host(2, 9000.0), host(3, 700.0)];
    assert_eq!(rank_hosts(&hosts), addrs(&[2, 3, 1]));
}

#[test]
fn slots_are_found() {
    let list = slots(&[Some(4), None, Some(5), None]);
    assert_eq!(find_slot(&list, Some(Addr::V4(5))), Some(2));
    assert_eq!(find_slot(&list, None), Some(1));
    assert_eq!(find_slot(&list, Some(Addr::V4(6))), None);
}

#[test]
fn free_slots_go_to_the_best_in_order() {
    let mut list = slots(&[None, None, None]);
    assert!(refresh_slots(&mut list, &addrs(&[7, 8]), 3));
    assert_eq!(list, slots(&[Some(7), Some(8), None]));
    assert!(!refresh_slots(&mut list, &addrs(&[7, 8]), 3));
}

#[test]
fn an_occupant_in_the_best_twice_n_keeps_its_slot() {
    let mut list = slots(&[Some(1), Some(2)]);
    assert!(!refresh_slots(&mut list, &addrs(&[3, 4, 2, 1]), 2));
    assert_eq!(list, slots(&[Some(1), Some(2)]));
}

#[test]
fn an_occupant_that_dropped_out_is_replaced() {
    let mut list = slots(&[Some(1), Some(2)]);
    assert!(refresh_slots(&mut list, &addrs(&[3, 4, 5, 2, 1]), 2));
    assert_eq!(list, slots(&[Some(3), Some(2)]));
}

#[test]
fn a_gap_stays_when_nobody_is_left() {
    let mut list = slots(&[Some(1), Some(2)]);
    assert!(refresh_slots(&mut list, &addrs(&[2]), 2));
    assert_eq!(list, slots(&[None, Some(2)]));
}

#[test]
fn no_host_gets_two_slots() {
    let mut list = slots(&[None, Some(3), None, None]);
    refresh_slots(&mut list, &addrs(&[3, 1, 2, 9]), 4);
    assert_eq!(list, slots(&[Some(1), Some(3), Some(2), Some(9)]));
}

#[test]
fn newcomers_are_among_the_best_and_take_gaps() {
    let before = slots(&[Some(1), None, Some(3), Some(4)]);
    let ranked = addrs(&[10, 11, 12, 3, 1, 5, 6, 7, 4]);
    let mut after = before.clone();
    refresh_slots(&mut after, &ranked, 4);
    assert_eq!(after, slots(&[Some(1), Some(10), Some(3), Some(11)]));
    for (old, new) in before.iter().zip(&after) {
        if old != new {
            assert!(ranked[..4].contains(&new.unwrap()));
            assert!(old.map_or(true, |a| !ranked[..8].contains(&a)));
        }
    }
}
