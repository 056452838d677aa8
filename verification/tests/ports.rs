use nthw::scraper_pool_manager::{get_first_available_port, get_next_port, PoolManager};

#[test]
fn first_available_port_skips_taken_ones() {
    let taken: Vec<u16> = vec![4444, 4445, 4447];
    assert_eq!(get_first_available_port(&taken, 4444), 4446);
    assert_eq!(get_first_available_port(&taken, 4447), 4448);
    assert_eq!(get_first_available_port(&taken, 4000), 4000);
    assert_eq!(taken, vec![4444, 4445, 4447]);
}

#[test]
fn next_port_reserves_the_port() {
    let mut taken: Vec<u16> = Vec::new();
    assert_eq!(get_next_port(&mut taken, 4444), 4444);
    assert_eq!(get_next_port(&mut taken, 4444), 4445);
    assert_eq!(get_next_port(&mut taken, 4444), 4446);
    assert_eq!(taken, vec![4444, 4445, 4446]);
}

#[test]
fn reserved_ports_differ() {
    let mut taken: Vec<u16> = vec![9000];
    let a = get_next_port(&mut taken, 9000);
    let b = get_next_port(&mut taken, 8999);
    assert_ne!(a, b);
    assert_eq!(a, 9001);
    assert_eq!(b, 8999);
}

#[test]
fn last_port_can_be_handed_out() {
    let mut taken: Vec<u16> = vec![65534];
    assert_eq!(get_next_port(&mut taken, 65534), 65535);
}

#[test]
fn pool_manager_keeps_base_port() {
    let m = PoolManager::new(4444);
    assert_eq!(m.get_base_port(), 4444);
}
