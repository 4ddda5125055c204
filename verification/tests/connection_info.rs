use nargun::connection_info::{ConnectionInfos, PeerConnectionInfo};

#[test]
fn new_connection_chokes_both_ways() {
    let mut infos = ConnectionInfos::new();
    let p = PeerConnectionInfo::new(&mut infos);
    assert!(p.am_choking(&infos));
    assert!(!p.am_interested(&infos));
    assert!(p.peer_choking(&infos));
    assert!(!p.peer_interested(&infos));
    assert!(!p.connection_is_active(&infos));
}

#[test]
fn clones_share_one_state() {
    let mut infos = ConnectionInfos::new();
    let p = PeerConnectionInfo::new(&mut infos);
    let other = PeerConnectionInfo::new(&mut infos);
    let q = p.clone();
    q.set_am_choking(&mut infos, false);
    q.set_peer_interested(&mut infos, true);
    assert!(!p.am_choking(&infos));
    assert!(!q.am_choking(&infos));
    assert!(p.peer_interested(&infos));
    assert!(!p.am_interested(&infos));
    // another connection is untouched
    assert!(other.am_choking(&infos));
    assert!(!other.peer_interested(&infos));
    p.set_connection_is_active(&mut infos, true);
    assert!(q.connection_is_active(&infos));
}
