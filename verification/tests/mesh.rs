//! What is remembered about the links of a cluster.

use mqtt_hub::mesh::MeshCache;

#[test]
fn standalone_reads_true_from_an_untouched_cache() {
    let c = MeshCache::new();
    assert!(c.whole(None));
    assert!(c.settled(None));
}

#[test]
fn a_moved_membership_invalidates_a_positive_answer() {
    let mut c = MeshCache::new();
    c.store(Some((3, 7)), true, true);
    assert!(c.whole(Some((3, 7))), "same view: the cache answers");
    assert!(c.settled(Some((3, 7))));
    assert!(!c.whole(Some((4, 7))), "a member joined: not whole");
    assert!(!c.settled(Some((4, 7))));
    assert!(!c.whole(Some((3, 8))), "ownership moved: not whole");
    assert!(!c.settled(Some((3, 8))));
}

#[test]
fn an_unstamped_cache_is_never_whole_on_a_cluster() {
    let c = MeshCache::new();
    assert!(!c.whole(Some((2, 0))));
    assert!(!c.settled(Some((2, 0))));
}
