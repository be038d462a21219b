//! Routing policy of a shared session.

use goose_roaming::{Refused, Role, Route, Router, Scope, SessionBroker, SubscriberId};

fn ids() -> (SubscriberId, SubscriberId, SubscriberId) {
    (SubscriberId(1), SubscriberId(2), SubscriberId(3))
}

#[test]
fn scope_maps_to_role() {
    assert_eq!(Role::from_scope(Scope::Control), Role::Controller);
    assert_eq!(Role::from_scope(Scope::Attach), Role::Steerer);
    assert_eq!(Role::from_scope(Scope::Observe), Role::Observer);
}

#[test]
fn notifications_broadcast() {
    let mut r = Router::new();
    let (a, b, _) = ids();
    r.attach(a, Role::Controller);
    r.attach(b, Role::Observer);
    assert_eq!(r.route_notification(), Route::Broadcast);
}

#[test]
fn permission_requests_go_to_controller_only() {
    let mut r = Router::new();
    let (a, b, _) = ids();
    r.attach(a, Role::Observer);
    r.attach(b, Role::Controller);
    assert_eq!(r.route_permission_request(), Route::To(b));
}

#[test]
fn permission_request_drops_with_no_controller() {
    let mut r = Router::new();
    let (a, _, _) = ids();
    r.attach(a, Role::Observer);
    assert_eq!(r.route_permission_request(), Route::Drop);
}

#[test]
fn observers_cannot_steer() {
    let mut r = Router::new();
    let (a, b, c) = ids();
    r.attach(a, Role::Observer);
    r.attach(b, Role::Steerer);
    r.attach(c, Role::Controller);
    assert_eq!(r.accept_steer(a), Err(Refused::NotPermitted));
    assert_eq!(r.accept_steer(b), Ok(()));
    assert_eq!(r.accept_steer(c), Ok(()));
}

#[test]
fn unknown_subscriber_cannot_steer() {
    let r = Router::new();
    assert_eq!(r.accept_steer(SubscriberId(99)), Err(Refused::Unknown));
}

#[test]
fn last_controller_wins_demotes_previous() {
    let mut r = Router::new();
    let (a, b, _) = ids();
    r.attach(a, Role::Controller);
    assert_eq!(r.controller(), Some(a));
    r.attach(b, Role::Controller);
    assert_eq!(r.controller(), Some(b));
    // The old controller is demoted, not detached, and can still steer.
    assert_eq!(r.accept_steer(a), Ok(()));
}

#[test]
fn detach_removes_subscriber() {
    let mut r = Router::new();
    let (a, _, _) = ids();
    r.attach(a, Role::Controller);
    assert!(r.is_attached(a));
    r.detach(a);
    assert!(!r.is_attached(a));
    assert_eq!(r.controller(), None);
}

#[test]
fn broker_allocates_unique_ids_and_attaches() {
    let mut b = SessionBroker::new();
    let first = b.attach_peer(Scope::Control);
    let second = b.attach_peer(Scope::Observe);
    assert_ne!(first, second);
    assert_eq!(b.router().subscriber_count(), 2);
    assert_eq!(b.router().controller(), Some(first));
}

#[test]
fn a_controller_that_attaches_again_as_observer_gives_up_control() {
    let mut r = Router::default();
    let (a, b, _) = ids();
    r.attach(a, Role::Controller);
    r.attach(a, Role::Observer);
    assert_eq!(r.controller(), None);
    assert_eq!(r.subscriber_count(), 1);
    assert_eq!(r.accept_steer(a), Err(Refused::NotPermitted));
    r.attach(b, Role::Controller);
    // The observer is not promoted by the demotion of controllers.
    assert_eq!(r.accept_steer(a), Err(Refused::NotPermitted));
}

#[test]
fn detaching_an_observer_keeps_the_controller() {
    let mut r = Router::new();
    let (a, b, _) = ids();
    r.attach(a, Role::Controller);
    r.attach(b, Role::Observer);
    r.detach(b);
    assert_eq!(r.controller(), Some(a));
    assert_eq!(r.subscriber_count(), 1);
}

#[test]
fn ids_of_detached_peers_are_not_given_out_again() {
    let mut b = SessionBroker::default();
    let first = b.attach_peer(Scope::Attach);
    b.detach_peer(first);
    assert_eq!(b.router().subscriber_count(), 0);
    let second = b.attach_peer(Scope::Attach);
    assert_ne!(first, second);
    assert_eq!(b.next_subscriber_id(), SubscriberId(2));
}

#[test]
fn each_attached_peer_is_counted_once() {
    let mut r = Router::new();
    let (a, b, c) = ids();
    assert_eq!(r.subscriber_count(), 0);
    r.attach(a, Role::Controller);
    r.attach(b, Role::Controller);
    r.attach(c, Role::Observer);
    assert_eq!(r.subscriber_count(), 3);
    r.attach(c, Role::Steerer);
    assert_eq!(r.subscriber_count(), 3);
    r.detach(b);
    assert_eq!(r.subscriber_count(), 2);
    r.detach(b);
    assert_eq!(r.subscriber_count(), 2);
    r.detach(a);
    r.detach(c);
    assert_eq!(r.subscriber_count(), 0);
}
