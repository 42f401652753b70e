use synonym_finder::cooldown::cooldown_wait;
use synonym_finder::logger::Level;
use synonym_finder::synonym::balancer::Balancer;

const SEC: u64 = 1_000_000_000;

fn ids() -> Vec<String> {
    vec!["Thesaurus".to_string(), "MerriamWebster".to_string()]
}

#[test]
fn oldest_identifier_wakes_first() {
    let b = Balancer::new(1, 5, &ids());
    assert!(b.can_wakeup("MerriamWebster"));
    assert!(!b.can_wakeup("Thesaurus"));
}

#[test]
fn no_thread_no_wakeup() {
    let b = Balancer::new(0, 5, &ids());
    assert!(!b.can_wakeup("MerriamWebster"));
    assert!(!b.can_wakeup("Thesaurus"));
}

#[test]
fn served_finder_goes_last_and_thread_comes_back() {
    let mut b = Balancer::new(1, 5, &ids());
    assert_eq!(b.take_thread(10 * SEC), 0);
    assert!(!b.can_wakeup("MerriamWebster"));
    assert!(!b.can_wakeup("Thesaurus"));
    b.release_thread();
    assert!(b.can_wakeup("Thesaurus"));
    assert!(!b.can_wakeup("MerriamWebster"));
    assert_eq!(b.take_thread(11 * SEC), 0);
    b.release_thread();
    assert!(b.can_wakeup("MerriamWebster"));
}

#[test]
fn next_wait_follows_the_cooldown() {
    let mut b = Balancer::new(2, 5, &ids());
    assert_eq!(b.next_wait(3 * SEC), 2);
    assert_eq!(b.next_wait(7 * SEC), 0);
    assert_eq!(b.take_thread(10 * SEC), 0);
    assert_eq!(b.take_thread(10 * SEC), 0);
    assert_eq!(b.next_wait(12 * SEC), 3);
    assert_eq!(b.available_threads(), 0);
}

#[test]
fn take_thread_dates_the_request_after_the_wait() {
    let mut b = Balancer::new(2, 5, &ids());
    assert_eq!(b.take_thread(2 * SEC), 3);
    assert!(b.can_wakeup("Thesaurus"));
    assert_eq!(b.oldest_timestamp(), 0);
    assert_eq!(b.take_thread(4 * SEC), 1);
    assert_eq!(b.oldest_timestamp(), 5 * SEC);
    assert_eq!(b.next_wait(6 * SEC), 4);
}

#[test]
fn sites_are_served_in_turn() {
    let three = vec!["c".to_string(), "a".to_string(), "b".to_string()];
    let mut b = Balancer::new(1, 0, &three);
    let mut served = Vec::new();
    for k in 1..=7u64 {
        for id in ["a", "b", "c"] {
            if b.can_wakeup(id) {
                served.push(id);
            }
        }
        b.take_thread(k * SEC);
        b.release_thread();
    }
    assert_eq!(served, vec!["a", "b", "c", "a", "b", "c", "a"]);
}

#[test]
fn cooldown_wait_values() {
    assert_eq!(cooldown_wait(5, 0, 3 * SEC), 2);
    assert_eq!(cooldown_wait(5, 0, 7 * SEC), 0);
    assert_eq!(cooldown_wait(5, SEC, SEC + SEC / 2), 5);
    assert_eq!(cooldown_wait(0, 0, 0), 0);
    assert_eq!(cooldown_wait(5, 2 * SEC, 7 * SEC), 0);
}

#[test]
fn level_order() {
    assert!(Level::Debug <= Level::Error);
    assert!(Level::Error > Level::Warn);
    assert!(Level::Info == Level::Info);
    assert_eq!(Level::Error.rank(), 4);
    assert_eq!(Level::Debug.rank(), 1);
    assert!(Level::Debug.records(Level::Info));
    assert!(!Level::Error.records(Level::Warn));
    assert!(Level::Warn.records(Level::Warn));
}
