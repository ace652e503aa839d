use nail::std_lib::cache;
use nail::std_lib::cache::CacheStore;

fn text(s: &str) -> String {
    s.to_string()
}

#[test]
fn a_value_set_is_a_value_got() {
    let mut store = CacheStore::new();
    cache::set(&mut store, text("test_basics"), text("greeting"), text("hello"));
    assert_eq!(cache::get(&mut store, text("test_basics"), text("greeting"), 0).unwrap(), "hello");
    assert!(cache::has(&mut store, text("test_basics"), text("greeting"), 0));
    assert_eq!(cache::len(&mut store, text("test_basics"), 0), 1);
}

#[test]
fn missing_keys_read_as_errors_and_fallbacks() {
    let mut store = CacheStore::new();
    assert!(cache::get(&mut store, text("test_missing"), text("nope"), 0).unwrap_err().contains("nothing stored"));
    assert_eq!(cache::get_or(&mut store, text("test_missing"), text("nope"), text("default"), 0), "default");
}

#[test]
fn an_expired_value_is_gone() {
    let mut store = CacheStore::new();
    cache::set_ttl(&mut store, text("test_expiry"), text("flash"), text("now"), 0, 1_000);
    assert!(cache::get(&mut store, text("test_expiry"), text("flash"), 1_000).is_err());
    assert_eq!(cache::len(&mut store, text("test_expiry"), 1_000), 0);
}

#[test]
fn caches_are_separate_and_clearable() {
    let mut store = CacheStore::new();
    cache::set(&mut store, text("test_one"), text("k"), text("1"));
    cache::set(&mut store, text("test_two"), text("k"), text("2"));
    assert_eq!(cache::get(&mut store, text("test_one"), text("k"), 0).unwrap(), "1");
    cache::clear(&mut store, text("test_one"));
    assert!(cache::get(&mut store, text("test_one"), text("k"), 0).is_err());
    assert_eq!(cache::get(&mut store, text("test_two"), text("k"), 0).unwrap(), "2");
    cache::delete(&mut store, text("test_two"), text("k"));
    assert!(!cache::has(&mut store, text("test_two"), text("k"), 0));
}

#[test]
fn a_value_lives_until_its_deadline() {
    let mut store = CacheStore::new();
    cache::set_ttl(&mut store, text("session"), text("token"), text("abc"), 2, 10);
    assert_eq!(cache::get(&mut store, text("session"), text("token"), 10 + 1_999_999_999).unwrap(), "abc");
    assert!(cache::get(&mut store, text("session"), text("token"), 10 + 2_000_000_000).is_err());
    // The expired value was dropped on the way, so it stays gone.
    assert!(!cache::has(&mut store, text("session"), text("token"), 0));
}

#[test]
fn a_negative_time_to_live_expires_at_once() {
    let mut store = CacheStore::new();
    cache::set_ttl(&mut store, text("c"), text("k"), text("v"), -5, 7);
    assert!(!cache::has(&mut store, text("c"), text("k"), 7));
}

#[test]
fn setting_again_replaces_and_counting_skips_the_expired() {
    let mut store = CacheStore::new();
    cache::set(&mut store, text("c"), text("a"), text("1"));
    cache::set(&mut store, text("c"), text("a"), text("2"));
    cache::set_ttl(&mut store, text("c"), text("b"), text("3"), 1, 0);
    cache::set(&mut store, text("d"), text("a"), text("4"));
    assert_eq!(cache::get(&mut store, text("c"), text("a"), 0).unwrap(), "2");
    assert_eq!(cache::len(&mut store, text("c"), 0), 2);
    assert_eq!(cache::len(&mut store, text("c"), 1_000_000_000), 1);
    assert_eq!(cache::len(&mut store, text("d"), 1_000_000_000), 1);
    let message = cache::get(&mut store, text("c"), text("b"), 0).unwrap_err();
    assert_eq!(message, "cache_get: nothing stored under `b` in the `c` cache");
}

#[test]
fn a_value_set_stays_through_unrelated_calls() {
    let mut store = CacheStore::new();
    cache::set(&mut store, text("kept"), text("k"), text("v"));
    cache::set(&mut store, text("kept"), text("other"), text("w"));
    cache::set_ttl(&mut store, text("kept"), text("brief"), text("x"), 1, 0);
    cache::delete(&mut store, text("kept"), text("other"));
    cache::clear(&mut store, text("elsewhere"));
    assert!(cache::get(&mut store, text("kept"), text("brief"), 5_000_000_000).is_err());
    assert_eq!(cache::len(&mut store, text("kept"), u64::MAX), 1);
    assert_eq!(cache::get(&mut store, text("kept"), text("k"), u64::MAX).unwrap(), "v");
}
