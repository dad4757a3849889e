use std::sync::Arc;

use cache_core::singleflight::{leader_lost, Role};
use cache_core::SingleFlight;

fn answer(text: &str) -> Result<Arc<String>, String> {
    Ok(Arc::new(text.to_string()))
}

#[test]
fn parallel_calls_collapse_to_one_backend_hit() {
    let mut sf = SingleFlight::new();
    let mut backend_calls = 0;
    let mut waiting: Vec<u64> = Vec::new();
    for caller in 0..10 {
        match sf.do_or_join("key", caller) {
            Role::Lead => backend_calls += 1,
            Role::Join => waiting.push(caller),
        }
    }
    let reply = answer("response");
    let deliveries = sf.finish("key", &reply);
    assert_eq!(deliveries.iter().map(|d| d.0).collect::<Vec<u64>>(), waiting);
    assert_eq!(waiting.len(), 9);
    for (_, copy) in &deliveries {
        assert!(copy.is_ok());
        assert_eq!(**copy.as_ref().unwrap(), "response".to_string());
        assert!(Arc::ptr_eq(copy.as_ref().unwrap(), reply.as_ref().unwrap()));
    }
    assert_eq!(backend_calls, 1);
    assert_eq!(sf.do_or_join("key", 10), Role::Lead);
    assert!(sf.finish("key", &answer("next")).is_empty());
}

#[test]
fn error_is_broadcast_to_all_followers() {
    let mut sf = SingleFlight::new();
    let roles: Vec<Role> = (0..3).map(|caller| sf.do_or_join("err_key", caller)).collect();
    assert_eq!(roles, vec![Role::Lead, Role::Join, Role::Join]);
    let deliveries = sf.finish("err_key", &Err("backend exploded".to_string()));
    assert_eq!(deliveries.len(), 2);
    for (_, copy) in deliveries {
        assert!(copy.is_err());
        assert_eq!(copy.unwrap_err(), "backend exploded");
    }
}

#[test]
fn distinct_keys_run_independently() {
    let mut sf = SingleFlight::new();
    let mut backend_calls = 0;
    for k in ["a", "b", "c"] {
        if sf.do_or_join(k, 0) == Role::Lead {
            backend_calls += 1;
        }
    }
    assert_eq!(backend_calls, 3);
    assert_eq!(sf.do_or_join("a", 1), Role::Join);
    assert!(sf.finish("b", &answer("b")).is_empty());
    assert_eq!(sf.do_or_join("a", 2), Role::Join);
    assert_eq!(sf.do_or_join("b", 3), Role::Lead);
    assert_eq!(sf.do_or_join("c", 4), Role::Join);
    let callers: Vec<u64> = sf.finish("a", &answer("a")).iter().map(|d| d.0).collect();
    assert_eq!(callers, vec![1, 2]);
}

#[test]
fn key_without_a_flight_has_nobody_waiting() {
    let mut sf = SingleFlight::default();
    assert!(sf.finish("key", &answer("x")).is_empty());
    assert_eq!(sf.do_or_join("key", 0), Role::Lead);
}

#[test]
fn lost_leader_is_reported() {
    assert_eq!(leader_lost("channel closed"), "singleflight: канал лидера упал: channel closed");
}
