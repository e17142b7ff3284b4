use rav1d_dsp::wasm_thread::{is_thread_spawner_set, set_thread_spawner, spawn, SpawnerRegistry};

fn accepting(_body: u32) -> Result<(), ()> {
    Ok(())
}

fn refusing(_body: u32) -> Result<(), ()> {
    Err(())
}

#[test]
fn only_the_first_registration_takes_effect() {
    let mut registry: SpawnerRegistry<fn(u32) -> Result<(), ()>> = SpawnerRegistry::new();
    assert!(!is_thread_spawner_set(&registry));
    assert!(set_thread_spawner(&mut registry, accepting));
    assert!(is_thread_spawner_set(&registry));
    assert!(!set_thread_spawner(&mut registry, refusing));
    assert!(is_thread_spawner_set(&registry));
    assert_eq!(spawn(&registry, 7), Ok(()));
}

#[test]
fn spawn_fails_without_a_spawner() {
    let registry: SpawnerRegistry<fn(u32) -> Result<(), ()>> = SpawnerRegistry::new();
    assert_eq!(spawn(&registry, 7), Err(()));
}

#[test]
fn spawn_returns_the_answer_of_the_spawner() {
    let mut registry: SpawnerRegistry<fn(u32) -> Result<(), ()>> = SpawnerRegistry::new();
    assert!(set_thread_spawner(&mut registry, refusing));
    assert_eq!(spawn(&registry, 7), Err(()));
}

#[test]
fn snapshot_keeps_the_spawner() {
    let mut registry: SpawnerRegistry<fn(u32) -> Result<(), ()>> = SpawnerRegistry::new();
    assert!(!is_thread_spawner_set(&registry.snapshot()));
    assert!(set_thread_spawner(&mut registry, refusing));
    assert!(is_thread_spawner_set(&registry.snapshot()));
    assert_eq!(spawn(&registry.snapshot(), 7), Err(()));
}

#[test]
fn exactly_the_first_of_many_takes_effect() {
    let mut registry: SpawnerRegistry<fn(u32) -> Result<(), ()>> = SpawnerRegistry::new();
    for n in 0..10 {
        let spawner: fn(u32) -> Result<(), ()> = if n == 0 { refusing } else { accepting };
        assert_eq!(set_thread_spawner(&mut registry, spawner), n == 0);
        assert_eq!(spawn(&registry, n), Err(()));
    }
}
