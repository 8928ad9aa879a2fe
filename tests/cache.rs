use yeti_paint::autosave::{AutoSaved, Housekeeping, CHECK_EVERY_MS, EVICT_AFTER_MS, FLUSH_AFTER_MS};

#[test]
fn fresh_cache_needs_a_load() {
    let mut c: AutoSaved<u32> = AutoSaved::new(0);
    assert!(c.needs_load());
    c.load(5);
    assert!(!c.needs_load());
    assert_eq!(*c.value(), 5);
    assert!(CHECK_EVERY_MS < FLUSH_AFTER_MS);
}

#[test]
fn write_then_drop_asks_for_a_save() {
    // stands for durable storage
    let mut disk: Option<u32> = None;
    let mut c: AutoSaved<u32> = AutoSaved::new(0);
    c.load(disk.unwrap_or_default());
    *c.write(10) = 42;
    if c.finish(20) {
        disk = Some(*c.value());
    }
    assert!(c.is_dropped());
    assert_eq!(disk, Some(42));
    let mut again: AutoSaved<u32> = AutoSaved::new(30);
    assert!(again.needs_load());
    again.load(disk.unwrap_or_default());
    assert_eq!(*again.value(), 42);
}

#[test]
fn clean_drop_asks_for_nothing() {
    let mut c: AutoSaved<u32> = AutoSaved::new(0);
    c.load(3);
    c.touch(5);
    assert!(!c.finish(6));
}

#[test]
fn dirty_value_is_flushed_when_due_and_kept() {
    let mut c: AutoSaved<u32> = AutoSaved::new(0);
    c.load(0);
    *c.write(FLUSH_AFTER_MS) = 8;
    assert!(matches!(c.periodic_check(FLUSH_AFTER_MS), Housekeeping::Idle));
    assert!(matches!(c.periodic_check(FLUSH_AFTER_MS + 1), Housekeeping::SaveHeld));
    assert!(!c.needs_load());
    assert!(matches!(c.periodic_check(FLUSH_AFTER_MS + 2), Housekeeping::Idle));
    assert!(!c.save_if_needed(FLUSH_AFTER_MS + 3));
}

#[test]
fn idle_value_is_released_and_reloads_the_same() {
    let mut disk: Option<u32> = None;
    let mut c: AutoSaved<u32> = AutoSaved::new(0);
    c.load(0);
    *c.write(100) = 77;
    let t = 100 + EVICT_AFTER_MS + 1;
    match c.periodic_check(t) {
        Housekeeping::SaveReleased(v) => disk = Some(v),
        _ => panic!("an idle dirty value must be released with a save"),
    }
    assert!(c.needs_load());
    c.load(disk.unwrap_or_default());
    assert_eq!(*c.value(), 77);
}

#[test]
fn idle_clean_value_is_released_without_save() {
    let mut c: AutoSaved<u32> = AutoSaved::new(0);
    c.load(1);
    assert!(matches!(c.periodic_check(EVICT_AFTER_MS + 1), Housekeeping::Idle));
    assert!(c.needs_load());
}

#[test]
fn save_if_needed_reports_dirtiness() {
    let mut c: AutoSaved<u32> = AutoSaved::new(0);
    c.load(1);
    assert!(!c.save_if_needed(1));
    *c.write(2) = 2;
    assert!(c.save_if_needed(3));
    assert!(!c.save_if_needed(4));
}

#[test]
fn reading_keeps_the_value_in_memory() {
    let mut c: AutoSaved<u32> = AutoSaved::new(0);
    c.load(6);
    assert_eq!(*c.read(EVICT_AFTER_MS), 6);
    assert!(matches!(c.periodic_check(EVICT_AFTER_MS + 1), Housekeeping::Idle));
    assert!(!c.needs_load());
    assert!(matches!(c.periodic_check(2 * EVICT_AFTER_MS + 1), Housekeeping::Idle));
    assert!(c.needs_load());
}
