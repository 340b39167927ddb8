use goetia::data::{DataHandle, DataRegistry, SaveError, SaveFile, SAVE_CURRENT_VERSION};

#[test]
fn registry_insert_and_get() {
    let mut r: DataRegistry<u32> = DataRegistry::new(true);
    assert!(r.is_empty());
    let a = r.insert(5);
    let b = r.insert_loaded("cfg.ron".to_string(), Some((10, 0)), 7);
    assert_eq!(a, DataHandle(0));
    assert_eq!(b, DataHandle(1));
    assert_eq!(*r.get(&b), 7);
    assert_eq!(r.len(), 2);
    assert_eq!(r.version(), 2);
    assert_eq!(r.iter(), vec![&5, &7]);
    assert_eq!(r.path(1), "cfg.ron");
}

#[test]
fn load_and_reload_bookkeeping() {
    let mut r: DataRegistry<(f32, String)> = DataRegistry::new(true);
    let h = r.insert_loaded("cfg.ron".to_string(), Some((100, 0)), (1.5, "imp".to_string()));
    // unchanged file: nothing to do
    assert!(!r.needs_reload(0, Some((100, 0))));
    // file touched, but the new text does not parse: old value kept
    assert!(r.needs_reload(0, Some((101, 0))));
    assert!(!r.record_reload(0, Some((101, 0)), None));
    assert_eq!(r.finish_poll(0), 0);
    assert_eq!(r.get(&h).0, 1.5);
    assert_eq!(r.version(), 1);
    // fixed text: value swapped and version bumped
    assert!(r.needs_reload(0, Some((102, 0))));
    assert!(r.record_reload(0, Some((102, 0)), Some((3.0, "imp".to_string()))));
    assert_eq!(r.finish_poll(1), 1);
    assert_eq!(r.get(&h).0, 3.0);
    assert_eq!(r.version(), 2);
    // in-memory entries and disabled hot reload never reload
    r.insert((0.0, String::new()));
    assert!(!r.needs_reload(1, Some((5, 5))));
    r.set_hot_reload(false);
    assert!(!r.needs_reload(0, Some((999, 0))));
    assert!(!r.needs_reload(0, None));
}

#[test]
fn save_sections_roundtrip() {
    let mut s = SaveFile::new();
    assert_eq!(s.version(), SAVE_CURRENT_VERSION);
    assert!(!s.has("bank"));
    s.put_text("bank", "(ashen_idol: 666)".to_string());
    s.put_text("run", "()".to_string());
    s.put_text("bank", "(ashen_idol: 667)".to_string());
    assert!(s.has("bank"));
    assert_eq!(s.section_text("bank"), Ok(&"(ashen_idol: 667)".to_string()));
    assert_eq!(s.section_text("tmp"), Err(SaveError::MissingSection("tmp".to_string())));
    assert_eq!(s.check_version(), Ok(()));
    let parts = s.section_list().to_vec();
    assert_eq!(parts.len(), 2);
    let back = SaveFile::from_parts(s.version(), parts).unwrap();
    assert_eq!(back.section_text("run"), Ok(&"()".to_string()));
}

#[test]
fn newer_saves_and_duplicate_keys_are_refused() {
    let newer = SaveFile::from_parts(SAVE_CURRENT_VERSION + 1, vec![]).unwrap();
    assert_eq!(
        newer.check_version(),
        Err(SaveError::NewerVersion { found: SAVE_CURRENT_VERSION + 1, supported: SAVE_CURRENT_VERSION })
    );
    let dup = vec![("a".to_string(), "1".to_string()), ("a".to_string(), "2".to_string())];
    assert!(SaveFile::from_parts(1, dup).is_none());
}
