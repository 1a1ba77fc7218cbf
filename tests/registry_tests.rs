use catapult::registry::{AppEntry, AppRegistry, RegistryError};

fn s(x: &str) -> String {
    x.to_string()
}

fn aliases(r: &AppRegistry) -> Vec<String> {
    r.entries().iter().map(|e| e.alias.clone()).collect()
}

#[test]
fn default_alias_on_register_and_on_clear() {
    let mut r = AppRegistry::new();
    let path = s("C:\\Games\\foo.exe");
    r.add(path.clone(), s(""));
    assert_eq!(r.alias(&path).unwrap(), "foo");
    r.set_alias(&path, s("Foo Deluxe")).unwrap();
    assert_eq!(r.alias(&path).unwrap(), "Foo Deluxe");
    r.set_alias(&path, s("")).unwrap();
    assert_eq!(r.alias(&path).unwrap(), "foo");
}

#[test]
fn new_entry_starts_with_no_playtime() {
    let mut r = AppRegistry::new();
    r.add(s("C:\\a.exe"), s("A"));
    assert_eq!(r.get_playtime(&s("C:\\a.exe")), 0);
    assert_eq!(r.playtime(&s("C:\\a.exe")), Ok(0));
}

#[test]
fn playtime_is_sum_of_deltas() {
    let mut r = AppRegistry::new();
    let p = s("C:\\a.exe");
    r.add(p.clone(), s(""));
    let mut last = 0;
    for d in [5u64, 0, 1000, 250, 17] {
        r.add_playtime(&p, d);
        let now = r.get_playtime(&p);
        assert!(now >= last);
        last = now;
    }
    assert_eq!(r.get_playtime(&p), 1272);
}

#[test]
fn playtime_saturates() {
    let mut r = AppRegistry::new();
    let p = s("C:\\a.exe");
    r.add(p.clone(), s(""));
    r.add_playtime(&p, u64::MAX - 1);
    r.add_playtime(&p, 10);
    assert_eq!(r.get_playtime(&p), u64::MAX);
}

#[test]
fn playtime_of_unknown_path() {
    let mut r = AppRegistry::new();
    r.add_playtime(&s("C:\\ghost.exe"), 100);
    assert_eq!(r.len(), 0);
    assert_eq!(r.get_playtime(&s("C:\\ghost.exe")), 0);
    assert_eq!(r.playtime(&s("C:\\ghost.exe")), Err(RegistryError::NotFound));
}

#[test]
fn adding_same_path_keeps_one_entry() {
    let mut r = AppRegistry::new();
    let p = s("C:\\Games\\foo.exe");
    r.add(p.clone(), s(""));
    r.add_playtime(&p, 40);
    r.add(p.clone(), s("Renamed"));
    r.add(p.clone(), s(""));
    assert_eq!(r.len(), 1);
    assert_eq!(r.get_playtime(&p), 40);
    assert_eq!(r.alias(&p).unwrap(), "foo");
}

#[test]
fn entries_sorted_case_insensitively() {
    let mut r = AppRegistry::new();
    r.add(s("C:\\z.exe"), s("zeta"));
    r.add(s("C:\\a.exe"), s("Alpha"));
    r.add(s("C:\\b.exe"), s("beta"));
    assert_eq!(aliases(&r), vec!["Alpha", "beta", "zeta"]);
    r.set_alias(&s("C:\\z.exe"), s("AAA")).unwrap();
    assert_eq!(aliases(&r), vec!["AAA", "Alpha", "beta"]);
}

#[test]
fn equal_aliases_keep_insertion_order() {
    let mut r = AppRegistry::new();
    r.add(s("C:\\1.exe"), s("same"));
    r.add(s("C:\\2.exe"), s("SAME"));
    r.add(s("C:\\0.exe"), s("Same"));
    let paths: Vec<String> = r.entries().iter().map(|e| e.path.clone()).collect();
    assert_eq!(paths, vec!["C:\\1.exe", "C:\\2.exe", "C:\\0.exe"]);
}

#[test]
fn set_alias_of_unknown_path() {
    let mut r = AppRegistry::new();
    assert_eq!(r.set_alias(&s("C:\\x.exe"), s("x")), Err(RegistryError::NotFound));
    assert_eq!(r.len(), 0);
}

#[test]
fn remove_is_idempotent() {
    let mut r = AppRegistry::new();
    r.add(s("C:\\a.exe"), s(""));
    r.add(s("C:\\b.exe"), s(""));
    r.remove(&s("C:\\a.exe"));
    assert_eq!(r.len(), 1);
    r.remove(&s("C:\\a.exe"));
    assert_eq!(r.len(), 1);
    assert!(!r.contains(&s("C:\\a.exe")));
    assert!(r.contains(&s("C:\\b.exe")));
}

#[test]
fn reload_round_trip() {
    let mut r = AppRegistry::new();
    r.add(s("C:\\b.exe"), s("Bravo"));
    r.add(s("C:\\a.exe"), s("alpha"));
    r.add_playtime(&s("C:\\a.exe"), 1234);
    let stored: Vec<AppEntry> = r
        .entries()
        .iter()
        .map(|e| AppEntry { path: e.path.clone(), alias: e.alias.clone(), playtime_ms: e.playtime_ms })
        .collect();
    let back = AppRegistry::from_entries(stored);
    let a: Vec<(String, String, u64)> =
        r.entries().iter().map(|e| (e.path.clone(), e.alias.clone(), e.playtime_ms)).collect();
    let b: Vec<(String, String, u64)> =
        back.entries().iter().map(|e| (e.path.clone(), e.alias.clone(), e.playtime_ms)).collect();
    assert_eq!(a, b);
}

#[test]
fn loading_drops_repeated_paths_and_sorts() {
    let stored = vec![
        AppEntry { path: s("C:\\z.exe"), alias: s("zz"), playtime_ms: 1 },
        AppEntry { path: s("C:\\a.exe"), alias: s("aa"), playtime_ms: 2 },
        AppEntry { path: s("C:\\z.exe"), alias: s("other"), playtime_ms: 3 },
    ];
    let r = AppRegistry::from_entries(stored);
    assert_eq!(r.len(), 2);
    assert_eq!(aliases(&r), vec!["aa", "zz"]);
    assert_eq!(r.get_playtime(&s("C:\\z.exe")), 1);
}

#[test]
fn sort_by_given_keys() {
    let entries = vec![
        AppEntry { path: s("C:\\one.exe"), alias: s("x"), playtime_ms: 0 },
        AppEntry { path: s("C:\\two.exe"), alias: s("y"), playtime_ms: 0 },
        AppEntry { path: s("C:\\three.exe"), alias: s("z"), playtime_ms: 0 },
    ];
    let keys = vec![s("b"), s("a"), s("b")];
    let sorted = catapult::sorting::sort_by_keys(entries, keys);
    let paths: Vec<String> = sorted.iter().map(|e| e.path.clone()).collect();
    assert_eq!(paths, vec!["C:\\two.exe", "C:\\one.exe", "C:\\three.exe"]);
}
