use catapult::accountant::{settle_tick, tick};
use catapult::monitor::ProcessMonitor;
use catapult::registry::AppRegistry;
use catapult::tracker::{LaunchError, LaunchTracker};

fn s(x: &str) -> String {
    x.to_string()
}

#[test]
fn launch_records_session() {
    let mut t = LaunchTracker::new();
    let p = s("C:\\Games\\foo.exe");
    assert_eq!(t.launch(p.clone(), Ok(100)).unwrap(), 100);
    assert!(t.is_running(&p));
    assert_eq!(t.sessions().len(), 1);
    assert_eq!(t.sessions()[0].pid, 100);
}

#[test]
fn relaunch_replaces_session() {
    let mut t = LaunchTracker::new();
    let p = s("C:\\Games\\foo.exe");
    t.launch(p.clone(), Ok(100)).unwrap();
    t.launch(p.clone(), Ok(200)).unwrap();
    assert_eq!(t.sessions().len(), 1);
    assert_eq!(t.sessions()[0].pid, 200);
}

#[test]
fn failed_launch_changes_nothing() {
    let mut t = LaunchTracker::new();
    let p = s("C:\\Games\\foo.exe");
    t.launch(p.clone(), Ok(100)).unwrap();
    match t.launch(p.clone(), Err(s("permission denied"))) {
        Err(LaunchError::LaunchFailed(m)) => assert_eq!(m, "permission denied"),
        Ok(_) => panic!("launch reported success"),
    }
    assert_eq!(t.sessions().len(), 1);
    assert_eq!(t.sessions()[0].pid, 100);
}

#[test]
fn end_session_twice_is_same_as_once() {
    let mut t = LaunchTracker::new();
    t.launch(s("C:\\a.exe"), Ok(1)).unwrap();
    t.launch(s("C:\\b.exe"), Ok(2)).unwrap();
    t.end_session(&s("C:\\a.exe"));
    assert_eq!(t.sessions().len(), 1);
    t.end_session(&s("C:\\a.exe"));
    assert_eq!(t.sessions().len(), 1);
    assert!(!t.is_running(&s("C:\\a.exe")));
    assert!(t.is_running(&s("C:\\b.exe")));
}

#[test]
fn alive_then_dead_scenario() {
    let mut r = AppRegistry::new();
    let mut t = LaunchTracker::new();
    let p = s("C:\\Games\\foo.exe");
    r.add(p.clone(), s(""));
    t.launch(p.clone(), Ok(100)).unwrap();
    settle_tick(&mut r, &mut t, &vec![true], 1000);
    assert_eq!(r.get_playtime(&p), 1000);
    assert!(t.is_running(&p));
    settle_tick(&mut r, &mut t, &vec![false], 500);
    assert_eq!(r.get_playtime(&p), 1000);
    assert!(!t.is_running(&p));
}

#[test]
fn two_apps_accumulate_independently() {
    let mut r = AppRegistry::new();
    let mut t = LaunchTracker::new();
    let a = s("C:\\a.exe");
    let b = s("C:\\b.exe");
    r.add(a.clone(), s(""));
    r.add(b.clone(), s(""));
    t.launch(a.clone(), Ok(10)).unwrap();
    t.launch(b.clone(), Ok(20)).unwrap();
    settle_tick(&mut r, &mut t, &vec![true, true], 200);
    assert_eq!(r.get_playtime(&a), 200);
    assert_eq!(r.get_playtime(&b), 200);
    settle_tick(&mut r, &mut t, &vec![false, true], 200);
    assert_eq!(r.get_playtime(&a), 200);
    assert_eq!(r.get_playtime(&b), 400);
    assert!(!t.is_running(&a));
    assert!(t.is_running(&b));
}

#[test]
fn session_of_removed_entry_still_ends() {
    let mut r = AppRegistry::new();
    let mut t = LaunchTracker::new();
    let p = s("C:\\a.exe");
    r.add(p.clone(), s(""));
    t.launch(p.clone(), Ok(10)).unwrap();
    r.remove(&p);
    settle_tick(&mut r, &mut t, &vec![true], 300);
    assert_eq!(r.len(), 0);
    assert!(t.is_running(&p));
    settle_tick(&mut r, &mut t, &vec![false], 300);
    assert!(!t.is_running(&p));
}

#[test]
fn tick_order_does_not_matter() {
    let run = |first: bool| {
        let mut r = AppRegistry::new();
        let mut t = LaunchTracker::new();
        r.add(s("C:\\a.exe"), s(""));
        r.add(s("C:\\b.exe"), s(""));
        let flags = if first {
            t.launch(s("C:\\a.exe"), Ok(1)).unwrap();
            t.launch(s("C:\\b.exe"), Ok(2)).unwrap();
            vec![true, false]
        } else {
            t.launch(s("C:\\b.exe"), Ok(2)).unwrap();
            t.launch(s("C:\\a.exe"), Ok(1)).unwrap();
            vec![false, true]
        };
        settle_tick(&mut r, &mut t, &flags, 70);
        (
            r.get_playtime(&s("C:\\a.exe")),
            r.get_playtime(&s("C:\\b.exe")),
            t.is_running(&s("C:\\a.exe")),
            t.is_running(&s("C:\\b.exe")),
        )
    };
    assert_eq!(run(true), run(false));
    assert_eq!(run(true), (70, 0, true, false));
}

#[test]
fn tick_ends_session_of_unknown_process() {
    let mut m = ProcessMonitor::new();
    let mut r = AppRegistry::new();
    let mut t = LaunchTracker::new();
    let p = s("C:\\Games\\foo.exe");
    r.add(p.clone(), s(""));
    t.launch(p.clone(), Ok(u32::MAX)).unwrap();
    assert!(!m.is_alive(u32::MAX));
    assert_eq!(m.snapshots(), 0);
    tick(&mut m, &mut r, &mut t, 1000);
    assert_eq!(m.snapshots(), 1);
    assert_eq!(r.get_playtime(&p), 0);
    assert!(!t.is_running(&p));
}

#[test]
fn tick_with_no_sessions() {
    let mut m = ProcessMonitor::new();
    let mut r = AppRegistry::new();
    let mut t = LaunchTracker::new();
    r.add(s("C:\\a.exe"), s(""));
    tick(&mut m, &mut r, &mut t, 1000);
    assert_eq!(r.get_playtime(&s("C:\\a.exe")), 0);
}

#[test]
fn each_tick_takes_one_snapshot() {
    let mut m = ProcessMonitor::new();
    let mut r = AppRegistry::new();
    let mut t = LaunchTracker::new();
    tick(&mut m, &mut r, &mut t, 10);
    tick(&mut m, &mut r, &mut t, 10);
    assert_eq!(m.snapshots(), 2);
    m.refresh();
    assert_eq!(m.snapshots(), 3);
}
