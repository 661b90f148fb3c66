use std::collections::BTreeSet;

use fuckport::input::Target;
use fuckport::process::{join_cmd, port_map, reverse_port_map, ProcessCatalog, ProcessEntry, SocketEntry};

fn entry(pid: u32, name: &str, cmd: &[&str]) -> ProcessEntry {
    ProcessEntry {
        pid,
        name: name.to_string(),
        cmd: cmd.iter().map(|s| s.to_string()).collect(),
    }
}

fn sample() -> ProcessCatalog {
    let processes = vec![
        entry(10, "node", &["node", "server.js"]),
        entry(20, "python", &["python", "-m", "http.server", "8000"]),
        entry(5, "node", &["node", "worker.js"]),
        entry(99, "fuckport", &["fuckport", "node"]),
        entry(30, "Safari", &[]),
    ];
    let sockets = vec![
        SocketEntry { local_port: 3000, pids: vec![10] },
        SocketEntry { local_port: 8000, pids: vec![20, 99] },
        SocketEntry { local_port: 3000, pids: vec![5] },
        SocketEntry { local_port: 4000, pids: vec![] },
    ];
    ProcessCatalog::load(processes, &sockets, 99)
}

fn set(items: &[u32]) -> BTreeSet<u32> {
    items.iter().copied().collect()
}

#[test]
fn join_cmd_uses_spaces() {
    assert_eq!(join_cmd(&vec!["a".to_string(), "b c".to_string()]), "a b c");
    assert_eq!(join_cmd(&vec![]), "");
    assert_eq!(join_cmd(&vec!["solo".to_string()]), "solo");
}

#[test]
fn port_map_groups_sockets() {
    let sockets = vec![
        SocketEntry { local_port: 3000, pids: vec![10, 11] },
        SocketEntry { local_port: 3000, pids: vec![12] },
        SocketEntry { local_port: 53, pids: vec![] },
        SocketEntry { local_port: 80, pids: vec![10] },
    ];
    let map = port_map(&sockets);
    assert_eq!(map.len(), 2);
    assert_eq!(map[&3000], set(&[10, 11, 12]));
    assert_eq!(map[&80], set(&[10]));
    assert!(!map.contains_key(&53));
    let reverse = reverse_port_map(&map);
    assert_eq!(reverse.len(), 3);
    assert_eq!(reverse[&10], [80u16, 3000].into_iter().collect::<BTreeSet<u16>>());
    assert_eq!(reverse[&11], [3000u16].into_iter().collect::<BTreeSet<u16>>());
    assert_eq!(reverse[&12], [3000u16].into_iter().collect::<BTreeSet<u16>>());
}

#[test]
fn resolves_by_pid_port_and_name() {
    let catalog = sample();
    assert_eq!(catalog.current_pid(), 99);
    assert_eq!(catalog.resolve_targets(&[Target::Pid(20)], false), Ok(set(&[20])));
    assert_eq!(catalog.resolve_targets(&[Target::Port(3000)], false), Ok(set(&[5, 10])));
    assert_eq!(
        catalog.resolve_targets(&[Target::Name("node".to_string())], false),
        Ok(set(&[5, 10]))
    );
    assert_eq!(
        catalog.resolve_targets(&[Target::Name("http.server".to_string())], false),
        Ok(set(&[20]))
    );
    assert_eq!(
        catalog.resolve_targets(&[Target::Name("safari".to_string())], false),
        Ok(set(&[30]))
    );
    assert_eq!(
        catalog.resolve_targets(
            &[Target::Pid(20), Target::Port(3000), Target::Name("Safari".to_string())],
            false
        ),
        Ok(set(&[5, 10, 20, 30]))
    );
}

#[test]
fn never_resolves_the_current_process() {
    let catalog = sample();
    assert_eq!(
        catalog.resolve_targets(&[Target::Pid(99)], false),
        Err("no matching processes found".to_string())
    );
    // Port 8000 is held by 20 and by this process.
    assert_eq!(catalog.resolve_targets(&[Target::Port(8000)], false), Ok(set(&[20])));
}

#[test]
fn unknown_targets_give_no_matches_error() {
    let catalog = sample();
    assert_eq!(
        catalog.resolve_targets(&[Target::Pid(12345)], false),
        Err("no matching processes found".to_string())
    );
    assert_eq!(
        catalog.resolve_targets(&[Target::Port(4000)], false),
        Err("no matching processes found".to_string())
    );
    assert_eq!(
        catalog.resolve_targets(&[], false),
        Err("no matching processes found".to_string())
    );
    assert_eq!(
        catalog.resolve_targets(&[Target::Name("safari".to_string())], true),
        Err("no matching processes found".to_string())
    );
}

#[test]
fn records_are_sorted_by_name_then_pid() {
    let catalog = sample();
    let records = catalog.process_records();
    let order: Vec<(String, u32)> = records.iter().map(|r| (r.name.clone(), r.pid)).collect();
    assert_eq!(
        order,
        vec![
            ("Safari".to_string(), 30),
            ("fuckport".to_string(), 99),
            ("node".to_string(), 5),
            ("node".to_string(), 10),
            ("python".to_string(), 20),
        ]
    );
    assert_eq!(records[3].cmd, "node server.js");
    assert_eq!(records[3].ports, [3000u16].into_iter().collect::<BTreeSet<u16>>());
    assert!(records[0].ports.is_empty());
    assert_eq!(records[0].cmd, "");
    assert_eq!(records[4].ports, [8000u16].into_iter().collect::<BTreeSet<u16>>());
}

#[test]
fn empty_catalog_has_no_records() {
    let catalog = ProcessCatalog::load(vec![], &vec![], 1);
    assert!(catalog.process_records().is_empty());
}

#[test]
fn listing_is_the_same_on_every_call() {
    let catalog = sample();
    let first = catalog.process_records();
    let second = catalog.process_records();
    assert_eq!(first.len(), second.len());
    for (a, b) in first.iter().zip(second.iter()) {
        assert_eq!((a.pid, &a.name, &a.cmd, &a.ports), (b.pid, &b.name, &b.cmd, &b.ports));
    }
}
